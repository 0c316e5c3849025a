//! Software renderer core: pixel formats, dithering, frame planning, alpha
//! masks and caches, all with machine-checked contracts.

pub mod bitmap_text;
pub mod cache;
pub mod color;
pub mod dither;
pub mod frame;
pub mod glass;
pub mod gpu_batch;
pub mod input;
pub mod interaction;
pub mod mask;
pub mod plan;
pub mod present;
pub mod schedule;
pub mod tree_order;
