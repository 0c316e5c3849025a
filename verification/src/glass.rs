//! Native window glass: what each platform needs, the tint word Windows
//! takes, the overlay image macOS presents, and the decisions that keep the
//! window's glass in step with the scene.

use vstd::prelude::*;

use crate::color::{Color, alpha_of};
use crate::dither::{dithered_word, to_softbuffer_rgb_blue_noise};

verus! {

/// The platform the window runs on, as far as glass is concerned.
#[derive(Clone, Copy, Debug, PartialEq, Eq, Structural)]
pub enum Platform {
    Windows,
    MacOs,
    Other,
}

/// Whether a glass-capable window must be created transparent: only the
/// Windows backend needs it.
pub fn requires_initial_transparency(platform: Platform) -> (r: bool)
    ensures
        r == (platform == Platform::Windows),
{
    match platform {
        Platform::Windows => true,
        _ => false,
    }
}

/// Whether frames go through the platform's own presenter: only on macOS.
pub fn uses_custom_presenter(platform: Platform) -> (r: bool)
    ensures
        r == (platform == Platform::MacOs),
{
    match platform {
        Platform::MacOs => true,
        _ => false,
    }
}

/// Whether a window with this configuration starts transparent for glass.
pub fn window_uses_native_glass(glass_capable: bool, platform: Platform) -> (r: bool)
    ensures
        r == (glass_capable && platform == Platform::Windows),
{
    glass_capable && requires_initial_transparency(platform)
}

/// The tint word of the Windows accent API: red in the low byte, then
/// green, blue and alpha.
pub open spec fn windows_tint_word(tint: Color) -> int {
    tint.r + tint.g * 0x100 + tint.b * 0x1_0000 + tint.a * 0x100_0000
}

/// Packs a tint for the Windows accent API.
pub fn packed_windows_tint(tint: Color) -> (r: u32)
    ensures
        r as int == windows_tint_word(tint),
{
    let r = tint.r as u32;
    let g = tint.g as u32;
    let b = tint.b as u32;
    let a = tint.a as u32;
    let word = r | (g << 8) | (b << 16) | (a << 24);
    assert(word == r + g * 0x100 + b * 0x1_0000 + a * 0x100_0000) by (bit_vector)
        requires
            r < 256,
            g < 256,
            b < 256,
            a < 256,
            word == r | (g << 8) | (b << 16) | (a << 24),
    ;
    word
}

/// The overlay word of a frame pixel at `(column, row)`: clear for a
/// transparent pixel, else the dithered colour made opaque.
pub open spec fn overlay_word(pixel: u32, column: int, row: int, tile: Seq<u8>) -> int {
    if alpha_of(pixel) == 0 {
        0
    } else {
        0xff00_0000 + dithered_word(pixel, column, row, tile)
    }
}

/// The overlay word of a frame pixel at `(column, row)`.
pub fn overlay_pixel(pixel: u32, column: usize, row: usize, tile: &[u8; 64]) -> (r: u32)
    requires
        column <= usize::MAX - 4,
        row <= usize::MAX - 4,
    ensures
        r as int == overlay_word(pixel, column as int, row as int, tile@),
{
    if crate::color::is_transparent(pixel) {
        0
    } else {
        let dithered = to_softbuffer_rgb_blue_noise(pixel, column, row, tile);
        proof {
            crate::dither::lemma_dithered_word_fits(pixel, column as int, row as int, tile@);
        }
        0xff00_0000u32 + dithered
    }
}

/// The pixels of the overlay image that the macOS presenter shows over the
/// glass, row by row.
pub fn glass_overlay_pixels(buffer: &[u32], width: usize, height: usize, tile: &[u8; 64]) -> (pixels: Vec<u32>)
    requires
        buffer@.len() == width * height,
        width <= usize::MAX - 4,
        height <= usize::MAX - 4,
    ensures
        pixels@.len() == width * height,
        forall|x: int, y: int|
            0 <= x < width && 0 <= y < height ==> #[trigger] pixels@[x + y * width] as int == overlay_word(
                buffer@[x + y * width],
                x,
                y,
                tile@,
            ),
{
    let buffer_len = buffer.len();
    let mut pixels: Vec<u32> = vec![0u32; buffer_len];
    let mut row: usize = 0;
    while row < height
        invariant
            0 <= row <= height,
            buffer@.len() == width * height,
            buffer_len == buffer@.len(),
            width <= usize::MAX - 4,
            height <= usize::MAX - 4,
            pixels@.len() == width * height,
            forall|x: int, y: int|
                0 <= x < width && 0 <= y < row ==> #[trigger] pixels@[x + y * width] as int == overlay_word(
                    buffer@[x + y * width],
                    x,
                    y,
                    tile@,
                ),
        decreases height - row,
    {
        let mut column: usize = 0;
        while column < width
            invariant
                0 <= row < height,
                0 <= column <= width,
                buffer@.len() == width * height,
                buffer_len == buffer@.len(),
                width <= usize::MAX - 4,
                height <= usize::MAX - 4,
                pixels@.len() == width * height,
                forall|x: int, y: int|
                    0 <= x < width && 0 <= y < height && (y < row || (y == row && x < column)) ==> #[trigger] pixels@[x
                        + y * width] as int == overlay_word(buffer@[x + y * width], x, y, tile@),
            decreases width - column,
        {
            proof {
                crate::mask::lemma_grid_index(column as int, row as int, width as int, height as int);
            }
            let index = column + row * width;
            let word = overlay_pixel(buffer[index], column, row, tile);
            let ghost before = pixels@;
            pixels.set(index, word);
            proof {
                assert forall|x: int, y: int|
                    0 <= x < width && 0 <= y < height && (y < row || (y == row && x < column + 1)) implies #[trigger] pixels@[x
                        + y * width] as int == overlay_word(buffer@[x + y * width], x, y, tile@) by {
                    if x != column || y != row {
                        crate::mask::lemma_grid_index_injective(x, y, column as int, row as int, width as int, height as int);
                        crate::mask::lemma_grid_index(x, y, width as int, height as int);
                        assert(pixels@[x + y * width] == before[x + y * width]);
                    }
                }
            }
            column = column + 1;
        }
        row = row + 1;
    }
    pixels
}

/// How the renderer paints glass: the platform shows it, or the renderer
/// paints a stand-in.
#[derive(Clone, Copy, Debug, PartialEq, Eq, Structural)]
pub enum GlassRenderMode {
    Native,
    Fallback,
}

/// Native glass while the platform's glass is on.
pub fn glass_render_mode(native_glass_active: bool) -> (r: GlassRenderMode)
    ensures
        r == (if native_glass_active { GlassRenderMode::Native } else { GlassRenderMode::Fallback }),
{
    if native_glass_active {
        GlassRenderMode::Native
    } else {
        GlassRenderMode::Fallback
    }
}

/// The tint used when the scene asks for glass without one.
pub fn default_native_glass_tint() -> (c: Color)
    ensures
        c == (Color { r: 245, g: 250, b: 255, a: 128 }),
{
    Color::rgba(245, 250, 255, 128)
}

/// What keeping the window's glass in step with the scene calls for.
#[derive(Clone, Copy, Debug, PartialEq, Eq, Structural)]
pub enum GlassSync {
    /// The scene wants no glass: take it off.
    Clear,
    /// The scene wants glass but the window was not made glass-capable.
    NotCapable,
    /// The glass is on with this tint already.
    Keep,
    /// Put glass on with this tint.
    Apply(Color),
}

/// Decides what the window's glass needs for a scene.
pub fn plan_glass_sync(
    requires_native_glass: bool,
    glass_capable: bool,
    preferred_tint: Option<Color>,
    native_glass_active: bool,
    native_glass_tint: Option<Color>,
) -> (r: GlassSync)
    ensures
        ({
            let tint = match preferred_tint {
                Some(t) => t,
                None => Color { r: 245, g: 250, b: 255, a: 128 },
            };
            r == if !requires_native_glass {
                GlassSync::Clear
            } else if !glass_capable {
                GlassSync::NotCapable
            } else if native_glass_active && native_glass_tint == Some(tint) {
                GlassSync::Keep
            } else {
                GlassSync::Apply(tint)
            }
        }),
{
    if !requires_native_glass {
        return GlassSync::Clear;
    }
    if !glass_capable {
        return GlassSync::NotCapable;
    }
    let tint = match preferred_tint {
        Some(t) => t,
        None => default_native_glass_tint(),
    };
    let same = match native_glass_tint {
        Some(current) => current.r == tint.r && current.g == tint.g && current.b == tint.b && current.a
            == tint.a,
        None => false,
    };
    if native_glass_active && same {
        GlassSync::Keep
    } else {
        GlassSync::Apply(tint)
    }
}

/// What applying glass came to.
#[derive(Clone, Copy, Debug, PartialEq, Eq, Structural)]
pub enum GlassApplyResult {
    Applied,
    Unavailable,
    Failed,
}

/// The glass state after applying a tint: on with that tint when it was
/// applied, off otherwise; the window is transparent exactly when it is on.
pub fn glass_after_apply(result: GlassApplyResult, tint: Color) -> (r: (bool, Option<Color>))
    ensures
        r == (if result == GlassApplyResult::Applied { (true, Some(tint)) } else { (false, None) }),
{
    match result {
        GlassApplyResult::Applied => (true, Some(tint)),
        _ => (false, None),
    }
}

} // verus!
