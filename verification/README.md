# renderer

The integer core of a software renderer for a CSS-like scene, written in
Verus: every function in `src/` carries a contract that the verifier proves.

- `src/` is the library. Its modules cover the packed pixel format and the
  blue-noise dithering down to window-surface words (`color`, `dither`), the
  planning of full and incremental repaints and their split among worker
  threads (`frame`, `plan`), coverage masks with their blurs, dilation,
  erosion and strokes (`mask`), the buffers that move pixels between workers,
  the frame and the window surface (`present`), the caches of rendered masks
  (`cache`), pointer and keyboard interaction (`interaction`, `input`), the
  redraw schedule (`schedule`), native window glass (`glass`), GPU command
  batching (`gpu_batch`, `tree_order`) and the 8x8 bitmap font
  (`bitmap_text`). Public proof functions state the library's laws.
- `tests/` runs the library on concrete values.
- `app/` is ordinary Rust around the library: the process-wide stores, the
  worker threads, the conversion of window-system events and the hand-over
  of frames to the window surface.
