//! Moving pixels between buffers: resizing the frame buffer, clearing
//! rectangles, stitching the bands and jobs of render workers back into the
//! frame, the pool of worker buffers, and converting the frame into a window
//! surface together with the damage that a translucent window presents.

use vstd::prelude::*;

use crate::color::{Color, alpha_of, is_transparent, pack_rgb, packed_rgb};
use crate::dither::{dithered_word, to_softbuffer_rgb_blue_noise};
use crate::frame::{BufferRows, max_int, min_int};
use crate::mask::{band_size, band_workers, blur_bands};
use crate::plan::{PixelRect, pixel_bounds, pixel_bounds_spec};

verus! {

// ---------------------------------------------------------------------------
// The frame buffer.
// ---------------------------------------------------------------------------

/// Resizes the frame buffer to the window size (each side at least 1).
/// A change of size keeps the pixels that fit and fills new ones with the
/// clear colour; the same size leaves everything as it is.
pub fn resize_buffer(
    buffer: &mut Vec<u32>,
    width: &mut usize,
    height: &mut usize,
    next_width: usize,
    next_height: usize,
    clear_color: Color,
)
    requires
        (if next_width > 1 { next_width as int } else { 1 }) * (if next_height > 1 {
            next_height as int
        } else {
            1
        }) <= usize::MAX,
    ensures
        ({
            let w = if next_width > 1 { next_width as int } else { 1 };
            let h = if next_height > 1 { next_height as int } else { 1 };
            if *old(width) == w && *old(height) == h {
                &&& *final(width) == *old(width)
                &&& *final(height) == *old(height)
                &&& final(buffer)@ == old(buffer)@
            } else {
                &&& *final(width) == w
                &&& *final(height) == h
                &&& final(buffer)@.len() == w * h
                &&& forall|i: int|
                    0 <= i < w * h ==> #[trigger] final(buffer)@[i] == if i < old(buffer)@.len() {
                        old(buffer)@[i] as int
                    } else {
                        packed_rgb(clear_color)
                    }
            }
        }),
{
    let w = if next_width > 1 { next_width } else { 1 };
    let h = if next_height > 1 { next_height } else { 1 };
    if *width == w && *height == h {
        return;
    }
    *width = w;
    *height = h;
    let clear = pack_rgb(clear_color);
    let ghost before = buffer@;
    buffer.resize(w * h, clear);
    proof {
        assert forall|i: int| 0 <= i < w * h implies #[trigger] buffer@[i] == if i < before.len() {
            before[i] as int
        } else {
            packed_rgb(clear_color)
        } by {
            if i < before.len() && w * h > before.len() {
                assert(buffer@.subrange(0, before.len() as int)[i] == before[i]);
            } else if i < before.len() {
                assert(buffer@ == before.subrange(0, (w * h) as int));
            }
        }
    }
}

/// Paints the part of a rectangle inside the frame with a packed colour, in
/// a buffer that holds the row window `rows` of a `width` x `height` frame.
pub fn clear_clip_packed(
    buffer: &mut [u32],
    width: usize,
    height: usize,
    clip: PixelRect,
    clear: u32,
    rows: BufferRows,
)
    requires
        width <= i32::MAX,
        height <= i32::MAX,
        rows.start <= rows.end,
        old(buffer)@.len() == width * (min_int(rows.end as int, height as int) - rows.start),
        rows.start <= height,
    ensures
        final(buffer)@.len() == old(buffer)@.len(),
        forall|x: int, y: int|
            0 <= x < width && rows.start <= y < min_int(rows.end as int, height as int)
                ==> #[trigger] final(buffer)@[(y - rows.start) * width + x] == if (match pixel_bounds_spec(clip, width as int, height as int) {
                Some(b) => b.spec_contains(x, y),
                None => false,
            }) {
                clear
            } else {
                old(buffer)@[(y - rows.start) * width + x]
            },
{
    let ghost original = buffer@;
    let ghost top = min_int(rows.end as int, height as int);
    let buffer_len = buffer.len();
    let bounds = match pixel_bounds(clip, width, height) {
        Some(b) => b,
        None => {
            return;
        },
    };
    let x0 = bounds.x0 as usize;
    let x1 = bounds.x1 as usize;
    let row_start = if (bounds.y0 as usize) > rows.start { bounds.y0 as usize } else { rows.start };
    let row_end = if (bounds.y1 as usize) < rows.end { bounds.y1 as usize } else { rows.end };
    let mut y = row_start;
    while y < row_end
        invariant
            0 <= x0 < x1 <= width,
            0 <= bounds.y0 < bounds.y1 <= height,
            width <= i32::MAX,
            height <= i32::MAX,
            rows.start <= rows.end,
            rows.start <= height,
            top == min_int(rows.end as int, height as int),
            x0 == bounds.x0,
            x1 == bounds.x1,
            row_start == if bounds.y0 > rows.start { bounds.y0 as int } else { rows.start as int },
            row_end == if bounds.y1 < rows.end { bounds.y1 as int } else { rows.end as int },
            row_start <= y,
            y <= row_end || row_start >= row_end,
            pixel_bounds_spec(clip, width as int, height as int) == Some(bounds),
            original.len() == width * (top - rows.start),
            original.len() == buffer_len,
            buffer@.len() == original.len(),
            forall|xx: int, yy: int|
                0 <= xx < width && rows.start <= yy < top ==> #[trigger] buffer@[(yy - rows.start) * width
                    + xx] == if bounds.spec_contains(xx, yy) && yy < y {
                    clear
                } else {
                    original[(yy - rows.start) * width + xx]
                },
        decreases row_end - y,
    {
        let local_row = y - rows.start;
        proof {
            assert(local_row * width + width <= width * (top - rows.start)) by (nonlinear_arith)
                requires
                    local_row < top - rows.start,
                    0 <= local_row,
            ;
        }
        let local_row_start = local_row * width;
        let mut x = x0;
        while x < x1
            invariant
                0 <= x0 <= x <= x1 <= width,
                0 <= bounds.y0 <= y < bounds.y1 <= height,
                rows.start <= y < rows.end,
                y < top,
                top == min_int(rows.end as int, height as int),
                local_row == y - rows.start,
                local_row_start == local_row * width,
                local_row_start + width <= original.len(),
                x0 == bounds.x0,
                x1 == bounds.x1,
                original.len() == width * (top - rows.start),
                buffer@.len() == original.len(),
                forall|xx: int, yy: int|
                    0 <= xx < width && rows.start <= yy < top ==> #[trigger] buffer@[(yy - rows.start) * width
                        + xx] == if bounds.spec_contains(xx, yy) && (yy < y || (yy == y && xx < x)) {
                        clear
                    } else {
                        original[(yy - rows.start) * width + xx]
                    },
            decreases x1 - x,
        {
            let ghost before = buffer@;
            buffer[local_row_start + x] = clear;
            proof {
                assert forall|xx: int, yy: int|
                    0 <= xx < width && rows.start <= yy < top implies #[trigger] buffer@[(yy - rows.start)
                        * width + xx] == if bounds.spec_contains(xx, yy) && (yy < y || (yy == y && xx < x
                        + 1)) {
                        clear
                    } else {
                        original[(yy - rows.start) * width + xx]
                    } by {
                    let ly = yy - rows.start;
                    assert(0 <= ly * width + xx < width * (top - rows.start)) by (nonlinear_arith)
                        requires
                            0 <= ly < top - rows.start,
                            0 <= xx < width,
                    ;
                    if yy != y || xx != x {
                        assert(ly * width + xx != local_row * width + x) by (nonlinear_arith)
                            requires
                                0 <= xx < width,
                                0 <= x < width,
                                0 <= ly,
                                0 <= local_row,
                                yy != y || xx != x,
                                ly == yy - rows.start,
                                local_row == y - rows.start,
                        ;
                        assert(buffer@[ly * width + xx] == before[ly * width + xx]);
                    }
                }
            }
            x = x + 1;
        }
        y = y + 1;
    }
}

/// Whether frame row `y` of a window starting at row `first_row` holds the
/// buffer word `i` inside its columns `x0..x1`.
pub open spec fn row_span_holds(i: int, y: int, first_row: int, width: int, x0: int, x1: int) -> bool {
    (y - first_row) * width + x0 <= i < (y - first_row) * width + x1
}

/// The frame rows of `y0..y1` that lie in the row window of the buffer.
pub open spec fn span_row_start(y0: int, rows: BufferRows) -> int {
    max_int(y0, rows.start as int)
}

/// The end of the frame rows of `y0..y1` that lie in the row window.
pub open spec fn span_row_end(y1: int, rows: BufferRows) -> int {
    min_int(y1, rows.end as int)
}

/// Whether the buffer word `i` lies in the span `x0..x1` of one of the rows
/// `y0..y1` that the row window holds.
pub open spec fn opaque_span_covers(
    i: int,
    width: int,
    x0: int,
    x1: int,
    y0: int,
    y1: int,
    rows: BufferRows,
) -> bool {
    exists|y: int|
        span_row_start(y0, rows) <= y < span_row_end(y1, rows) && #[trigger] row_span_holds(
            i,
            y,
            rows.start as int,
            width,
            x0,
            x1,
        )
}

/// Sets the words `start..end` of a buffer.
fn fill_words(buffer: &mut [u32], start: usize, end: usize, value: u32)
    requires
        start <= end <= old(buffer)@.len(),
    ensures
        final(buffer)@.len() == old(buffer)@.len(),
        forall|k: int|
            0 <= k < old(buffer)@.len() ==> #[trigger] final(buffer)@[k] == if start <= k < end {
                value
            } else {
                old(buffer)@[k]
            },
{
    let ghost original = buffer@;
    let mut k = start;
    while k < end
        invariant
            start <= k <= end <= original.len(),
            buffer@.len() == original.len(),
            forall|j: int|
                0 <= j < original.len() ==> #[trigger] buffer@[j] == if start <= j < k {
                    value
                } else {
                    original[j]
                },
        decreases end - k,
    {
        buffer[k] = value;
        k = k + 1;
    }
}

/// Fills the columns `x0..x1` of the frame rows `y0..y1` with an opaque
/// packed colour, in a buffer of `width` words per row that holds the row
/// window `rows`; rows outside the window are skipped. An empty span
/// changes nothing.
pub fn fill_opaque_span_rows(
    buffer: &mut [u32],
    width: usize,
    x0: i32,
    x1: i32,
    y0: i32,
    y1: i32,
    packed: u32,
    rows: BufferRows,
)
    requires
        x0 < x1 && y0 < y1 ==> {
            &&& 0 <= x0
            &&& 0 <= y0
            &&& span_row_end(y1 as int, rows) <= span_row_start(y0 as int, rows) || (span_row_end(
                y1 as int,
                rows,
            ) - 1 - rows.start) * width + x1 <= old(buffer)@.len()
        },
    ensures
        final(buffer)@.len() == old(buffer)@.len(),
        forall|i: int|
            0 <= i < old(buffer)@.len() ==> #[trigger] final(buffer)@[i] == if x0 < x1
                && opaque_span_covers(i, width as int, x0 as int, x1 as int, y0 as int, y1 as int, rows) {
                packed
            } else {
                old(buffer)@[i]
            },
{
    if x0 >= x1 || y0 >= y1 {
        return;
    }
    let ghost original = buffer@;
    let buffer_len = buffer.len();
    let ghost lo = span_row_start(y0 as int, rows);
    let ghost hi = span_row_end(y1 as int, rows);
    let first = if (y0 as usize) > rows.start { y0 as usize } else { rows.start };
    let last = if (y1 as usize) < rows.end { y1 as usize } else { rows.end };
    let left = x0 as usize;
    let right = x1 as usize;
    let mut y = first;
    while y < last
        invariant
            first == lo,
            last == hi,
            lo <= y,
            y <= hi || y == lo,
            0 <= left < right,
            left == x0,
            right == x1,
            0 <= y0 < y1,
            lo == max_int(y0 as int, rows.start as int),
            hi == min_int(y1 as int, rows.end as int),
            hi <= lo || (hi - 1 - rows.start) * width + x1 <= original.len(),
            original.len() <= usize::MAX,
            buffer@.len() == original.len(),
            forall|i: int|
                0 <= i < original.len() ==> #[trigger] buffer@[i] == if exists|yy: int|
                    lo <= yy < y && #[trigger] row_span_holds(
                        i,
                        yy,
                        rows.start as int,
                        width as int,
                        x0 as int,
                        x1 as int,
                    ) {
                    packed
                } else {
                    original[i]
                },
        decreases last - y,
    {
        let local_row = y - rows.start;
        proof {
            assert(local_row * width + x1 <= (hi - 1 - rows.start) * width + x1) by (nonlinear_arith)
                requires
                    0 <= local_row <= hi - 1 - rows.start,
                    0 <= width,
            ;
        }
        let row_start = local_row * width;
        let ghost before = buffer@;
        fill_words(buffer, row_start + left, row_start + right, packed);
        proof {
            assert forall|i: int| 0 <= i < original.len() implies #[trigger] buffer@[i] == if exists|
                yy: int,
            |
                lo <= yy < y + 1 && #[trigger] row_span_holds(
                    i,
                    yy,
                    rows.start as int,
                    width as int,
                    x0 as int,
                    x1 as int,
                ) {
                packed
            } else {
                original[i]
            } by {
                let here = row_span_holds(i, y as int, rows.start as int, width as int, x0 as int, x1 as int);
                let earlier = exists|yy: int|
                    lo <= yy < y && #[trigger] row_span_holds(
                        i,
                        yy,
                        rows.start as int,
                        width as int,
                        x0 as int,
                        x1 as int,
                    );
                if here {
                    assert(lo <= y < y + 1);
                } else if earlier {
                    let w = choose|yy: int|
                        lo <= yy < y && #[trigger] row_span_holds(
                            i,
                            yy,
                            rows.start as int,
                            width as int,
                            x0 as int,
                            x1 as int,
                        );
                    assert(lo <= w < y + 1);
                } else {
                    assert forall|yy: int| lo <= yy < y + 1 implies !#[trigger] row_span_holds(
                        i,
                        yy,
                        rows.start as int,
                        width as int,
                        x0 as int,
                        x1 as int,
                    ) by {
                        if yy == y {
                        } else {
                            assert(!(lo <= yy < y && row_span_holds(
                                i,
                                yy,
                                rows.start as int,
                                width as int,
                                x0 as int,
                                x1 as int,
                            )));
                        }
                    }
                }
            }
        }
        y = y + 1;
    }
    proof {
        assert forall|i: int| 0 <= i < original.len() implies #[trigger] buffer@[i] == if x0 < x1
            && opaque_span_covers(i, width as int, x0 as int, x1 as int, y0 as int, y1 as int, rows) {
            packed
        } else {
            original[i]
        } by {
            let covered = opaque_span_covers(i, width as int, x0 as int, x1 as int, y0 as int, y1 as int, rows);
            if covered {
                let w = choose|yy: int|
                    span_row_start(y0 as int, rows) <= yy < span_row_end(y1 as int, rows) && #[trigger] row_span_holds(
                        i,
                        yy,
                        rows.start as int,
                        width as int,
                        x0 as int,
                        x1 as int,
                    );
                assert(lo <= w < y);
            } else if exists|yy: int|
                lo <= yy < y && #[trigger] row_span_holds(
                    i,
                    yy,
                    rows.start as int,
                    width as int,
                    x0 as int,
                    x1 as int,
                ) {
                let w = choose|yy: int|
                    lo <= yy < y && #[trigger] row_span_holds(
                        i,
                        yy,
                        rows.start as int,
                        width as int,
                        x0 as int,
                        x1 as int,
                    );
                assert(span_row_start(y0 as int, rows) <= w < span_row_end(y1 as int, rows));
            }
        }
    }
}

// ---------------------------------------------------------------------------
// The window surface.
// ---------------------------------------------------------------------------

/// The surface word for a frame pixel at `(column, row)`: the clear colour
/// for a transparent pixel (unless transparency is kept, for a translucent
/// window), else the pixel dithered to 8 bits per channel.
pub open spec fn surface_word(pixel: u32, column: int, row: int, clear: u32, preserve_transparency: bool, tile: Seq<u8>) -> int {
    if alpha_of(pixel) == 0 && !preserve_transparency {
        clear as int
    } else {
        dithered_word(pixel, column, row, tile)
    }
}

/// The surface word for a frame pixel at `(column, row)`.
pub fn surface_pixel(
    pixel: u32,
    column: usize,
    row: usize,
    clear: u32,
    preserve_transparency: bool,
    tile: &[u8; 64],
) -> (r: u32)
    requires
        column <= usize::MAX - 4,
        row <= usize::MAX - 4,
    ensures
        r as int == surface_word(pixel, column as int, row as int, clear, preserve_transparency, tile@),
{
    if is_transparent(pixel) && !preserve_transparency {
        clear
    } else {
        to_softbuffer_rgb_blue_noise(pixel, column, row, tile)
    }
}

/// Copies the frame into a window surface of maybe another size: pixels
/// both have are converted with `surface_pixel`, the rest of the surface
/// gets the clear colour.
pub fn copy_render_buffer_into_surface(
    target: &mut [u32],
    target_width: usize,
    target_height: usize,
    source: &[u32],
    source_width: usize,
    source_height: usize,
    clear: u32,
    preserve_transparency: bool,
    tile: &[u8; 64],
)
    requires
        old(target)@.len() == target_width * target_height,
        source@.len() == source_width * source_height,
        target_width <= usize::MAX - 4,
        target_height <= usize::MAX - 4,
    ensures
        final(target)@.len() == target_width * target_height,
        forall|x: int, y: int|
            0 <= x < target_width && 0 <= y < target_height ==> #[trigger] final(target)@[x + y * target_width]
                as int == if x < source_width && y < source_height {
                surface_word(
                    source@[x + y * source_width],
                    x,
                    y,
                    clear,
                    preserve_transparency,
                    tile@,
                )
            } else {
                clear as int
            },
{
    let target_len = target.len();
    let source_len = source.len();
    let ghost tw = target_width as int;
    let ghost th = target_height as int;
    if target_width != source_width || target_height != source_height {
        let mut i: usize = 0;
        while i < target_len
            invariant
                0 <= i <= target_len,
                target_len == target@.len(),
                forall|k: int| 0 <= k < i ==> #[trigger] target@[k] == clear,
            decreases target_len - i,
        {
            target[i] = clear;
            i = i + 1;
        }
    }
    let copy_width = if source_width < target_width { source_width } else { target_width };
    let copy_height = if source_height < target_height { source_height } else { target_height };
    let same_size = target_width == source_width && target_height == source_height;
    proof {
        if !same_size {
            assert forall|x: int, y: int|
                0 <= x < target_width && 0 <= y < target_height implies #[trigger] target@[x + y
                    * target_width] == clear by {
                crate::mask::lemma_grid_index(x, y, target_width as int, target_height as int);
            }
        }
    }
    let mut row: usize = 0;
    while row < copy_height
        invariant
            0 <= row <= copy_height,
            copy_width == min_int(source_width as int, target_width as int),
            copy_height == min_int(source_height as int, target_height as int),
            same_size == (target_width == source_width && target_height == source_height),
            target@.len() == target_width * target_height,
            target_len == target@.len(),
            source@.len() == source_width * source_height,
            source_len == source@.len(),
            target_width <= usize::MAX - 4,
            target_height <= usize::MAX - 4,
            forall|x: int, y: int|
                0 <= x < target_width && 0 <= y < target_height ==> #[trigger] target@[x + y * target_width]
                    as int == if x < source_width && y < source_height && y < row {
                    surface_word(source@[x + y * source_width], x, y, clear, preserve_transparency, tile@)
                } else if same_size {
                    target@[x + y * target_width] as int
                } else {
                    clear as int
                },
        decreases copy_height - row,
    {
        let mut column: usize = 0;
        while column < copy_width
            invariant
                0 <= column <= copy_width,
                0 <= row < copy_height,
                copy_width == min_int(source_width as int, target_width as int),
                copy_height == min_int(source_height as int, target_height as int),
                same_size == (target_width == source_width && target_height == source_height),
                target@.len() == target_width * target_height,
                target_len == target@.len(),
                source@.len() == source_width * source_height,
                source_len == source@.len(),
                target_width <= usize::MAX - 4,
                target_height <= usize::MAX - 4,
                forall|x: int, y: int|
                    0 <= x < target_width && 0 <= y < target_height ==> #[trigger] target@[x + y
                        * target_width] as int == if x < source_width && y < source_height && (y < row || (y
                        == row && x < column)) {
                        surface_word(source@[x + y * source_width], x, y, clear, preserve_transparency, tile@)
                    } else if same_size {
                        target@[x + y * target_width] as int
                    } else {
                        clear as int
                    },
            decreases copy_width - column,
        {
            proof {
                assert(row * target_width + column < target_width * target_height) by (nonlinear_arith)
                    requires
                        row < target_height,
                        column < target_width,
                ;
                assert(row * source_width + column < source_width * source_height) by (nonlinear_arith)
                    requires
                        row < source_height,
                        column < source_width,
                ;
            }
            let source_index = row * source_width + column;
            let target_index = row * target_width + column;
            let value = surface_pixel(source[source_index], column, row, clear, preserve_transparency, tile);
            let ghost before = target@;
            target[target_index] = value;
            proof {
                assert forall|x: int, y: int|
                    0 <= x < target_width && 0 <= y < target_height implies #[trigger] target@[x + y
                        * target_width] as int == if x < source_width && y < source_height && (y < row || (y
                        == row && x < column + 1)) {
                        surface_word(source@[x + y * source_width], x, y, clear, preserve_transparency, tile@)
                    } else if same_size {
                        target@[x + y * target_width] as int
                    } else {
                        clear as int
                    } by {
                    crate::mask::lemma_grid_index(x, y, target_width as int, target_height as int);
                    if x != column || y != row {
                        crate::mask::lemma_grid_index_injective(
                            x,
                            y,
                            column as int,
                            row as int,
                            target_width as int,
                            target_height as int,
                        );
                        assert(target@[x + y * target_width] == before[x + y * target_width]);
                    } else {
                        assert(x + y * target_width == target_index);
                        assert(x + y * source_width == source_index);
                    }
                }
            }
            column = column + 1;
        }
        row = row + 1;
    }
    proof {
        assert forall|x: int, y: int|
            0 <= x < target_width && 0 <= y < target_height implies #[trigger] target@[x + y * target_width]
                as int == if x < source_width && y < source_height {
                surface_word(source@[x + y * source_width], x, y, clear, preserve_transparency, tile@)
            } else {
                clear as int
            } by {
            if !(x < source_width && y < source_height) {
                assert(!same_size);
            }
        }
    }
}

// ---------------------------------------------------------------------------
// Damage of a translucent window.
// ---------------------------------------------------------------------------

/// Rows `y0..y1` of the columns `x0..x1` that hold visible pixels.
#[derive(Clone, Copy, Debug, PartialEq, Eq, Structural)]
pub struct DamageRun {
    pub x0: usize,
    pub x1: usize,
    pub y0: usize,
    pub y1: usize,
}

/// A damaged rectangle of the surface: its corner and its (positive) size.
#[derive(Clone, Copy, Debug, PartialEq, Eq, Structural)]
pub struct DamageRect {
    pub x: u32,
    pub y: u32,
    pub width: u32,
    pub height: u32,
}

/// Records the visible run `x0..x1` of `row`: it extends the last run down
/// by one row when that run has the same columns and ends just above;
/// otherwise it starts a new run.
pub open spec fn add_run(runs: Seq<DamageRun>, x0: int, x1: int, row: int) -> Seq<DamageRun> {
    if runs.len() > 0 && runs.last().x0 == x0 && runs.last().x1 == x1 && runs.last().y1 == row {
        runs.update(runs.len() - 1, DamageRun { y1: (row + 1) as usize, ..runs.last() })
    } else {
        runs.push(DamageRun { x0: x0 as usize, x1: x1 as usize, y0: row as usize, y1: (row + 1) as usize })
    }
}

/// The pixel at `(x, y)` of a `width`-wide frame is transparent.
pub open spec fn transparent_at(source: Seq<u32>, width: int, x: int, y: int) -> bool {
    alpha_of(source[y * width + x]) == 0
}

/// The runs after scanning `row` from column `column` to `copy_width`, with
/// a visible run open since `open` (if any).
pub open spec fn scan_row(
    source: Seq<u32>,
    width: int,
    copy_width: int,
    row: int,
    column: int,
    open: Option<int>,
    runs: Seq<DamageRun>,
) -> Seq<DamageRun>
    decreases copy_width - column,
{
    if column >= copy_width {
        match open {
            Some(x0) => add_run(runs, x0, copy_width, row),
            None => runs,
        }
    } else if transparent_at(source, width, column, row) {
        match open {
            Some(x0) => scan_row(source, width, copy_width, row, column + 1, None, add_run(runs, x0, column, row)),
            None => scan_row(source, width, copy_width, row, column + 1, None, runs),
        }
    } else {
        match open {
            Some(x0) => scan_row(source, width, copy_width, row, column + 1, Some(x0), runs),
            None => scan_row(source, width, copy_width, row, column + 1, Some(column), runs),
        }
    }
}

/// The visible runs of the first `rows` rows, top to bottom, left to right.
pub open spec fn damage_runs(source: Seq<u32>, width: int, copy_width: int, rows: int) -> Seq<DamageRun>
    decreases rows,
{
    if rows <= 0 {
        Seq::empty()
    } else {
        scan_row(source, width, copy_width, rows - 1, 0, None, damage_runs(source, width, copy_width, rows - 1))
    }
}

/// The rectangle of a run, when its corner and size fit in `u32` and its
/// size is positive.
pub open spec fn run_rect(run: DamageRun) -> Option<DamageRect> {
    if run.x0 <= u32::MAX && run.y0 <= u32::MAX && run.x0 < run.x1 && run.y0 < run.y1 && run.x1 - run.x0
        <= u32::MAX && run.y1 - run.y0 <= u32::MAX {
        Some(
            DamageRect {
                x: run.x0 as u32,
                y: run.y0 as u32,
                width: (run.x1 - run.x0) as u32,
                height: (run.y1 - run.y0) as u32,
            },
        )
    } else {
        None
    }
}

/// The rectangles of the runs that have one.
pub open spec fn runs_to_rects(runs: Seq<DamageRun>) -> Seq<DamageRect>
    decreases runs.len(),
{
    if runs.len() == 0 {
        Seq::empty()
    } else {
        let rest = runs_to_rects(runs.drop_last());
        match run_rect(runs.last()) {
            Some(r) => rest.push(r),
            None => rest,
        }
    }
}

/// The damage of a translucent window: the visible (not transparent) pixels
/// of the part of the frame that the surface shows, as runs of rows.
pub open spec fn damage_rects(
    source: Seq<u32>,
    source_width: int,
    source_height: int,
    target_width: int,
    target_height: int,
) -> Seq<DamageRect> {
    let copy_width = min_int(source_width, target_width);
    let copy_height = min_int(source_height, target_height);
    if copy_width == 0 || copy_height == 0 {
        Seq::empty()
    } else {
        runs_to_rects(damage_runs(source, source_width, copy_width, copy_height))
    }
}

/// The run holds the pixel `(x, y)`.
pub open spec fn run_covers(run: DamageRun, x: int, y: int) -> bool {
    run.x0 <= x < run.x1 && run.y0 <= y < run.y1
}

/// One of the runs holds the pixel `(x, y)`.
pub open spec fn runs_cover(runs: Seq<DamageRun>, x: int, y: int) -> bool {
    exists|i: int| 0 <= i < runs.len() && #[trigger] run_covers(runs[i], x, y)
}

/// The rectangle holds the pixel `(x, y)`.
pub open spec fn rect_covers(rect: DamageRect, x: int, y: int) -> bool {
    rect.x <= x < rect.x + rect.width && rect.y <= y < rect.y + rect.height
}

/// One of the rectangles holds the pixel `(x, y)`.
pub open spec fn rects_cover(rects: Seq<DamageRect>, x: int, y: int) -> bool {
    exists|i: int| 0 <= i < rects.len() && #[trigger] rect_covers(rects[i], x, y)
}

/// Every run spans at least one column and one row, below the limit `bound`.
pub open spec fn runs_bounded(runs: Seq<DamageRun>, bound: int) -> bool {
    forall|i: int|
        0 <= i < runs.len() ==> #[trigger] runs[i].x0 < runs[i].x1 <= bound && runs[i].y0 < runs[i].y1
            <= bound
}

proof fn lemma_add_run_covers(runs: Seq<DamageRun>, x0: int, x1: int, row: int, bound: int, x: int, y: int)
    requires
        runs_bounded(runs, bound),
        0 <= x0 < x1 <= bound,
        0 <= row < bound,
        bound <= usize::MAX,
    ensures
        runs_bounded(add_run(runs, x0, x1, row), bound),
        runs_cover(add_run(runs, x0, x1, row), x, y) == (runs_cover(runs, x, y) || (y == row && x0 <= x
            < x1)),
{
    let next = add_run(runs, x0, x1, row);
    let merges = runs.len() > 0 && runs.last().x0 == x0 && runs.last().x1 == x1 && runs.last().y1 == row;
    assert forall|i: int| 0 <= i < next.len() implies #[trigger] next[i].x0 < next[i].x1 <= bound && next[i].y0
        < next[i].y1 <= bound by {
        if i < runs.len() && !(merges && i == runs.len() - 1) {
            assert(next[i] == runs[i]);
        } else if merges {
            assert(runs[i].y0 < runs[i].y1);
        }
    }
    if merges {
        let last = runs.len() - 1;
        assert(runs[last].y0 < runs[last].y1);
        if runs_cover(next, x, y) {
            let i = choose|i: int| 0 <= i < next.len() && #[trigger] run_covers(next[i], x, y);
            if i != last {
                assert(run_covers(runs[i], x, y));
            } else if y != row {
                assert(run_covers(runs[last], x, y));
            }
        }
        if runs_cover(runs, x, y) {
            let i = choose|i: int| 0 <= i < runs.len() && #[trigger] run_covers(runs[i], x, y);
            assert(run_covers(next[i], x, y));
        }
        if y == row && x0 <= x < x1 {
            assert(run_covers(next[last], x, y));
        }
    } else {
        if runs_cover(next, x, y) {
            let i = choose|i: int| 0 <= i < next.len() && #[trigger] run_covers(next[i], x, y);
            if i < runs.len() {
                assert(run_covers(runs[i], x, y));
            }
        }
        if runs_cover(runs, x, y) {
            let i = choose|i: int| 0 <= i < runs.len() && #[trigger] run_covers(runs[i], x, y);
            assert(run_covers(next[i], x, y));
        }
        if y == row && x0 <= x < x1 {
            assert(run_covers(next[runs.len() as int], x, y));
        }
    }
}

/// Where the open run of a row scan starts: at `open`, or at `column` when
/// no run is open.
pub open spec fn scan_start(column: int, open: Option<int>) -> int {
    match open {
        Some(x0) => x0,
        None => column,
    }
}

proof fn lemma_scan_row_covers(
    source: Seq<u32>,
    width: int,
    copy_width: int,
    row: int,
    column: int,
    open: Option<int>,
    runs: Seq<DamageRun>,
    bound: int,
    x: int,
    y: int,
)
    requires
        runs_bounded(runs, bound),
        0 <= column <= copy_width <= width,
        copy_width <= bound,
        0 <= row < bound,
        bound <= usize::MAX,
        source.len() >= (row + 1) * width,
        open matches Some(x0) ==> 0 <= x0 < column && forall|c: int|
            x0 <= c < column ==> !#[trigger] transparent_at(source, width, c, row),
    ensures
        runs_bounded(scan_row(source, width, copy_width, row, column, open, runs), bound),
        runs_cover(scan_row(source, width, copy_width, row, column, open, runs), x, y) == (runs_cover(
            runs,
            x,
            y,
        ) || (y == row && scan_start(column, open) <= x < copy_width && !transparent_at(
            source,
            width,
            x,
            row,
        ))),
    decreases copy_width - column,
{
    let start = scan_start(column, open);
    if column >= copy_width {
        match open {
            Some(x0) => {
                lemma_add_run_covers(runs, x0, copy_width, row, bound, x, y);
                if y == row && x0 <= x < copy_width {
                    assert(!transparent_at(source, width, x, row));
                }
            },
            None => {},
        }
    } else if transparent_at(source, width, column, row) {
        match open {
            Some(x0) => {
                let next = add_run(runs, x0, column, row);
                lemma_add_run_covers(runs, x0, column, row, bound, x, y);
                lemma_scan_row_covers(source, width, copy_width, row, column + 1, None, next, bound, x, y);
                if y == row && x0 <= x < column {
                    assert(!transparent_at(source, width, x, row));
                }
            },
            None => {
                lemma_scan_row_covers(source, width, copy_width, row, column + 1, None, runs, bound, x, y);
            },
        }
    } else {
        match open {
            Some(x0) => {
                assert forall|c: int| x0 <= c < column + 1 implies !#[trigger] transparent_at(
                    source,
                    width,
                    c,
                    row,
                ) by {
                    if c < column {
                    }
                }
                lemma_scan_row_covers(source, width, copy_width, row, column + 1, Some(x0), runs, bound, x, y);
            },
            None => {
                lemma_scan_row_covers(
                    source,
                    width,
                    copy_width,
                    row,
                    column + 1,
                    Some(column),
                    runs,
                    bound,
                    x,
                    y,
                );
            },
        }
    }
}

proof fn lemma_damage_runs_cover(
    source: Seq<u32>,
    width: int,
    copy_width: int,
    rows: int,
    bound: int,
    x: int,
    y: int,
)
    requires
        0 <= copy_width <= width,
        copy_width <= bound,
        0 <= rows <= bound,
        bound <= usize::MAX,
        source.len() >= rows * width,
    ensures
        runs_bounded(damage_runs(source, width, copy_width, rows), bound),
        runs_cover(damage_runs(source, width, copy_width, rows), x, y) == (0 <= y < rows && 0 <= x
            < copy_width && !transparent_at(source, width, x, y)),
    decreases rows,
{
    if rows > 0 {
        let earlier = damage_runs(source, width, copy_width, rows - 1);
        assert((rows - 1) * width <= rows * width) by (nonlinear_arith)
            requires
                0 <= width,
                rows > 0,
        ;
        lemma_damage_runs_cover(source, width, copy_width, rows - 1, bound, x, y);
        lemma_scan_row_covers(source, width, copy_width, rows - 1, 0, None, earlier, bound, x, y);
    }
}

proof fn lemma_runs_to_rects_cover(runs: Seq<DamageRun>, x: int, y: int)
    requires
        runs_bounded(runs, u32::MAX as int),
    ensures
        rects_cover(runs_to_rects(runs), x, y) == runs_cover(runs, x, y),
    decreases runs.len(),
{
    if runs.len() > 0 {
        let rest = runs.drop_last();
        let last = runs.last();
        assert(runs_bounded(rest, u32::MAX as int)) by {
            assert forall|i: int| 0 <= i < rest.len() implies #[trigger] rest[i].x0 < rest[i].x1 <= u32::MAX
                && rest[i].y0 < rest[i].y1 <= u32::MAX by {
                assert(rest[i] == runs[i]);
            }
        }
        lemma_runs_to_rects_cover(rest, x, y);
        let rect = run_rect(last).unwrap();
        let rest_rects = runs_to_rects(rest);
        let rects = runs_to_rects(runs);
        assert(rects == rest_rects.push(rect));
        assert(rect_covers(rect, x, y) == run_covers(last, x, y));
        if rects_cover(rects, x, y) {
            let i = choose|i: int| 0 <= i < rects.len() && #[trigger] rect_covers(rects[i], x, y);
            if i < rest_rects.len() {
                assert(rect_covers(rest_rects[i], x, y));
                let j = choose|j: int| 0 <= j < rest.len() && #[trigger] run_covers(rest[j], x, y);
                assert(run_covers(runs[j], x, y));
            } else {
                assert(run_covers(runs[runs.len() - 1], x, y));
            }
        }
        if runs_cover(runs, x, y) {
            let j = choose|j: int| 0 <= j < runs.len() && #[trigger] run_covers(runs[j], x, y);
            if j < rest.len() {
                assert(run_covers(rest[j], x, y));
                let i = choose|i: int| 0 <= i < rest_rects.len() && #[trigger] rect_covers(rest_rects[i], x, y);
                assert(rect_covers(rects[i], x, y));
            } else {
                assert(rect_covers(rects[rects.len() - 1], x, y));
            }
        }
    }
}

/// The damage of a translucent window is exactly its visible pixels: a
/// pixel lies in one of the damage rectangles if and only if it is in the
/// part of the frame that the surface shows and is not transparent (for
/// frames whose sides fit in 32 bits).
pub proof fn lemma_damage_covers_visible_pixels(
    source: Seq<u32>,
    source_width: int,
    source_height: int,
    target_width: int,
    target_height: int,
    x: int,
    y: int,
)
    requires
        0 <= source_width,
        0 <= source_height,
        0 <= target_width,
        0 <= target_height,
        source.len() == source_width * source_height,
        min_int(source_width, target_width) <= u32::MAX,
        min_int(source_height, target_height) <= u32::MAX,
    ensures
        rects_cover(damage_rects(source, source_width, source_height, target_width, target_height), x, y)
            == (0 <= x < min_int(source_width, target_width) && 0 <= y < min_int(source_height, target_height)
            && !transparent_at(source, source_width, x, y)),
{
    let copy_width = min_int(source_width, target_width);
    let copy_height = min_int(source_height, target_height);
    if copy_width != 0 && copy_height != 0 {
        assert(copy_height * source_width <= source_width * source_height) by (nonlinear_arith)
            requires
                0 <= copy_height <= source_height,
                0 <= source_width,
        ;
        lemma_damage_runs_cover(source, source_width, copy_width, copy_height, u32::MAX as int, x, y);
        lemma_runs_to_rects_cover(damage_runs(source, source_width, copy_width, copy_height), x, y);
    }
}

/// The rectangle of a run, when it has one.
pub fn damage_run_rect(run: DamageRun) -> (r: Option<DamageRect>)
    ensures
        r == run_rect(run),
{
    if run.x0 > u32::MAX as usize || run.y0 > u32::MAX as usize || run.x1 <= run.x0 || run.y1 <= run.y0 {
        return None;
    }
    let width = run.x1 - run.x0;
    let height = run.y1 - run.y0;
    if width > u32::MAX as usize || height > u32::MAX as usize {
        return None;
    }
    Some(DamageRect { x: run.x0 as u32, y: run.y0 as u32, width: width as u32, height: height as u32 })
}

/// The damage of a translucent window: the visible pixels of the frame part
/// the surface shows, merged into runs of rows (a run of a row extends the
/// previous run down when it has the same columns).
pub fn non_transparent_damage_rects(
    source: &[u32],
    source_width: usize,
    source_height: usize,
    target_width: usize,
    target_height: usize,
) -> (rects: Vec<DamageRect>)
    requires
        source@.len() == source_width * source_height,
    ensures
        rects@ == damage_rects(
            source@,
            source_width as int,
            source_height as int,
            target_width as int,
            target_height as int,
        ),
{
    let copy_width = if source_width < target_width { source_width } else { target_width };
    let copy_height = if source_height < target_height { source_height } else { target_height };
    if copy_width == 0 || copy_height == 0 {
        return Vec::new();
    }
    let source_len = source.len();
    let ghost sw = source_width as int;
    let ghost cw = copy_width as int;
    let mut runs: Vec<DamageRun> = Vec::new();
    let mut row: usize = 0;
    while row < copy_height
        invariant
            0 <= row <= copy_height,
            copy_width <= source_width,
            copy_height <= source_height,
            sw == source_width,
            cw == copy_width,
            source@.len() == source_width * source_height,
            source_len == source@.len(),
            runs@ == damage_runs(source@, sw, cw, row as int),
        decreases copy_height - row,
    {
        let ghost goal = scan_row(source@, sw, cw, row as int, 0, None, runs@);
        proof {
            assert(row * source_width + copy_width <= source_width * source_height) by (nonlinear_arith)
                requires
                    row < source_height,
                    copy_width <= source_width,
            ;
        }
        let row_start = row * source_width;
        let mut column: usize = 0;
        while column < copy_width
            invariant
                0 <= column <= copy_width,
                row < copy_height,
                copy_width <= source_width,
                copy_height <= source_height,
                sw == source_width,
                cw == copy_width,
                source@.len() == source_width * source_height,
                source_len == source@.len(),
                row_start == row * source_width,
                row_start + copy_width <= source@.len(),
                scan_row(source@, sw, cw, row as int, column as int, None, runs@) == goal,
            decreases copy_width - column,
        {
            let ghost start = column;
            while column < copy_width && is_transparent(source[row_start + column])
                invariant
                    0 <= column <= copy_width,
                    row < copy_height,
                    copy_width <= source_width,
                    copy_height <= source_height,
                    sw == source_width,
                    cw == copy_width,
                    source@.len() == source_width * source_height,
                    source_len == source@.len(),
                    row_start == row * source_width,
                    row_start + copy_width <= source@.len(),
                    scan_row(source@, sw, cw, row as int, column as int, None, runs@) == goal,
                    start <= column,
                decreases copy_width - column,
            {
                proof {
                    crate::mask::lemma_grid_index(column as int, row as int, sw, source_height as int);
                }
                column = column + 1;
            }
            if column < copy_width {
                let x0 = column;
                while column < copy_width && !is_transparent(source[row_start + column])
                    invariant
                        x0 < column <= copy_width || (x0 == column && column < copy_width
                            && !transparent_at(source@, sw, column as int, row as int)),
                        row < copy_height,
                        copy_width <= source_width,
                        copy_height <= source_height,
                        sw == source_width,
                        cw == copy_width,
                        source@.len() == source_width * source_height,
                        source_len == source@.len(),
                        row_start == row * source_width,
                        row_start + copy_width <= source@.len(),
                        x0 < column ==> scan_row(source@, sw, cw, row as int, column as int, Some(x0 as int), runs@)
                            == goal,
                        x0 == column ==> scan_row(source@, sw, cw, row as int, column as int, None, runs@)
                            == goal,
                    decreases copy_width - column,
                {
                    proof {
                        crate::mask::lemma_grid_index(column as int, row as int, sw, source_height as int);
                    }
                    column = column + 1;
                }
                let x1 = column;
                assert(x1 > x0);
                let ghost before = runs@;
                let n = runs.len();
                if n > 0 && runs[n - 1].x0 == x0 && runs[n - 1].x1 == x1 && runs[n - 1].y1 == row {
                    let mut last = runs[n - 1];
                    last.y1 = row + 1;
                    runs.set(n - 1, last);
                } else {
                    runs.push(DamageRun { x0, x1, y0: row, y1: row + 1 });
                }
                proof {
                    assert(runs@ == add_run(before, x0 as int, x1 as int, row as int));
                }
            }
        }
        row = row + 1;
    }
    let mut rects: Vec<DamageRect> = Vec::new();
    let mut i: usize = 0;
    let ghost all = runs@;
    proof {
        assert(all.subrange(0, 0) =~= Seq::<DamageRun>::empty());
    }
    while i < runs.len()
        invariant
            0 <= i <= all.len(),
            all == runs@,
            rects@ == runs_to_rects(all.subrange(0, i as int)),
        decreases all.len() - i,
    {
        proof {
            assert(all.subrange(0, i + 1).drop_last() =~= all.subrange(0, i as int));
        }
        match damage_run_rect(runs[i]) {
            Some(r) => rects.push(r),
            None => {},
        }
        i = i + 1;
    }
    proof {
        assert(all.subrange(0, i as int) =~= all);
    }
    rects
}

// ---------------------------------------------------------------------------
// Render workers' buffers.
// ---------------------------------------------------------------------------

/// The row bands of a full redraw shared by `worker_count` workers: runs of
/// `band_size` rows from the top that cover the frame.
pub fn render_row_bands(height: usize, worker_count: usize) -> (bands: Vec<BufferRows>)
    ensures
        bands@.len() == (if height == 0 { 0 } else { crate::frame::ceil_div(height as int, band_size(height as int, worker_count as int)) }),
        bands@.len() <= band_workers(height as int, worker_count as int),
        forall|i: int|
            0 <= i < bands@.len() ==> {
                &&& (#[trigger] bands@[i]).start == i * band_size(height as int, worker_count as int)
                &&& bands@[i].end == min_int((i + 1) * band_size(height as int, worker_count as int), height as int)
                &&& bands@[i].start < bands@[i].end
            },
{
    let spans = blur_bands(height, worker_count);
    let mut bands: Vec<BufferRows> = Vec::new();
    let mut i: usize = 0;
    while i < spans.len()
        invariant
            0 <= i <= spans@.len(),
            bands@.len() == i,
            forall|j: int|
                0 <= j < i ==> (#[trigger] bands@[j]).start == spans@[j].0 && bands@[j].end == spans@[j].1,
            forall|j: int| 0 <= j < spans@.len() ==> (#[trigger] spans@[j]).0 < spans@[j].1,
        decreases spans@.len() - i,
    {
        let (start, end) = spans[i];
        bands.push(BufferRows::new(start, end));
        i = i + 1;
    }
    bands
}

/// Writes the pixels of a worker's band of rows into the frame buffer.
pub fn copy_band_into_buffer(buffer: &mut [u32], width: usize, worker_buffer: &[u32], rows: BufferRows)
    requires
        rows.start <= rows.end,
        rows.end * width <= old(buffer)@.len(),
        worker_buffer@.len() == (rows.end - rows.start) * width,
    ensures
        final(buffer)@.len() == old(buffer)@.len(),
        forall|i: int|
            0 <= i < old(buffer)@.len() ==> #[trigger] final(buffer)@[i] == if rows.start * width <= i
                < rows.end * width {
                worker_buffer@[i - rows.start * width]
            } else {
                old(buffer)@[i]
            },
{
    let ghost original = buffer@;
    let buffer_len = buffer.len();
    proof {
        assert(rows.start * width <= rows.end * width) by (nonlinear_arith)
            requires
                rows.start <= rows.end,
        ;
        assert((rows.end - rows.start) * width == rows.end * width - rows.start * width) by (nonlinear_arith);
    }
    let start = rows.start * width;
    let count = worker_buffer.len();
    let mut k: usize = 0;
    while k < count
        invariant
            0 <= k <= count,
            count == worker_buffer@.len(),
            start == rows.start * width,
            start + count == rows.end * width,
            rows.end * width <= original.len(),
            buffer@.len() == original.len(),
            buffer_len == original.len(),
            forall|i: int|
                0 <= i < original.len() ==> #[trigger] buffer@[i] == if start <= i < start + k {
                    worker_buffer@[i - start]
                } else {
                    original[i]
                },
        decreases count - k,
    {
        buffer[start + k] = worker_buffer[k];
        k = k + 1;
    }
}

/// Writes the pixels of one job, rendered into a worker's buffer holding the
/// row window `rows`, into the frame buffer.
pub fn copy_job_from_worker_buffer(
    buffer: &mut [u32],
    width: usize,
    height: usize,
    worker_buffer: &[u32],
    rows: BufferRows,
    clip: PixelRect,
)
    requires
        width <= i32::MAX,
        height <= i32::MAX,
        old(buffer)@.len() == width * height,
        rows.start <= rows.end <= height,
        worker_buffer@.len() == (rows.end - rows.start) * width,
        pixel_bounds_spec(clip, width as int, height as int) matches Some(b) ==> rows.start <= b.y0 && b.y1
            <= rows.end,
    ensures
        final(buffer)@.len() == width * height,
        forall|x: int, y: int|
            0 <= x < width && 0 <= y < height ==> #[trigger] final(buffer)@[y * width + x] == if (match pixel_bounds_spec(
                clip,
                width as int,
                height as int,
            ) {
                Some(b) => b.spec_contains(x, y),
                None => false,
            }) {
                worker_buffer@[(y - rows.start) * width + x]
            } else {
                old(buffer)@[y * width + x]
            },
{
    let ghost original = buffer@;
    let buffer_len = buffer.len();
    let worker_len = worker_buffer.len();
    let bounds = match pixel_bounds(clip, width, height) {
        Some(b) => b,
        None => {
            return;
        },
    };
    let x0 = bounds.x0 as usize;
    let x1 = bounds.x1 as usize;
    let y1 = bounds.y1 as usize;
    let mut y = bounds.y0 as usize;
    while y < y1
        invariant
            0 <= x0 < x1 <= width,
            0 <= bounds.y0 <= y <= y1,
            y1 == bounds.y1,
            y1 <= height,
            x0 == bounds.x0,
            x1 == bounds.x1,
            rows.start <= bounds.y0,
            y1 <= rows.end,
            rows.end <= height,
            pixel_bounds_spec(clip, width as int, height as int) == Some(bounds),
            original.len() == width * height,
            buffer@.len() == original.len(),
            buffer_len == original.len(),
            worker_buffer@.len() == (rows.end - rows.start) * width,
            worker_len == worker_buffer@.len(),
            forall|xx: int, yy: int|
                0 <= xx < width && 0 <= yy < height ==> #[trigger] buffer@[yy * width + xx] == if bounds.spec_contains(
                    xx,
                    yy,
                ) && yy < y {
                    worker_buffer@[(yy - rows.start) * width + xx]
                } else {
                    original[yy * width + xx]
                },
        decreases y1 - y,
    {
        proof {
            assert(y * width + width <= width * height) by (nonlinear_arith)
                requires
                    y < height,
            ;
            assert((y - rows.start) * width + width <= (rows.end - rows.start) * width) by (nonlinear_arith)
                requires
                    rows.start <= y < rows.end,
            ;
            assert((y - rows.start) * width >= 0) by (nonlinear_arith)
                requires
                    rows.start <= y,
            ;
        }
        let destination_row = y * width;
        let source_row = (y - rows.start) * width;
        let mut x = x0;
        while x < x1
            invariant
                0 <= x0 <= x <= x1 <= width,
                0 <= bounds.y0 <= y < y1,
                y1 == bounds.y1,
                y1 <= height,
                x0 == bounds.x0,
                x1 == bounds.x1,
                rows.start <= y < rows.end,
                destination_row == y * width,
                source_row == (y - rows.start) * width,
                destination_row + width <= original.len(),
                source_row + width <= worker_buffer@.len(),
                buffer_len == original.len(),
                worker_len == worker_buffer@.len(),
                original.len() == width * height,
                buffer@.len() == original.len(),
                forall|xx: int, yy: int|
                    0 <= xx < width && 0 <= yy < height ==> #[trigger] buffer@[yy * width + xx] == if bounds.spec_contains(
                        xx,
                        yy,
                    ) && (yy < y || (yy == y && xx < x)) {
                        worker_buffer@[(yy - rows.start) * width + xx]
                    } else {
                        original[yy * width + xx]
                    },
            decreases x1 - x,
        {
            let ghost before = buffer@;
            buffer[destination_row + x] = worker_buffer[source_row + x];
            proof {
                assert forall|xx: int, yy: int|
                    0 <= xx < width && 0 <= yy < height implies #[trigger] buffer@[yy * width + xx] == if bounds.spec_contains(
                        xx,
                        yy,
                    ) && (yy < y || (yy == y && xx < x + 1)) {
                        worker_buffer@[(yy - rows.start) * width + xx]
                    } else {
                        original[yy * width + xx]
                    } by {
                    crate::mask::lemma_grid_index(xx, yy, width as int, height as int);
                    if xx != x || yy != y {
                        crate::mask::lemma_grid_index_injective(xx, yy, x as int, y as int, width as int, height as int);
                        assert(buffer@[yy * width + xx] == before[yy * width + xx]);
                    }
                }
            }
            x = x + 1;
        }
        y = y + 1;
    }
}

/// `v` resized to `len`: cut short, or grown with zeros.
pub open spec fn resized_with_zeros(v: Seq<u32>, len: int) -> Seq<u32> {
    if len <= v.len() {
        v.subrange(0, len)
    } else {
        v + Seq::new((len - v.len()) as nat, |i: int| 0u32)
    }
}

/// The reusable buffer that worker `i` gets when `n` buffers are taken from
/// a pool: the last buffers of the pool first, then new empty ones.
pub open spec fn pooled_buffer(pool: Seq<Vec<u32>>, i: int) -> Seq<u32> {
    if i < pool.len() {
        pool[pool.len() - 1 - i]@
    } else {
        Seq::empty()
    }
}

/// `Vec::capacity`: how many words the buffer can hold without growing.
/// That depends on the allocator and the buffer's history, so nothing is
/// stated of it.
#[verifier::external_body]
fn buffer_capacity(buffer: &Vec<u32>) -> (r: usize) {
    buffer.capacity()
}

/// `Vec::shrink_to`: gives back capacity beyond `len`; the contents are not
/// touched.
#[verifier::external_body]
fn shrink_buffer_to(buffer: &mut Vec<u32>, len: usize)
    ensures
        final(buffer)@ == old(buffer)@,
{
    buffer.shrink_to(len);
}

/// Takes one buffer per length from the pool (the most recently returned
/// first, a new one when the pool runs dry), each resized to its length;
/// buffers much larger than needed give back their spare capacity.
pub fn acquire_worker_buffers(pool: &mut Vec<Vec<u32>>, lengths: &Vec<usize>) -> (buffers: Vec<Vec<u32>>)
    ensures
        buffers@.len() == lengths@.len(),
        forall|i: int|
            0 <= i < lengths@.len() ==> #[trigger] buffers@[i]@ == resized_with_zeros(
                pooled_buffer(old(pool)@, i),
                lengths@[i] as int,
            ),
        final(pool)@ == old(pool)@.subrange(
            0,
            if old(pool)@.len() >= lengths@.len() { old(pool)@.len() - lengths@.len() } else { 0 },
        ),
{
    let ghost original = pool@;
    let mut buffers: Vec<Vec<u32>> = Vec::new();
    let mut i: usize = 0;
    while i < lengths.len()
        invariant
            0 <= i <= lengths@.len(),
            buffers@.len() == i,
            pool@ == original.subrange(0, if original.len() >= i { original.len() - i } else { 0 }),
            forall|j: int|
                0 <= j < i ==> #[trigger] buffers@[j]@ == resized_with_zeros(
                    pooled_buffer(original, j),
                    lengths@[j] as int,
                ),
        decreases lengths@.len() - i,
    {
        let len = lengths[i];
        let mut buffer = match pool.pop() {
            Some(b) => b,
            None => Vec::new(),
        };
        proof {
            assert(buffer@ == pooled_buffer(original, i as int));
        }
        let ghost before = buffer@;
        buffer.resize(len, 0);
        proof {
            if len <= before.len() {
                assert(buffer@ == resized_with_zeros(before, len as int));
            } else {
                assert(buffer@ =~= resized_with_zeros(before, len as int));
            }
        }
        let doubled = if len <= usize::MAX / 2 { len * 2 } else { usize::MAX };
        let limit = if doubled > 1 { doubled } else { 1 };
        if buffer_capacity(&buffer) > limit {
            shrink_buffer_to(&mut buffer, len);
        }
        buffers.push(buffer);
        proof {
            assert(pool@ =~= original.subrange(0, if original.len() >= i + 1 { original.len() - (i + 1) } else { 0 }));
        }
        i = i + 1;
    }
    buffers
}

/// Returns buffers to the pool, after the ones it holds.
pub fn release_worker_buffers(pool: &mut Vec<Vec<u32>>, buffers: Vec<Vec<u32>>)
    ensures
        final(pool)@ == old(pool)@ + buffers@,
{
    let mut buffers = buffers;
    pool.append(&mut buffers);
}

} // verus!
