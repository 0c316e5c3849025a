//! Text drawn with the built-in 8x8 bitmap font, for when no outline font
//! can be used: each character with a bitmap lights `scale` x `scale`
//! blocks of a coverage mask.

use font8x8::UnicodeFonts;
use vstd::prelude::*;

use crate::frame::{max_int, min_int};
use crate::mask::AlphaMask;

verus! {

/// The eight row bytes of the bitmap of a Basic Latin character in the
/// `font8x8` font (bit `i` of a row lights column `i`).
pub uninterp spec fn basic_font_glyph(c: char) -> Seq<u8>;

/// `font8x8::BASIC_FONTS.get(c)`: the bitmap of `c` when it is a Basic
/// Latin character (U+0000 to U+007F), none otherwise. The rows themselves
/// are a table of the crate, named by `basic_font_glyph`.
#[verifier::external_body]
fn basic_font_bitmap(c: char) -> (r: Option<[u8; 8]>)
    ensures
        r is Some <==> (c as u32) < 128,
        r matches Some(g) ==> g@ == basic_font_glyph(c),
{
    font8x8::BASIC_FONTS.get(c)
}

/// A character at its place: the top-left corner of its 8x8 cell (scaled)
/// in frame pixels.
#[derive(Clone, Copy, Debug)]
pub struct PlacedChar {
    pub origin_x: i32,
    pub origin_y: i32,
    pub character: char,
}

/// The character has a bitmap.
pub open spec fn has_bitmap(c: PlacedChar) -> bool {
    (c.character as u32) < 128
}

/// Bit `column` of a row byte is set.
pub open spec fn bit_set(row: u8, column: u32) -> bool {
    (row >> column) & 1u8 == 1u8
}

/// The bitmap of character `c` placed at its origin, scaled, lights the
/// frame pixel `(x, y)`.
pub open spec fn char_lights(c: PlacedChar, scale: int, x: int, y: int) -> bool {
    let dx = x - c.origin_x;
    let dy = y - c.origin_y;
    &&& has_bitmap(c)
    &&& 0 <= dx < 8 * scale
    &&& 0 <= dy < 8 * scale
    &&& bit_set(basic_font_glyph(c.character)[dy / scale], (dx / scale) as u32)
}

/// Some character lights the frame pixel `(x, y)`.
pub open spec fn text_lights(chars: Seq<PlacedChar>, scale: int, x: int, y: int) -> bool {
    exists|k: int| 0 <= k < chars.len() && char_lights(#[trigger] chars[k], scale, x, y)
}

/// Bit `i` of a glyph row lights column `i` of the character's cell: for a
/// character with a bitmap and a pixel at offset `(dx, dy)` in its scaled
/// cell, a set bit `dx / scale` of row `dy / scale` of its font8x8 bitmap
/// lights the pixel; and where no other character's cell covers the pixel,
/// the pixel is lit only when that bit is set.
pub proof fn lemma_glyph_bit_lights_its_column(chars: Seq<PlacedChar>, scale: int, k: int, dx: int, dy: int)
    requires
        1 <= scale,
        0 <= k < chars.len(),
        (chars[k].character as u32) < 128,
        0 <= dx < 8 * scale,
        0 <= dy < 8 * scale,
    ensures
        ({
            let c = chars[k];
            let x = c.origin_x + dx;
            let y = c.origin_y + dy;
            let row = basic_font_glyph(c.character)[dy / scale];
            let set = (row >> ((dx / scale) as u32)) & 1u8 == 1u8;
            &&& set ==> text_lights(chars, scale, x, y)
            &&& (forall|j: int|
                0 <= j < chars.len() && j != k ==> !((#[trigger] chars[j]).origin_x <= x < chars[j].origin_x + 8 * scale
                    && chars[j].origin_y <= y < chars[j].origin_y + 8 * scale)) ==> (text_lights(chars, scale, x, y)
                ==> set)
        }),
{
    let c = chars[k];
    let x = c.origin_x + dx;
    let y = c.origin_y + dy;
    if text_lights(chars, scale, x, y) {
        let j = choose|j: int| 0 <= j < chars.len() && char_lights(#[trigger] chars[j], scale, x, y);
        assert(char_lights(chars[j], scale, x, y));
    }
    let row = basic_font_glyph(c.character)[dy / scale];
    if (row >> ((dx / scale) as u32)) & 1u8 == 1u8 {
        assert(char_lights(chars[k], scale, x, y));
    }
}

/// The box `(min_x, min_y, max_x, max_y)` of the cells of the characters
/// among the first `n` that have a bitmap, if any.
pub open spec fn bitmap_bounds(chars: Seq<PlacedChar>, scale: int, n: int) -> Option<(int, int, int, int)>
    decreases n,
{
    if n <= 0 {
        None
    } else {
        let prev = bitmap_bounds(chars, scale, n - 1);
        let c = chars[n - 1];
        if !has_bitmap(c) {
            prev
        } else {
            let x0 = c.origin_x as int;
            let y0 = c.origin_y as int;
            let x1 = x0 + 8 * scale;
            let y1 = y0 + 8 * scale;
            match prev {
                Some((a, b, e, f)) => Some((min_int(a, x0), min_int(b, y0), max_int(e, x1), max_int(f, y1))),
                None => Some((x0, y0, x1, y1)),
            }
        }
    }
}

/// Whether bit `column` (0 to 7) of a row byte is set.
fn row_bit(row: u8, column: u32) -> (r: bool)
    requires
        column < 8,
    ensures
        r == bit_set(row, column),
{
    (row >> column) & 1u8 == 1u8
}

/// Lights the blocks of one character's bitmap in a mask whose grid holds
/// the character's whole cell.
fn stamp_glyph(mask: &mut AlphaMask, c: PlacedChar, glyph: &[u8; 8], scale: i32)
    requires
        old(mask).wf(),
        has_bitmap(c),
        glyph@ == basic_font_glyph(c.character),
        1 <= scale,
        8 * scale <= i32::MAX,
        old(mask).origin_x <= c.origin_x,
        old(mask).origin_y <= c.origin_y,
        c.origin_x + 8 * scale <= old(mask).origin_x + old(mask).width,
        c.origin_y + 8 * scale <= old(mask).origin_y + old(mask).height,
        old(mask).width <= i32::MAX,
        old(mask).height <= i32::MAX,
    ensures
        final(mask).wf(),
        final(mask).origin_x == old(mask).origin_x,
        final(mask).origin_y == old(mask).origin_y,
        final(mask).width == old(mask).width,
        final(mask).height == old(mask).height,
        forall|x: int, y: int|
            #![trigger final(mask).at(x, y)]
            final(mask).at(x, y) == if char_lights(c, scale as int, x + old(mask).origin_x, y + old(mask).origin_y) {
                255u8
            } else {
                old(mask).at(x, y)
            },
{
    let ghost original = *mask;
    let ox = mask.origin_x;
    let oy = mask.origin_y;
    let base_x = c.origin_x - ox;
    let base_y = c.origin_y - oy;
    let side = 8 * scale;
    let mut dy: i32 = 0;
    while dy < side
        invariant
            mask.wf(),
            original.wf(),
            mask.origin_x == original.origin_x,
            mask.origin_y == original.origin_y,
            mask.width == original.width,
            mask.height == original.height,
            ox == original.origin_x,
            oy == original.origin_y,
            base_x == c.origin_x - ox,
            base_y == c.origin_y - oy,
            0 <= base_x,
            0 <= base_y,
            base_x + side <= original.width,
            base_y + side <= original.height,
            original.width <= i32::MAX,
            original.height <= i32::MAX,
            side == 8 * scale,
            1 <= scale,
            has_bitmap(c),
            glyph@ == basic_font_glyph(c.character),
            0 <= dy <= side,
            forall|x: int, y: int|
                #![trigger mask.at(x, y)]
                mask.at(x, y) == if char_lights(c, scale as int, x + ox, y + oy) && y - base_y < dy {
                    255u8
                } else {
                    original.at(x, y)
                },
        decreases side - dy,
    {
        let mut dx: i32 = 0;
        while dx < side
            invariant
                mask.wf(),
                original.wf(),
                mask.origin_x == original.origin_x,
                mask.origin_y == original.origin_y,
                mask.width == original.width,
                mask.height == original.height,
                ox == original.origin_x,
                oy == original.origin_y,
                base_x == c.origin_x - ox,
                base_y == c.origin_y - oy,
                0 <= base_x,
                0 <= base_y,
                base_x + side <= original.width,
                base_y + side <= original.height,
                original.width <= i32::MAX,
                original.height <= i32::MAX,
                side == 8 * scale,
                1 <= scale,
                has_bitmap(c),
                glyph@ == basic_font_glyph(c.character),
                0 <= dy < side,
                0 <= dx <= side,
                forall|x: int, y: int|
                    #![trigger mask.at(x, y)]
                    mask.at(x, y) == if char_lights(c, scale as int, x + ox, y + oy) && (y - base_y < dy || (y
                        - base_y == dy && x - base_x < dx)) {
                        255u8
                    } else {
                        original.at(x, y)
                    },
            decreases side - dx,
        {
            proof {
                assert(0 <= dy / scale < 8 && 0 <= dx / scale < 8) by (nonlinear_arith)
                    requires
                        0 <= dy < 8 * scale,
                        0 <= dx < 8 * scale,
                        1 <= scale,
                ;
            }
            let row = glyph[(dy / scale) as usize];
            let lit = row_bit(row, (dx / scale) as u32);
            let ghost before = *mask;
            if lit {
                mask.set_max(base_x + dx, base_y + dy, 255);
            }
            proof {
                assert forall|x: int, y: int|
                    #![trigger mask.at(x, y)]
                    mask.at(x, y) == if char_lights(c, scale as int, x + ox, y + oy) && (y - base_y < dy || (y
                        - base_y == dy && x - base_x < dx + 1)) {
                        255u8
                    } else {
                        original.at(x, y)
                    } by {
                    assert(before.at(x, y) == before.at(x, y));
                    if x == base_x + dx && y == base_y + dy {
                        assert(char_lights(c, scale as int, x + ox, y + oy) == lit);
                    }
                }
            }
            dx = dx + 1;
        }
        dy = dy + 1;
    }
}

/// The box of the first `n` characters holds the cell of each of them that
/// has a bitmap.
proof fn lemma_bounds_hold_cells(chars: Seq<PlacedChar>, scale: int, n: int, k: int)
    requires
        0 <= k < n <= chars.len(),
        has_bitmap(chars[k]),
    ensures
        bitmap_bounds(chars, scale, n) matches Some((a, b, e, f)) && a <= chars[k].origin_x && b
            <= chars[k].origin_y && chars[k].origin_x + 8 * scale <= e && chars[k].origin_y + 8 * scale <= f,
    decreases n,
{
    if k < n - 1 {
        lemma_bounds_hold_cells(chars, scale, n - 1, k);
    }
}

/// A box is at least one cell wide and high.
proof fn lemma_bounds_ordered(chars: Seq<PlacedChar>, scale: int, n: int)
    requires
        0 <= n <= chars.len(),
        scale >= 1,
    ensures
        bitmap_bounds(chars, scale, n) matches Some((a, b, e, f)) ==> a + 8 * scale <= e && b + 8 * scale <= f,
    decreases n,
{
    if n > 0 {
        lemma_bounds_ordered(chars, scale, n - 1);
    }
}

/// Draws characters with the built-in 8x8 bitmap font, each cell `scale`
/// pixels per font pixel: a mask just holding the cells of the characters
/// that have a bitmap, full coverage where a bitmap bit is lit, none
/// elsewhere; `None` when no character has a bitmap.
pub fn rasterize_bitmap_glyphs(chars: &Vec<PlacedChar>, scale: i32) -> (r: Option<AlphaMask>)
    requires
        1 <= scale,
        8 * scale <= i32::MAX,
        bitmap_bounds(chars@, scale as int, chars@.len() as int) matches Some((a, b, e, f)) ==> e <= i32::MAX && f
            <= i32::MAX && e - a <= i32::MAX && f - b <= i32::MAX && (e - a) * (f - b) <= usize::MAX,
    ensures
        r is None <==> bitmap_bounds(chars@, scale as int, chars@.len() as int) is None,
        r matches Some(m) ==> {
            let (a, b, e, f) = bitmap_bounds(chars@, scale as int, chars@.len() as int).unwrap();
            &&& m.wf()
            &&& m.origin_x == a
            &&& m.origin_y == b
            &&& m.width == e - a
            &&& m.height == f - b
            &&& forall|x: int, y: int|
                #![trigger m.at(x, y)]
                m.at(x, y) == if text_lights(chars@, scale as int, x + a, y + b) { 255u8 } else { 0u8 }
        },
{
    let n = chars.len();
    let ghost s = scale as int;
    let mut bounds: Option<(i32, i32, i32, i32)> = None;
    let mut k: usize = 0;
    while k < n
        invariant
            n == chars@.len(),
            0 <= k <= n,
            1 <= scale,
            s == scale,
            8 * scale <= i32::MAX,
            bitmap_bounds(chars@, s, n as int) matches Some((a, b, e, f)) ==> e <= i32::MAX && f <= i32::MAX,
            match bounds {
                Some((a, b, e, f)) => bitmap_bounds(chars@, s, k as int) == Some((a as int, b as int, e as int, f as int)),
                None => bitmap_bounds(chars@, s, k as int) is None,
            },
        decreases n - k,
    {
        let c = chars[k];
        if (c.character as u32) < 128 {
            proof {
                lemma_bounds_hold_cells(chars@, s, n as int, k as int);
            }
            let x0 = c.origin_x;
            let y0 = c.origin_y;
            let x1 = c.origin_x + 8 * scale;
            let y1 = c.origin_y + 8 * scale;
            bounds = match bounds {
                Some((a, b, e, f)) => Some(
                    (
                        if x0 < a { x0 } else { a },
                        if y0 < b { y0 } else { b },
                        if x1 > e { x1 } else { e },
                        if y1 > f { y1 } else { f },
                    ),
                ),
                None => Some((x0, y0, x1, y1)),
            };
        }
        k = k + 1;
    }
    let (min_x, min_y, max_x, max_y) = match bounds {
        Some(b) => b,
        None => {
            return None;
        },
    };
    proof {
        lemma_bounds_ordered(chars@, s, n as int);
        assert(bitmap_bounds(chars@, s, n as int) == Some((min_x as int, min_y as int, max_x as int, max_y as int)));
    }
    let mut mask = AlphaMask::new(min_x, min_y, max_x - min_x, max_y - min_y);
    let ghost ax = min_x as int;
    let ghost by = min_y as int;
    proof {
        assert forall|x: int, y: int|
            #![trigger mask.at(x, y)]
            mask.at(x, y) == if text_lights(chars@.subrange(0, 0), s, x + ax, y + by) { 255u8 } else { 0u8 } by {
            if 0 <= x < mask.width && 0 <= y < mask.height {
                crate::mask::lemma_grid_index(x, y, mask.width as int, mask.height as int);
            }
        }
    }
    let mut k: usize = 0;
    while k < n
        invariant
            n == chars@.len(),
            0 <= k <= n,
            1 <= scale,
            s == scale,
            8 * scale <= i32::MAX,
            bitmap_bounds(chars@, s, n as int) == Some((ax, by, max_x as int, max_y as int)),
            ax == min_x,
            by == min_y,
            max_x <= i32::MAX,
            max_y <= i32::MAX,
            mask.wf(),
            mask.origin_x == min_x,
            mask.origin_y == min_y,
            mask.width == max_x - min_x,
            mask.height == max_y - min_y,
            mask.width <= i32::MAX,
            mask.height <= i32::MAX,
            forall|x: int, y: int|
                #![trigger mask.at(x, y)]
                mask.at(x, y) == if text_lights(chars@.subrange(0, k as int), s, x + ax, y + by) {
                    255u8
                } else {
                    0u8
                },
        decreases n - k,
    {
        let c = chars[k];
        let ghost before = mask;
        match basic_font_bitmap(c.character) {
            Some(glyph) => {
                proof {
                    lemma_bounds_hold_cells(chars@, s, n as int, k as int);
                }
                stamp_glyph(&mut mask, c, &glyph, scale);
            },
            None => {},
        }
        proof {
            let prefix = chars@.subrange(0, k as int);
            let next = chars@.subrange(0, k + 1);
            assert forall|x: int, y: int|
                #![trigger mask.at(x, y)]
                mask.at(x, y) == if text_lights(next, s, x + ax, y + by) { 255u8 } else { 0u8 } by {
                assert(before.at(x, y) == before.at(x, y));
                if text_lights(prefix, s, x + ax, y + by) {
                    let j = choose|j: int| 0 <= j < prefix.len() && char_lights(#[trigger] prefix[j], s, x + ax, y + by);
                    assert(next[j] == prefix[j]);
                }
                if text_lights(next, s, x + ax, y + by) {
                    let j = choose|j: int| 0 <= j < next.len() && char_lights(#[trigger] next[j], s, x + ax, y + by);
                    if j < k {
                        assert(prefix[j] == next[j]);
                    } else {
                        assert(next[j] == c);
                    }
                } else {
                    assert(!char_lights(next[k as int], s, x + ax, y + by));
                }
            }
        }
        k = k + 1;
    }
    proof {
        assert(chars@.subrange(0, n as int) =~= chars@);
    }
    Some(mask)
}

} // verus!
