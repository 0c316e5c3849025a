//! Coverage masks for text and text effects, and the operations on them:
//! separable box blurs (split into bands that workers can take), padding,
//! dilation, erosion and subtraction.
//!
//! A mask is a `width` x `height` grid of 8-bit coverages stored row by row,
//! placed at `(origin_x, origin_y)` in frame coordinates.

use vstd::prelude::*;

use crate::frame::{ceil_div, div_ceil_usize, max_int, min_int, sat_mul, saturating_mul_usize};

verus! {

/// Rows and columns of at most this many pixels keep the running sums of a
/// blur within `u32` (255 per pixel).
pub const MAX_BLUR_EXTENT: usize = 16_843_009;

/// The number of box-blur passes that a text blur is split into.
pub const TEXT_BLUR_PASS_COUNT: usize = 3;

/// The widest kernel reach of a dilation or erosion: squared offsets along
/// both axes must add up within `i32`.
pub const MAX_KERNEL_PAD: i32 = 32767;

/// At most this many workers share one blur.
pub const MAX_TEXT_EFFECT_WORKERS: usize = 8;

/// Masks with fewer pixels than this are blurred by a single worker.
pub const MIN_PARALLEL_BLUR_PIXELS: usize = 24_576;

/// An 8-bit coverage mask placed in frame coordinates.
#[derive(Clone, Debug)]
pub struct AlphaMask {
    pub origin_x: i32,
    pub origin_y: i32,
    pub width: usize,
    pub height: usize,
    pub alpha: Vec<u8>,
}

/// The mathematical model of a mask: its placement, its size and its
/// coverages row by row.
pub ghost struct MaskView {
    pub origin_x: int,
    pub origin_y: int,
    pub width: int,
    pub height: int,
    pub alpha: Seq<u8>,
}

impl MaskView {
    /// The coverage at local `(x, y)`, or 0 outside the grid.
    pub open spec fn at(self, x: int, y: int) -> u8 {
        if 0 <= x < self.width && 0 <= y < self.height {
            self.alpha[x + y * self.width]
        } else {
            0
        }
    }

    /// The coverages fill the grid exactly.
    pub open spec fn wf(self) -> bool {
        &&& 0 <= self.width
        &&& 0 <= self.height
        &&& self.alpha.len() == self.width * self.height
    }
}

impl View for AlphaMask {
    type V = MaskView;

    open spec fn view(&self) -> MaskView {
        MaskView {
            origin_x: self.origin_x as int,
            origin_y: self.origin_y as int,
            width: self.width as int,
            height: self.height as int,
            alpha: self.alpha@,
        }
    }
}

impl AlphaMask {
    /// The coverage grid holds exactly `width * height` values.
    pub open spec fn wf(&self) -> bool {
        self.alpha@.len() == self.width * self.height
    }

    /// An empty (all-zero) mask; a negative size counts as zero.
    pub fn new(origin_x: i32, origin_y: i32, width: i32, height: i32) -> (m: Self)
        requires
            max_int(width as int, 0) * max_int(height as int, 0) <= usize::MAX,
        ensures
            m.wf(),
            m.origin_x == origin_x,
            m.origin_y == origin_y,
            m.width as int == max_int(width as int, 0),
            m.height as int == max_int(height as int, 0),
            forall|i: int| 0 <= i < m.alpha@.len() ==> m.alpha@[i] == 0,
    {
        let w: usize = if width > 0 { width as usize } else { 0 };
        let h: usize = if height > 0 { height as usize } else { 0 };
        let len = saturating_mul_usize(w, h);
        AlphaMask { origin_x, origin_y, width: w, height: h, alpha: vec![0u8; len] }
    }

    /// The coverage at local `(x, y)`, or 0 outside the grid.
    pub open spec fn at(&self, x: int, y: int) -> u8 {
        if 0 <= x < self.width && 0 <= y < self.height {
            self.alpha@[x + y * self.width]
        } else {
            0
        }
    }

    /// The coverage at local `(x, y)`; 0 outside the grid.
    pub fn get(&self, x: i32, y: i32) -> (r: u8)
        requires
            self.wf(),
        ensures
            r == self.at(x as int, y as int),
    {
        if x < 0 || y < 0 || x as usize >= self.width || y as usize >= self.height {
            return 0;
        }
        let xu = x as usize;
        let yu = y as usize;
        let len = self.alpha.len();
        proof {
            lemma_grid_index(xu as int, yu as int, self.width as int, self.height as int);
            assert(xu + yu * self.width < len);
        }
        self.alpha[xu + yu * self.width]
    }

    /// Raises the coverage at local `(x, y)` to at least `alpha`; does
    /// nothing outside the grid.
    pub fn set_max(&mut self, x: i32, y: i32, alpha: u8)
        requires
            old(self).wf(),
        ensures
            final(self).wf(),
            final(self).origin_x == old(self).origin_x,
            final(self).origin_y == old(self).origin_y,
            final(self).width == old(self).width,
            final(self).height == old(self).height,
            forall|px: int, py: int|
                #![trigger final(self).at(px, py)]
                final(self).at(px, py) == (if px == x && py == y && 0 <= x < old(self).width && 0
                    <= y < old(self).height && old(self).at(px, py) < alpha {
                    alpha
                } else {
                    old(self).at(px, py)
                }),
    {
        if x < 0 || y < 0 || x as usize >= self.width || y as usize >= self.height {
            return;
        }
        let xu = x as usize;
        let yu = y as usize;
        let len = self.alpha.len();
        proof {
            lemma_grid_index(xu as int, yu as int, self.width as int, self.height as int);
            assert(xu + yu * self.width < len);
        }
        let index = xu + yu * self.width;
        let ghost before = self.alpha@;
        let current = self.alpha[index];
        if current < alpha {
            self.alpha.set(index, alpha);
        }
        proof {
            let w = self.width as int;
            let h = self.height as int;
            assert forall|px: int, py: int|
                #![trigger self.at(px, py)]
                0 <= px < w && 0 <= py < h && (px != x || py != y) implies self.alpha@[px + py * w]
                == before[px + py * w] by {
                lemma_grid_index_injective(px, py, xu as int, yu as int, w, h);
                lemma_grid_index(px, py, w, h);
            }
        }
    }
}

/// `x + y * w` addresses a cell of a `w` x `h` grid.
pub proof fn lemma_grid_index(x: int, y: int, w: int, h: int)
    requires
        0 <= x < w,
        0 <= y < h,
    ensures
        0 <= x + y * w < w * h,
        y * w + w <= w * h,
        y * w + x == x + y * w,
        (x + y * w) / w == y,
        (x + y * w) % w == x,
{
    assert(0 <= y * w && y * w + w <= w * h) by (nonlinear_arith)
        requires
            0 <= y < h,
            0 <= w,
    ;
    vstd::arithmetic::div_mod::lemma_fundamental_div_mod_converse(x + y * w, w, y, x);
}

/// The first `y` rows of a `w` x `h` grid fit in it.
pub proof fn lemma_rows_fit(y: int, w: int, h: int)
    requires
        0 <= y <= h,
        0 <= w,
    ensures
        0 <= y * w <= w * h,
{
    assert(0 <= y * w <= w * h) by (nonlinear_arith)
        requires
            0 <= y <= h,
            0 <= w,
    ;
}

/// Distinct cells of a grid have distinct indices.
pub proof fn lemma_grid_index_injective(x1: int, y1: int, x2: int, y2: int, w: int, h: int)
    requires
        0 <= x1 < w,
        0 <= y1 < h,
        0 <= x2 < w,
        0 <= y2 < h,
        x1 != x2 || y1 != y2,
    ensures
        x1 + y1 * w != x2 + y2 * w,
{
    lemma_grid_index(x1, y1, w, h);
    lemma_grid_index(x2, y2, w, h);
}

/// The same mask geometry with a new coverage grid.
pub fn alpha_mask_with_alpha(mask: &AlphaMask, alpha: Vec<u8>) -> (m: AlphaMask)
    ensures
        m.origin_x == mask.origin_x,
        m.origin_y == mask.origin_y,
        m.width == mask.width,
        m.height == mask.height,
        m.alpha@ == alpha@,
{
    AlphaMask {
        origin_x: mask.origin_x,
        origin_y: mask.origin_y,
        width: mask.width,
        height: mask.height,
        alpha,
    }
}

// ---------------------------------------------------------------------------
// Box blur model.
// ---------------------------------------------------------------------------

/// The sum of the first `k` values of `a`.
pub open spec fn prefix_sum(a: Seq<u8>, k: int) -> int
    decreases k,
{
    if k <= 0 {
        0
    } else {
        prefix_sum(a, k - 1) + a[k - 1] as int
    }
}

/// The sum of `a[lo..hi]`.
pub open spec fn range_sum(a: Seq<u8>, lo: int, hi: int) -> int {
    prefix_sum(a, hi) - prefix_sum(a, lo)
}

/// The window `lo..hi` of a box of the given radius around `pos`, clipped to
/// `0..len`.
pub open spec fn window_lo(pos: int, radius: int) -> int {
    max_int(pos - radius, 0)
}

pub open spec fn window_hi(pos: int, radius: int, len: int) -> int {
    min_int(pos + radius + 1, len)
}

/// The mean (rounded down) of the row `y` of a `w`-wide grid over the box of
/// the given radius around column `x`.
pub open spec fn horizontal_box(a: Seq<u8>, w: int, y: int, x: int, radius: int) -> int {
    let lo = window_lo(x, radius);
    let hi = window_hi(x, radius, w);
    range_sum(a, y * w + lo, y * w + hi) / (hi - lo)
}

/// The sum of the first `k` values of column `x` of a `w`-wide grid.
pub open spec fn column_prefix(a: Seq<u8>, w: int, x: int, k: int) -> int
    decreases k,
{
    if k <= 0 {
        0
    } else {
        column_prefix(a, w, x, k - 1) + a[(k - 1) * w + x] as int
    }
}

/// The mean (rounded down) of column `x` of a `w` x `h` grid over the box of
/// the given radius around row `y`.
pub open spec fn vertical_box(a: Seq<u8>, w: int, h: int, x: int, y: int, radius: int) -> int {
    let lo = window_lo(y, radius);
    let hi = window_hi(y, radius, h);
    (column_prefix(a, w, x, hi) - column_prefix(a, w, x, lo)) / (hi - lo)
}

/// A `w` x `h` grid blurred along its rows.
pub open spec fn hblur(a: Seq<u8>, w: int, h: int, radius: int) -> Seq<u8> {
    Seq::new((w * h) as nat, |i: int| horizontal_box(a, w, i / w, i % w, radius) as u8)
}

/// A `w` x `h` grid blurred along its columns.
pub open spec fn vblur(a: Seq<u8>, w: int, h: int, radius: int) -> Seq<u8> {
    Seq::new((w * h) as nat, |i: int| vertical_box(a, w, h, i % w, i / w, radius) as u8)
}

proof fn lemma_range_sum_bounds(a: Seq<u8>, lo: int, hi: int)
    requires
        0 <= lo <= hi <= a.len(),
    ensures
        0 <= range_sum(a, lo, hi) <= 255 * (hi - lo),
    decreases hi - lo,
{
    if hi > lo {
        lemma_range_sum_bounds(a, lo, hi - 1);
    }
}

proof fn lemma_column_bounds(a: Seq<u8>, w: int, h: int, x: int, lo: int, hi: int)
    requires
        0 <= x < w,
        0 <= lo <= hi <= h,
        a.len() == w * h,
    ensures
        0 <= column_prefix(a, w, x, hi) - column_prefix(a, w, x, lo) <= 255 * (hi - lo),
    decreases hi - lo,
{
    if hi > lo {
        lemma_column_bounds(a, w, h, x, lo, hi - 1);
        lemma_grid_index(x, hi - 1, w, h);
    }
}

proof fn lemma_mean_fits(sum: int, count: int)
    requires
        0 < count,
        0 <= sum <= 255 * count,
    ensures
        0 <= sum / count <= 255,
{
    assert(sum / count <= 255) by (nonlinear_arith)
        requires
            0 < count,
            0 <= sum <= 255 * count,
    ;
    assert(0 <= sum / count) by (nonlinear_arith)
        requires
            0 < count,
            0 <= sum,
    ;
}

// ---------------------------------------------------------------------------
// Blur bands.
// ---------------------------------------------------------------------------

/// Blurs rows `row_start..row_end` of a mask along the rows with a box of the
/// given radius, by running sums; gives those rows of the blurred grid.
pub fn blur_rows(mask: &AlphaMask, radius: usize, row_start: usize, row_end: usize) -> (out: Vec<u8>)
    requires
        mask.wf(),
        row_start <= row_end <= mask.height,
        mask.width <= MAX_BLUR_EXTENT,
        radius < usize::MAX - mask.width,
    ensures
        out@ == hblur(mask.alpha@, mask.width as int, mask.height as int, radius as int).subrange(
            row_start * mask.width,
            row_end * mask.width,
        ),
{
    let w = mask.width;
    let ghost a = mask.alpha@;
    let ghost h = mask.height as int;
    let ghost blurred = hblur(a, w as int, h, radius as int);
    let total = mask.alpha.len();
    assert(total == w * h);
    let mut out: Vec<u8> = Vec::new();
    let mut prefix: Vec<u32> = vec![0u32; w + 1];
    let mut y = row_start;
    proof {
        lemma_rows_fit(row_start as int, w as int, h);
        assert(blurred.subrange(row_start * w, row_start * w) =~= out@);
    }
    while y < row_end
        invariant
            row_start <= y <= row_end <= h,
            mask.wf(),
            w == mask.width,
            a == mask.alpha@,
            h == mask.height,
            w <= MAX_BLUR_EXTENT,
            radius < usize::MAX - w,
            prefix@.len() == w + 1,
            blurred == hblur(a, w as int, h, radius as int),
            blurred.len() == w * h,
            w * h <= usize::MAX,
            0 <= row_start * w <= y * w <= w * h,
            out@ == blurred.subrange(row_start * w, y * w),
        decreases row_end - y,
    {
        proof {
            assert(y * w + w <= w * h) by (nonlinear_arith)
                requires
                    y < h,
                    0 <= w,
            ;
        }
        let base = y * w;
        prefix.set(0, 0);
        let mut x: usize = 0;
        while x < w
            invariant
                0 <= x <= w,
                prefix@.len() == w + 1,
                base == y * w,
                base + w <= a.len(),
                a.len() == w * h,
                w * h <= usize::MAX,
                a == mask.alpha@,
                w == mask.width,
                w <= MAX_BLUR_EXTENT,
                forall|k: int| 0 <= k <= x ==> prefix@[k] == range_sum(a, base as int, base + k),
            decreases w - x,
        {
            proof {
                lemma_range_sum_bounds(a, base as int, base + x + 1);
            }
            prefix.set(x + 1, prefix[x] + mask.alpha[base + x] as u32);
            x = x + 1;
        }
        let mut x: usize = 0;
        while x < w
            invariant
                0 <= x <= w,
                row_start <= y < row_end <= h,
                prefix@.len() == w + 1,
                base == y * w,
                base + w <= w * h,
                a.len() == w * h,
                w == mask.width,
                w <= MAX_BLUR_EXTENT,
                radius < usize::MAX - w,
                forall|k: int| 0 <= k <= w ==> prefix@[k] == range_sum(a, base as int, base + k),
                blurred == hblur(a, w as int, h, radius as int),
                blurred.len() == w * h,
                0 <= row_start * w <= y * w,
                out@ == blurred.subrange(row_start * w, y * w + x),
            decreases w - x,
        {
            let left = x.saturating_sub(radius);
            let reach = x + radius + 1;
            let right = if reach < w { reach } else { w };
            proof {
                lemma_range_sum_bounds(a, base + left, base + right);
            }
            let sum = prefix[right] - prefix[left];
            let count = (right - left) as u32;
            proof {
                lemma_mean_fits(sum as int, count as int);
                lemma_grid_index(x as int, y as int, w as int, h);
                assert(blurred[y * w + x] == horizontal_box(a, w as int, y as int, x as int, radius as int) as u8);
            }
            let value = (sum / count) as u8;
            out.push(value);
            proof {
                assert(out@ =~= blurred.subrange(row_start * w, y * w + x + 1));
            }
            x = x + 1;
        }
        y = y + 1;
        proof {
            assert((y - 1) * w + w == y * w) by (nonlinear_arith);
            lemma_rows_fit(y as int, w as int, h);
        }
    }
    out
}

/// Blurs columns `column_start..column_end` of a mask along the columns with
/// a box of the given radius; the result is a grid of those columns, row by
/// row.
pub fn blur_columns(mask: &AlphaMask, radius: usize, column_start: usize, column_end: usize) -> (out:
    Vec<u8>)
    requires
        mask.wf(),
        column_start <= column_end <= mask.width,
        mask.height <= MAX_BLUR_EXTENT,
        radius < usize::MAX - mask.height,
    ensures
        out@.len() == (column_end - column_start) * mask.height,
        forall|y: int, lx: int|
            0 <= y < mask.height && 0 <= lx < column_end - column_start ==> #[trigger] out@[lx + y
                * (column_end - column_start)] == vblur(
                mask.alpha@,
                mask.width as int,
                mask.height as int,
                radius as int,
            )[(column_start + lx) + y * mask.width],
{
    let w = mask.width;
    let h = mask.height;
    let chunk_width = column_end - column_start;
    let ghost a = mask.alpha@;
    let ghost blurred = vblur(a, w as int, h as int, radius as int);
    let total = mask.alpha.len();
    assert(total == w * h);
    proof {
        assert(chunk_width * h <= w * h) by (nonlinear_arith)
            requires
                chunk_width <= w,
        ;
    }
    let mut out: Vec<u8> = vec![0u8; chunk_width * h];
    let mut prefix: Vec<u32> = vec![0u32; h + 1];
    let mut x = column_start;
    while x < column_end
        invariant
            column_start <= x <= column_end <= w,
            chunk_width == column_end - column_start,
            mask.wf(),
            w == mask.width,
            h == mask.height,
            a == mask.alpha@,
            h <= MAX_BLUR_EXTENT,
            radius < usize::MAX - h,
            prefix@.len() == h + 1,
            out@.len() == chunk_width * h,
            w * h <= usize::MAX,
            chunk_width * h <= w * h,
            blurred == vblur(a, w as int, h as int, radius as int),
            blurred.len() == w * h,
            forall|yy: int, lx: int|
                0 <= yy < h && 0 <= lx < x - column_start ==> #[trigger] out@[lx + yy * chunk_width]
                    == blurred[(column_start + lx) + yy * w],
        decreases column_end - x,
    {
        let local_x = x - column_start;
        prefix.set(0, 0);
        let mut y: usize = 0;
        while y < h
            invariant
                0 <= y <= h,
                x < w,
                prefix@.len() == h + 1,
                a == mask.alpha@,
                a.len() == w * h,
                w * h <= usize::MAX,
                w == mask.width,
                h <= MAX_BLUR_EXTENT,
                forall|k: int| 0 <= k <= y ==> prefix@[k] == column_prefix(a, w as int, x as int, k),
            decreases h - y,
        {
            proof {
                lemma_column_bounds(a, w as int, h as int, x as int, 0, y + 1);
                lemma_grid_index(x as int, y as int, w as int, h as int);
            }
            prefix.set(y + 1, prefix[y] + mask.alpha[x + y * w] as u32);
            y = y + 1;
        }
        let mut y: usize = 0;
        while y < h
            invariant
                0 <= y <= h,
                column_start <= x < column_end <= w,
                local_x == x - column_start,
                chunk_width == column_end - column_start,
                prefix@.len() == h + 1,
                a.len() == w * h,
                w * h <= usize::MAX,
                chunk_width * h <= w * h,
                h <= MAX_BLUR_EXTENT,
                radius < usize::MAX - h,
                out@.len() == chunk_width * h,
                blurred.len() == w * h,
                forall|k: int| 0 <= k <= h ==> prefix@[k] == column_prefix(a, w as int, x as int, k),
                blurred == vblur(a, w as int, h as int, radius as int),
                forall|yy: int, lx: int|
                    0 <= yy < h && 0 <= lx < local_x ==> #[trigger] out@[lx + yy * chunk_width]
                        == blurred[(column_start + lx) + yy * w],
                forall|yy: int|
                    0 <= yy < y ==> #[trigger] out@[local_x + yy * chunk_width] == blurred[x + yy
                        * w],
            decreases h - y,
        {
            let top = y.saturating_sub(radius);
            let reach = y + radius + 1;
            let bottom = if reach < h { reach } else { h };
            proof {
                lemma_column_bounds(a, w as int, h as int, x as int, top as int, bottom as int);
            }
            let sum = prefix[bottom] - prefix[top];
            let count = (bottom - top) as u32;
            proof {
                lemma_mean_fits(sum as int, count as int);
                lemma_grid_index(local_x as int, y as int, chunk_width as int, h as int);
                lemma_grid_index(x as int, y as int, w as int, h as int);
                assert(blurred[x + y * w] == vertical_box(a, w as int, h as int, x as int, y as int, radius as int) as u8);
            }
            let index = local_x + y * chunk_width;
            let ghost before = out@;
            out.set(index, (sum / count) as u8);
            proof {
                assert forall|yy: int, lx: int|
                    0 <= yy < h && 0 <= lx < local_x implies #[trigger] out@[lx + yy * chunk_width]
                        == blurred[(column_start + lx) + yy * w] by {
                    lemma_grid_index_injective(lx, yy, local_x as int, y as int, chunk_width as int, h as int);
                    lemma_grid_index(lx, yy, chunk_width as int, h as int);
                    assert(out@[lx + yy * chunk_width] == before[lx + yy * chunk_width]);
                }
                assert forall|yy: int|
                    0 <= yy < y + 1 implies #[trigger] out@[local_x + yy * chunk_width] == blurred[x
                        + yy * w] by {
                    if yy < y {
                        lemma_grid_index_injective(local_x as int, yy, local_x as int, y as int, chunk_width as int, h as int);
                        lemma_grid_index(local_x as int, yy, chunk_width as int, h as int);
                    }
                }
            }
            y = y + 1;
        }
        x = x + 1;
    }
    out
}

// ---------------------------------------------------------------------------
// Blur passes.
// ---------------------------------------------------------------------------

/// The radii of the box passes that a blur of the given radius is split
/// into: up to three passes whose radii differ by at most one, the larger
/// first.
pub open spec fn pass_radii(radius: int) -> Seq<int> {
    if radius <= 0 {
        Seq::empty()
    } else {
        let count = min_int(TEXT_BLUR_PASS_COUNT as int, radius);
        let base = radius / count;
        let remainder = radius % count;
        Seq::new(count as nat, |i: int| base + if i < remainder { 1int } else { 0int })
    }
}

/// The sum of a sequence of integers.
pub open spec fn seq_sum(s: Seq<int>) -> int
    decreases s.len(),
{
    if s.len() == 0 {
        0
    } else {
        seq_sum(s.drop_last()) + s.last()
    }
}

/// The passes of a blur add up to the requested radius, and each pass has a
/// positive radius.
pub proof fn lemma_pass_radii_sum(radius: int)
    requires
        radius > 0,
    ensures
        seq_sum(pass_radii(radius)) == radius,
        1 <= pass_radii(radius).len() <= TEXT_BLUR_PASS_COUNT,
        forall|i: int| 0 <= i < pass_radii(radius).len() ==> 1 <= #[trigger] pass_radii(radius)[i] <= radius,
{
    let s = pass_radii(radius);
    let count = min_int(TEXT_BLUR_PASS_COUNT as int, radius);
    let base = radius / count;
    let remainder = radius % count;
    assert(radius == count * base + remainder && 0 <= remainder < count) by (nonlinear_arith)
        requires
            count > 0,
            base == radius / count,
            remainder == radius % count,
    ;
    assert(base >= 1) by (nonlinear_arith)
        requires
            count <= radius,
            count > 0,
            base == radius / count,
    ;
    assert(remainder > 0 ==> base + 1 <= radius) by (nonlinear_arith)
        requires
            radius == count * base + remainder,
            base >= 1,
            0 <= remainder < count,
    ;
    let s1 = s.drop_last();
    let s2 = s1.drop_last();
    if count == 1 {
        assert(radius == 1);
        assert(base == 1 && remainder == 0);
        assert(s1 =~= Seq::<int>::empty());
        assert(seq_sum(s) == seq_sum(s1) + s[0]);
    } else if count == 2 {
        assert(radius == 2);
        assert(base == 1 && remainder == 0) by (nonlinear_arith)
            requires
                radius == 2,
                count == 2,
                base == radius / count,
                remainder == radius % count,
        ;
        assert(s2 =~= Seq::<int>::empty());
        assert(seq_sum(s1) == seq_sum(s2) + s[0]);
        assert(seq_sum(s) == seq_sum(s1) + s[1]);
    } else {
        let s3 = s2.drop_last();
        assert(radius == 3 * base + remainder) by (nonlinear_arith)
            requires
                count == 3,
                radius == count * base + remainder,
        ;
        assert(s3 =~= Seq::<int>::empty());
        assert(seq_sum(s2) == seq_sum(s3) + s[0]);
        assert(seq_sum(s1) == seq_sum(s2) + s[1]);
        assert(seq_sum(s) == seq_sum(s1) + s[2]);
        assert(s[0] == base + if 0 < remainder { 1int } else { 0int });
        assert(s[1] == base + if 1 < remainder { 1int } else { 0int });
        assert(s[2] == base);
        assert(seq_sum(s3) == 0);
        assert(seq_sum(s) == s[0] + s[1] + s[2]);
    }
}

/// The radii of the box passes of a blur of the given radius.
pub fn blur_pass_radii(radius: usize) -> (radii: Vec<usize>)
    ensures
        radii@.len() == pass_radii(radius as int).len(),
        forall|i: int| 0 <= i < radii@.len() ==> radii@[i] as int == #[trigger] pass_radii(radius as int)[i],
{
    let mut radii: Vec<usize> = Vec::new();
    if radius == 0 {
        return radii;
    }
    let count = if TEXT_BLUR_PASS_COUNT < radius { TEXT_BLUR_PASS_COUNT } else { radius };
    let base = radius / count;
    let remainder = radius % count;
    proof {
        lemma_pass_radii_sum(radius as int);
        assert(remainder > 0 ==> base + 1 <= radius) by (nonlinear_arith)
            requires
                0 < count <= radius,
                base == radius / count,
                remainder == radius % count,
        ;
    }
    let mut index: usize = 0;
    while index < count
        invariant
            0 <= index <= count,
            count as int == min_int(TEXT_BLUR_PASS_COUNT as int, radius as int),
            base as int == radius as int / count as int,
            remainder as int == radius as int % count as int,
            radius > 0,
            count <= TEXT_BLUR_PASS_COUNT,
            remainder > 0 ==> base + 1 <= radius,
            radii@.len() == index,
            forall|i: int| 0 <= i < index ==> radii@[i] as int == #[trigger] pass_radii(radius as int)[i],
        decreases count - index,
    {
        let extra: usize = if index < remainder { 1 } else { 0 };
        radii.push(base + extra);
        index = index + 1;
    }
    radii
}

// ---------------------------------------------------------------------------
// Whole-mask blurs, split into bands.
// ---------------------------------------------------------------------------

/// How many workers share `extent` rows (or columns): the requested count,
/// at least one and at most one per row.
pub open spec fn band_workers(extent: int, worker_count: int) -> int {
    min_int(max_int(worker_count, 1), max_int(extent, 1))
}

/// The number of rows (or columns) in each band but the last.
pub open spec fn band_size(extent: int, worker_count: int) -> int {
    ceil_div(extent, band_workers(extent, worker_count))
}

/// The band that holds row (or column) `y`.
pub open spec fn band_of(y: int, extent: int, worker_count: int) -> int {
    y / band_size(extent, worker_count)
}

/// The bands of `extent` rows (or columns) split among workers partition
/// them: every row `y` lies in the band `band_of(y, ..)`, which is one of
/// the bands, and in no other band.
pub proof fn lemma_bands_partition(extent: int, worker_count: int, y: int, other: int)
    requires
        0 <= y < extent,
    ensures
        ({
            let size = band_size(extent, worker_count);
            let band = band_of(y, extent, worker_count);
            &&& size >= 1
            &&& 0 <= band < ceil_div(extent, size)
            &&& band * size <= y < min_int((band + 1) * size, extent)
            &&& (0 <= other < ceil_div(extent, size) && other * size <= y < min_int(
                (other + 1) * size,
                extent,
            )) ==> other == band
        }),
{
    let workers = band_workers(extent, worker_count);
    let size = band_size(extent, worker_count);
    assert(1 <= workers <= extent);
    assert(size >= 1) by (nonlinear_arith)
        requires
            size == (extent + workers - 1) / workers,
            1 <= workers <= extent,
    ;
    let band = y / size;
    assert(0 <= band && band * size <= y < (band + 1) * size) by (nonlinear_arith)
        requires
            band == y / size,
            size >= 1,
            y >= 0,
    ;
    assert(band < (extent + size - 1) / size) by (nonlinear_arith)
        requires
            band == y / size,
            size >= 1,
            0 <= y < extent,
    {
        assert((extent + size - 1) / size * size > extent - 1);
    }
    if 0 <= other && other * size <= y && y < (other + 1) * size {
        assert(other == band) by (nonlinear_arith)
            requires
                band * size <= y < (band + 1) * size,
                other * size <= y < (other + 1) * size,
                size >= 1,
        {
            if other < band {
                assert((other + 1) * size <= band * size);
            } else if other > band {
                assert((band + 1) * size <= other * size);
            }
        }
    }
}

/// The bands that `worker_count` workers take of `extent` rows or columns:
/// `(start, end)` pairs of consecutive runs of `band_size` that cover
/// `0..extent`.
pub fn blur_bands(extent: usize, worker_count: usize) -> (bands: Vec<(usize, usize)>)
    ensures
        bands@.len() == (if extent == 0 { 0 } else { ceil_div(extent as int, band_size(extent as int, worker_count as int)) }),
        bands@.len() <= band_workers(extent as int, worker_count as int),
        forall|i: int|
            0 <= i < bands@.len() ==> {
                &&& (#[trigger] bands@[i]).0 == i * band_size(extent as int, worker_count as int)
                &&& bands@[i].1 == min_int((i + 1) * band_size(extent as int, worker_count as int), extent as int)
                &&& bands@[i].0 < bands@[i].1
            },
{
    let workers_floor = if worker_count > 1 { worker_count } else { 1 };
    let extent_floor = if extent > 1 { extent } else { 1 };
    let workers = if workers_floor < extent_floor { workers_floor } else { extent_floor };
    let size = div_ceil_usize(extent, workers);
    let ghost size_i = size as int;
    let mut bands: Vec<(usize, usize)> = Vec::new();
    if extent == 0 {
        return bands;
    }
    proof {
        assert(size_i >= 1 && size_i * workers >= extent && size_i <= extent) by (nonlinear_arith)
            requires
                1 <= workers <= extent,
                size_i == (extent + workers - 1) / workers as int,
        ;
    }
    let mut start: usize = 0;
    let mut index: usize = 0;
    while start < extent
        invariant
            1 <= size <= extent,
            size == size_i,
            size_i == band_size(extent as int, worker_count as int),
            workers == band_workers(extent as int, worker_count as int),
            size_i * workers >= extent,
            start == min_int(index * size_i, extent as int),
            index > 0 ==> (index - 1) * size_i < extent,
            bands@.len() == index,
            forall|i: int|
                0 <= i < index ==> {
                    &&& (#[trigger] bands@[i]).0 == i * size_i
                    &&& bands@[i].1 == min_int((i + 1) * size_i, extent as int)
                    &&& bands@[i].0 < bands@[i].1
                },
        decreases extent - start,
    {
        proof {
            assert((index + 1) * size_i == index * size_i + size_i) by (nonlinear_arith);
            assert(index * size_i >= index) by (nonlinear_arith)
                requires
                    size_i >= 1,
                    index >= 0,
            ;
        }
        let end = if size < extent - start { start + size } else { extent };
        bands.push((start, end));
        start = end;
        index = index + 1;
    }
    proof {
        assert(index == ceil_div(extent as int, size_i) && index <= workers) by (nonlinear_arith)
            requires
                index * size_i >= extent,
                (index - 1) * size_i < extent,
                size_i * workers >= extent,
                size_i >= 1,
                index >= 1,
        ;
    }
    bands
}

/// Every index of a `w` x `h` grid is the cell `(i % w, i / w)`.
pub proof fn lemma_grid_cell(i: int, w: int, h: int)
    requires
        0 <= w,
        0 <= h,
        0 <= i < w * h,
    ensures
        0 <= i % w < w,
        0 <= i / w < h,
        i == i % w + (i / w) * w,
{
    assert(w > 0) by (nonlinear_arith)
        requires
            0 <= i < w * h,
            0 <= w,
            0 <= h,
    ;
    assert(0 <= i % w < w && i == i % w + (i / w) * w && 0 <= i / w) by (nonlinear_arith)
        requires
            w > 0,
            0 <= i,
    ;
    assert(i / w < h) by (nonlinear_arith)
        requires
            w > 0,
            0 <= i < w * h,
            i == i % w + (i / w) * w,
            0 <= i % w,
    ;
}

/// A mask blurred along its rows with a box of the given radius; the rows
/// are taken in the bands that `worker_count` workers would share, and the
/// result is the same for every worker count.
pub fn blur_mask_horizontally(mask: &AlphaMask, radius: usize, worker_count: usize) -> (m: AlphaMask)
    requires
        mask.wf(),
        mask.width <= MAX_BLUR_EXTENT,
        radius < usize::MAX - mask.width,
    ensures
        m.wf(),
        m.origin_x == mask.origin_x,
        m.origin_y == mask.origin_y,
        m.width == mask.width,
        m.height == mask.height,
        m.alpha@ == hblur(mask.alpha@, mask.width as int, mask.height as int, radius as int),
{
    let w = mask.width;
    let h = mask.height;
    let ghost blurred = hblur(mask.alpha@, w as int, h as int, radius as int);
    let ghost size = band_size(h as int, worker_count as int);
    let total = mask.alpha.len();
    assert(total == w * h);
    let bands = blur_bands(h, worker_count);
    let mut alpha: Vec<u8> = Vec::new();
    let mut done: usize = 0;
    let mut i: usize = 0;
    proof {
        assert(blurred.subrange(0, 0) =~= alpha@);
        if h > 0 {
            assert(size >= 1) by (nonlinear_arith)
                requires
                    size == ceil_div(h as int, band_workers(h as int, worker_count as int)),
                    band_workers(h as int, worker_count as int) >= 1,
                    h >= 1,
            ;
        }
    }
    while i < bands.len()
        invariant
            mask.wf(),
            w == mask.width,
            h == mask.height,
            w <= MAX_BLUR_EXTENT,
            radius < usize::MAX - w,
            blurred == hblur(mask.alpha@, w as int, h as int, radius as int),
            h > 0 ==> size >= 1,
            bands@.len() == (if h == 0 { 0 } else { ceil_div(h as int, size) }),
            size == band_size(h as int, worker_count as int),
            forall|j: int|
                0 <= j < bands@.len() ==> {
                    &&& (#[trigger] bands@[j]).0 == j * size
                    &&& bands@[j].1 == min_int((j + 1) * size, h as int)
                    &&& bands@[j].0 < bands@[j].1
                },
            0 <= i <= bands@.len(),
            done == min_int(i * size, h as int),
            blurred.len() == w * h,
            0 <= done * w <= w * h,
            alpha@ == blurred.subrange(0, done * w),
        decreases bands@.len() - i,
    {
        let (row_start, row_end) = bands[i];
        proof {
            assert(row_start == done);
        }
        let mut chunk = blur_rows(mask, radius, row_start, row_end);
        proof {
            lemma_rows_fit(row_start as int, w as int, h as int);
            lemma_rows_fit(row_end as int, w as int, h as int);
            assert(row_start * w <= row_end * w) by (nonlinear_arith)
                requires
                    row_start <= row_end,
            ;
            assert(blurred.subrange(0, row_start * w) + blurred.subrange(row_start * w, row_end * w)
                =~= blurred.subrange(0, row_end * w));
        }
        alpha.append(&mut chunk);
        done = row_end;
        proof {
            lemma_rows_fit(done as int, w as int, h as int);
        }
        i = i + 1;
    }
    proof {
        if h > 0 {
            assert(bands@.len() * size >= h) by (nonlinear_arith)
                requires
                    bands@.len() == ceil_div(h as int, size),
                    size >= 1,
            ;
        }
        assert(done == h);
        assert(done * w == w * h) by (nonlinear_arith)
            requires
                done == h,
        ;
        assert(blurred.subrange(0, done * w) =~= blurred);
    }
    alpha_mask_with_alpha(mask, alpha)
}

/// Writes a band of blurred columns `column_start..column_end` (a grid of
/// that width, row by row) into a `width` x `height` grid.
pub fn place_column_band(
    alpha: &mut Vec<u8>,
    width: usize,
    height: usize,
    column_start: usize,
    column_end: usize,
    chunk: &Vec<u8>,
)
    requires
        old(alpha)@.len() == width * height,
        column_start <= column_end <= width,
        chunk@.len() == (column_end - column_start) * height,
    ensures
        final(alpha)@.len() == width * height,
        forall|x: int, y: int|
            0 <= x < width && 0 <= y < height ==> #[trigger] final(alpha)@[x + y * width] == if column_start
                <= x < column_end {
                chunk@[(x - column_start) + y * (column_end - column_start)]
            } else {
                old(alpha)@[x + y * width]
            },
{
    let chunk_width = column_end - column_start;
    let ghost original = alpha@;
    let chunk_len = chunk.len();
    let alpha_len = alpha.len();
    let mut y: usize = 0;
    while y < height
        invariant
            0 <= y <= height,
            alpha@.len() == width * height,
            original.len() == width * height,
            column_start <= column_end <= width,
            chunk_width == column_end - column_start,
            chunk@.len() == chunk_width * height,
            chunk_width * height <= usize::MAX,
            width * height <= usize::MAX,
            forall|x: int, yy: int|
                0 <= x < width && 0 <= yy < height ==> #[trigger] alpha@[x + yy * width] == if column_start
                    <= x < column_end && yy < y {
                    chunk@[(x - column_start) + yy * chunk_width]
                } else {
                    original[x + yy * width]
                },
        decreases height - y,
    {
        let mut local_x: usize = 0;
        while local_x < chunk_width
            invariant
                0 <= y < height,
                0 <= local_x <= chunk_width,
                alpha@.len() == width * height,
                original.len() == width * height,
                column_start <= column_end <= width,
                chunk_width == column_end - column_start,
                chunk@.len() == chunk_width * height,
                chunk_width * height <= usize::MAX,
                width * height <= usize::MAX,
                forall|x: int, yy: int|
                    0 <= x < width && 0 <= yy < height ==> #[trigger] alpha@[x + yy * width] == if column_start
                        <= x < column_end && (yy < y || (yy == y && x < column_start + local_x)) {
                        chunk@[(x - column_start) + yy * chunk_width]
                    } else {
                        original[x + yy * width]
                    },
            decreases chunk_width - local_x,
        {
            let x = column_start + local_x;
            proof {
                lemma_grid_index(x as int, y as int, width as int, height as int);
                lemma_grid_index(local_x as int, y as int, chunk_width as int, height as int);
            }
            let value = chunk[local_x + y * chunk_width];
            let ghost before = alpha@;
            alpha.set(x + y * width, value);
            proof {
                assert forall|xx: int, yy: int|
                    0 <= xx < width && 0 <= yy < height implies #[trigger] alpha@[xx + yy * width] == if column_start
                        <= xx < column_end && (yy < y || (yy == y && xx < column_start + local_x + 1)) {
                        chunk@[(xx - column_start) + yy * chunk_width]
                    } else {
                        original[xx + yy * width]
                    } by {
                    if xx != x || yy != y {
                        lemma_grid_index_injective(xx, yy, x as int, y as int, width as int, height as int);
                        lemma_grid_index(xx, yy, width as int, height as int);
                        assert(alpha@[xx + yy * width] == before[xx + yy * width]);
                    }
                }
            }
            local_x = local_x + 1;
        }
        y = y + 1;
    }
}

/// A mask blurred along its columns with a box of the given radius; the
/// columns are taken in the bands that `worker_count` workers would share,
/// and the result is the same for every worker count.
pub fn blur_mask_vertically(mask: &AlphaMask, radius: usize, worker_count: usize) -> (m: AlphaMask)
    requires
        mask.wf(),
        mask.height <= MAX_BLUR_EXTENT,
        radius < usize::MAX - mask.height,
    ensures
        m.wf(),
        m.origin_x == mask.origin_x,
        m.origin_y == mask.origin_y,
        m.width == mask.width,
        m.height == mask.height,
        m.alpha@ == vblur(mask.alpha@, mask.width as int, mask.height as int, radius as int),
{
    let w = mask.width;
    let h = mask.height;
    let ghost blurred = vblur(mask.alpha@, w as int, h as int, radius as int);
    let ghost size = band_size(w as int, worker_count as int);
    let bands = blur_bands(w, worker_count);
    let total = mask.alpha.len();
    let mut alpha: Vec<u8> = vec![0u8; total];
    let mut done: usize = 0;
    let mut i: usize = 0;
    proof {
        if w > 0 {
            assert(size >= 1) by (nonlinear_arith)
                requires
                    size == ceil_div(w as int, band_workers(w as int, worker_count as int)),
                    band_workers(w as int, worker_count as int) >= 1,
                    w >= 1,
            ;
        }
    }
    while i < bands.len()
        invariant
            mask.wf(),
            w == mask.width,
            h == mask.height,
            h <= MAX_BLUR_EXTENT,
            radius < usize::MAX - h,
            blurred == vblur(mask.alpha@, w as int, h as int, radius as int),
            w > 0 ==> size >= 1,
            bands@.len() == (if w == 0 { 0 } else { ceil_div(w as int, size) }),
            size == band_size(w as int, worker_count as int),
            forall|j: int|
                0 <= j < bands@.len() ==> {
                    &&& (#[trigger] bands@[j]).0 == j * size
                    &&& bands@[j].1 == min_int((j + 1) * size, w as int)
                    &&& bands@[j].0 < bands@[j].1
                },
            0 <= i <= bands@.len(),
            done == min_int(i * size, w as int),
            alpha@.len() == w * h,
            forall|x: int, y: int|
                0 <= x < done && 0 <= y < h ==> #[trigger] alpha@[x + y * w] == blurred[x + y * w],
        decreases bands@.len() - i,
    {
        let (column_start, column_end) = bands[i];
        proof {
            assert(column_start == done);
        }
        let chunk = blur_columns(mask, radius, column_start, column_end);
        let ghost before = alpha@;
        place_column_band(&mut alpha, w, h, column_start, column_end, &chunk);
        proof {
            assert forall|x: int, y: int|
                0 <= x < column_end && 0 <= y < h implies #[trigger] alpha@[x + y * w] == blurred[x + y * w] by {
                if x >= column_start {
                    let lx = x - column_start;
                    assert(chunk@[lx + y * (column_end - column_start)] == blurred[(column_start + lx) + y * w]);
                } else {
                    assert(before[x + y * w] == blurred[x + y * w]);
                }
            }
        }
        done = column_end;
        i = i + 1;
    }
    proof {
        if w > 0 {
            assert(bands@.len() * size >= w) by (nonlinear_arith)
                requires
                    bands@.len() == ceil_div(w as int, size),
                    size >= 1,
            ;
        }
        assert(done == w);
        assert forall|k: int| 0 <= k < w * h implies alpha@[k] == blurred[k] by {
            lemma_grid_cell(k, w as int, h as int);
            let x = k % (w as int);
            let y = k / (w as int);
            assert(alpha@[x + y * w] == blurred[x + y * w]);
        }
        assert(alpha@ =~= blurred);
    }
    alpha_mask_with_alpha(mask, alpha)
}

/// The coverage grid after the box passes `radii`, each a row pass followed
/// by a column pass.
pub open spec fn blur_passes(a: Seq<u8>, w: int, h: int, radii: Seq<int>) -> Seq<u8>
    decreases radii.len(),
{
    if radii.len() == 0 {
        a
    } else {
        let r = radii.last();
        vblur(hblur(blur_passes(a, w, h, radii.drop_last()), w, h, r), w, h, r)
    }
}

/// The coverage grid of a `w` x `h` mask after a blur of the given radius.
pub open spec fn blurred_alpha(a: Seq<u8>, w: int, h: int, radius: int) -> Seq<u8> {
    blur_passes(a, w, h, pass_radii(radius))
}

/// A mask blurred with a kernel of the given radius; a zero radius or an
/// empty mask leaves it as it is.
pub open spec fn blurred(v: MaskView, radius: int) -> MaskView {
    if radius == 0 || v.width == 0 || v.height == 0 {
        v
    } else {
        MaskView { alpha: blurred_alpha(v.alpha, v.width, v.height, radius), ..v }
    }
}

/// A copy of a mask.
pub fn copy_mask(mask: &AlphaMask) -> (m: AlphaMask)
    ensures
        m.origin_x == mask.origin_x,
        m.origin_y == mask.origin_y,
        m.width == mask.width,
        m.height == mask.height,
        m.alpha@ == mask.alpha@,
{
    let alpha = mask.alpha.clone();
    proof {
        assert(alpha@ =~= mask.alpha@);
    }
    alpha_mask_with_alpha(mask, alpha)
}

/// A mask blurred with the passes of the given radius, the bands of each
/// pass shared by `worker_count` workers. The result does not depend on the
/// worker count.
pub fn blur_mask_with_workers(mask: &AlphaMask, radius: usize, worker_count: usize) -> (m: AlphaMask)
    requires
        mask.wf(),
        mask.width <= MAX_BLUR_EXTENT,
        mask.height <= MAX_BLUR_EXTENT,
        radius < usize::MAX - mask.width,
        radius < usize::MAX - mask.height,
    ensures
        m.wf(),
        m.origin_x == mask.origin_x,
        m.origin_y == mask.origin_y,
        m.width == mask.width,
        m.height == mask.height,
        m.alpha@ == blurred_alpha(mask.alpha@, mask.width as int, mask.height as int, radius as int),
{
    let ghost a = mask.alpha@;
    let ghost w = mask.width as int;
    let ghost h = mask.height as int;
    let ghost radii_spec = pass_radii(radius as int);
    let radii = blur_pass_radii(radius);
    let mut blurred = copy_mask(mask);
    if radius > 0 {
        proof {
            lemma_pass_radii_sum(radius as int);
        }
    }
    let mut i: usize = 0;
    proof {
        assert(radii_spec.subrange(0, 0) =~= Seq::<int>::empty());
    }
    while i < radii.len()
        invariant
            0 <= i <= radii@.len(),
            radii@.len() == radii_spec.len(),
            radii_spec == pass_radii(radius as int),
            forall|j: int| 0 <= j < radii@.len() ==> radii@[j] as int == #[trigger] radii_spec[j],
            forall|j: int| 0 <= j < radii_spec.len() ==> 1 <= #[trigger] radii_spec[j] <= radius,
            blurred.wf(),
            blurred.origin_x == mask.origin_x,
            blurred.origin_y == mask.origin_y,
            blurred.width == w,
            blurred.height == h,
            w <= MAX_BLUR_EXTENT,
            h <= MAX_BLUR_EXTENT,
            radius < usize::MAX - w,
            radius < usize::MAX - h,
            blurred.alpha@ == blur_passes(a, w, h, radii_spec.subrange(0, i as int)),
        decreases radii@.len() - i,
    {
        let pass_radius = radii[i];
        proof {
            assert(pass_radius == radii_spec[i as int]);
        }
        let across = blur_mask_horizontally(&blurred, pass_radius, worker_count);
        blurred = blur_mask_vertically(&across, pass_radius, worker_count);
        proof {
            let next = radii_spec.subrange(0, i + 1);
            assert(next.drop_last() =~= radii_spec.subrange(0, i as int));
            assert(next.last() == pass_radius);
        }
        i = i + 1;
    }
    proof {
        assert(radii_spec.subrange(0, i as int) =~= radii_spec);
    }
    blurred
}

/// How many workers blur a mask: one for a small mask, else the machine's
/// parallelism capped at `MAX_TEXT_EFFECT_WORKERS`, and never zero.
pub fn blur_worker_count(mask: &AlphaMask, parallelism: usize) -> (r: usize)
    ensures
        r == (if sat_mul(mask.width as int, mask.height as int) < MIN_PARALLEL_BLUR_PIXELS {
            1
        } else {
            max_int(min_int(parallelism as int, MAX_TEXT_EFFECT_WORKERS as int), 1)
        }),
{
    let total_pixels = saturating_mul_usize(mask.width, mask.height);
    if total_pixels < MIN_PARALLEL_BLUR_PIXELS {
        return 1;
    }
    let capped = if parallelism < MAX_TEXT_EFFECT_WORKERS { parallelism } else { MAX_TEXT_EFFECT_WORKERS };
    if capped > 1 { capped } else { 1 }
}

/// A mask blurred with a kernel of the given radius (the blur radius
/// rounded up); a zero radius or an empty mask gives the mask unchanged.
pub fn blur_mask(mask: &AlphaMask, radius: usize, parallelism: usize) -> (m: AlphaMask)
    requires
        mask.wf(),
        mask.width <= MAX_BLUR_EXTENT,
        mask.height <= MAX_BLUR_EXTENT,
        radius < usize::MAX - mask.width,
        radius < usize::MAX - mask.height,
    ensures
        m.wf(),
        m.origin_x == mask.origin_x,
        m.origin_y == mask.origin_y,
        m.width == mask.width,
        m.height == mask.height,
        m@ == blurred(mask@, radius as int),
{
    if radius == 0 || mask.width == 0 || mask.height == 0 {
        return copy_mask(mask);
    }
    let worker_count = blur_worker_count(mask, parallelism);
    blur_mask_with_workers(mask, radius, worker_count)
}

// ---------------------------------------------------------------------------
// Padding, dilation, erosion and subtraction.
// ---------------------------------------------------------------------------

/// The offset `(dx, dy)` lies in the disk kernel: within `pad` on each axis
/// and at squared distance at most `reach_squared`.
pub open spec fn in_disk(dx: int, dy: int, pad: int, reach_squared: int) -> bool {
    -pad <= dx <= pad && -pad <= dy <= pad && dx * dx + dy * dy <= reach_squared
}

/// `v` is the largest coverage of `m` over the disk kernel around local
/// `(cx, cy)`.
pub open spec fn is_disk_max(m: MaskView, cx: int, cy: int, pad: int, reach_squared: int, v: int) -> bool {
    &&& forall|dx: int, dy: int|
        #![trigger in_disk(dx, dy, pad, reach_squared)]
        in_disk(dx, dy, pad, reach_squared) ==> m.at(cx + dx, cy + dy) <= v
    &&& exists|dx: int, dy: int|
        #![trigger in_disk(dx, dy, pad, reach_squared)]
        in_disk(dx, dy, pad, reach_squared) && m.at(cx + dx, cy + dy) == v
}

/// `v` is the smallest coverage of `m` over the disk kernel around local
/// `(cx, cy)`, counting cells outside the grid as empty.
pub open spec fn is_disk_min(m: MaskView, cx: int, cy: int, pad: int, reach_squared: int, v: int) -> bool {
    &&& forall|dx: int, dy: int|
        #![trigger in_disk(dx, dy, pad, reach_squared)]
        in_disk(dx, dy, pad, reach_squared) ==> v <= m.at(cx + dx, cy + dy)
    &&& exists|dx: int, dy: int|
        #![trigger in_disk(dx, dy, pad, reach_squared)]
        in_disk(dx, dy, pad, reach_squared) && m.at(cx + dx, cy + dy) == v
}

/// The offset `(dx, dy)` comes before `(x, y)` in row-major order.
pub open spec fn offset_before(dx: int, dy: int, x: int, y: int) -> bool {
    dy < y || (dy == y && dx < x)
}

/// Largest coverage of a mask over the disk kernel around local `(cx, cy)`.
pub fn disk_max_at(mask: &AlphaMask, cx: i32, cy: i32, pad: i32, reach_squared: i64) -> (r: u8)
    requires
        mask.wf(),
        0 <= pad <= MAX_KERNEL_PAD,
        reach_squared >= 0,
        i32::MIN + pad <= cx <= i32::MAX - pad,
        i32::MIN + pad <= cy <= i32::MAX - pad,
    ensures
        is_disk_max(mask@, cx as int, cy as int, pad as int, reach_squared as int, r as int),
{
    let ghost m = mask@;
    let ghost p = pad as int;
    let ghost q = reach_squared as int;
    let mut alpha: u8 = 0;
    let mut dy: i32 = -pad;
    while dy <= pad && alpha < 255
        invariant
            mask.wf(),
            m == mask@,
            p == pad,
            q == reach_squared,
            0 <= pad <= MAX_KERNEL_PAD,
            reach_squared >= 0,
            -pad <= dy <= pad + 1,
            i32::MIN + pad <= cx <= i32::MAX - pad,
            i32::MIN + pad <= cy <= i32::MAX - pad,
            forall|ddx: int, ddy: int|
                #![trigger in_disk(ddx, ddy, p, q)]
                in_disk(ddx, ddy, p, q) && ddy < dy ==> m.at(cx + ddx, cy + ddy) <= alpha,
            alpha == 0 || exists|ddx: int, ddy: int|
                #![trigger in_disk(ddx, ddy, p, q)]
                in_disk(ddx, ddy, p, q) && m.at(cx + ddx, cy + ddy) == alpha,
        decreases pad + 1 - dy,
    {
        let mut dx: i32 = -pad;
        while dx <= pad && alpha < 255
            invariant
                mask.wf(),
                m == mask@,
                p == pad,
                q == reach_squared,
                0 <= pad <= MAX_KERNEL_PAD,
                reach_squared >= 0,
                -pad <= dy <= pad,
                -pad <= dx <= pad + 1,
                i32::MIN + pad <= cx <= i32::MAX - pad,
                i32::MIN + pad <= cy <= i32::MAX - pad,
                forall|ddx: int, ddy: int|
                    #![trigger in_disk(ddx, ddy, p, q)]
                    in_disk(ddx, ddy, p, q) && offset_before(ddx, ddy, dx as int, dy as int) ==> m.at(
                        cx + ddx,
                        cy + ddy,
                    ) <= alpha,
                alpha == 0 || exists|ddx: int, ddy: int|
                    #![trigger in_disk(ddx, ddy, p, q)]
                    in_disk(ddx, ddy, p, q) && m.at(cx + ddx, cy + ddy) == alpha,
            decreases pad + 1 - dx,
        {
            proof {
                assert(dx * dx <= MAX_KERNEL_PAD * MAX_KERNEL_PAD && dy * dy <= MAX_KERNEL_PAD * MAX_KERNEL_PAD)
                    by (nonlinear_arith)
                    requires
                        -MAX_KERNEL_PAD <= dx <= MAX_KERNEL_PAD,
                        -MAX_KERNEL_PAD <= dy <= MAX_KERNEL_PAD,
                ;
                assert(0 <= dx * dx && 0 <= dy * dy) by (nonlinear_arith);
            }
            let distance_squared = dx * dx + dy * dy;
            if distance_squared as i64 <= reach_squared {
                let value = mask.get(cx + dx, cy + dy);
                if value > alpha {
                    alpha = value;
                }
                proof {
                    assert(in_disk(dx as int, dy as int, p, q));
                }
            }
            dx = dx + 1;
        }
        dy = dy + 1;
    }
    proof {
        if alpha == 0 {
            assert(in_disk(0, 0, p, q));
        }
    }
    alpha
}

/// Smallest coverage of a mask over the disk kernel around local `(cx, cy)`,
/// counting cells outside the grid as empty.
pub fn disk_min_at(mask: &AlphaMask, cx: i32, cy: i32, pad: i32, reach_squared: i64) -> (r: u8)
    requires
        mask.wf(),
        0 <= pad <= MAX_KERNEL_PAD,
        reach_squared >= 0,
        i32::MIN + pad <= cx <= i32::MAX - pad,
        i32::MIN + pad <= cy <= i32::MAX - pad,
    ensures
        is_disk_min(mask@, cx as int, cy as int, pad as int, reach_squared as int, r as int),
{
    let ghost m = mask@;
    let ghost p = pad as int;
    let ghost q = reach_squared as int;
    let mut alpha: u8 = 255;
    let mut dy: i32 = -pad;
    while dy <= pad && alpha > 0
        invariant
            mask.wf(),
            m == mask@,
            p == pad,
            q == reach_squared,
            0 <= pad <= MAX_KERNEL_PAD,
            reach_squared >= 0,
            -pad <= dy <= pad + 1,
            i32::MIN + pad <= cx <= i32::MAX - pad,
            i32::MIN + pad <= cy <= i32::MAX - pad,
            forall|ddx: int, ddy: int|
                #![trigger in_disk(ddx, ddy, p, q)]
                in_disk(ddx, ddy, p, q) && ddy < dy ==> alpha <= m.at(cx + ddx, cy + ddy),
            alpha == 255 || exists|ddx: int, ddy: int|
                #![trigger in_disk(ddx, ddy, p, q)]
                in_disk(ddx, ddy, p, q) && m.at(cx + ddx, cy + ddy) == alpha,
        decreases pad + 1 - dy,
    {
        let mut dx: i32 = -pad;
        while dx <= pad && alpha > 0
            invariant
                mask.wf(),
                m == mask@,
                p == pad,
                q == reach_squared,
                0 <= pad <= MAX_KERNEL_PAD,
                reach_squared >= 0,
                -pad <= dy <= pad,
                -pad <= dx <= pad + 1,
                i32::MIN + pad <= cx <= i32::MAX - pad,
                i32::MIN + pad <= cy <= i32::MAX - pad,
                forall|ddx: int, ddy: int|
                    #![trigger in_disk(ddx, ddy, p, q)]
                    in_disk(ddx, ddy, p, q) && offset_before(ddx, ddy, dx as int, dy as int) ==> alpha
                        <= m.at(cx + ddx, cy + ddy),
                alpha == 255 || exists|ddx: int, ddy: int|
                    #![trigger in_disk(ddx, ddy, p, q)]
                    in_disk(ddx, ddy, p, q) && m.at(cx + ddx, cy + ddy) == alpha,
            decreases pad + 1 - dx,
        {
            proof {
                assert(dx * dx <= MAX_KERNEL_PAD * MAX_KERNEL_PAD && dy * dy <= MAX_KERNEL_PAD * MAX_KERNEL_PAD)
                    by (nonlinear_arith)
                    requires
                        -MAX_KERNEL_PAD <= dx <= MAX_KERNEL_PAD,
                        -MAX_KERNEL_PAD <= dy <= MAX_KERNEL_PAD,
                ;
                assert(0 <= dx * dx && 0 <= dy * dy) by (nonlinear_arith);
            }
            let distance_squared = dx * dx + dy * dy;
            if distance_squared as i64 <= reach_squared {
                let value = mask.get(cx + dx, cy + dy);
                if value < alpha {
                    alpha = value;
                }
                proof {
                    assert(in_disk(dx as int, dy as int, p, q));
                }
            }
            dx = dx + 1;
        }
        dy = dy + 1;
    }
    proof {
        if alpha == 255 {
            assert(in_disk(0, 0, p, q));
        }
    }
    alpha
}

/// The largest coverage over the disk kernel around `(cx, cy)`.
pub open spec fn disk_max_value(m: MaskView, cx: int, cy: int, pad: int, reach_squared: int) -> int {
    choose|v: int| is_disk_max(m, cx, cy, pad, reach_squared, v)
}

/// The smallest coverage over the disk kernel around `(cx, cy)`.
pub open spec fn disk_min_value(m: MaskView, cx: int, cy: int, pad: int, reach_squared: int) -> int {
    choose|v: int| is_disk_min(m, cx, cy, pad, reach_squared, v)
}

/// A disk maximum is unique.
pub proof fn lemma_disk_max_unique(m: MaskView, cx: int, cy: int, pad: int, reach_squared: int, v: int)
    requires
        is_disk_max(m, cx, cy, pad, reach_squared, v),
    ensures
        disk_max_value(m, cx, cy, pad, reach_squared) == v,
{
    let u = disk_max_value(m, cx, cy, pad, reach_squared);
    assert(is_disk_max(m, cx, cy, pad, reach_squared, u));
    let (ax, ay) = choose|dx: int, dy: int|
        #![trigger in_disk(dx, dy, pad, reach_squared)]
        in_disk(dx, dy, pad, reach_squared) && m.at(cx + dx, cy + dy) == u;
    let (bx, by) = choose|dx: int, dy: int|
        #![trigger in_disk(dx, dy, pad, reach_squared)]
        in_disk(dx, dy, pad, reach_squared) && m.at(cx + dx, cy + dy) == v;
    assert(in_disk(ax, ay, pad, reach_squared));
    assert(in_disk(bx, by, pad, reach_squared));
}

/// A disk minimum is unique.
pub proof fn lemma_disk_min_unique(m: MaskView, cx: int, cy: int, pad: int, reach_squared: int, v: int)
    requires
        is_disk_min(m, cx, cy, pad, reach_squared, v),
    ensures
        disk_min_value(m, cx, cy, pad, reach_squared) == v,
{
    let u = disk_min_value(m, cx, cy, pad, reach_squared);
    assert(is_disk_min(m, cx, cy, pad, reach_squared, u));
    let (ax, ay) = choose|dx: int, dy: int|
        #![trigger in_disk(dx, dy, pad, reach_squared)]
        in_disk(dx, dy, pad, reach_squared) && m.at(cx + dx, cy + dy) == u;
    let (bx, by) = choose|dx: int, dy: int|
        #![trigger in_disk(dx, dy, pad, reach_squared)]
        in_disk(dx, dy, pad, reach_squared) && m.at(cx + dx, cy + dy) == v;
    assert(in_disk(ax, ay, pad, reach_squared));
    assert(in_disk(bx, by, pad, reach_squared));
}

proof fn lemma_disk_max_exists(m: MaskView, cx: int, cy: int, pad: int, reach_squared: int, v: int)
    requires
        0 <= v <= 255,
        exists|dx: int, dy: int|
            #![trigger in_disk(dx, dy, pad, reach_squared)]
            in_disk(dx, dy, pad, reach_squared) && m.at(cx + dx, cy + dy) >= v,
    ensures
        is_disk_max(m, cx, cy, pad, reach_squared, disk_max_value(m, cx, cy, pad, reach_squared)),
    decreases 255 - v,
{
    if exists|dx: int, dy: int|
        #![trigger in_disk(dx, dy, pad, reach_squared)]
        in_disk(dx, dy, pad, reach_squared) && m.at(cx + dx, cy + dy) > v {
        let (ax, ay) = choose|dx: int, dy: int|
            #![trigger in_disk(dx, dy, pad, reach_squared)]
            in_disk(dx, dy, pad, reach_squared) && m.at(cx + dx, cy + dy) > v;
        assert(in_disk(ax, ay, pad, reach_squared) && m.at(cx + ax, cy + ay) >= v + 1);
        lemma_disk_max_exists(m, cx, cy, pad, reach_squared, v + 1);
    } else {
        let (ax, ay) = choose|dx: int, dy: int|
            #![trigger in_disk(dx, dy, pad, reach_squared)]
            in_disk(dx, dy, pad, reach_squared) && m.at(cx + dx, cy + dy) >= v;
        assert(in_disk(ax, ay, pad, reach_squared) && m.at(cx + ax, cy + ay) == v);
        assert(is_disk_max(m, cx, cy, pad, reach_squared, v));
        lemma_disk_max_unique(m, cx, cy, pad, reach_squared, v);
    }
}

proof fn lemma_disk_min_exists(m: MaskView, cx: int, cy: int, pad: int, reach_squared: int, v: int)
    requires
        0 <= v <= 255,
        exists|dx: int, dy: int|
            #![trigger in_disk(dx, dy, pad, reach_squared)]
            in_disk(dx, dy, pad, reach_squared) && m.at(cx + dx, cy + dy) <= v,
    ensures
        is_disk_min(m, cx, cy, pad, reach_squared, disk_min_value(m, cx, cy, pad, reach_squared)),
    decreases v,
{
    if exists|dx: int, dy: int|
        #![trigger in_disk(dx, dy, pad, reach_squared)]
        in_disk(dx, dy, pad, reach_squared) && m.at(cx + dx, cy + dy) < v {
        let (ax, ay) = choose|dx: int, dy: int|
            #![trigger in_disk(dx, dy, pad, reach_squared)]
            in_disk(dx, dy, pad, reach_squared) && m.at(cx + dx, cy + dy) < v;
        assert(in_disk(ax, ay, pad, reach_squared) && m.at(cx + ax, cy + ay) <= v - 1);
        lemma_disk_min_exists(m, cx, cy, pad, reach_squared, v - 1);
    } else {
        let (ax, ay) = choose|dx: int, dy: int|
            #![trigger in_disk(dx, dy, pad, reach_squared)]
            in_disk(dx, dy, pad, reach_squared) && m.at(cx + dx, cy + dy) <= v;
        assert(in_disk(ax, ay, pad, reach_squared) && m.at(cx + ax, cy + ay) == v);
        assert(is_disk_min(m, cx, cy, pad, reach_squared, v));
        lemma_disk_min_unique(m, cx, cy, pad, reach_squared, v);
    }
}

/// Dilation never lowers a cell and erosion never raises one: each cell of
/// a mask lies between its eroded coverage and its dilated coverage (the
/// dilated mask is grown by `pad` on every side), for a kernel that holds
/// its centre.
pub proof fn lemma_erosion_below_dilation(v: MaskView, pad: int, reach_squared: int, x: int, y: int)
    requires
        v.wf(),
        pad >= 0,
        reach_squared >= 0,
        0 <= x < v.width,
        0 <= y < v.height,
    ensures
        eroded(v, pad, reach_squared).alpha[x + y * v.width] <= v.alpha[x + y * v.width] <= dilated(
            v,
            pad,
            reach_squared,
        ).alpha[(x + pad) + (y + pad) * (v.width + 2 * pad)],
{
    let w = v.width + 2 * pad;
    let h = v.height + 2 * pad;
    lemma_grid_index(x, y, v.width, v.height);
    lemma_grid_index(x + pad, y + pad, w, h);
    assert(in_disk(0, 0, pad, reach_squared));
    assert(v.at(x + 0, y + 0) == v.alpha[x + y * v.width]);
    lemma_disk_max_exists(v, x, y, pad, reach_squared, v.at(x, y) as int);
    lemma_disk_min_exists(v, x, y, pad, reach_squared, v.at(x, y) as int);
    let hi = disk_max_value(v, x, y, pad, reach_squared);
    let lo = disk_min_value(v, x, y, pad, reach_squared);
    let (ax, ay) = choose|dx: int, dy: int|
        #![trigger in_disk(dx, dy, pad, reach_squared)]
        in_disk(dx, dy, pad, reach_squared) && v.at(x + dx, y + dy) == hi;
    assert(in_disk(ax, ay, pad, reach_squared));
    let (bx, by) = choose|dx: int, dy: int|
        #![trigger in_disk(dx, dy, pad, reach_squared)]
        in_disk(dx, dy, pad, reach_squared) && v.at(x + dx, y + dy) == lo;
    assert(in_disk(bx, by, pad, reach_squared));
    assert(lo <= v.at(x, y) <= hi);
    assert(0 <= lo && hi <= 255);
    assert(w * h >= 0) by (nonlinear_arith)
        requires
            w >= 0,
            h >= 0,
    ;
}

/// A mask grown by `pad` empty cells on every side.
pub open spec fn padded(v: MaskView, pad: int) -> MaskView {
    let w = v.width + 2 * pad;
    let h = v.height + 2 * pad;
    MaskView {
        origin_x: v.origin_x - pad,
        origin_y: v.origin_y - pad,
        width: w,
        height: h,
        alpha: Seq::new((w * h) as nat, |k: int| v.at(k % w - pad, k / w - pad)),
    }
}

/// A mask grown by `pad` on every side, each cell the largest coverage of
/// the disk kernel around it.
pub open spec fn dilated(v: MaskView, pad: int, reach_squared: int) -> MaskView {
    let w = v.width + 2 * pad;
    let h = v.height + 2 * pad;
    MaskView {
        origin_x: v.origin_x - pad,
        origin_y: v.origin_y - pad,
        width: w,
        height: h,
        alpha: Seq::new(
            (w * h) as nat,
            |k: int| disk_max_value(v, k % w - pad, k / w - pad, pad, reach_squared) as u8,
        ),
    }
}

/// A mask whose cells are the smallest coverage of the disk kernel around
/// them, cells outside the grid counting as empty.
pub open spec fn eroded(v: MaskView, pad: int, reach_squared: int) -> MaskView {
    MaskView {
        alpha: Seq::new(
            (v.width * v.height) as nat,
            |k: int| disk_min_value(v, k % v.width, k / v.width, pad, reach_squared) as u8,
        ),
        ..v
    }
}

/// `a - b`, or 0 when `b` is larger.
pub open spec fn saturating_difference(a: int, b: int) -> int {
    if a >= b { a - b } else { 0 }
}

/// A mask with the coverage of `s` at the same frame position taken away.
pub open spec fn subtracted(v: MaskView, s: MaskView) -> MaskView {
    MaskView {
        alpha: Seq::new(
            (v.width * v.height) as nat,
            |k: int|
                saturating_difference(
                    v.alpha[k] as int,
                    s.at(
                        v.origin_x + k % v.width - s.origin_x,
                        v.origin_y + k / v.width - s.origin_y,
                    ) as int,
                ) as u8,
        ),
        ..v
    }
}

/// A mask grown by `pad` empty cells on every side.
pub fn pad_mask(mask: &AlphaMask, pad: i32) -> (m: AlphaMask)
    requires
        mask.wf(),
        0 <= pad,
        mask.origin_x - pad >= i32::MIN,
        mask.origin_y - pad >= i32::MIN,
        mask.width + 2 * pad <= i32::MAX,
        mask.height + 2 * pad <= i32::MAX,
        (mask.width + 2 * pad) * (mask.height + 2 * pad) <= usize::MAX,
    ensures
        m.wf(),
        m@ == padded(mask@, pad as int),
{
    if pad == 0 {
        let m = copy_mask(mask);
        proof {
            let v = mask@;
            assert forall|k: int| 0 <= k < v.width * v.height implies #[trigger] padded(v, 0).alpha[k]
                == v.alpha[k] by {
                lemma_grid_cell(k, v.width, v.height);
            }
            assert(padded(v, 0).alpha =~= v.alpha);
        }
        return m;
    }
    let w = mask.width;
    let h = mask.height;
    let pu = pad as usize;
    let mut out = AlphaMask::new(
        mask.origin_x - pad,
        mask.origin_y - pad,
        w as i32 + pad * 2,
        h as i32 + pad * 2,
    );
    let ghost target = padded(mask@, pad as int);
    let ow = out.width;
    let oh = out.height;
    let ghost ow_i = ow as int;
    let total = out.alpha.len();
    let mask_len = mask.alpha.len();
    proof {
        assert forall|xx: int, yy: int|
            #![trigger out.at(xx, yy)]
            0 <= xx < ow && 0 <= yy < oh implies out.at(xx, yy) == 0u8 by {
            lemma_grid_index(xx, yy, ow as int, oh as int);
        }
    }
    let mut y: usize = 0;
    while y < h
        invariant
            mask.wf(),
            w * h <= usize::MAX,
            out.wf(),
            w == mask.width,
            h == mask.height,
            pu == pad,
            ow == w + 2 * pu,
            oh == h + 2 * pu,
            ow == out.width,
            oh == out.height,
            ow * oh <= usize::MAX,
            out.origin_x == mask.origin_x - pad,
            out.origin_y == mask.origin_y - pad,
            0 <= y <= h,
            forall|xx: int, yy: int|
                #![trigger out.at(xx, yy)]
                0 <= xx < ow && 0 <= yy < oh ==> out.at(xx, yy) == if 0 <= yy - pad < y {
                    mask.at(xx - pad, yy - pad)
                } else {
                    0u8
                },
        decreases h - y,
    {
        let mut x: usize = 0;
        while x < w
            invariant
                mask.wf(),
                w * h <= usize::MAX,
                out.wf(),
                w == mask.width,
                h == mask.height,
                pu == pad,
                ow == w + 2 * pu,
                oh == h + 2 * pu,
                ow == out.width,
                oh == out.height,
                ow * oh <= usize::MAX,
                out.origin_x == mask.origin_x - pad,
                out.origin_y == mask.origin_y - pad,
                0 <= y < h,
                0 <= x <= w,
                forall|xx: int, yy: int|
                    #![trigger out.at(xx, yy)]
                    0 <= xx < ow && 0 <= yy < oh ==> out.at(xx, yy) == if 0 <= yy - pad < y || (yy
                        - pad == y && 0 <= xx - pad < x) {
                        mask.at(xx - pad, yy - pad)
                    } else {
                        0u8
                    },
            decreases w - x,
        {
            proof {
                lemma_grid_index(x as int, y as int, w as int, h as int);
                lemma_grid_index((x + pu) as int, (y + pu) as int, ow as int, oh as int);
            }
            let value = mask.alpha[x + y * w];
            let index = (x + pu) + (y + pu) * ow;
            let ghost before = out;
            out.alpha.set(index, value);
            proof {
                assert forall|xx: int, yy: int|
                    #![trigger out.at(xx, yy)]
                    0 <= xx < ow && 0 <= yy < oh implies out.at(xx, yy) == if 0 <= yy - pad < y || (yy
                        - pad == y && 0 <= xx - pad < x + 1) {
                        mask.at(xx - pad, yy - pad)
                    } else {
                        0u8
                    } by {
                    assert(before.at(xx, yy) == before.at(xx, yy));
                    lemma_grid_index(xx, yy, ow as int, oh as int);
                    if xx != x + pu || yy != y + pu {
                        lemma_grid_index_injective(xx, yy, (x + pu) as int, (y + pu) as int, ow as int, oh as int);
                        assert(out.alpha@[xx + yy * ow] == before.alpha@[xx + yy * ow]);
                        assert(out.at(xx, yy) == before.at(xx, yy));
                    } else {
                        assert(out.alpha@[xx + yy * ow] == value);
                        assert(value == mask.at(x as int, y as int));
                    }
                }
            }
            x = x + 1;
        }
        y = y + 1;
    }
    proof {
        assert(out@.alpha =~= target.alpha) by {
            assert forall|k: int| 0 <= k < ow * oh implies out@.alpha[k] == target.alpha[k] by {
                lemma_grid_cell(k, ow as int, oh as int);
                let xx = k % ow_i;
                let yy = k / ow_i;
                assert(out.at(xx, yy) == out.alpha@[k]);
            }
        }
    }
    out
}

/// A mask grown by `pad` on every side, each cell the largest coverage of
/// the disk kernel (offsets within `pad` on each axis, squared distance at
/// most `reach_squared`) around it.
pub fn dilate_mask(mask: &AlphaMask, pad: i32, reach_squared: i64) -> (m: AlphaMask)
    requires
        mask.wf(),
        0 <= pad <= MAX_KERNEL_PAD,
        reach_squared >= 0,
        mask.origin_x - pad >= i32::MIN,
        mask.origin_y - pad >= i32::MIN,
        mask.width + 2 * pad <= i32::MAX,
        mask.height + 2 * pad <= i32::MAX,
        (mask.width + 2 * pad) * (mask.height + 2 * pad) <= usize::MAX,
    ensures
        m.wf(),
        m@ == dilated(mask@, pad as int, reach_squared as int),
{
    let pu = pad as usize;
    let ow = mask.width + 2 * pu;
    let oh = mask.height + 2 * pu;
    let ghost target = dilated(mask@, pad as int, reach_squared as int);
    let mut alpha: Vec<u8> = Vec::new();
    let mut y: usize = 0;
    while y < oh
        invariant
            mask.wf(),
            0 <= pad <= MAX_KERNEL_PAD,
            reach_squared >= 0,
            pu == pad,
            ow == mask.width + 2 * pu,
            oh == mask.height + 2 * pu,
            ow <= i32::MAX,
            oh <= i32::MAX,
            ow * oh <= usize::MAX,
            target == dilated(mask@, pad as int, reach_squared as int),
            0 <= y <= oh,
            alpha@.len() == y * ow,
            forall|k: int| 0 <= k < alpha@.len() ==> #[trigger] alpha@[k] == target.alpha[k],
        decreases oh - y,
    {
        let mut x: usize = 0;
        while x < ow
            invariant
                mask.wf(),
                0 <= pad <= MAX_KERNEL_PAD,
                reach_squared >= 0,
                pu == pad,
                ow == mask.width + 2 * pu,
                oh == mask.height + 2 * pu,
                ow <= i32::MAX,
                oh <= i32::MAX,
                ow * oh <= usize::MAX,
                target == dilated(mask@, pad as int, reach_squared as int),
                0 <= y < oh,
                0 <= x <= ow,
                alpha@.len() == x + y * ow,
                forall|k: int| 0 <= k < alpha@.len() ==> #[trigger] alpha@[k] == target.alpha[k],
            decreases ow - x,
        {
            let value = disk_max_at(mask, x as i32 - pad, y as i32 - pad, pad, reach_squared);
            proof {
                lemma_grid_index(x as int, y as int, ow as int, oh as int);
                lemma_disk_max_unique(mask@, x - pad, y - pad, pad as int, reach_squared as int, value as int);
            }
            alpha.push(value);
            x = x + 1;
        }
        proof {
            assert((y + 1) * ow == y * ow + ow) by (nonlinear_arith);
        }
        y = y + 1;
    }
    proof {
        assert(oh * ow == ow * oh) by (nonlinear_arith);
        assert(alpha@ =~= target.alpha);
    }
    AlphaMask { origin_x: mask.origin_x - pad, origin_y: mask.origin_y - pad, width: ow, height: oh, alpha }
}

/// A mask whose cells are the smallest coverage of the disk kernel around
/// them; cells outside the grid count as empty, so edges wear away.
pub fn erode_mask(mask: &AlphaMask, pad: i32, reach_squared: i64) -> (m: AlphaMask)
    requires
        mask.wf(),
        0 <= pad <= MAX_KERNEL_PAD,
        reach_squared >= 0,
        mask.width + pad <= i32::MAX,
        mask.height + pad <= i32::MAX,
    ensures
        m.wf(),
        m@ == eroded(mask@, pad as int, reach_squared as int),
{
    let w = mask.width;
    let h = mask.height;
    let ghost target = eroded(mask@, pad as int, reach_squared as int);
    let total = mask.alpha.len();
    let mut alpha: Vec<u8> = Vec::new();
    let mut y: usize = 0;
    while y < h
        invariant
            mask.wf(),
            0 <= pad <= MAX_KERNEL_PAD,
            reach_squared >= 0,
            w == mask.width,
            h == mask.height,
            w + pad <= i32::MAX,
            h + pad <= i32::MAX,
            w * h <= usize::MAX,
            target == eroded(mask@, pad as int, reach_squared as int),
            0 <= y <= h,
            alpha@.len() == y * w,
            forall|k: int| 0 <= k < alpha@.len() ==> #[trigger] alpha@[k] == target.alpha[k],
        decreases h - y,
    {
        let mut x: usize = 0;
        while x < w
            invariant
                mask.wf(),
                0 <= pad <= MAX_KERNEL_PAD,
                reach_squared >= 0,
                w == mask.width,
                h == mask.height,
                w + pad <= i32::MAX,
                h + pad <= i32::MAX,
                w * h <= usize::MAX,
                target == eroded(mask@, pad as int, reach_squared as int),
                0 <= y < h,
                0 <= x <= w,
                alpha@.len() == x + y * w,
                forall|k: int| 0 <= k < alpha@.len() ==> #[trigger] alpha@[k] == target.alpha[k],
            decreases w - x,
        {
            let value = disk_min_at(mask, x as i32, y as i32, pad, reach_squared);
            proof {
                lemma_grid_index(x as int, y as int, w as int, h as int);
                lemma_disk_min_unique(mask@, x as int, y as int, pad as int, reach_squared as int, value as int);
            }
            alpha.push(value);
            x = x + 1;
        }
        proof {
            assert((y + 1) * w == y * w + w) by (nonlinear_arith);
        }
        y = y + 1;
    }
    proof {
        assert(h * w == w * h) by (nonlinear_arith);
        assert(alpha@ =~= target.alpha);
    }
    alpha_mask_with_alpha(mask, alpha)
}

/// A mask with the coverage of `subtract` at the same frame position taken
/// away (never below zero).
pub fn subtract_mask(mask: &AlphaMask, subtract: &AlphaMask) -> (m: AlphaMask)
    requires
        mask.wf(),
        subtract.wf(),
        mask.width <= i32::MAX,
        mask.height <= i32::MAX,
        mask.width > 0 ==> mask.origin_x + mask.width - 1 <= i32::MAX,
        mask.height > 0 ==> mask.origin_y + mask.height - 1 <= i32::MAX,
        mask.width > 0 ==> mask.origin_x - subtract.origin_x >= i32::MIN,
        mask.width > 0 ==> mask.origin_x + mask.width - 1 - subtract.origin_x <= i32::MAX,
        mask.height > 0 ==> mask.origin_y - subtract.origin_y >= i32::MIN,
        mask.height > 0 ==> mask.origin_y + mask.height - 1 - subtract.origin_y <= i32::MAX,
    ensures
        m.wf(),
        m@ == subtracted(mask@, subtract@),
{
    let w = mask.width;
    let h = mask.height;
    let ghost target = subtracted(mask@, subtract@);
    let total = mask.alpha.len();
    let mut alpha: Vec<u8> = Vec::new();
    let mut y: usize = 0;
    while y < h
        invariant
            mask.wf(),
            subtract.wf(),
            w == mask.width,
            h == mask.height,
            w * h <= usize::MAX,
            w <= i32::MAX,
            h <= i32::MAX,
            mask.width > 0 ==> mask.origin_x + mask.width - 1 <= i32::MAX,
            mask.height > 0 ==> mask.origin_y + mask.height - 1 <= i32::MAX,
            mask.width > 0 ==> mask.origin_x - subtract.origin_x >= i32::MIN,
            mask.width > 0 ==> mask.origin_x + mask.width - 1 - subtract.origin_x <= i32::MAX,
            mask.height > 0 ==> mask.origin_y - subtract.origin_y >= i32::MIN,
            mask.height > 0 ==> mask.origin_y + mask.height - 1 - subtract.origin_y <= i32::MAX,
            target == subtracted(mask@, subtract@),
            0 <= y <= h,
            alpha@.len() == y * w,
            forall|k: int| 0 <= k < alpha@.len() ==> #[trigger] alpha@[k] == target.alpha[k],
        decreases h - y,
    {
        let mut x: usize = 0;
        while x < w
            invariant
                mask.wf(),
                subtract.wf(),
                w == mask.width,
                h == mask.height,
                w * h <= usize::MAX,
                w <= i32::MAX,
                h <= i32::MAX,
                mask.width > 0 ==> mask.origin_x + mask.width - 1 <= i32::MAX,
                mask.height > 0 ==> mask.origin_y + mask.height - 1 <= i32::MAX,
                mask.width > 0 ==> mask.origin_x - subtract.origin_x >= i32::MIN,
                mask.width > 0 ==> mask.origin_x + mask.width - 1 - subtract.origin_x <= i32::MAX,
                mask.height > 0 ==> mask.origin_y - subtract.origin_y >= i32::MIN,
                mask.height > 0 ==> mask.origin_y + mask.height - 1 - subtract.origin_y <= i32::MAX,
                target == subtracted(mask@, subtract@),
                0 <= y < h,
                0 <= x <= w,
                alpha@.len() == x + y * w,
                forall|k: int| 0 <= k < alpha@.len() ==> #[trigger] alpha@[k] == target.alpha[k],
            decreases w - x,
        {
            proof {
                lemma_grid_index(x as int, y as int, w as int, h as int);
            }
            let world_x = mask.origin_x + x as i32;
            let world_y = mask.origin_y + y as i32;
            let source = mask.alpha[x + y * w];
            let removed = subtract.get(world_x - subtract.origin_x, world_y - subtract.origin_y);
            let value = if source >= removed { source - removed } else { 0 };
            alpha.push(value);
            x = x + 1;
        }
        proof {
            assert((y + 1) * w == y * w + w) by (nonlinear_arith);
        }
        y = y + 1;
    }
    proof {
        assert(h * w == w * h) by (nonlinear_arith);
        assert(alpha@ =~= target.alpha);
    }
    alpha_mask_with_alpha(mask, alpha)
}

/// The outline of a raster: the raster grown by `radius` minus the raster
/// worn away by `radius`, on a grid padded so that both fit.
pub open spec fn stroked(v: MaskView, radius: int) -> MaskView {
    if radius <= 0 {
        v
    } else {
        let p = padded(v, radius);
        subtracted(dilated(p, radius, radius * radius), eroded(p, radius, radius * radius))
    }
}

/// A stroke reaches outside the glyph: for a positive radius, every frame
/// pixel outside the raster that lies within the disk of the radius around
/// a fully covered raster pixel is in the stroke mask with full coverage.
pub proof fn lemma_stroke_covers_outside_of_glyph(
    v: MaskView,
    radius: int,
    x: int,
    y: int,
    dx: int,
    dy: int,
)
    requires
        v.wf(),
        radius > 0,
        0 <= x < v.width,
        0 <= y < v.height,
        v.at(x, y) == 255,
        -radius <= dx <= radius,
        -radius <= dy <= radius,
        dx * dx + dy * dy <= radius * radius,
        !(0 <= x + dx < v.width && 0 <= y + dy < v.height),
    ensures
        ({
            let s = stroked(v, radius);
            let lx = v.origin_x + x + dx - s.origin_x;
            let ly = v.origin_y + y + dy - s.origin_y;
            &&& 0 <= lx < s.width
            &&& 0 <= ly < s.height
            &&& s.at(lx, ly) == 255
        }),
{
    let r = radius;
    let r2 = radius * radius;
    let p = padded(v, r);
    let pw = v.width + 2 * r;
    let ph = v.height + 2 * r;
    let d = dilated(p, r, r2);
    let e = eroded(p, r, r2);
    let s = stroked(v, r);
    assert(s == subtracted(d, e));
    let dw = pw + 2 * r;
    let dh = ph + 2 * r;
    let lx = x + dx + 2 * r;
    let ly = y + dy + 2 * r;
    assert(d.width == dw && d.height == dh && s.width == dw && s.height == dh);
    assert(s.origin_x == v.origin_x - 2 * r && s.origin_y == v.origin_y - 2 * r);
    // Cell positions in the grids.
    lemma_grid_index(lx, ly, dw, dh);
    lemma_grid_index(x + r, y + r, pw, ph);
    lemma_grid_index(x + dx + r, y + dy + r, pw, ph);
    lemma_grid_index(x, y, v.width, v.height);
    let k = lx + ly * dw;
    assert(dw * dh >= 0 && pw * ph >= 0) by (nonlinear_arith)
        requires
            dw >= 0,
            dh >= 0,
            pw >= 0,
            ph >= 0,
    ;
    assert(s.at(lx, ly) == s.alpha[k]);
    // The disk maximum around the pixel: the covered raster pixel is in it.
    let cx = x + dx + r;
    let cy = y + dy + r;
    assert((-dx) * (-dx) + (-dy) * (-dy) == dx * dx + dy * dy) by (nonlinear_arith);
    assert(in_disk(-dx, -dy, r, r2));
    assert(p.at(cx + (-dx), cy + (-dy)) == p.alpha[(x + r) + (y + r) * pw]);
    assert(p.alpha[(x + r) + (y + r) * pw] == v.at(x, y));
    lemma_disk_max_exists(p, cx, cy, r, r2, 255);
    let hi = disk_max_value(p, cx, cy, r, r2);
    let (ax, ay) = choose|ddx: int, ddy: int|
        #![trigger in_disk(ddx, ddy, r, r2)]
        in_disk(ddx, ddy, r, r2) && p.at(cx + ddx, cy + ddy) == hi;
    assert(in_disk(ax, ay, r, r2));
    assert(hi == 255);
    assert(d.alpha[k] == hi as u8);
    // The disk minimum around the pixel: the pixel itself lies outside the
    // raster, so it is empty.
    assert(in_disk(0, 0, r, r2));
    assert(p.at(cx + 0, cy + 0) == p.alpha[cx + cy * pw]);
    assert(p.alpha[cx + cy * pw] == v.at(x + dx, y + dy));
    assert(v.at(x + dx, y + dy) == 0);
    lemma_disk_min_exists(p, cx, cy, r, r2, 0);
    let lo = disk_min_value(p, cx, cy, r, r2);
    let (bx, by) = choose|ddx: int, ddy: int|
        #![trigger in_disk(ddx, ddy, r, r2)]
        in_disk(ddx, ddy, r, r2) && p.at(cx + ddx, cy + ddy) == lo;
    assert(in_disk(bx, by, r, r2));
    assert(lo == 0);
    assert(e.origin_x == v.origin_x - r && e.width == pw && e.height == ph);
    assert(d.origin_x + k % dw - e.origin_x == cx);
    assert(d.origin_y + k / dw - e.origin_y == cy);
    assert(e.at(cx, cy) == e.alpha[cx + cy * pw]);
    assert(e.alpha[cx + cy * pw] == lo as u8);
}

/// The outline of a text raster for a stroke of the given width in whole
/// pixels (the stroke width rounded up).
pub fn stroke_mask_from_raster(raster: &AlphaMask, radius: i32) -> (m: AlphaMask)
    requires
        raster.wf(),
        0 <= radius <= MAX_KERNEL_PAD,
        raster.origin_x - 2 * radius >= i32::MIN,
        raster.origin_y - 2 * radius >= i32::MIN,
        raster.origin_x + raster.width + 2 * radius <= i32::MAX,
        raster.origin_y + raster.height + 2 * radius <= i32::MAX,
        raster.width + 4 * radius <= i32::MAX,
        raster.height + 4 * radius <= i32::MAX,
        (raster.width + 4 * radius) * (raster.height + 4 * radius) <= usize::MAX,
    ensures
        m.wf(),
        m@ == stroked(raster@, radius as int),
{
    if radius <= 0 {
        return copy_mask(raster);
    }
    proof {
        assert((raster.width + 2 * radius) * (raster.height + 2 * radius) <= (raster.width + 4 * radius)
            * (raster.height + 4 * radius)) by (nonlinear_arith)
            requires
                radius >= 0,
                raster.width >= 0,
                raster.height >= 0,
        ;
        assert(radius * radius <= MAX_KERNEL_PAD * MAX_KERNEL_PAD) by (nonlinear_arith)
            requires
                0 <= radius <= MAX_KERNEL_PAD,
        ;
    }
    let reach_squared = (radius as i64) * (radius as i64);
    let padded_raster = pad_mask(raster, radius);
    let outer = dilate_mask(&padded_raster, radius, reach_squared);
    let inner = erode_mask(&padded_raster, radius, reach_squared);
    subtract_mask(&outer, &inner)
}

/// The coverage of a text shadow: the raster grown by the spread (when
/// `spread_pad` is positive, with the disk kernel of that reach), then
/// padded and blurred by the blur radius (when positive).
pub open spec fn shadowed(v: MaskView, spread_pad: int, spread_reach_squared: int, blur_radius: int) -> MaskView {
    let spread = if spread_pad > 0 { dilated(v, spread_pad, spread_reach_squared) } else { v };
    if blur_radius > 0 {
        blurred(padded(spread, blur_radius), blur_radius)
    } else {
        spread
    }
}

/// The coverage of a text shadow. `spread_pad` is the spread rounded up and
/// `spread_reach_squared` its square rounded down; `blur_radius` is the blur
/// radius rounded up; `parallelism` is how many workers the machine offers.
pub fn shadow_mask_from_raster(
    raster: &AlphaMask,
    spread_pad: i32,
    spread_reach_squared: i64,
    blur_radius: i32,
    parallelism: usize,
) -> (m: AlphaMask)
    requires
        raster.wf(),
        0 <= spread_pad <= MAX_KERNEL_PAD,
        0 <= blur_radius <= MAX_KERNEL_PAD,
        spread_reach_squared >= 0,
        raster.origin_x - spread_pad - blur_radius >= i32::MIN,
        raster.origin_y - spread_pad - blur_radius >= i32::MIN,
        raster.width + 2 * spread_pad + 2 * blur_radius <= MAX_BLUR_EXTENT,
        raster.height + 2 * spread_pad + 2 * blur_radius <= MAX_BLUR_EXTENT,
        (raster.width + 2 * spread_pad + 2 * blur_radius) * (raster.height + 2 * spread_pad + 2
            * blur_radius) <= usize::MAX,
    ensures
        m.wf(),
        m@ == shadowed(raster@, spread_pad as int, spread_reach_squared as int, blur_radius as int),
{
    let ghost sp = spread_pad as int;
    let ghost bp = blur_radius as int;
    proof {
        assert((raster.width + 2 * sp) * (raster.height + 2 * sp) <= (raster.width + 2 * sp + 2 * bp)
            * (raster.height + 2 * sp + 2 * bp)) by (nonlinear_arith)
            requires
                sp >= 0,
                bp >= 0,
                raster.width >= 0,
                raster.height >= 0,
        ;
    }
    let spread = if spread_pad > 0 {
        dilate_mask(raster, spread_pad, spread_reach_squared)
    } else {
        copy_mask(raster)
    };
    if blur_radius > 0 {
        let padded_spread = pad_mask(&spread, blur_radius);
        blur_mask(&padded_spread, blur_radius as usize, parallelism)
    } else {
        spread
    }
}

} // verus!
