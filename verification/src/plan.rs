//! Planning an incremental repaint on the pixel grid: the dirty regions of a
//! frame (already snapped to whole pixels), the jobs they are cut into, and
//! how the jobs are shared among render workers.

use vstd::prelude::*;

use crate::frame::{
    BufferRows, FramePaintMode, FramePaintReason, FrameTimingStats, full_redraw_reason,
    full_redraw_worker_count, full_redraw_workers, incremental_scene_pass_count, should_full_redraw, MAX_RENDER_WORKERS, MIN_INCREMENTAL_PIXELS_PER_WORKER,
    MIN_PARALLEL_RENDER_ROWS_PER_WORKER, ceil_div, div_ceil_usize, max_int, min_int, sat_add, sat_mul,
    saturating_mul_usize,
};

verus! {

/// A rectangle of whole pixels `x0..x1` by `y0..y1` in frame coordinates.
#[derive(Clone, Copy, Debug, PartialEq, Eq, Structural)]
pub struct PixelRect {
    pub x0: i32,
    pub y0: i32,
    pub x1: i32,
    pub y1: i32,
}

impl PixelRect {
    /// No pixel lies inside.
    pub open spec fn spec_is_empty(self) -> bool {
        self.x0 >= self.x1 || self.y0 >= self.y1
    }

    /// The number of pixels inside.
    pub open spec fn spec_area(self) -> int {
        if self.spec_is_empty() { 0 } else { (self.x1 - self.x0) * (self.y1 - self.y0) }
    }

    /// The pixel `(x, y)` lies inside.
    pub open spec fn spec_contains(self, x: int, y: int) -> bool {
        self.x0 <= x < self.x1 && self.y0 <= y < self.y1
    }

    /// The smallest rectangle holding both.
    pub open spec fn spec_union(self, other: Self) -> Self {
        PixelRect {
            x0: if self.x0 <= other.x0 { self.x0 } else { other.x0 },
            y0: if self.y0 <= other.y0 { self.y0 } else { other.y0 },
            x1: if self.x1 >= other.x1 { self.x1 } else { other.x1 },
            y1: if self.y1 >= other.y1 { self.y1 } else { other.y1 },
        }
    }

    /// The overlap of both, whether empty or not.
    pub open spec fn spec_overlap(self, other: Self) -> Self {
        PixelRect {
            x0: if self.x0 >= other.x0 { self.x0 } else { other.x0 },
            y0: if self.y0 >= other.y0 { self.y0 } else { other.y0 },
            x1: if self.x1 <= other.x1 { self.x1 } else { other.x1 },
            y1: if self.y1 <= other.y1 { self.y1 } else { other.y1 },
        }
    }

    /// Whether no pixel lies inside.
    pub fn is_empty(self) -> (r: bool)
        ensures
            r == self.spec_is_empty(),
    {
        self.x0 >= self.x1 || self.y0 >= self.y1
    }

    /// The smallest rectangle holding both.
    pub fn union(self, other: Self) -> (r: Self)
        ensures
            r == self.spec_union(other),
    {
        PixelRect {
            x0: if self.x0 <= other.x0 { self.x0 } else { other.x0 },
            y0: if self.y0 <= other.y0 { self.y0 } else { other.y0 },
            x1: if self.x1 >= other.x1 { self.x1 } else { other.x1 },
            y1: if self.y1 >= other.y1 { self.y1 } else { other.y1 },
        }
    }

    /// The overlap of both, or `None` when they share no pixel.
    pub fn intersect(self, other: Self) -> (r: Option<Self>)
        ensures
            r == (if self.spec_overlap(other).spec_is_empty() {
                None
            } else {
                Some(self.spec_overlap(other))
            }),
    {
        let clipped = PixelRect {
            x0: if self.x0 >= other.x0 { self.x0 } else { other.x0 },
            y0: if self.y0 >= other.y0 { self.y0 } else { other.y0 },
            x1: if self.x1 <= other.x1 { self.x1 } else { other.x1 },
            y1: if self.y1 <= other.y1 { self.y1 } else { other.y1 },
        };
        if clipped.is_empty() {
            None
        } else {
            Some(clipped)
        }
    }
}

/// The whole `width` x `height` frame.
pub open spec fn frame_rect(width: int, height: int) -> PixelRect {
    PixelRect { x0: 0, y0: 0, x1: width as i32, y1: height as i32 }
}

/// The part of a rectangle that lies in a `width` x `height` frame, if any.
pub open spec fn pixel_bounds_spec(rect: PixelRect, width: int, height: int) -> Option<PixelRect> {
    let clipped = rect.spec_overlap(frame_rect(width, height));
    if clipped.spec_is_empty() {
        None
    } else {
        Some(clipped)
    }
}

/// The part of a rectangle that lies in a `width` x `height` frame, if any.
pub fn pixel_bounds(rect: PixelRect, width: usize, height: usize) -> (r: Option<PixelRect>)
    requires
        width <= i32::MAX,
        height <= i32::MAX,
    ensures
        r == pixel_bounds_spec(rect, width as int, height as int),
        r matches Some(b) ==> 0 <= b.x0 < b.x1 <= width && 0 <= b.y0 < b.y1 <= height,
{
    rect.intersect(PixelRect { x0: 0, y0: 0, x1: width as i32, y1: height as i32 })
}

/// The number of frame pixels a rectangle covers.
pub open spec fn frame_area(rect: PixelRect, width: int, height: int) -> int {
    match pixel_bounds_spec(rect, width, height) {
        Some(b) => b.spec_area(),
        None => 0,
    }
}

/// The frame pixels covered by each of the rectangles, added up.
pub open spec fn total_frame_area(rects: Seq<PixelRect>, width: int, height: int) -> int
    decreases rects.len(),
{
    if rects.len() == 0 {
        0
    } else {
        total_frame_area(rects.drop_last(), width, height) + frame_area(rects.last(), width, height)
    }
}

/// A rectangle inside the frame covers at most the whole frame.
proof fn lemma_frame_area_bounds(rect: PixelRect, width: int, height: int)
    requires
        0 <= width <= i32::MAX,
        0 <= height <= i32::MAX,
    ensures
        0 <= frame_area(rect, width, height) <= width * height,
{
    if let Some(b) = pixel_bounds_spec(rect, width, height) {
        assert(0 <= (b.x1 - b.x0) * (b.y1 - b.y0) <= width * height) by (nonlinear_arith)
            requires
                0 <= b.x0 < b.x1 <= width,
                0 <= b.y0 < b.y1 <= height,
        ;
    }
}

proof fn lemma_total_frame_area_grows(rects: Seq<PixelRect>, width: int, height: int, k: int)
    requires
        0 <= width <= i32::MAX,
        0 <= height <= i32::MAX,
        0 <= k <= rects.len(),
    ensures
        0 <= total_frame_area(rects.subrange(0, k), width, height) <= total_frame_area(rects, width, height),
    decreases rects.len() - k,
{
    if k < rects.len() {
        lemma_total_frame_area_grows(rects, width, height, k + 1);
        let next = rects.subrange(0, k + 1);
        assert(next.drop_last() =~= rects.subrange(0, k));
        assert(next.last() == rects[k]);
        assert(total_frame_area(next, width, height) == total_frame_area(rects.subrange(0, k), width, height)
            + frame_area(rects[k], width, height));
        lemma_frame_area_bounds(rects[k], width, height);
        lemma_total_frame_area_nonnegative(rects.subrange(0, k), width, height);
    } else {
        assert(rects.subrange(0, k) =~= rects);
        lemma_total_frame_area_nonnegative(rects, width, height);
    }
}

proof fn lemma_total_frame_area_nonnegative(rects: Seq<PixelRect>, width: int, height: int)
    requires
        0 <= width <= i32::MAX,
        0 <= height <= i32::MAX,
    ensures
        0 <= total_frame_area(rects, width, height),
    decreases rects.len(),
{
    if rects.len() > 0 {
        lemma_total_frame_area_nonnegative(rects.drop_last(), width, height);
        lemma_frame_area_bounds(rects.last(), width, height);
    }
}

/// The number of frame pixels the rectangles cover, overlaps counted once
/// per rectangle.
pub fn clip_rects_pixel_count(clips: &Vec<PixelRect>, width: usize, height: usize) -> (r: usize)
    requires
        width <= i32::MAX,
        height <= i32::MAX,
        total_frame_area(clips@, width as int, height as int) <= usize::MAX,
    ensures
        r == total_frame_area(clips@, width as int, height as int),
{
    let mut total: usize = 0;
    let mut i: usize = 0;
    while i < clips.len()
        invariant
            width <= i32::MAX,
            height <= i32::MAX,
            total_frame_area(clips@, width as int, height as int) <= usize::MAX,
            0 <= i <= clips@.len(),
            total == total_frame_area(clips@.subrange(0, i as int), width as int, height as int),
        decreases clips@.len() - i,
    {
        proof {
            lemma_total_frame_area_grows(clips@, width as int, height as int, i + 1);
            assert(clips@.subrange(0, i + 1).drop_last() =~= clips@.subrange(0, i as int));
        }
        match pixel_bounds(clips[i], width, height) {
            Some(b) => {
                let w = (b.x1 - b.x0) as usize;
                let h = (b.y1 - b.y0) as usize;
                proof {
                    assert(w * h <= width * height) by (nonlinear_arith)
                        requires
                            w <= width,
                            h <= height,
                    ;
                    assert(width * height <= i32::MAX * i32::MAX) by (nonlinear_arith)
                        requires
                            width <= i32::MAX,
                            height <= i32::MAX,
                    ;
                }
                let area = saturating_mul_usize(w, h);
                total = total + area;
            },
            None => {},
        }
        i = i + 1;
    }
    proof {
        assert(clips@.subrange(0, i as int) =~= clips@);
    }
    total
}

// ---------------------------------------------------------------------------
// Render jobs.
// ---------------------------------------------------------------------------

/// A piece of repaint work: a rectangle of the frame and its pixel count.
#[derive(Clone, Copy, Debug, PartialEq, Eq, Structural)]
pub struct DirtyRenderJob {
    pub clip: PixelRect,
    pub pixel_count: usize,
}

/// The `i`-th band of `MIN_PARALLEL_RENDER_ROWS_PER_WORKER` rows of a
/// rectangle (the last band may be shorter).
pub open spec fn band_job(b: PixelRect, i: int) -> DirtyRenderJob {
    let band = MIN_PARALLEL_RENDER_ROWS_PER_WORKER as int;
    let y0 = b.y0 + band * i;
    let y1 = min_int(b.y0 + band * (i + 1), b.y1 as int);
    DirtyRenderJob {
        clip: PixelRect { x0: b.x0, y0: y0 as i32, x1: b.x1, y1: y1 as i32 },
        pixel_count: sat_mul(b.x1 - b.x0, y1 - y0) as usize,
    }
}

/// The jobs of one dirty region: the part of it inside the frame, cut into
/// bands of rows from the top.
pub open spec fn region_jobs(rect: PixelRect, width: int, height: int) -> Seq<DirtyRenderJob> {
    match pixel_bounds_spec(rect, width, height) {
        Some(b) => Seq::new(
            ceil_div(b.y1 - b.y0, MIN_PARALLEL_RENDER_ROWS_PER_WORKER as int) as nat,
            |i: int| band_job(b, i),
        ),
        None => Seq::empty(),
    }
}

/// The jobs of all dirty regions, region after region.
pub open spec fn render_jobs(rects: Seq<PixelRect>, width: int, height: int) -> Seq<DirtyRenderJob>
    decreases rects.len(),
{
    if rects.len() == 0 {
        Seq::empty()
    } else {
        render_jobs(rects.drop_last(), width, height) + region_jobs(rects.last(), width, height)
    }
}

/// The pixel counts of the jobs, added up.
pub open spec fn job_pixels(jobs: Seq<DirtyRenderJob>) -> int
    decreases jobs.len(),
{
    if jobs.len() == 0 {
        0
    } else {
        job_pixels(jobs.drop_last()) + jobs.last().pixel_count
    }
}

/// Cuts the dirty regions into jobs: each region is clipped to the frame
/// and split into bands of `MIN_PARALLEL_RENDER_ROWS_PER_WORKER` rows.
pub fn build_incremental_render_jobs(dirty_regions: &Vec<PixelRect>, width: usize, height: usize) -> (jobs:
    Vec<DirtyRenderJob>)
    requires
        width <= i32::MAX,
        height <= i32::MAX,
    ensures
        jobs@ == render_jobs(dirty_regions@, width as int, height as int),
{
    let band_height: usize = MIN_PARALLEL_RENDER_ROWS_PER_WORKER;
    let ghost band = band_height as int;
    let mut jobs: Vec<DirtyRenderJob> = Vec::new();
    let mut r: usize = 0;
    proof {
        assert(dirty_regions@.subrange(0, 0) =~= Seq::<PixelRect>::empty());
    }
    while r < dirty_regions.len()
        invariant
            width <= i32::MAX,
            height <= i32::MAX,
            band_height == MIN_PARALLEL_RENDER_ROWS_PER_WORKER,
            band == band_height,
            0 <= r <= dirty_regions@.len(),
            jobs@ == render_jobs(dirty_regions@.subrange(0, r as int), width as int, height as int),
        decreases dirty_regions@.len() - r,
    {
        let ghost before = jobs@;
        let ghost next = dirty_regions@.subrange(0, r + 1);
        proof {
            assert(next.drop_last() =~= dirty_regions@.subrange(0, r as int));
            assert(next.last() == dirty_regions@[r as int]);
        }
        match pixel_bounds(dirty_regions[r], width, height) {
            Some(b) => {
                let ghost all = region_jobs(dirty_regions@[r as int], width as int, height as int);
                let ghost count = ceil_div(b.y1 - b.y0, band);
                let region_width = (b.x1 - b.x0) as usize;
                let y_end = b.y1 as usize;
                let mut band_y0 = b.y0 as usize;
                let mut k: usize = 0;
                proof {
                    assert(count >= 1) by (nonlinear_arith)
                        requires
                            count == ceil_div(b.y1 - b.y0, band),
                            b.y1 - b.y0 >= 1,
                            band == 80,
                    ;
                    assert(all.subrange(0, 0) =~= Seq::<DirtyRenderJob>::empty());
                    assert(before + all.subrange(0, 0) =~= before);
                }
                while band_y0 < y_end
                    invariant
                        0 <= b.x0 < b.x1 <= width,
                        0 <= b.y0 < b.y1 <= height,
                        width <= i32::MAX,
                        height <= i32::MAX,
                        band_height == MIN_PARALLEL_RENDER_ROWS_PER_WORKER,
                        band == band_height,
                        region_width == b.x1 - b.x0,
                        y_end == b.y1,
                        all == region_jobs(dirty_regions@[r as int], width as int, height as int),
                        pixel_bounds_spec(dirty_regions@[r as int], width as int, height as int) == Some(b),
                        count == ceil_div(b.y1 - b.y0, band),
                        all.len() == count,
                        band_y0 == min_int(b.y0 + band * k, b.y1 as int),
                        band_y0 < y_end ==> k < count,
                        k <= count,
                        band_y0 >= y_end ==> k == count,
                        jobs@ == before + all.subrange(0, k as int),
                    decreases y_end - band_y0,
                {
                    let reach = band_y0 + band_height;
                    let band_y1 = if reach < y_end { reach } else { y_end };
                    let pixel_count = saturating_mul_usize(region_width, band_y1 - band_y0);
                    let job = DirtyRenderJob {
                        clip: PixelRect { x0: b.x0, y0: band_y0 as i32, x1: b.x1, y1: band_y1 as i32 },
                        pixel_count,
                    };
                    proof {
                        assert(band * (k + 1) == band * k + band) by (nonlinear_arith);
                        assert(job == band_job(b, k as int));
                        assert(band_y0 == b.y0 + band * k);
                        if band_y1 < y_end {
                            assert(k + 1 < count) by (nonlinear_arith)
                                requires
                                    band_y1 == b.y0 + band * (k + 1),
                                    band_y1 < b.y1,
                                    count == ceil_div(b.y1 - b.y0, band),
                                    band == 80,
                            ;
                        } else {
                            assert(k + 1 == count) by (nonlinear_arith)
                                requires
                                    b.y0 + band * (k + 1) >= b.y1,
                                    b.y0 + band * k < b.y1,
                                    count == ceil_div(b.y1 - b.y0, band),
                                    band == 80,
                            ;
                        }
                    }
                    jobs.push(job);
                    proof {
                        assert(all.subrange(0, k + 1) =~= all.subrange(0, k as int).push(job));
                        assert(jobs@ =~= before + all.subrange(0, k + 1));
                    }
                    band_y0 = band_y1;
                    k = k + 1;
                }
                proof {
                    assert(all.subrange(0, k as int) =~= all);
                }
            },
            None => {
                proof {
                    assert(before + region_jobs(dirty_regions@[r as int], width as int, height as int) =~= before);
                }
            },
        }
        r = r + 1;
    }
    proof {
        assert(dirty_regions@.subrange(0, r as int) =~= dirty_regions@);
    }
    jobs
}

proof fn lemma_job_pixels_append(a: Seq<DirtyRenderJob>, b: Seq<DirtyRenderJob>)
    ensures
        job_pixels(a + b) == job_pixels(a) + job_pixels(b),
    decreases b.len(),
{
    if b.len() > 0 {
        lemma_job_pixels_append(a, b.drop_last());
        assert((a + b).drop_last() =~= a + b.drop_last());
        assert((a + b).last() == b.last());
    } else {
        assert(a + b =~= a);
    }
}

proof fn lemma_region_band_pixels(rect: PixelRect, width: int, height: int, b: PixelRect, k: int)
    requires
        0 <= width <= i32::MAX,
        0 <= height <= i32::MAX,
        width * height <= usize::MAX,
        pixel_bounds_spec(rect, width, height) == Some(b),
        0 <= k <= region_jobs(rect, width, height).len(),
    ensures
        job_pixels(region_jobs(rect, width, height).subrange(0, k)) == (b.x1 - b.x0) * (min_int(
            b.y0 + MIN_PARALLEL_RENDER_ROWS_PER_WORKER * k,
            b.y1 as int,
        ) - b.y0),
    decreases k,
{
    let all = region_jobs(rect, width, height);
    let band = MIN_PARALLEL_RENDER_ROWS_PER_WORKER as int;
    let bw = b.x1 - b.x0;
    if k == 0 {
        assert(all.subrange(0, 0) =~= Seq::<DirtyRenderJob>::empty());
        assert(min_int(b.y0 + band * k, b.y1 as int) == b.y0);
        assert(bw * 0 == 0);
    } else {
        lemma_region_band_pixels(rect, width, height, b, k - 1);
        assert(all.subrange(0, k).drop_last() =~= all.subrange(0, k - 1));
        let job = all[k - 1];
        assert(job == band_job(b, k - 1));
        let y0 = b.y0 + band * (k - 1);
        let y1 = min_int(b.y0 + band * k, b.y1 as int);
        assert(band * k == band * (k - 1) + band) by (nonlinear_arith);
        assert(k - 1 < ceil_div(b.y1 - b.y0, band));
        assert(y0 < b.y1) by (nonlinear_arith)
            requires
                k - 1 < ceil_div(b.y1 - b.y0, band),
                y0 == b.y0 + band * (k - 1),
                band == 80,
                b.y1 > b.y0,
        ;
        assert(0 <= bw * (y1 - y0) <= width * height) by (nonlinear_arith)
            requires
                0 <= b.x0 < b.x1 <= width,
                bw == b.x1 - b.x0,
                0 <= b.y0 <= y0 < y1 <= b.y1 <= height,
        ;
        assert(bw * (y0 - b.y0) + bw * (y1 - y0) == bw * (y1 - b.y0)) by (nonlinear_arith);
        assert(min_int(b.y0 + band * (k - 1), b.y1 as int) == y0);
        assert(job.pixel_count == bw * (y1 - y0));
        assert(all.subrange(0, k).last() == job);
        assert(job_pixels(all.subrange(0, k)) == job_pixels(all.subrange(0, k - 1)) + job.pixel_count);
    }
}

/// Cutting the dirty regions into jobs loses and adds no pixel: the jobs'
/// pixel counts add up to the frame pixels the regions cover.
pub proof fn lemma_render_jobs_cover_dirty_area(rects: Seq<PixelRect>, width: int, height: int)
    requires
        0 <= width <= i32::MAX,
        0 <= height <= i32::MAX,
        width * height <= usize::MAX,
    ensures
        job_pixels(render_jobs(rects, width, height)) == total_frame_area(rects, width, height),
    decreases rects.len(),
{
    if rects.len() > 0 {
        lemma_render_jobs_cover_dirty_area(rects.drop_last(), width, height);
        let rect = rects.last();
        lemma_job_pixels_append(render_jobs(rects.drop_last(), width, height), region_jobs(rect, width, height));
        let all = region_jobs(rect, width, height);
        match pixel_bounds_spec(rect, width, height) {
            Some(b) => {
                lemma_region_band_pixels(rect, width, height, b, all.len() as int);
                assert(all.subrange(0, all.len() as int) =~= all);
                let band = MIN_PARALLEL_RENDER_ROWS_PER_WORKER as int;
                assert(b.y0 + band * all.len() >= b.y1) by (nonlinear_arith)
                    requires
                        all.len() == ceil_div(b.y1 - b.y0, band),
                        band == 80,
                        b.y1 > b.y0,
                ;
            },
            None => {},
        }
    }
}

// ---------------------------------------------------------------------------
// Sharing jobs among workers.
// ---------------------------------------------------------------------------

/// Where a job of the given size goes in a list ordered from the largest job
/// down: right after the last job at least as large.
pub open spec fn desc_insert_pos(sorted: Seq<DirtyRenderJob>, pixel_count: int) -> int
    decreases sorted.len(),
{
    if sorted.len() == 0 {
        0
    } else if sorted.last().pixel_count >= pixel_count {
        sorted.len() as int
    } else {
        desc_insert_pos(sorted.drop_last(), pixel_count)
    }
}

/// The jobs ordered from the largest pixel count down; jobs of equal size
/// keep their order (a stable sort).
pub open spec fn sort_by_pixels_desc(jobs: Seq<DirtyRenderJob>) -> Seq<DirtyRenderJob>
    decreases jobs.len(),
{
    if jobs.len() == 0 {
        Seq::empty()
    } else {
        let sorted = sort_by_pixels_desc(jobs.drop_last());
        sorted.insert(desc_insert_pos(sorted, jobs.last().pixel_count as int), jobs.last())
    }
}

/// The first index of a smallest load.
pub open spec fn first_min_index(loads: Seq<int>) -> int
    decreases loads.len(),
{
    if loads.len() <= 1 {
        0
    } else {
        let i = first_min_index(loads.drop_last());
        if loads.last() < loads[i] {
            loads.len() - 1
        } else {
            i
        }
    }
}

/// The loads of `workers` workers after the first `k` jobs of `sorted` have
/// each gone to the first least-loaded worker (loads saturate at
/// `usize::MAX`).
pub open spec fn greedy_loads(sorted: Seq<DirtyRenderJob>, workers: int, k: int) -> Seq<int>
    decreases k,
{
    if k <= 0 {
        Seq::new(workers as nat, |i: int| 0int)
    } else {
        let loads = greedy_loads(sorted, workers, k - 1);
        let i = first_min_index(loads);
        loads.update(i, sat_add(loads[i], sorted[k - 1].pixel_count as int))
    }
}

/// The worker that job `k` of `sorted` goes to.
pub open spec fn greedy_owner(sorted: Seq<DirtyRenderJob>, workers: int, k: int) -> int {
    first_min_index(greedy_loads(sorted, workers, k))
}

/// The jobs among the first `k` of `sorted` that go to worker `w`, in order.
pub open spec fn worker_jobs(sorted: Seq<DirtyRenderJob>, workers: int, w: int, k: int) -> Seq<DirtyRenderJob>
    decreases k,
{
    if k <= 0 {
        Seq::empty()
    } else {
        let prev = worker_jobs(sorted, workers, w, k - 1);
        if greedy_owner(sorted, workers, k - 1) == w {
            prev.push(sorted[k - 1])
        } else {
            prev
        }
    }
}

/// The groups that are not empty, in order.
pub open spec fn nonempty_groups(groups: Seq<Seq<DirtyRenderJob>>) -> Seq<Seq<DirtyRenderJob>>
    decreases groups.len(),
{
    if groups.len() == 0 {
        Seq::empty()
    } else {
        let rest = nonempty_groups(groups.drop_last());
        if groups.last().len() > 0 {
            rest.push(groups.last())
        } else {
            rest
        }
    }
}

/// How many workers share `job_count` jobs: as requested, at least one and
/// at most one per job.
pub open spec fn job_workers(job_count: int, worker_count: int) -> int {
    min_int(max_int(worker_count, 1), max_int(job_count, 1))
}

/// The groups of jobs the workers take: the jobs from the largest down, each
/// to the first least-loaded worker; workers left without a job are left
/// out.
pub open spec fn distributed(jobs: Seq<DirtyRenderJob>, worker_count: int) -> Seq<Seq<DirtyRenderJob>> {
    let workers = job_workers(jobs.len() as int, worker_count);
    let sorted = sort_by_pixels_desc(jobs);
    nonempty_groups(
        Seq::new(workers as nat, |w: int| worker_jobs(sorted, workers, w, sorted.len() as int)),
    )
}

proof fn lemma_sort_len(jobs: Seq<DirtyRenderJob>)
    ensures
        sort_by_pixels_desc(jobs).len() == jobs.len(),
    decreases jobs.len(),
{
    if jobs.len() > 0 {
        lemma_sort_len(jobs.drop_last());
        lemma_desc_insert_pos_bounds(sort_by_pixels_desc(jobs.drop_last()), jobs.last().pixel_count as int);
    }
}

proof fn lemma_desc_insert_pos_bounds(sorted: Seq<DirtyRenderJob>, pixel_count: int)
    ensures
        0 <= desc_insert_pos(sorted, pixel_count) <= sorted.len(),
    decreases sorted.len(),
{
    if sorted.len() > 0 {
        lemma_desc_insert_pos_bounds(sorted.drop_last(), pixel_count);
    }
}

proof fn lemma_first_min_index_bounds(loads: Seq<int>)
    requires
        loads.len() >= 1,
    ensures
        0 <= first_min_index(loads) < loads.len(),
        forall|j: int| 0 <= j < loads.len() ==> loads[first_min_index(loads)] <= #[trigger] loads[j],
    decreases loads.len(),
{
    if loads.len() > 1 {
        lemma_first_min_index_bounds(loads.drop_last());
        let i = first_min_index(loads.drop_last());
        assert forall|j: int| 0 <= j < loads.len() implies loads[first_min_index(loads)] <= #[trigger] loads[j] by {
            if j < loads.len() - 1 {
                assert(loads.drop_last()[j] == loads[j]);
            }
        }
    }
}

proof fn lemma_greedy_loads_len(sorted: Seq<DirtyRenderJob>, workers: int, k: int)
    requires
        workers >= 1,
    ensures
        greedy_loads(sorted, workers, k).len() == workers,
    decreases k,
{
    if k > 0 {
        lemma_greedy_loads_len(sorted, workers, k - 1);
        lemma_first_min_index_bounds(greedy_loads(sorted, workers, k - 1));
    }
}

/// The jobs ordered from the largest pixel count down, equal sizes keeping
/// their order.
pub fn sort_jobs_by_pixels_desc(jobs: &Vec<DirtyRenderJob>) -> (sorted: Vec<DirtyRenderJob>)
    ensures
        sorted@ == sort_by_pixels_desc(jobs@),
{
    let mut sorted: Vec<DirtyRenderJob> = Vec::new();
    let mut k: usize = 0;
    proof {
        assert(jobs@.subrange(0, 0) =~= Seq::<DirtyRenderJob>::empty());
    }
    while k < jobs.len()
        invariant
            0 <= k <= jobs@.len(),
            sorted@ == sort_by_pixels_desc(jobs@.subrange(0, k as int)),
        decreases jobs@.len() - k,
    {
        let job = jobs[k];
        let key = job.pixel_count;
        let mut pos = sorted.len();
        proof {
            assert(sorted@.subrange(0, pos as int) =~= sorted@);
        }
        while pos > 0 && sorted[pos - 1].pixel_count < key
            invariant
                0 <= pos <= sorted@.len(),
                desc_insert_pos(sorted@, key as int) == desc_insert_pos(sorted@.subrange(0, pos as int), key as int),
            decreases pos,
        {
            proof {
                let sub = sorted@.subrange(0, pos as int);
                assert(sub.drop_last() =~= sorted@.subrange(0, pos - 1));
            }
            pos = pos - 1;
        }
        proof {
            if pos == 0 {
                assert(sorted@.subrange(0, 0) =~= Seq::<DirtyRenderJob>::empty());
            }
            lemma_desc_insert_pos_bounds(sorted@, key as int);
            let next = jobs@.subrange(0, k + 1);
            assert(next.drop_last() =~= jobs@.subrange(0, k as int));
            assert(next.last() == job);
        }
        sorted.insert(pos, job);
        k = k + 1;
    }
    proof {
        assert(jobs@.subrange(0, k as int) =~= jobs@);
    }
    sorted
}

/// The first index of a smallest load.
fn first_min_load_index(loads: &Vec<usize>) -> (r: usize)
    requires
        loads@.len() >= 1,
    ensures
        r == first_min_index(loads@.map_values(|l: usize| l as int)),
{
    let ghost as_ints = loads@.map_values(|l: usize| l as int);
    let mut best: usize = 0;
    let mut i: usize = 1;
    proof {
        assert(as_ints.subrange(0, 1).len() == 1);
    }
    while i < loads.len()
        invariant
            1 <= i <= loads@.len(),
            as_ints == loads@.map_values(|l: usize| l as int),
            best == first_min_index(as_ints.subrange(0, i as int)),
        decreases loads@.len() - i,
    {
        proof {
            let sub = as_ints.subrange(0, i + 1);
            assert(sub.drop_last() =~= as_ints.subrange(0, i as int));
            lemma_first_min_index_bounds(as_ints.subrange(0, i as int));
        }
        if loads[i] < loads[best] {
            best = i;
        }
        i = i + 1;
    }
    proof {
        assert(as_ints.subrange(0, i as int) =~= as_ints);
    }
    best
}

/// Shares the jobs among at most `worker_count` workers (at least one, at
/// most one per job): from the largest job down, each job goes to the
/// first worker with the smallest load so far; workers left without a job
/// are left out.
pub fn distribute_dirty_render_jobs(dirty_jobs: &Vec<DirtyRenderJob>, worker_count: usize) -> (groups:
    Vec<Vec<DirtyRenderJob>>)
    ensures
        groups@.len() == distributed(dirty_jobs@, worker_count as int).len(),
        forall|i: int|
            0 <= i < groups@.len() ==> #[trigger] groups@[i]@ == distributed(dirty_jobs@, worker_count as int)[i],
{
    let n = dirty_jobs.len();
    let floor = if worker_count > 1 { worker_count } else { 1 };
    let cap = if n > 1 { n } else { 1 };
    let workers = if floor < cap { floor } else { cap };
    let ghost wi = workers as int;
    let sorted = sort_jobs_by_pixels_desc(dirty_jobs);
    let ghost ss = sorted@;
    proof {
        lemma_sort_len(dirty_jobs@);
    }
    let mut loads: Vec<usize> = vec![0usize; workers];
    let mut owners: Vec<usize> = Vec::new();
    let mut k: usize = 0;
    proof {
        assert(loads@.map_values(|l: usize| l as int) =~= greedy_loads(ss, wi, 0));
    }
    while k < n
        invariant
            n == dirty_jobs@.len(),
            ss == sorted@,
            ss.len() == n,
            workers >= 1,
            wi == workers,
            0 <= k <= n,
            loads@.len() == workers,
            loads@.map_values(|l: usize| l as int) == greedy_loads(ss, wi, k as int),
            owners@.len() == k,
            forall|j: int| 0 <= j < k ==> #[trigger] owners@[j] as int == greedy_owner(ss, wi, j),
            forall|j: int| 0 <= j < k ==> #[trigger] owners@[j] < workers,
        decreases n - k,
    {
        let i = first_min_load_index(&loads);
        proof {
            lemma_greedy_loads_len(ss, wi, k as int);
            lemma_first_min_index_bounds(greedy_loads(ss, wi, k as int));
        }
        let updated = loads[i].saturating_add(sorted[k].pixel_count);
        loads.set(i, updated);
        owners.push(i);
        proof {
            assert(loads@.map_values(|l: usize| l as int) =~= greedy_loads(ss, wi, k + 1));
        }
        k = k + 1;
    }
    let ghost all = Seq::new(wi as nat, |w: int| worker_jobs(ss, wi, w, n as int));
    let mut groups: Vec<Vec<DirtyRenderJob>> = Vec::new();
    let mut w: usize = 0;
    proof {
        assert(all.subrange(0, 0) =~= Seq::<Seq<DirtyRenderJob>>::empty());
    }
    while w < workers
        invariant
            n == dirty_jobs@.len(),
            ss == sorted@,
            ss.len() == n,
            wi == workers,
            0 <= w <= workers,
            owners@.len() == n,
            forall|j: int| 0 <= j < n ==> #[trigger] owners@[j] as int == greedy_owner(ss, wi, j),
            all == Seq::new(wi as nat, |v: int| worker_jobs(ss, wi, v, n as int)),
            groups@.len() == nonempty_groups(all.subrange(0, w as int)).len(),
            forall|g: int|
                0 <= g < groups@.len() ==> #[trigger] groups@[g]@ == nonempty_groups(all.subrange(0, w as int))[g],
        decreases workers - w,
    {
        let mut group: Vec<DirtyRenderJob> = Vec::new();
        let mut k: usize = 0;
        while k < n
            invariant
                n == dirty_jobs@.len(),
                ss == sorted@,
                ss.len() == n,
                0 <= k <= n,
                owners@.len() == n,
                forall|j: int| 0 <= j < n ==> #[trigger] owners@[j] as int == greedy_owner(ss, wi, j),
                group@ == worker_jobs(ss, wi, w as int, k as int),
            decreases n - k,
        {
            if owners[k] == w {
                group.push(sorted[k]);
            }
            k = k + 1;
        }
        let ghost before = groups@;
        proof {
            let next = all.subrange(0, w + 1);
            assert(next.drop_last() =~= all.subrange(0, w as int));
            assert(next.last() == group@);
        }
        if group.len() > 0 {
            groups.push(group);
        }
        proof {
            assert forall|g: int|
                0 <= g < groups@.len() implies #[trigger] groups@[g]@ == nonempty_groups(all.subrange(0, w + 1))[g] by {
                if g < before.len() {
                    assert(groups@[g] == before[g]);
                }
            }
        }
        w = w + 1;
    }
    proof {
        assert(all.subrange(0, w as int) =~= all);
    }
    groups
}

// ---------------------------------------------------------------------------
// Laws of the job distribution.
// ---------------------------------------------------------------------------

/// The largest pixel count among the jobs (0 for none).
pub open spec fn max_job_pixels(jobs: Seq<DirtyRenderJob>) -> int
    decreases jobs.len(),
{
    if jobs.len() == 0 {
        0
    } else {
        max_int(max_job_pixels(jobs.drop_last()), jobs.last().pixel_count as int)
    }
}

proof fn lemma_job_pixels_nonnegative(jobs: Seq<DirtyRenderJob>)
    ensures
        job_pixels(jobs) >= 0,
    decreases jobs.len(),
{
    if jobs.len() > 0 {
        lemma_job_pixels_nonnegative(jobs.drop_last());
    }
}

proof fn lemma_job_pixels_insert(s: Seq<DirtyRenderJob>, p: int, x: DirtyRenderJob)
    requires
        0 <= p <= s.len(),
    ensures
        job_pixels(s.insert(p, x)) == job_pixels(s) + x.pixel_count,
{
    let a = s.subrange(0, p);
    let b = s.subrange(p, s.len() as int);
    assert(s =~= a + b);
    lemma_job_pixels_append(a, b);
    lemma_job_pixels_append(a.push(x), b);
    assert(a.push(x).drop_last() =~= a);
}

proof fn lemma_job_pixels_prefix(s: Seq<DirtyRenderJob>, k: int)
    requires
        0 <= k <= s.len(),
    ensures
        0 <= job_pixels(s.subrange(0, k)) <= job_pixels(s),
    decreases s.len() - k,
{
    if k < s.len() {
        lemma_job_pixels_prefix(s, k + 1);
        assert(s.subrange(0, k + 1).drop_last() =~= s.subrange(0, k));
    } else {
        assert(s.subrange(0, k) =~= s);
    }
    lemma_job_pixels_nonnegative(s.subrange(0, k));
}

proof fn lemma_sort_keeps_pixels(jobs: Seq<DirtyRenderJob>)
    ensures
        sort_by_pixels_desc(jobs).len() == jobs.len(),
        job_pixels(sort_by_pixels_desc(jobs)) == job_pixels(jobs),
        forall|k: int|
            0 <= k < jobs.len() ==> #[trigger] sort_by_pixels_desc(jobs)[k].pixel_count <= max_job_pixels(jobs),
    decreases jobs.len(),
{
    lemma_sort_len(jobs);
    if jobs.len() > 0 {
        let prev = sort_by_pixels_desc(jobs.drop_last());
        lemma_sort_keeps_pixels(jobs.drop_last());
        let p = desc_insert_pos(prev, jobs.last().pixel_count as int);
        lemma_desc_insert_pos_bounds(prev, jobs.last().pixel_count as int);
        lemma_job_pixels_insert(prev, p, jobs.last());
        prev.insert_ensures(p, jobs.last());
        assert forall|k: int| 0 <= k < jobs.len() implies #[trigger] sort_by_pixels_desc(jobs)[k].pixel_count
            <= max_job_pixels(jobs) by {
            if k < p {
                assert(sort_by_pixels_desc(jobs)[k] == prev[k]);
            } else if k > p {
                assert(sort_by_pixels_desc(jobs)[k] == prev[k - 1]);
            }
        }
    }
}

proof fn lemma_greedy_balance(sorted: Seq<DirtyRenderJob>, workers: int, k: int, bound: int)
    requires
        workers >= 1,
        0 <= k <= sorted.len(),
        forall|j: int| 0 <= j < sorted.len() ==> #[trigger] sorted[j].pixel_count <= bound,
        job_pixels(sorted) <= usize::MAX,
        bound >= 0,
    ensures
        greedy_loads(sorted, workers, k).len() == workers,
        forall|i: int, j: int|
            0 <= i < workers && 0 <= j < workers ==> #[trigger] greedy_loads(sorted, workers, k)[i]
                <= #[trigger] greedy_loads(sorted, workers, k)[j] + bound,
        forall|i: int|
            0 <= i < workers ==> 0 <= #[trigger] greedy_loads(sorted, workers, k)[i] <= job_pixels(
                sorted.subrange(0, k),
            ),
        forall|w: int|
            0 <= w < workers ==> #[trigger] job_pixels(worker_jobs(sorted, workers, w, k)) == greedy_loads(
                sorted,
                workers,
                k,
            )[w],
    decreases k,
{
    lemma_greedy_loads_len(sorted, workers, k);
    if k == 0 {
        assert(sorted.subrange(0, 0) =~= Seq::<DirtyRenderJob>::empty());
    } else {
        lemma_greedy_balance(sorted, workers, k - 1, bound);
        let prev = greedy_loads(sorted, workers, k - 1);
        let m = first_min_index(prev);
        lemma_first_min_index_bounds(prev);
        let size = sorted[k - 1].pixel_count as int;
        lemma_job_pixels_prefix(sorted, k);
        assert(sorted.subrange(0, k).drop_last() =~= sorted.subrange(0, k - 1));
        assert(sorted.subrange(0, k).last() == sorted[k - 1]);
        assert(prev[m] + size <= usize::MAX);
        let next = greedy_loads(sorted, workers, k);
        assert(next == prev.update(m, prev[m] + size));
        assert(greedy_owner(sorted, workers, k - 1) == m);
        assert forall|w: int| 0 <= w < workers implies #[trigger] job_pixels(worker_jobs(sorted, workers, w, k))
            == next[w] by {
            let before = worker_jobs(sorted, workers, w, k - 1);
            assert(job_pixels(before) == prev[w]);
            if w == m {
                assert(worker_jobs(sorted, workers, w, k) == before.push(sorted[k - 1]));
                assert(before.push(sorted[k - 1]).drop_last() =~= before);
            } else {
                assert(worker_jobs(sorted, workers, w, k) == before);
            }
        }
    }
}

proof fn lemma_nonempty_groups_members(groups: Seq<Seq<DirtyRenderJob>>)
    ensures
        nonempty_groups(groups).len() <= groups.len(),
        forall|g: int|
            0 <= g < nonempty_groups(groups).len() ==> (#[trigger] nonempty_groups(groups)[g]).len() > 0
                && exists|w: int| 0 <= w < groups.len() && nonempty_groups(groups)[g] == groups[w],
    decreases groups.len(),
{
    if groups.len() > 0 {
        let rest = groups.drop_last();
        lemma_nonempty_groups_members(rest);
        assert forall|g: int|
            0 <= g < nonempty_groups(groups).len() implies (#[trigger] nonempty_groups(groups)[g]).len() > 0
                && exists|w: int| 0 <= w < groups.len() && nonempty_groups(groups)[g] == groups[w] by {
            if g < nonempty_groups(rest).len() {
                let w = choose|w: int| 0 <= w < rest.len() && nonempty_groups(rest)[g] == rest[w];
                assert(groups[w] == rest[w]);
            } else {
                assert(nonempty_groups(groups)[g] == groups[groups.len() - 1]);
            }
        }
    }
}

/// The job distribution keeps the workers' loads close: no group holds more
/// pixels than any other plus the largest job; no group is empty, and there
/// are no more groups than workers.
pub proof fn lemma_distribution_balances_loads(jobs: Seq<DirtyRenderJob>, worker_count: int)
    requires
        job_pixels(jobs) <= usize::MAX,
    ensures
        distributed(jobs, worker_count).len() <= job_workers(jobs.len() as int, worker_count),
        forall|g: int|
            0 <= g < distributed(jobs, worker_count).len() ==> (#[trigger] distributed(jobs, worker_count)[g]).len()
                > 0,
        forall|a: int, b: int|
            0 <= a < distributed(jobs, worker_count).len() && 0 <= b < distributed(jobs, worker_count).len()
                ==> job_pixels(#[trigger] distributed(jobs, worker_count)[a]) <= job_pixels(
                #[trigger] distributed(jobs, worker_count)[b],
            ) + max_job_pixels(jobs),
{
    let workers = job_workers(jobs.len() as int, worker_count);
    let sorted = sort_by_pixels_desc(jobs);
    let n = sorted.len() as int;
    let all = Seq::new(workers as nat, |w: int| worker_jobs(sorted, workers, w, n));
    lemma_sort_keeps_pixels(jobs);
    lemma_max_job_pixels_nonnegative(jobs);
    lemma_greedy_balance(sorted, workers, n, max_job_pixels(jobs));
    lemma_nonempty_groups_members(all);
    let d = distributed(jobs, worker_count);
    assert(d == nonempty_groups(all));
    assert forall|a: int, b: int| 0 <= a < d.len() && 0 <= b < d.len() implies job_pixels(#[trigger] d[a])
        <= job_pixels(#[trigger] d[b]) + max_job_pixels(jobs) by {
        let wa = choose|w: int| 0 <= w < all.len() && d[a] == all[w];
        let wb = choose|w: int| 0 <= w < all.len() && d[b] == all[w];
        let loads = greedy_loads(sorted, workers, n);
        assert(job_pixels(all[wa]) == loads[wa]);
        assert(job_pixels(all[wb]) == loads[wb]);
        assert(loads[wa] <= loads[wb] + max_job_pixels(jobs));
    }
}

proof fn lemma_max_job_pixels_nonnegative(jobs: Seq<DirtyRenderJob>)
    ensures
        max_job_pixels(jobs) >= 0,
    decreases jobs.len(),
{
    if jobs.len() > 0 {
        lemma_max_job_pixels_nonnegative(jobs.drop_last());
    }
}

proof fn lemma_first_min_index_first(loads: Seq<int>)
    requires
        loads.len() >= 1,
    ensures
        forall|j: int| 0 <= j < first_min_index(loads) ==> #[trigger] loads[j] > loads[first_min_index(loads)],
    decreases loads.len(),
{
    if loads.len() > 1 {
        let rest = loads.drop_last();
        lemma_first_min_index_first(rest);
        lemma_first_min_index_bounds(rest);
        let i = first_min_index(rest);
        assert forall|j: int| 0 <= j < first_min_index(loads) implies #[trigger] loads[j] > loads[first_min_index(loads)] by {
            assert(rest[j] == loads[j]);
        }
    }
}

proof fn lemma_sort_positive(jobs: Seq<DirtyRenderJob>)
    requires
        forall|j: int| 0 <= j < jobs.len() ==> #[trigger] jobs[j].pixel_count > 0,
    ensures
        forall|k: int| 0 <= k < jobs.len() ==> #[trigger] sort_by_pixels_desc(jobs)[k].pixel_count > 0,
    decreases jobs.len(),
{
    lemma_sort_len(jobs);
    if jobs.len() > 0 {
        let prev = sort_by_pixels_desc(jobs.drop_last());
        assert forall|j: int| 0 <= j < jobs.drop_last().len() implies #[trigger] jobs.drop_last()[j].pixel_count
            > 0 by {
            assert(jobs.drop_last()[j] == jobs[j]);
        }
        lemma_sort_positive(jobs.drop_last());
        let p = desc_insert_pos(prev, jobs.last().pixel_count as int);
        lemma_desc_insert_pos_bounds(prev, jobs.last().pixel_count as int);
        prev.insert_ensures(p, jobs.last());
        assert forall|k: int| 0 <= k < jobs.len() implies #[trigger] sort_by_pixels_desc(jobs)[k].pixel_count
            > 0 by {
            if k < p {
                assert(sort_by_pixels_desc(jobs)[k] == prev[k]);
            } else if k > p {
                assert(sort_by_pixels_desc(jobs)[k] == prev[k - 1]);
            }
        }
    }
}

/// While there are workers without a job, each job goes to the next such
/// worker: after `k` jobs, workers `0..k` carry load and the rest none.
proof fn lemma_greedy_spreads(sorted: Seq<DirtyRenderJob>, workers: int, k: int)
    requires
        workers >= 1,
        0 <= k <= workers,
        k <= sorted.len(),
        forall|j: int| 0 <= j < sorted.len() ==> #[trigger] sorted[j].pixel_count > 0,
    ensures
        greedy_loads(sorted, workers, k).len() == workers,
        forall|i: int| 0 <= i < k ==> #[trigger] greedy_loads(sorted, workers, k)[i] > 0,
        forall|i: int| k <= i < workers ==> #[trigger] greedy_loads(sorted, workers, k)[i] == 0,
        forall|j: int| 0 <= j < k ==> #[trigger] greedy_owner(sorted, workers, j) == j,
    decreases k,
{
    lemma_greedy_loads_len(sorted, workers, k);
    if k > 0 {
        lemma_greedy_spreads(sorted, workers, k - 1);
        let prev = greedy_loads(sorted, workers, k - 1);
        lemma_first_min_index_bounds(prev);
        lemma_first_min_index_first(prev);
        let m = first_min_index(prev);
        assert(prev[k - 1] == 0);
        assert(prev[m] <= prev[k - 1]);
        if m < k - 1 {
            assert(prev[m] > 0);
        }
        if m > k - 1 {
            assert(prev[k - 1] > prev[m]);
        }
        assert(m == k - 1);
        assert(greedy_owner(sorted, workers, k - 1) == k - 1);
        assert(sorted[k - 1].pixel_count > 0);
    }
}

proof fn lemma_owned_job_in_group(sorted: Seq<DirtyRenderJob>, workers: int, w: int, k: int)
    requires
        0 <= w < k <= sorted.len(),
        greedy_owner(sorted, workers, w) == w,
    ensures
        worker_jobs(sorted, workers, w, k).len() >= 1,
    decreases k,
{
    if k > w + 1 {
        lemma_owned_job_in_group(sorted, workers, w, k - 1);
    }
}

proof fn lemma_nonempty_groups_all(groups: Seq<Seq<DirtyRenderJob>>)
    ensures
        (forall|g: int| 0 <= g < groups.len() ==> (#[trigger] groups[g]).len() > 0) ==> nonempty_groups(
            groups,
        ).len() == groups.len(),
        (forall|g: int| 0 <= g < groups.len() ==> (#[trigger] groups[g]).len() == 0) ==> nonempty_groups(
            groups,
        ).len() == 0,
    decreases groups.len(),
{
    if groups.len() > 0 {
        let rest = groups.drop_last();
        lemma_nonempty_groups_all(rest);
        if forall|g: int| 0 <= g < groups.len() ==> (#[trigger] groups[g]).len() > 0 {
            assert forall|g: int| 0 <= g < rest.len() implies (#[trigger] rest[g]).len() > 0 by {
                assert(rest[g] == groups[g]);
            }
        }
        if forall|g: int| 0 <= g < groups.len() ==> (#[trigger] groups[g]).len() == 0 {
            assert forall|g: int| 0 <= g < rest.len() implies (#[trigger] rest[g]).len() == 0 by {
                assert(rest[g] == groups[g]);
            }
            assert(groups[groups.len() - 1].len() == 0);
        }
    }
}

/// When every job has pixels, every worker gets work: the distribution
/// makes exactly `min(max(worker_count, 1), jobs)` groups (none for no
/// jobs).
pub proof fn lemma_distribution_uses_every_worker(jobs: Seq<DirtyRenderJob>, worker_count: int)
    requires
        forall|j: int| 0 <= j < jobs.len() ==> #[trigger] jobs[j].pixel_count > 0,
    ensures
        distributed(jobs, worker_count).len() == if jobs.len() == 0 {
            0
        } else {
            min_int(max_int(worker_count, 1), jobs.len() as int)
        },
{
    let workers = job_workers(jobs.len() as int, worker_count);
    let sorted = sort_by_pixels_desc(jobs);
    let n = sorted.len() as int;
    let all = Seq::new(workers as nat, |w: int| worker_jobs(sorted, workers, w, n));
    lemma_sort_len(jobs);
    assert(distributed(jobs, worker_count) == nonempty_groups(all));
    lemma_nonempty_groups_all(all);
    if jobs.len() == 0 {
        assert forall|g: int| 0 <= g < all.len() implies (#[trigger] all[g]).len() == 0 by {
            assert(all[g] == worker_jobs(sorted, workers, g, 0));
        }
    } else {
        lemma_sort_positive(jobs);
        lemma_greedy_spreads(sorted, workers, workers);
        assert forall|g: int| 0 <= g < all.len() implies (#[trigger] all[g]).len() > 0 by {
            assert(greedy_owner(sorted, workers, g) == g);
            lemma_owned_job_in_group(sorted, workers, g, n);
        }
    }
}

/// The jobs from the largest pixel count down.
pub open spec fn descending(jobs: Seq<DirtyRenderJob>) -> bool {
    forall|i: int, j: int| 0 <= i < j < jobs.len() ==> jobs[i].pixel_count >= jobs[j].pixel_count
}

proof fn lemma_desc_insert_pos_split(sorted: Seq<DirtyRenderJob>, pixel_count: int)
    requires
        descending(sorted),
    ensures
        forall|i: int| 0 <= i < desc_insert_pos(sorted, pixel_count) ==> sorted[i].pixel_count >= pixel_count,
        forall|i: int|
            desc_insert_pos(sorted, pixel_count) <= i < sorted.len() ==> sorted[i].pixel_count < pixel_count,
    decreases sorted.len(),
{
    if sorted.len() > 0 {
        let rest = sorted.drop_last();
        if sorted.last().pixel_count >= pixel_count {
            assert forall|i: int| 0 <= i < sorted.len() implies sorted[i].pixel_count >= pixel_count by {
                if i < sorted.len() - 1 {
                    assert(sorted[i].pixel_count >= sorted[sorted.len() - 1].pixel_count);
                }
            }
        } else {
            lemma_desc_insert_pos_split(rest, pixel_count);
            lemma_desc_insert_pos_bounds(rest, pixel_count);
            let p = desc_insert_pos(rest, pixel_count);
            assert forall|i: int| p <= i < sorted.len() implies sorted[i].pixel_count < pixel_count by {
                if i < sorted.len() - 1 {
                    assert(rest[i] == sorted[i]);
                }
            }
            assert forall|i: int| 0 <= i < p implies sorted[i].pixel_count >= pixel_count by {
                assert(rest[i] == sorted[i]);
            }
        }
    }
}

proof fn lemma_sort_descending(jobs: Seq<DirtyRenderJob>)
    ensures
        descending(sort_by_pixels_desc(jobs)),
    decreases jobs.len(),
{
    if jobs.len() > 0 {
        let prev = sort_by_pixels_desc(jobs.drop_last());
        lemma_sort_descending(jobs.drop_last());
        let x = jobs.last();
        let p = desc_insert_pos(prev, x.pixel_count as int);
        lemma_desc_insert_pos_bounds(prev, x.pixel_count as int);
        lemma_desc_insert_pos_split(prev, x.pixel_count as int);
        prev.insert_ensures(p, x);
        let s = sort_by_pixels_desc(jobs);
        assert forall|i: int, j: int| 0 <= i < j < s.len() implies s[i].pixel_count >= s[j].pixel_count by {
            let pi = if i < p { i } else if i == p { -1 } else { i - 1 };
            let pj = if j < p { j } else if j == p { -1 } else { j - 1 };
            if i != p && j != p {
                assert(s[i] == prev[pi] && s[j] == prev[pj]);
            } else if i == p {
                assert(s[j] == prev[j - 1]);
            } else {
                assert(s[i] == prev[i]);
            }
        }
    }
}

proof fn lemma_worker_jobs_descending(sorted: Seq<DirtyRenderJob>, workers: int, w: int, k: int)
    requires
        descending(sorted),
        0 <= k <= sorted.len(),
    ensures
        descending(worker_jobs(sorted, workers, w, k)),
        forall|i: int, j: int|
            0 <= i < worker_jobs(sorted, workers, w, k).len() && k <= j < sorted.len() ==> worker_jobs(
                sorted,
                workers,
                w,
                k,
            )[i].pixel_count >= sorted[j].pixel_count,
    decreases k,
{
    if k > 0 {
        lemma_worker_jobs_descending(sorted, workers, w, k - 1);
        let prev = worker_jobs(sorted, workers, w, k - 1);
        let cur = worker_jobs(sorted, workers, w, k);
        assert forall|i: int, j: int| 0 <= i < cur.len() && k <= j < sorted.len() implies cur[i].pixel_count
            >= sorted[j].pixel_count by {
            if i < prev.len() {
                assert(cur[i] == prev[i]);
            } else {
                assert(cur[i] == sorted[k - 1]);
            }
        }
        assert forall|i: int, j: int| 0 <= i < j < cur.len() implies cur[i].pixel_count >= cur[j].pixel_count by {
            if j < prev.len() {
                assert(cur[i] == prev[i] && cur[j] == prev[j]);
            } else {
                assert(cur[i] == prev[i] && cur[j] == sorted[k - 1]);
            }
        }
    }
}

/// Each group of the distribution lists its jobs from the largest pixel
/// count down.
pub proof fn lemma_distribution_groups_descend(jobs: Seq<DirtyRenderJob>, worker_count: int)
    ensures
        forall|g: int|
            0 <= g < distributed(jobs, worker_count).len() ==> descending(
                #[trigger] distributed(jobs, worker_count)[g],
            ),
{
    let workers = job_workers(jobs.len() as int, worker_count);
    let sorted = sort_by_pixels_desc(jobs);
    let n = sorted.len() as int;
    let all = Seq::new(workers as nat, |w: int| worker_jobs(sorted, workers, w, n));
    lemma_sort_len(jobs);
    lemma_sort_descending(jobs);
    lemma_nonempty_groups_members(all);
    let d = distributed(jobs, worker_count);
    assert(d == nonempty_groups(all));
    assert forall|g: int| 0 <= g < d.len() implies descending(#[trigger] d[g]) by {
        let w = choose|w: int| 0 <= w < all.len() && d[g] == all[w];
        lemma_worker_jobs_descending(sorted, workers, w, n);
    }
}

/// The groups' jobs one after another.
pub open spec fn concat_groups(groups: Seq<Seq<DirtyRenderJob>>) -> Seq<DirtyRenderJob>
    decreases groups.len(),
{
    if groups.len() == 0 {
        Seq::empty()
    } else {
        concat_groups(groups.drop_last()) + groups.last()
    }
}

/// The jobs of the first `w` workers, as a multiset.
spec fn group_union(sorted: Seq<DirtyRenderJob>, workers: int, w: int, k: int) -> vstd::multiset::Multiset<DirtyRenderJob>
    decreases w,
{
    if w <= 0 {
        vstd::multiset::Multiset::empty()
    } else {
        group_union(sorted, workers, w - 1, k).add(worker_jobs(sorted, workers, w - 1, k).to_multiset())
    }
}

proof fn lemma_sort_keeps_jobs(jobs: Seq<DirtyRenderJob>)
    ensures
        sort_by_pixels_desc(jobs).to_multiset() == jobs.to_multiset(),
    decreases jobs.len(),
{
    if jobs.len() == 0 {
        assert(jobs =~= Seq::<DirtyRenderJob>::empty());
    } else {
        lemma_sort_keeps_jobs(jobs.drop_last());
        let prev = sort_by_pixels_desc(jobs.drop_last());
        let p = desc_insert_pos(prev, jobs.last().pixel_count as int);
        lemma_desc_insert_pos_bounds(prev, jobs.last().pixel_count as int);
        vstd::seq_lib::to_multiset_insert(prev, p, jobs.last());
        vstd::seq_lib::to_multiset_build(jobs.drop_last(), jobs.last());
        assert(jobs.drop_last().push(jobs.last()) =~= jobs);
    }
}

proof fn lemma_group_union_empty(sorted: Seq<DirtyRenderJob>, workers: int, w: int)
    ensures
        group_union(sorted, workers, w, 0) =~= vstd::multiset::Multiset::empty(),
    decreases w,
{
    broadcast use vstd::multiset::group_multiset_axioms;

    if w > 0 {
        lemma_group_union_empty(sorted, workers, w - 1);
        assert(worker_jobs(sorted, workers, w - 1, 0) =~= Seq::<DirtyRenderJob>::empty());
        assert(Seq::<DirtyRenderJob>::empty().to_multiset() =~= vstd::multiset::Multiset::empty()) by {
            vstd::seq_lib::to_multiset_len(Seq::<DirtyRenderJob>::empty());
        }
    }
}

proof fn lemma_group_union_step(sorted: Seq<DirtyRenderJob>, workers: int, w: int, k: int)
    requires
        0 <= k < sorted.len(),
    ensures
        group_union(sorted, workers, w, k + 1) =~= if 0 <= greedy_owner(sorted, workers, k) < w {
            group_union(sorted, workers, w, k).insert(sorted[k])
        } else {
            group_union(sorted, workers, w, k)
        },
    decreases w,
{
    broadcast use vstd::multiset::group_multiset_axioms;

    if w > 0 {
        lemma_group_union_step(sorted, workers, w - 1, k);
        let before = worker_jobs(sorted, workers, w - 1, k);
        if greedy_owner(sorted, workers, k) == w - 1 {
            vstd::seq_lib::to_multiset_build(before, sorted[k]);
        }
    }
}

proof fn lemma_group_union_all(sorted: Seq<DirtyRenderJob>, workers: int, k: int)
    requires
        workers >= 1,
        0 <= k <= sorted.len(),
    ensures
        group_union(sorted, workers, workers, k) == sorted.subrange(0, k).to_multiset(),
    decreases k,
{
    broadcast use vstd::multiset::group_multiset_axioms;

    if k == 0 {
        lemma_group_union_empty(sorted, workers, workers);
        assert(sorted.subrange(0, 0) =~= Seq::<DirtyRenderJob>::empty());
        vstd::seq_lib::to_multiset_len(Seq::<DirtyRenderJob>::empty());
    } else {
        lemma_group_union_all(sorted, workers, k - 1);
        lemma_group_union_step(sorted, workers, workers, k - 1);
        lemma_greedy_loads_len(sorted, workers, k - 1);
        lemma_first_min_index_bounds(greedy_loads(sorted, workers, k - 1));
        vstd::seq_lib::to_multiset_build(sorted.subrange(0, k - 1), sorted[k - 1]);
        assert(sorted.subrange(0, k - 1).push(sorted[k - 1]) =~= sorted.subrange(0, k));
    }
}

proof fn lemma_concat_nonempty(groups: Seq<Seq<DirtyRenderJob>>)
    ensures
        concat_groups(nonempty_groups(groups)) == concat_groups(groups),
    decreases groups.len(),
{
    if groups.len() > 0 {
        lemma_concat_nonempty(groups.drop_last());
        let rest = nonempty_groups(groups.drop_last());
        if groups.last().len() > 0 {
            assert(rest.push(groups.last()).drop_last() =~= rest);
        } else {
            assert(concat_groups(groups.drop_last()) + groups.last() =~= concat_groups(groups.drop_last()));
        }
    }
}

proof fn lemma_concat_union(sorted: Seq<DirtyRenderJob>, workers: int, w: int)
    requires
        0 <= w <= workers,
    ensures
        concat_groups(
            Seq::new(workers as nat, |v: int| worker_jobs(sorted, workers, v, sorted.len() as int)).subrange(0, w),
        ).to_multiset() == group_union(sorted, workers, w, sorted.len() as int),
    decreases w,
{
    broadcast use vstd::multiset::group_multiset_axioms;

    let all = Seq::new(workers as nat, |v: int| worker_jobs(sorted, workers, v, sorted.len() as int));
    if w == 0 {
        assert(all.subrange(0, 0) =~= Seq::<Seq<DirtyRenderJob>>::empty());
        vstd::seq_lib::to_multiset_len(Seq::<DirtyRenderJob>::empty());
    } else {
        lemma_concat_union(sorted, workers, w - 1);
        let sub = all.subrange(0, w);
        assert(sub.drop_last() =~= all.subrange(0, w - 1));
        assert(sub.last() == worker_jobs(sorted, workers, w - 1, sorted.len() as int));
        vstd::seq_lib::lemma_multiset_commutative(concat_groups(all.subrange(0, w - 1)), sub.last());
    }
}

/// The job distribution hands out every job exactly once: the groups hold
/// the same jobs as the input, counted with multiplicity.
pub proof fn lemma_distribution_keeps_jobs(jobs: Seq<DirtyRenderJob>, worker_count: int)
    ensures
        concat_groups(distributed(jobs, worker_count)).to_multiset() == jobs.to_multiset(),
{
    let workers = job_workers(jobs.len() as int, worker_count);
    let sorted = sort_by_pixels_desc(jobs);
    let n = sorted.len() as int;
    let all = Seq::new(workers as nat, |w: int| worker_jobs(sorted, workers, w, n));
    lemma_concat_nonempty(all);
    lemma_concat_union(sorted, workers, workers);
    assert(all.subrange(0, workers) =~= all);
    lemma_group_union_all(sorted, workers, n);
    assert(sorted.subrange(0, n) =~= sorted);
    lemma_sort_keeps_jobs(jobs);
}

// ---------------------------------------------------------------------------
// Worker counts and job groups.
// ---------------------------------------------------------------------------

/// The number of workers for an incremental frame: one for a single job or
/// under `MIN_INCREMENTAL_PIXELS_PER_WORKER` dirty pixels, else the machine's
/// parallelism capped at `MAX_RENDER_WORKERS`, at one per job and at one per
/// `MIN_INCREMENTAL_PIXELS_PER_WORKER` pixels.
pub open spec fn incremental_workers(jobs: Seq<DirtyRenderJob>, parallelism: int) -> int {
    let total = job_pixels(jobs);
    if jobs.len() <= 1 || total < MIN_INCREMENTAL_PIXELS_PER_WORKER {
        1
    } else {
        let from_pixels = max_int(ceil_div(total, MIN_INCREMENTAL_PIXELS_PER_WORKER as int), 1);
        max_int(
            min_int(
                min_int(min_int(parallelism, MAX_RENDER_WORKERS as int), jobs.len() as int),
                from_pixels,
            ),
            1,
        )
    }
}

/// How many workers an incremental frame with these jobs uses, given the
/// machine's available parallelism.
pub fn incremental_render_worker_count(dirty_jobs: &Vec<DirtyRenderJob>, parallelism: usize) -> (r: usize)
    requires
        job_pixels(dirty_jobs@) <= usize::MAX,
    ensures
        r == incremental_workers(dirty_jobs@, parallelism as int),
        1 <= r <= MAX_RENDER_WORKERS,
{
    if dirty_jobs.len() <= 1 {
        return 1;
    }
    let mut total: usize = 0;
    let mut i: usize = 0;
    while i < dirty_jobs.len()
        invariant
            0 <= i <= dirty_jobs@.len(),
            job_pixels(dirty_jobs@) <= usize::MAX,
            total == job_pixels(dirty_jobs@.subrange(0, i as int)),
        decreases dirty_jobs@.len() - i,
    {
        proof {
            lemma_job_pixels_prefix(dirty_jobs@, i + 1);
            assert(dirty_jobs@.subrange(0, i + 1).drop_last() =~= dirty_jobs@.subrange(0, i as int));
        }
        total = total + dirty_jobs[i].pixel_count;
        i = i + 1;
    }
    proof {
        assert(dirty_jobs@.subrange(0, i as int) =~= dirty_jobs@);
    }
    if total < MIN_INCREMENTAL_PIXELS_PER_WORKER {
        return 1;
    }
    let from_pixels_raw = div_ceil_usize(total, MIN_INCREMENTAL_PIXELS_PER_WORKER);
    let from_pixels = if from_pixels_raw > 1 { from_pixels_raw } else { 1 };
    let mut workers = if parallelism < MAX_RENDER_WORKERS { parallelism } else { MAX_RENDER_WORKERS };
    if dirty_jobs.len() < workers {
        workers = dirty_jobs.len();
    }
    if from_pixels < workers {
        workers = from_pixels;
    }
    if workers < 1 {
        1
    } else {
        workers
    }
}

/// The first row (at least 0) that any of the jobs touches.
pub open spec fn group_row_start(jobs: Seq<DirtyRenderJob>) -> int
    decreases jobs.len(),
{
    if jobs.len() <= 1 {
        max_int(jobs[0].clip.y0 as int, 0)
    } else {
        min_int(group_row_start(jobs.drop_last()), max_int(jobs.last().clip.y0 as int, 0))
    }
}

/// The row (at least 0) below the last row that any of the jobs touches.
pub open spec fn group_row_end(jobs: Seq<DirtyRenderJob>) -> int
    decreases jobs.len(),
{
    if jobs.len() <= 1 {
        max_int(jobs[0].clip.y1 as int, 0)
    } else {
        max_int(group_row_end(jobs.drop_last()), max_int(jobs.last().clip.y1 as int, 0))
    }
}

/// The rows a group of jobs spans, or `None` for no jobs or no rows.
pub fn dirty_job_group_rows(jobs: &Vec<DirtyRenderJob>) -> (r: Option<BufferRows>)
    ensures
        jobs@.len() == 0 ==> r is None,
        jobs@.len() > 0 ==> r == (if group_row_start(jobs@) < group_row_end(jobs@) {
            Some(BufferRows { start: group_row_start(jobs@) as usize, end: group_row_end(jobs@) as usize })
        } else {
            None
        }),
{
    if jobs.len() == 0 {
        return None;
    }
    let first = jobs[0];
    let mut start: usize = if first.clip.y0 > 0 { first.clip.y0 as usize } else { 0 };
    let mut end: usize = if first.clip.y1 > 0 { first.clip.y1 as usize } else { 0 };
    let mut i: usize = 1;
    while i < jobs.len()
        invariant
            1 <= i <= jobs@.len(),
            start == group_row_start(jobs@.subrange(0, i as int)),
            end == group_row_end(jobs@.subrange(0, i as int)),
        decreases jobs@.len() - i,
    {
        proof {
            assert(jobs@.subrange(0, i + 1).drop_last() =~= jobs@.subrange(0, i as int));
        }
        let job = jobs[i];
        let y0: usize = if job.clip.y0 > 0 { job.clip.y0 as usize } else { 0 };
        let y1: usize = if job.clip.y1 > 0 { job.clip.y1 as usize } else { 0 };
        if y0 < start {
            start = y0;
        }
        if y1 > end {
            end = y1;
        }
        i = i + 1;
    }
    proof {
        assert(jobs@.subrange(0, i as int) =~= jobs@);
    }
    if start < end {
        Some(BufferRows::new(start, end))
    } else {
        None
    }
}

/// The smallest rectangle holding every job of a group.
pub open spec fn group_clip(jobs: Seq<DirtyRenderJob>) -> PixelRect
    decreases jobs.len(),
{
    if jobs.len() <= 1 {
        jobs[0].clip
    } else {
        group_clip(jobs.drop_last()).spec_union(jobs.last().clip)
    }
}

/// The smallest rectangle holding every job of a group, or `None` for no
/// jobs.
pub fn dirty_job_group_clip(jobs: &Vec<DirtyRenderJob>) -> (r: Option<PixelRect>)
    ensures
        r == (if jobs@.len() == 0 { None } else { Some(group_clip(jobs@)) }),
{
    if jobs.len() == 0 {
        return None;
    }
    let mut clip = jobs[0].clip;
    let mut i: usize = 1;
    while i < jobs.len()
        invariant
            1 <= i <= jobs@.len(),
            clip == group_clip(jobs@.subrange(0, i as int)),
        decreases jobs@.len() - i,
    {
        proof {
            assert(jobs@.subrange(0, i + 1).drop_last() =~= jobs@.subrange(0, i as int));
        }
        clip = clip.union(jobs[i].clip);
        i = i + 1;
    }
    proof {
        assert(jobs@.subrange(0, i as int) =~= jobs@);
    }
    Some(clip)
}

// ---------------------------------------------------------------------------
// The plan of a repaint.
// ---------------------------------------------------------------------------

/// What a paint did: its workers, damage and scene passes.
#[derive(Clone, Copy, Debug, PartialEq, Eq, Structural)]
pub struct PaintStats {
    pub workers: usize,
    pub dirty_regions: usize,
    pub dirty_jobs: usize,
    pub damage_pixels: usize,
    pub painted_pixels: usize,
    pub scene_passes: usize,
    pub mode: FramePaintMode,
    pub reason: FramePaintReason,
}

impl Default for PaintStats {
    /// A paint that did nothing.
    fn default() -> (r: Self)
        ensures
            r == idle_paint_stats(),
    {
        PaintStats {
            workers: 0,
            dirty_regions: 0,
            dirty_jobs: 0,
            damage_pixels: 0,
            painted_pixels: 0,
            scene_passes: 0,
            mode: FramePaintMode::Idle,
            reason: FramePaintReason::Idle,
        }
    }
}

/// The record of a paint that did nothing.
pub open spec fn idle_paint_stats() -> PaintStats {
    PaintStats {
        workers: 0,
        dirty_regions: 0,
        dirty_jobs: 0,
        damage_pixels: 0,
        painted_pixels: 0,
        scene_passes: 0,
        mode: FramePaintMode::Idle,
        reason: FramePaintReason::Idle,
    }
}

/// The record of a full redraw of a `width` x `height` frame.
pub open spec fn full_paint(width: int, height: int, parallelism: int) -> PaintStats {
    let workers = full_redraw_workers(width, height, parallelism);
    PaintStats {
        workers: workers as usize,
        dirty_regions: 0,
        dirty_jobs: 0,
        damage_pixels: sat_mul(width, height) as usize,
        painted_pixels: sat_mul(width, height) as usize,
        scene_passes: workers as usize,
        mode: FramePaintMode::Full,
        reason: FramePaintReason::FullRedraw,
    }
}

/// The record of a full redraw of a `width` x `height` frame.
pub fn full_paint_stats(width: usize, height: usize, parallelism: usize) -> (r: PaintStats)
    ensures
        r == full_paint(width as int, height as int, parallelism as int),
{
    let workers = full_redraw_worker_count(width, height, parallelism);
    let pixels = saturating_mul_usize(width, height);
    PaintStats {
        workers,
        dirty_regions: 0,
        dirty_jobs: 0,
        damage_pixels: pixels,
        painted_pixels: pixels,
        scene_passes: workers,
        mode: FramePaintMode::Full,
        reason: FramePaintReason::FullRedraw,
    }
}

/// How a frame with damage gets painted.
#[derive(Clone, Copy, Debug, PartialEq, Eq, Structural)]
pub enum SceneUpdate {
    /// No dirty pixel: nothing is painted.
    Unchanged,
    /// The damage is not worth painting piece by piece, for this reason.
    FullRedraw(FramePaintReason),
    /// The dirty regions are repainted, by the planned workers.
    Incremental,
}

/// The plan of a repaint: how it is done, the dirty regions and pixels, the
/// jobs and the workers that share them, and the stats of the paint.
pub struct ScenePaintPlan {
    pub update: SceneUpdate,
    pub jobs: Vec<DirtyRenderJob>,
    pub workers: usize,
    pub stats: PaintStats,
}

/// The stats of an incremental repaint.
pub open spec fn incremental_paint(dirty_regions: int, dirty_pixels: int, passes: int, workers: int) -> PaintStats {
    PaintStats {
        workers: workers as usize,
        dirty_regions: dirty_regions as usize,
        dirty_jobs: passes as usize,
        damage_pixels: dirty_pixels as usize,
        painted_pixels: dirty_pixels as usize,
        scene_passes: passes as usize,
        mode: FramePaintMode::Incremental,
        reason: FramePaintReason::IncrementalDamage,
    }
}

/// Plans the repaint of a frame whose dirty regions (snapped to whole
/// pixels) are given. `dirty_area_limit` is the damage, in pixels, above
/// which a full redraw is chosen; `parallelism` is how many workers the
/// machine offers.
pub fn plan_scene_update(
    dirty_regions: &Vec<PixelRect>,
    width: usize,
    height: usize,
    scene_node_count: usize,
    dirty_area_limit: usize,
    parallelism: usize,
) -> (plan: ScenePaintPlan)
    requires
        width <= i32::MAX,
        height <= i32::MAX,
        width * height <= usize::MAX,
        total_frame_area(dirty_regions@, width as int, height as int) <= usize::MAX,
    ensures
        ({
            let regions = dirty_regions@.len() as int;
            let pixels = total_frame_area(dirty_regions@, width as int, height as int);
            let jobs = render_jobs(dirty_regions@, width as int, height as int);
            let workers = incremental_workers(jobs, parallelism as int);
            let passes = if workers > 1 { max_int(jobs.len() as int, 1) } else { max_int(regions, 1) };
            if regions == 0 {
                plan.update == SceneUpdate::Unchanged && plan.stats == idle_paint_stats()
            } else {
                &&& plan.jobs@ == jobs
                &&& plan.workers == workers
                &&& match full_redraw_reason(
                    regions,
                    pixels,
                    scene_node_count as int,
                    passes,
                    width as int,
                    height as int,
                    dirty_area_limit as int,
                    parallelism as int,
                ) {
                    Some(reason) => plan.update == SceneUpdate::FullRedraw(reason) && plan.stats == (PaintStats {
                        dirty_regions: regions as usize,
                        dirty_jobs: passes as usize,
                        damage_pixels: pixels as usize,
                        reason,
                        ..full_paint(width as int, height as int, parallelism as int)
                    }),
                    None => plan.update == SceneUpdate::Incremental && plan.stats == incremental_paint(
                        regions,
                        pixels,
                        passes,
                        workers,
                    ),
                }
            }
        }),
{
    if dirty_regions.len() == 0 {
        return ScenePaintPlan {
            update: SceneUpdate::Unchanged,
            jobs: Vec::new(),
            workers: 1,
            stats: PaintStats::default(),
        };
    }
    let region_count = dirty_regions.len();
    let dirty_pixels = clip_rects_pixel_count(dirty_regions, width, height);
    let jobs = build_incremental_render_jobs(dirty_regions, width, height);
    proof {
        lemma_render_jobs_cover_dirty_area(dirty_regions@, width as int, height as int);
    }
    let workers = incremental_render_worker_count(&jobs, parallelism);
    let passes = incremental_scene_pass_count(region_count, jobs.len(), workers);
    match should_full_redraw(
        region_count,
        dirty_pixels,
        scene_node_count,
        passes,
        width,
        height,
        dirty_area_limit,
        parallelism,
    ) {
        Some(reason) => {
            let full = full_paint_stats(width, height, parallelism);
            let stats = PaintStats {
                dirty_regions: region_count,
                dirty_jobs: passes,
                damage_pixels: dirty_pixels,
                reason,
                ..full
            };
            ScenePaintPlan { update: SceneUpdate::FullRedraw(reason), jobs, workers, stats }
        },
        None => {
            let stats = PaintStats {
                workers,
                dirty_regions: region_count,
                dirty_jobs: passes,
                damage_pixels: dirty_pixels,
                painted_pixels: dirty_pixels,
                scene_passes: passes,
                mode: FramePaintMode::Incremental,
                reason: FramePaintReason::IncrementalDamage,
            };
            ScenePaintPlan { update: SceneUpdate::Incremental, jobs, workers, stats }
        },
    }
}

/// Copies what a paint did into the frame's timing record, leaving the
/// timings as they are.
pub fn record_paint_stats(frame_stats: &mut FrameTimingStats, paint: PaintStats)
    ensures
        *final(frame_stats) == (FrameTimingStats {
            render_workers: paint.workers,
            dirty_regions: paint.dirty_regions,
            dirty_jobs: paint.dirty_jobs,
            damage_pixels: paint.damage_pixels,
            painted_pixels: paint.painted_pixels,
            scene_passes: paint.scene_passes,
            paint_mode: paint.mode,
            paint_reason: paint.reason,
            ..*old(frame_stats)
        }),
{
    frame_stats.render_workers = paint.workers;
    frame_stats.dirty_regions = paint.dirty_regions;
    frame_stats.dirty_jobs = paint.dirty_jobs;
    frame_stats.damage_pixels = paint.damage_pixels;
    frame_stats.painted_pixels = paint.painted_pixels;
    frame_stats.scene_passes = paint.scene_passes;
    frame_stats.paint_mode = paint.mode;
    frame_stats.paint_reason = paint.reason;
}

} // verus!
