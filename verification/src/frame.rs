//! Frame bookkeeping: viewport sizes, timing statistics, the row window that
//! a render worker owns, and the integer decisions of the paint planner
//! (how many workers to use, and when a full redraw beats an incremental one).

use std::time::Duration;

use vstd::prelude::*;

verus! {

pub const MAX_INCREMENTAL_DIRTY_REGIONS: usize = 32;
pub const MIN_PARALLEL_RENDER_PIXELS: usize = 307200;
pub const MIN_INCREMENTAL_PIXELS_PER_WORKER: usize = 25600;
pub const MIN_PARALLEL_RENDER_ROWS_PER_WORKER: usize = 80;
pub const MAX_RENDER_WORKERS: usize = 12;
pub const SCENE_TRAVERSAL_COST_PER_NODE: usize = 96;

// ---------------------------------------------------------------------------
// Saturating arithmetic.
// ---------------------------------------------------------------------------

/// `a * b`, or `usize::MAX` when the product does not fit.
pub open spec fn sat_mul(a: int, b: int) -> int {
    if a * b > usize::MAX { usize::MAX as int } else { a * b }
}

/// `a + b`, or `usize::MAX` when the sum does not fit.
pub open spec fn sat_add(a: int, b: int) -> int {
    if a + b > usize::MAX { usize::MAX as int } else { a + b }
}

pub open spec fn min_int(a: int, b: int) -> int {
    if a <= b { a } else { b }
}

pub open spec fn max_int(a: int, b: int) -> int {
    if a >= b { a } else { b }
}

/// `ceil(a / b)` for positive `b`.
pub open spec fn ceil_div(a: int, b: int) -> int {
    (a + b - 1) / b
}

/// The product of two sizes, saturating at `usize::MAX`.
pub fn saturating_mul_usize(a: usize, b: usize) -> (r: usize)
    ensures
        r as int == sat_mul(a as int, b as int),
{
    match a.checked_mul(b) {
        Some(v) => v,
        None => usize::MAX,
    }
}

/// `ceil(a / b)` without overflow.
pub fn div_ceil_usize(a: usize, b: usize) -> (r: usize)
    requires
        b > 0,
    ensures
        r as int == ceil_div(a as int, b as int),
{
    let q = a / b;
    let rem = a % b;
    assert(a as int == b as int * q as int + rem as int && 0 <= rem < b) by (nonlinear_arith)
        requires
            b > 0,
            q == a / b,
            rem == a % b,
    ;
    assert(((a as int + b as int - 1) / b as int) == q as int + (if rem == 0 { 0int } else { 1int }))
        by (nonlinear_arith)
        requires
            b > 0,
            a as int == b as int * q as int + rem as int,
            0 <= rem < b,
    ;
    if rem == 0 {
        q
    } else {
        assert(q < usize::MAX) by (nonlinear_arith)
            requires
                b > 0,
                a as int == b as int * q as int + rem as int,
                0 < rem,
                a <= usize::MAX,
        ;
        q + 1
    }
}

// ---------------------------------------------------------------------------
// Frame records.
// ---------------------------------------------------------------------------

/// How a frame was painted.
#[derive(Clone, Copy, Debug, PartialEq, Eq, Structural)]
pub enum FramePaintMode {
    Idle,
    Full,
    Incremental,
}

impl Default for FramePaintMode {
    fn default() -> (r: Self)
        ensures
            r == FramePaintMode::Idle,
    {
        FramePaintMode::Idle
    }
}

/// Why a frame was painted the way it was.
#[derive(Clone, Copy, Debug, PartialEq, Eq, Structural)]
pub enum FramePaintReason {
    Idle,
    FullRedraw,
    DirtyRegionLimit,
    DirtyAreaLimit,
    FragmentedDamage,
    IncrementalDamage,
}

impl Default for FramePaintReason {
    fn default() -> (r: Self)
        ensures
            r == FramePaintReason::Idle,
    {
        FramePaintReason::Idle
    }
}

/// Timings (in microseconds) and paint counters of one frame.
#[derive(Clone, Copy, Debug, PartialEq, Eq, Structural)]
pub struct FrameTimingStats {
    pub update_us: u64,
    pub scene_prep_us: u64,
    pub paint_us: u64,
    pub present_us: u64,
    pub total_us: u64,
    pub render_workers: usize,
    pub dirty_regions: usize,
    pub dirty_jobs: usize,
    pub damage_pixels: usize,
    pub painted_pixels: usize,
    pub scene_passes: usize,
    pub paint_mode: FramePaintMode,
    pub paint_reason: FramePaintReason,
}

/// The all-zero record of an idle frame.
pub open spec fn idle_frame_stats() -> FrameTimingStats {
    FrameTimingStats {
        update_us: 0,
        scene_prep_us: 0,
        paint_us: 0,
        present_us: 0,
        total_us: 0,
        render_workers: 0,
        dirty_regions: 0,
        dirty_jobs: 0,
        damage_pixels: 0,
        painted_pixels: 0,
        scene_passes: 0,
        paint_mode: FramePaintMode::Idle,
        paint_reason: FramePaintReason::Idle,
    }
}

impl Default for FrameTimingStats {
    fn default() -> (r: Self)
        ensures
            r == idle_frame_stats(),
    {
        FrameTimingStats {
            update_us: 0,
            scene_prep_us: 0,
            paint_us: 0,
            present_us: 0,
            total_us: 0,
            render_workers: 0,
            dirty_regions: 0,
            dirty_jobs: 0,
            damage_pixels: 0,
            painted_pixels: 0,
            scene_passes: 0,
            paint_mode: FramePaintMode::Idle,
            paint_reason: FramePaintReason::Idle,
        }
    }
}

/// Where the statistics of the most recent frame are kept.
pub struct FrameTimingStore {
    latest: FrameTimingStats,
}

impl FrameTimingStore {
    /// What the store holds.
    pub closed spec fn view(&self) -> FrameTimingStats {
        self.latest
    }

    /// A store that holds the idle record.
    pub fn new() -> (s: Self)
        ensures
            s.view() == idle_frame_stats(),
    {
        FrameTimingStore { latest: FrameTimingStats::default() }
    }
}

/// Replaces the stored statistics with those of a new frame.
pub fn record_frame_timing_stats(store: &mut FrameTimingStore, stats: FrameTimingStats)
    ensures
        final(store).view() == stats,
{
    store.latest = stats;
}

/// The statistics of the most recently recorded frame.
pub fn latest_frame_timing_stats(store: &FrameTimingStore) -> (r: FrameTimingStats)
    ensures
        r == store.view(),
{
    store.latest
}

/// The frame number and the time since the previous frame.
#[derive(Clone, Copy, Debug)]
pub struct FrameInfo {
    pub frame_index: u64,
    pub delta: Duration,
}

/// The number of whole microseconds in a duration (what
/// `Duration::as_micros` returns).
pub uninterp spec fn whole_micros(duration: Duration) -> u128;

/// `Duration::as_micros`: the total number of whole microseconds that the
/// duration holds, named by `whole_micros`.
#[verifier::external_body]
fn duration_as_micros(duration: &Duration) -> (r: u128)
    ensures
        r == whole_micros(*duration),
{
    duration.as_micros()
}

/// A micro-second count clamped to `u64`.
pub fn micros_to_us(micros: u128) -> (r: u64)
    ensures
        r as int == min_int(micros as int, u64::MAX as int),
{
    if micros < u64::MAX as u128 {
        micros as u64
    } else {
        u64::MAX
    }
}

/// The length of a duration in whole microseconds, clamped to `u64` by
/// `micros_to_us`.
pub fn duration_to_us(duration: Duration) -> (r: u64)
    ensures
        r as int == min_int(whole_micros(duration) as int, u64::MAX as int),
{
    let micros = duration_as_micros(&duration);
    micros_to_us(micros)
}

// ---------------------------------------------------------------------------
// Viewport.
// ---------------------------------------------------------------------------

/// The size of the drawable area in pixels; never zero in either direction.
#[derive(Clone, Copy, Debug, PartialEq, Eq, Structural)]
pub struct ViewportSize {
    pub width: usize,
    pub height: usize,
}

impl ViewportSize {
    /// A viewport of the given size, with a zero dimension raised to 1.
    pub fn new(width: usize, height: usize) -> (v: Self)
        ensures
            v.width == (if width == 0 { 1 } else { width }),
            v.height == (if height == 0 { 1 } else { height }),
    {
        ViewportSize {
            width: if width == 0 { 1 } else { width },
            height: if height == 0 { 1 } else { height },
        }
    }
}

impl Default for ViewportSize {
    fn default() -> (v: Self)
        ensures
            v == (ViewportSize { width: 1, height: 1 }),
    {
        ViewportSize::new(1, 1)
    }
}

/// The viewport of a window of the given size, or `None` while the window
/// has no area (it is minimised).
pub fn drawable_viewport_size(width: usize, height: usize) -> (r: Option<ViewportSize>)
    ensures
        (width == 0 || height == 0) ==> r is None,
        (width != 0 && height != 0) ==> r == Some(ViewportSize { width, height }),
{
    if width == 0 || height == 0 {
        None
    } else {
        Some(ViewportSize::new(width, height))
    }
}

// ---------------------------------------------------------------------------
// Row windows.
// ---------------------------------------------------------------------------

/// The rows `start..end` of the frame that a buffer holds; a worker's buffer
/// holds a band of rows, the main buffer all of them.
#[derive(Clone, Copy, Debug, PartialEq, Eq, Structural)]
pub struct BufferRows {
    pub start: usize,
    pub end: usize,
}

impl BufferRows {
    /// The rows `start..end`; an `end` before `start` makes the window empty.
    pub fn new(start: usize, end: usize) -> (r: Self)
        ensures
            r.start == start,
            r.end == (if end < start { start } else { end }),
    {
        BufferRows { start, end: if end < start { start } else { end } }
    }

    /// Every row.
    pub fn full() -> (r: Self)
        ensures
            r == (BufferRows { start: 0, end: usize::MAX }),
    {
        Self::new(0, usize::MAX)
    }

    /// The number of rows.
    pub fn len(self) -> (r: usize)
        ensures
            r as int == (if self.end >= self.start { self.end - self.start } else { 0 }),
    {
        self.end.saturating_sub(self.start)
    }

    /// The number of pixels in the window for a frame of the given width.
    pub fn pixel_len(self, width: usize) -> (r: usize)
        ensures
            r as int == sat_mul(
                width as int,
                if self.end >= self.start { self.end - self.start } else { 0 },
            ),
    {
        saturating_mul_usize(width, self.len())
    }
}

/// The index of pixel `(x, y)` in a buffer that holds the row window `rows`
/// of a `width` x `height` frame, or `None` when the pixel lies outside the
/// frame or outside the window.
pub fn buffer_pixel_index(width: usize, height: usize, x: i32, y: i32, rows: BufferRows) -> (r:
    Option<usize>)
    requires
        width <= i32::MAX,
        height <= i32::MAX,
        width * height <= usize::MAX,
    ensures
        r is Some <==> (0 <= x < width && 0 <= y < height && rows.start <= y < rows.end),
        r matches Some(i) ==> i == (y - rows.start) * width + x,
{
    if x < 0 || y < 0 || x >= width as i32 || y >= height as i32 {
        return None;
    }
    let yu = y as usize;
    if yu < rows.start || yu >= rows.end {
        return None;
    }
    let row = yu - rows.start;
    assert(yu < height && (x as usize) < width);
    assert(row < height);
    assert(row * width + width <= width * height) by (nonlinear_arith)
        requires
            row < height,
    ;
    Some(row * width + x as usize)
}

// ---------------------------------------------------------------------------
// Paint planning.
// ---------------------------------------------------------------------------

/// Whether pointer input is held back: the left button is down while a Super
/// key is held, which the window system uses to drag the window.
pub fn should_suspend_updates(left_down: bool, left_super_down: bool, right_super_down: bool) -> (r:
    bool)
    ensures
        r == (left_down && (left_super_down || right_super_down)),
{
    left_down && (left_super_down || right_super_down)
}

/// How many scene traversals an incremental frame costs: one per job when
/// several workers split the jobs, one per dirty region otherwise, and at
/// least one.
pub fn incremental_scene_pass_count(
    dirty_region_count: usize,
    dirty_job_count: usize,
    worker_count: usize,
) -> (r: usize)
    ensures
        r as int == (if worker_count > 1 {
            max_int(dirty_job_count as int, 1)
        } else {
            max_int(dirty_region_count as int, 1)
        }),
{
    if worker_count > 1 {
        if dirty_job_count > 1 { dirty_job_count } else { 1 }
    } else {
        if dirty_region_count > 1 { dirty_region_count } else { 1 }
    }
}

/// The number of workers for a full redraw: one for frames under 640x480
/// pixels, else the available parallelism capped at 12 and at one worker per
/// 80 rows.
pub open spec fn full_redraw_workers(width: int, height: int, parallelism: int) -> int {
    if sat_mul(width, height) < MIN_PARALLEL_RENDER_PIXELS {
        1
    } else {
        let from_rows = max_int(ceil_div(height, 80), 1);
        max_int(min_int(min_int(parallelism, MAX_RENDER_WORKERS as int), from_rows), 1)
    }
}

/// How many workers a full redraw of a `width` x `height` frame uses, given
/// the machine's available parallelism.
pub fn full_redraw_worker_count(width: usize, height: usize, parallelism: usize) -> (r: usize)
    ensures
        r as int == full_redraw_workers(width as int, height as int, parallelism as int),
        1 <= r <= MAX_RENDER_WORKERS,
{
    let total_pixels = saturating_mul_usize(width, height);
    if total_pixels < MIN_PARALLEL_RENDER_PIXELS {
        return 1;
    }
    let rows = div_ceil_usize(height, MIN_PARALLEL_RENDER_ROWS_PER_WORKER);
    let from_rows = if rows > 1 { rows } else { 1 };
    let mut workers = if parallelism < MAX_RENDER_WORKERS { parallelism } else { MAX_RENDER_WORKERS };
    if from_rows < workers {
        workers = from_rows;
    }
    if workers < 1 {
        1
    } else {
        workers
    }
}

/// Whether an incremental frame should become a full redraw, and why:
/// too many dirty regions, a dirty area above `dirty_area_limit`, or an
/// incremental cost (two units per dirty pixel plus 96 per scene node and
/// pass) at least that of redrawing everything.
pub open spec fn full_redraw_reason(
    dirty_region_count: int,
    dirty_pixels: int,
    scene_node_count: int,
    incremental_scene_passes: int,
    width: int,
    height: int,
    dirty_area_limit: int,
    parallelism: int,
) -> Option<FramePaintReason> {
    if dirty_region_count > MAX_INCREMENTAL_DIRTY_REGIONS {
        Some(FramePaintReason::DirtyRegionLimit)
    } else if dirty_pixels > dirty_area_limit {
        Some(FramePaintReason::DirtyAreaLimit)
    } else {
        let full_pixels = sat_mul(width, height);
        let traversal_cost = sat_mul(max_int(scene_node_count, 1), 96);
        let incremental_cost = sat_add(
            sat_mul(dirty_pixels, 2),
            sat_mul(traversal_cost, max_int(incremental_scene_passes, 1)),
        );
        let full_cost = sat_add(
            sat_mul(full_pixels, 2),
            sat_mul(traversal_cost, full_redraw_workers(width, height, parallelism)),
        );
        if incremental_cost >= full_cost {
            Some(FramePaintReason::FragmentedDamage)
        } else {
            None
        }
    }
}

/// A pixel costs the same to paint incrementally as in a full redraw:
/// damage smaller than the frame, within the area and region limits, whose
/// incremental frame walks the scene no more often than a full redraw's
/// workers do, is painted incrementally (when the costs fit in `usize`).
pub proof fn lemma_small_damage_is_painted_incrementally(
    dirty_region_count: usize,
    dirty_pixels: usize,
    scene_node_count: usize,
    incremental_scene_passes: usize,
    width: usize,
    height: usize,
    dirty_area_limit: usize,
    parallelism: usize,
)
    requires
        dirty_region_count <= MAX_INCREMENTAL_DIRTY_REGIONS,
        dirty_pixels <= dirty_area_limit,
        dirty_pixels < width * height,
        max_int(incremental_scene_passes as int, 1) <= full_redraw_workers(
            width as int,
            height as int,
            parallelism as int,
        ),
        2 * (width * height) + max_int(scene_node_count as int, 1) * 96 * full_redraw_workers(
            width as int,
            height as int,
            parallelism as int,
        ) <= usize::MAX,
    ensures
        full_redraw_reason(
            dirty_region_count as int,
            dirty_pixels as int,
            scene_node_count as int,
            incremental_scene_passes as int,
            width as int,
            height as int,
            dirty_area_limit as int,
            parallelism as int,
        ) is None,
{
    let full = width * height;
    let workers = full_redraw_workers(width as int, height as int, parallelism as int);
    let nodes = max_int(scene_node_count as int, 1);
    let passes = max_int(incremental_scene_passes as int, 1);
    let t = nodes * 96;
    assert(workers >= 1);
    assert(full >= 0) by (nonlinear_arith)
        requires
            width >= 0,
            height >= 0,
            full == width * height,
    ;
    assert(t * workers >= t && t * passes <= t * workers && t >= 0 && nodes * 96 * workers == t * workers)
        by (nonlinear_arith)
        requires
            nodes >= 1,
            t == nodes * 96,
            1 <= passes <= workers,
    ;
    assert(sat_mul(width as int, height as int) == full);
    assert(sat_mul(full, 2) == 2 * full);
    assert(sat_mul(nodes, 96) == t);
    assert(sat_mul(t, workers) == t * workers);
    assert(sat_mul(dirty_pixels as int, 2) == 2 * dirty_pixels);
    assert(sat_mul(t, passes) == t * passes);
}

/// Decides whether a damaged frame is redrawn in full. `dirty_area_limit`
/// is the damage (in pixels) above which incremental painting is not worth
/// it, 85% of the frame.
pub fn should_full_redraw(
    dirty_region_count: usize,
    dirty_pixels: usize,
    scene_node_count: usize,
    incremental_scene_passes: usize,
    width: usize,
    height: usize,
    dirty_area_limit: usize,
    parallelism: usize,
) -> (r: Option<FramePaintReason>)
    ensures
        r == full_redraw_reason(
            dirty_region_count as int,
            dirty_pixels as int,
            scene_node_count as int,
            incremental_scene_passes as int,
            width as int,
            height as int,
            dirty_area_limit as int,
            parallelism as int,
        ),
{
    if dirty_region_count > MAX_INCREMENTAL_DIRTY_REGIONS {
        return Some(FramePaintReason::DirtyRegionLimit);
    }
    if dirty_pixels > dirty_area_limit {
        return Some(FramePaintReason::DirtyAreaLimit);
    }
    let full_pixels = saturating_mul_usize(width, height);
    let nodes = if scene_node_count > 1 { scene_node_count } else { 1 };
    let traversal_cost = saturating_mul_usize(nodes, SCENE_TRAVERSAL_COST_PER_NODE);
    let passes = if incremental_scene_passes > 1 { incremental_scene_passes } else { 1 };
    let incremental_cost = saturating_mul_usize(dirty_pixels, 2).saturating_add(
        saturating_mul_usize(traversal_cost, passes),
    );
    let full_cost = saturating_mul_usize(full_pixels, 2).saturating_add(
        saturating_mul_usize(traversal_cost, full_redraw_worker_count(width, height, parallelism)),
    );
    if incremental_cost >= full_cost {
        return Some(FramePaintReason::FragmentedDamage);
    }
    None
}

// ---------------------------------------------------------------------------
// Alpha.
// ---------------------------------------------------------------------------

/// A coverage value scaled by an alpha, both in 0..=255, rounded to nearest.
pub open spec fn scaled_alpha(coverage: int, alpha: int) -> int {
    if alpha == 255 { coverage } else { (coverage * alpha + 127) / 255 }
}

/// Scales a coverage by an alpha; full alpha leaves the coverage as it is.
pub fn scale_alpha(coverage: u8, alpha: u8) -> (r: u8)
    ensures
        r as int == scaled_alpha(coverage as int, alpha as int),
{
    if alpha == 255 {
        coverage
    } else {
        assert(coverage as u16 * alpha as u16 <= 65025) by (nonlinear_arith)
            requires
                coverage <= 255,
                alpha <= 255,
        ;
        assert((coverage as int * alpha as int + 127) / 255 <= 255) by (nonlinear_arith)
            requires
                coverage <= 255,
                alpha <= 255,
        ;
        ((coverage as u16 * alpha as u16 + 127) / 255) as u8
    }
}

} // verus!
