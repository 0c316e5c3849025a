use std::time::Duration;

use renderer::frame::{
    BufferRows, FramePaintMode, FramePaintReason, FrameTimingStats, FrameTimingStore, ViewportSize,
    buffer_pixel_index, div_ceil_usize, drawable_viewport_size, duration_to_us, full_redraw_worker_count,
    incremental_scene_pass_count, latest_frame_timing_stats, micros_to_us, record_frame_timing_stats,
    saturating_mul_usize, scale_alpha, should_full_redraw, should_suspend_updates,
};

#[test]
fn super_dragging_suspends_updates() {
    assert!(should_suspend_updates(true, true, false));
    assert!(should_suspend_updates(true, false, true));
    assert!(should_suspend_updates(true, true, true));
    assert!(!should_suspend_updates(false, true, false));
    assert!(!should_suspend_updates(true, false, false));
}

#[test]
fn drawable_viewport_size_skips_minimized_windows() {
    assert_eq!(drawable_viewport_size(0, 0), None);
    assert_eq!(drawable_viewport_size(0, 720), None);
    assert_eq!(drawable_viewport_size(1280, 0), None);
    assert_eq!(drawable_viewport_size(1280, 720), Some(ViewportSize::new(1280, 720)));
}

#[test]
fn the_latest_recorded_stats_are_read_back() {
    let mut store = FrameTimingStore::new();
    assert_eq!(latest_frame_timing_stats(&store), FrameTimingStats::default());
    let stats = FrameTimingStats {
        update_us: 1,
        scene_prep_us: 2,
        paint_us: 3,
        present_us: 4,
        total_us: 10,
        render_workers: 2,
        dirty_regions: 1,
        dirty_jobs: 2,
        damage_pixels: 100,
        painted_pixels: 100,
        scene_passes: 2,
        paint_mode: FramePaintMode::Incremental,
        paint_reason: FramePaintReason::IncrementalDamage,
    };
    record_frame_timing_stats(&mut store, stats);
    assert_eq!(latest_frame_timing_stats(&store), stats);
}

#[test]
fn idle_defaults() {
    assert_eq!(FramePaintMode::default(), FramePaintMode::Idle);
    assert_eq!(FramePaintReason::default(), FramePaintReason::Idle);
    assert_eq!(ViewportSize::default(), ViewportSize::new(1, 1));
    assert_eq!(ViewportSize::new(0, 0), ViewportSize { width: 1, height: 1 });
}

#[test]
fn durations_are_whole_microseconds_saturating_at_u64() {
    assert_eq!(duration_to_us(Duration::from_micros(1500)), 1500);
    assert_eq!(duration_to_us(Duration::from_nanos(999)), 0);
    assert_eq!(micros_to_us(u128::from(u64::MAX) + 7), u64::MAX);
    assert_eq!(micros_to_us(42), 42);
}

#[test]
fn row_windows_are_never_inverted() {
    let rows = BufferRows::new(10, 4);
    assert_eq!(rows.start, 10);
    assert_eq!(rows.end, 10);
    assert_eq!(rows.len(), 0);
    assert_eq!(BufferRows::new(2, 7).pixel_len(10), 50);
    assert_eq!(BufferRows::full().start, 0);
    assert_eq!(BufferRows::full().end, usize::MAX);
    assert_eq!(BufferRows::new(0, usize::MAX).pixel_len(3), usize::MAX);
}

#[test]
fn pixel_indices_are_local_to_the_row_window() {
    let rows = BufferRows::new(4, 8);
    assert_eq!(buffer_pixel_index(10, 20, 3, 5, rows), Some(13));
    assert_eq!(buffer_pixel_index(10, 20, 3, 8, rows), None);
    assert_eq!(buffer_pixel_index(10, 20, 3, 3, rows), None);
    assert_eq!(buffer_pixel_index(10, 20, -1, 5, rows), None);
    assert_eq!(buffer_pixel_index(10, 20, 10, 5, rows), None);
    assert_eq!(buffer_pixel_index(10, 20, 9, 19, BufferRows::full()), Some(199));
}

#[test]
fn scene_passes_follow_the_worker_split() {
    assert_eq!(incremental_scene_pass_count(3, 7, 2), 7);
    assert_eq!(incremental_scene_pass_count(3, 7, 1), 3);
    assert_eq!(incremental_scene_pass_count(0, 0, 1), 1);
    assert_eq!(incremental_scene_pass_count(0, 0, 4), 1);
}

#[test]
fn full_redraw_workers_depend_on_frame_size() {
    assert_eq!(full_redraw_worker_count(320, 200, 8), 1);
    assert_eq!(full_redraw_worker_count(1920, 1080, 8), 8);
    assert_eq!(full_redraw_worker_count(1920, 1080, 64), 12);
    // 640x480 needs 6 bands of 80 rows at most.
    assert_eq!(full_redraw_worker_count(640, 480, 64), 6);
    assert_eq!(full_redraw_worker_count(1920, 1080, 0), 1);
}

#[test]
fn full_redraw_reasons() {
    assert_eq!(
        should_full_redraw(33, 10, 1, 1, 100, 100, 8500, 1),
        Some(FramePaintReason::DirtyRegionLimit)
    );
    assert_eq!(
        should_full_redraw(1, 9000, 1, 1, 100, 100, 8500, 1),
        Some(FramePaintReason::DirtyAreaLimit)
    );
    // Incremental: 2 * 100 + 96 = 296 against 2 * 10000 + 96 = 20096.
    assert_eq!(should_full_redraw(1, 100, 1, 1, 100, 100, 8500, 1), None);
    // Many nodes and passes make the incremental frame costlier.
    assert_eq!(
        should_full_redraw(2, 100, 1000, 4, 100, 100, 8500, 1),
        Some(FramePaintReason::FragmentedDamage)
    );
}

#[test]
fn arithmetic_helpers() {
    assert_eq!(saturating_mul_usize(usize::MAX, 2), usize::MAX);
    assert_eq!(saturating_mul_usize(6, 7), 42);
    assert_eq!(div_ceil_usize(7, 2), 4);
    assert_eq!(div_ceil_usize(8, 2), 4);
    assert_eq!(div_ceil_usize(0, 5), 0);
    assert_eq!(scale_alpha(200, 255), 200);
    assert_eq!(scale_alpha(255, 128), 128);
    assert_eq!(scale_alpha(100, 0), 0);
    assert_eq!(scale_alpha(1, 128), 1);
}
