use renderer::frame::{FramePaintMode, FramePaintReason, FrameTimingStats};
use renderer::plan::{
    DirtyRenderJob, PaintStats, PixelRect, SceneUpdate, build_incremental_render_jobs, clip_rects_pixel_count,
    dirty_job_group_clip, dirty_job_group_rows, distribute_dirty_render_jobs, full_paint_stats,
    incremental_render_worker_count, pixel_bounds, plan_scene_update, record_paint_stats,
    sort_jobs_by_pixels_desc,
};

fn rect(x0: i32, y0: i32, x1: i32, y1: i32) -> PixelRect {
    PixelRect { x0, y0, x1, y1 }
}

fn job(x0: i32, y0: i32, x1: i32, y1: i32, pixel_count: usize) -> DirtyRenderJob {
    DirtyRenderJob { clip: rect(x0, y0, x1, y1), pixel_count }
}

#[test]
fn incremental_render_jobs_split_a_tall_dirty_region_into_bands() {
    let jobs = build_incremental_render_jobs(&vec![rect(10, 12, 110, 252)], 160, 320);

    assert_eq!(jobs.len(), 3);
    assert_eq!(jobs[0].pixel_count, 100 * 80);
    assert_eq!(jobs[1].pixel_count, 100 * 80);
    assert_eq!(jobs[2].pixel_count, 100 * 80);
}

#[test]
fn incremental_render_job_distribution_keeps_worker_loads_close() {
    let jobs = vec![
        job(0, 0, 120, 80, 9600),
        job(0, 80, 120, 160, 9600),
        job(120, 0, 200, 80, 6400),
        job(120, 80, 200, 160, 6400),
    ];

    let groups = distribute_dirty_render_jobs(&jobs, 2);
    let loads = groups
        .iter()
        .map(|group| group.iter().map(|job| job.pixel_count).sum::<usize>())
        .collect::<Vec<_>>();

    assert_eq!(groups.len(), 2);
    assert!(loads.iter().all(|&load| load >= 12800));
    assert!(loads.iter().all(|&load| load <= 16000));
}

#[test]
fn bands_are_clipped_to_the_frame() {
    let jobs = build_incremental_render_jobs(&vec![rect(-5, 300, 20, 400), rect(0, 0, 0, 10)], 160, 320);
    assert_eq!(jobs, vec![job(0, 300, 20, 320, 400)]);
}

#[test]
fn the_jobs_cover_exactly_the_dirty_pixels() {
    let regions = vec![rect(0, 0, 50, 200), rect(40, 10, 90, 30), rect(-10, -10, 5, 5)];
    let jobs = build_incremental_render_jobs(&regions, 100, 150);
    let total: usize = jobs.iter().map(|job| job.pixel_count).sum();
    assert_eq!(total, clip_rects_pixel_count(&regions, 100, 150));
    assert_eq!(total, 50 * 150 + 50 * 20 + 5 * 5);
}

#[test]
fn pixel_bounds_clip_to_the_frame() {
    assert_eq!(pixel_bounds(rect(-3, 2, 7, 9), 5, 5), Some(rect(0, 2, 5, 5)));
    assert_eq!(pixel_bounds(rect(6, 0, 9, 3), 5, 5), None);
    assert_eq!(rect(0, 0, 2, 2).union(rect(5, -1, 6, 1)), rect(0, -1, 6, 2));
    assert_eq!(rect(0, 0, 2, 2).intersect(rect(2, 0, 4, 2)), None);
    assert!(rect(3, 3, 3, 5).is_empty());
}

#[test]
fn sorting_is_stable_from_the_largest_job_down() {
    let jobs = vec![job(0, 0, 1, 1, 5), job(1, 0, 2, 1, 9), job(2, 0, 3, 1, 5), job(3, 0, 4, 1, 7)];
    let sorted = sort_jobs_by_pixels_desc(&jobs);
    assert_eq!(sorted, vec![jobs[1], jobs[3], jobs[0], jobs[2]]);
}

#[test]
fn distribution_hands_out_every_job_once_to_non_empty_groups() {
    let jobs = vec![job(0, 0, 1, 1, 3), job(0, 1, 1, 2, 10), job(0, 2, 1, 3, 4), job(0, 3, 1, 4, 4)];
    let groups = distribute_dirty_render_jobs(&jobs, 8);
    assert_eq!(groups.len(), 4);
    assert!(groups.iter().all(|group| !group.is_empty()));
    let groups = distribute_dirty_render_jobs(&jobs, 2);
    // 10 goes to the first worker; 4, 4 and 3 all find the second one lighter.
    assert_eq!(groups, vec![vec![jobs[1]], vec![jobs[2], jobs[3], jobs[0]]]);
    let groups = distribute_dirty_render_jobs(&jobs, 0);
    assert_eq!(groups, vec![vec![jobs[1], jobs[2], jobs[3], jobs[0]]]);
    assert!(distribute_dirty_render_jobs(&Vec::new(), 4).is_empty());
}

#[test]
fn incremental_worker_counts() {
    let small = vec![job(0, 0, 10, 10, 100), job(0, 10, 10, 20, 100)];
    assert_eq!(incremental_render_worker_count(&small, 8), 1);
    let single = vec![job(0, 0, 1000, 80, 80_000)];
    assert_eq!(incremental_render_worker_count(&single, 8), 1);
    let big = vec![job(0, 0, 400, 80, 32_000); 6];
    // 192000 pixels allow 8 workers, 6 jobs allow 6.
    assert_eq!(incremental_render_worker_count(&big, 16), 6);
    assert_eq!(incremental_render_worker_count(&big, 2), 2);
    let few_pixels = vec![job(0, 0, 400, 80, 20_000); 3];
    // 60000 pixels allow 3 workers.
    assert_eq!(incremental_render_worker_count(&few_pixels, 16), 3);
}

#[test]
fn group_rows_and_clips() {
    let jobs = vec![job(5, 10, 20, 30, 1), job(-4, -2, 3, 12, 1)];
    let rows = dirty_job_group_rows(&jobs).unwrap();
    assert_eq!((rows.start, rows.end), (0, 30));
    assert_eq!(dirty_job_group_clip(&jobs), Some(rect(-4, -2, 20, 30)));
    assert_eq!(dirty_job_group_rows(&Vec::new()), None);
    assert_eq!(dirty_job_group_clip(&Vec::new()), None);
    assert_eq!(dirty_job_group_rows(&vec![job(0, -5, 1, -1, 1)]), None);
}

#[test]
fn scene_update_plans() {
    let nothing = plan_scene_update(&Vec::new(), 100, 100, 3, 8500, 4);
    assert_eq!(nothing.update, SceneUpdate::Unchanged);
    assert_eq!(nothing.stats, PaintStats::default());

    let small = plan_scene_update(&vec![rect(0, 0, 10, 10)], 100, 100, 3, 8500, 4);
    assert_eq!(small.update, SceneUpdate::Incremental);
    assert_eq!(small.workers, 1);
    assert_eq!(small.stats.damage_pixels, 100);
    assert_eq!(small.stats.scene_passes, 1);
    assert_eq!(small.stats.mode, FramePaintMode::Incremental);
    assert_eq!(small.stats.reason, FramePaintReason::IncrementalDamage);

    let large = plan_scene_update(&vec![rect(0, 0, 100, 90)], 100, 100, 3, 8500, 4);
    assert_eq!(large.update, SceneUpdate::FullRedraw(FramePaintReason::DirtyAreaLimit));
    assert_eq!(large.stats.mode, FramePaintMode::Full);
    assert_eq!(large.stats.damage_pixels, 9000);
    assert_eq!(large.stats.painted_pixels, 10000);
}

#[test]
fn paint_stats_are_copied_into_the_frame_record() {
    let mut frame = FrameTimingStats::default();
    frame.update_us = 9;
    let full = full_paint_stats(1920, 1080, 4);
    assert_eq!(full.workers, 4);
    assert_eq!(full.painted_pixels, 1920 * 1080);
    record_paint_stats(&mut frame, full);
    assert_eq!(frame.update_us, 9);
    assert_eq!(frame.render_workers, 4);
    assert_eq!(frame.paint_mode, FramePaintMode::Full);
    assert_eq!(frame.paint_reason, FramePaintReason::FullRedraw);
}

#[test]
fn every_worker_gets_work_and_groups_run_largest_first() {
    let jobs: Vec<DirtyRenderJob> = [5usize, 1, 9, 9, 2, 7, 3]
        .iter()
        .enumerate()
        .map(|(i, &pixels)| job(0, i as i32, 1, i as i32 + 1, pixels))
        .collect();
    for workers in 0..10usize {
        let groups = distribute_dirty_render_jobs(&jobs, workers);
        assert_eq!(groups.len(), workers.max(1).min(jobs.len()));
        for group in &groups {
            assert!(group.windows(2).all(|pair| pair[0].pixel_count >= pair[1].pixel_count));
        }
    }
}
