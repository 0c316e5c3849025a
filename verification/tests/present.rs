use renderer::color::{Color, pack_rgb, pack_transparent};
use renderer::dither::{generate_blue_noise_tile, to_softbuffer_rgb_blue_noise};
use renderer::frame::BufferRows;
use renderer::plan::PixelRect;
use renderer::present::{
    DamageRect, acquire_worker_buffers, clear_clip_packed, copy_band_into_buffer, copy_job_from_worker_buffer,
    copy_render_buffer_into_surface, fill_opaque_span_rows, non_transparent_damage_rects, release_worker_buffers, render_row_bands,
    resize_buffer, surface_pixel,
};

#[test]
fn resize_buffer_tracks_the_latest_window_size_without_scaling() {
    let mut width = 320;
    let mut height = 180;
    let mut buffer = vec![0_u32; width * height];

    resize_buffer(&mut buffer, &mut width, &mut height, 640, 360, Color::rgb(255, 255, 255));

    assert_eq!(width, 640);
    assert_eq!(height, 360);
    assert_eq!(buffer.len(), 640 * 360);
}

#[test]
fn resizing_keeps_the_head_and_fills_with_the_clear_colour() {
    let mut width = 2;
    let mut height = 1;
    let mut buffer = vec![7_u32, 8];
    resize_buffer(&mut buffer, &mut width, &mut height, 0, 3, Color::rgb(0, 0, 0));
    assert_eq!((width, height), (1, 3));
    assert_eq!(buffer, vec![7, 8, pack_rgb(Color::rgb(0, 0, 0))]);
    resize_buffer(&mut buffer, &mut width, &mut height, 1, 3, Color::rgb(9, 9, 9));
    assert_eq!(buffer, vec![7, 8, pack_rgb(Color::rgb(0, 0, 0))]);
}

#[test]
fn blit_to_surface_copies_rows_when_target_is_wider() {
    let tile = generate_blue_noise_tile();
    let source = vec![
        pack_rgb(Color::rgb(1, 2, 3)),
        pack_rgb(Color::rgb(4, 5, 6)),
        pack_rgb(Color::rgb(7, 8, 9)),
        pack_rgb(Color::rgb(10, 11, 12)),
        pack_rgb(Color::rgb(13, 14, 15)),
        pack_rgb(Color::rgb(16, 17, 18)),
    ];
    let mut target = vec![9; 10];
    copy_render_buffer_into_surface(&mut target, 5, 2, &source, 3, 2, 0, false, &tile);
    assert_eq!(
        target,
        vec![
            to_softbuffer_rgb_blue_noise(source[0], 0, 0, &tile),
            to_softbuffer_rgb_blue_noise(source[1], 1, 0, &tile),
            to_softbuffer_rgb_blue_noise(source[2], 2, 0, &tile),
            0,
            0,
            to_softbuffer_rgb_blue_noise(source[3], 0, 1, &tile),
            to_softbuffer_rgb_blue_noise(source[4], 1, 1, &tile),
            to_softbuffer_rgb_blue_noise(source[5], 2, 1, &tile),
            0,
            0,
        ]
    );
}

#[test]
fn blit_to_surface_copies_rows_when_target_is_narrower() {
    let tile = generate_blue_noise_tile();
    let source = vec![
        pack_rgb(Color::rgb(1, 2, 3)),
        pack_rgb(Color::rgb(4, 5, 6)),
        pack_rgb(Color::rgb(7, 8, 9)),
        pack_rgb(Color::rgb(10, 11, 12)),
        pack_rgb(Color::rgb(13, 14, 15)),
        pack_rgb(Color::rgb(16, 17, 18)),
        pack_rgb(Color::rgb(19, 20, 21)),
        pack_rgb(Color::rgb(22, 23, 24)),
    ];
    let mut target = vec![9; 6];
    copy_render_buffer_into_surface(&mut target, 3, 2, &source, 4, 2, 0, false, &tile);
    assert_eq!(
        target,
        vec![
            to_softbuffer_rgb_blue_noise(source[0], 0, 0, &tile),
            to_softbuffer_rgb_blue_noise(source[1], 1, 0, &tile),
            to_softbuffer_rgb_blue_noise(source[2], 2, 0, &tile),
            to_softbuffer_rgb_blue_noise(source[4], 0, 1, &tile),
            to_softbuffer_rgb_blue_noise(source[5], 1, 1, &tile),
            to_softbuffer_rgb_blue_noise(source[6], 2, 1, &tile),
        ]
    );
}

#[test]
fn blit_to_surface_can_preserve_transparent_glass_pixels() {
    let tile = generate_blue_noise_tile();
    let clear = 0x00ff00;
    let source = vec![pack_rgb(Color::rgb(1, 2, 3)), pack_transparent(), pack_rgb(Color::rgb(7, 8, 9))];
    let mut target = vec![clear; 3];

    copy_render_buffer_into_surface(&mut target, 3, 1, &source, 3, 1, clear, true, &tile);

    assert_eq!(
        target,
        vec![
            to_softbuffer_rgb_blue_noise(source[0], 0, 0, &tile),
            0,
            to_softbuffer_rgb_blue_noise(source[2], 2, 0, &tile)
        ]
    );

    copy_render_buffer_into_surface(&mut target, 3, 1, &source, 3, 1, clear, false, &tile);

    assert_eq!(target[1], clear);
}

#[test]
fn transparent_glass_damage_skips_reveal_holes() {
    let source = vec![
        pack_rgb(Color::rgb(1, 2, 3)),
        pack_rgb(Color::rgb(4, 5, 6)),
        pack_transparent(),
        pack_rgb(Color::rgb(7, 8, 9)),
        pack_rgb(Color::rgb(10, 11, 12)),
        pack_transparent(),
    ];

    let damage = non_transparent_damage_rects(&source, 3, 2, 3, 2);
    let simplified = damage.iter().map(|rect| (rect.x, rect.y, rect.width, rect.height)).collect::<Vec<_>>();

    assert_eq!(simplified, vec![(0, 0, 2, 2)]);
}

#[test]
fn damage_runs_split_on_holes_and_only_the_last_run_grows() {
    let o = pack_rgb(Color::rgb(1, 1, 1));
    let t = pack_transparent();
    // Row 0: o t o ; row 1: o t o ; row 2: t t t ; row 3: o o o. Two runs
    // per row: a run only grows down from the run pushed just before it.
    let source = vec![o, t, o, o, t, o, t, t, t, o, o, o];
    let damage = non_transparent_damage_rects(&source, 3, 4, 3, 4);
    assert_eq!(
        damage,
        vec![
            DamageRect { x: 0, y: 0, width: 1, height: 1 },
            DamageRect { x: 2, y: 0, width: 1, height: 1 },
            DamageRect { x: 0, y: 1, width: 1, height: 1 },
            DamageRect { x: 2, y: 1, width: 1, height: 1 },
            DamageRect { x: 0, y: 3, width: 3, height: 1 },
        ]
    );
    assert!(non_transparent_damage_rects(&source, 3, 4, 0, 4).is_empty());
    // A single column grows into one tall rectangle.
    let column = vec![o, o, t, o];
    assert_eq!(
        non_transparent_damage_rects(&column, 1, 4, 1, 4),
        vec![DamageRect { x: 0, y: 0, width: 1, height: 2 }, DamageRect { x: 0, y: 3, width: 1, height: 1 }]
    );
    // A smaller surface only sees its part of the frame.
    assert_eq!(non_transparent_damage_rects(&source, 3, 4, 1, 1), vec![DamageRect { x: 0, y: 0, width: 1, height: 1 }]);
}

#[test]
fn surface_pixels_clear_transparent_pixels_unless_kept() {
    let tile = generate_blue_noise_tile();
    assert_eq!(surface_pixel(pack_transparent(), 0, 0, 5, false, &tile), 5);
    assert_eq!(surface_pixel(pack_transparent(), 0, 0, 5, true, &tile), 0);
    assert_eq!(surface_pixel(pack_rgb(Color::rgb(1, 2, 3)), 0, 0, 5, false, &tile), 0x0001_0203);
}

#[test]
fn clearing_a_clip_paints_only_its_frame_pixels_in_the_window() {
    let mut buffer = vec![1_u32; 4 * 3];
    clear_clip_packed(&mut buffer, 4, 3, PixelRect { x0: 1, y0: -1, x1: 3, y1: 2 }, 9, BufferRows::full());
    assert_eq!(buffer, vec![1, 9, 9, 1, 1, 9, 9, 1, 1, 1, 1, 1]);
    // A worker buffer holding rows 1..3.
    let mut band = vec![0_u32; 4 * 2];
    clear_clip_packed(&mut band, 4, 3, PixelRect { x0: 0, y0: 0, x1: 2, y1: 2 }, 5, BufferRows::new(1, 3));
    assert_eq!(band, vec![5, 5, 0, 0, 0, 0, 0, 0]);
}

#[test]
fn worker_bands_are_stitched_back() {
    let bands = render_row_bands(5, 2);
    assert_eq!(bands.iter().map(|rows| (rows.start, rows.end)).collect::<Vec<_>>(), vec![(0, 3), (3, 5)]);
    let mut buffer = vec![0_u32; 2 * 5];
    copy_band_into_buffer(&mut buffer, 2, &[7, 7, 7, 7], BufferRows::new(3, 5));
    assert_eq!(buffer, vec![0, 0, 0, 0, 0, 0, 7, 7, 7, 7]);
}

#[test]
fn job_pixels_are_copied_from_the_worker_rows() {
    let mut buffer = vec![0_u32; 3 * 3];
    let worker = vec![1_u32, 2, 3, 4, 5, 6];
    copy_job_from_worker_buffer(&mut buffer, 3, 3, &worker, BufferRows::new(1, 3), PixelRect { x0: 1, y0: 1, x1: 3, y1: 3 });
    assert_eq!(buffer, vec![0, 0, 0, 0, 2, 3, 0, 5, 6]);
}

#[test]
fn pooled_buffers_are_reused_last_in_first_out() {
    let mut pool = vec![vec![1_u32, 1], vec![2_u32, 2, 2]];
    let buffers = acquire_worker_buffers(&mut pool, &vec![2, 4, 1]);
    assert_eq!(buffers, vec![vec![2, 2], vec![1, 1, 0, 0], vec![0]]);
    assert!(pool.is_empty());
    release_worker_buffers(&mut pool, buffers);
    assert_eq!(pool.len(), 3);
    assert_eq!(pool[2], vec![0]);
}

#[test]
fn opaque_spans_fill_only_the_rows_in_the_window() {
    // A 4-wide buffer holding frame rows 2..5.
    let mut buffer = vec![0u32; 12];
    fill_opaque_span_rows(&mut buffer, 4, 1, 3, 1, 4, 7, BufferRows::new(2, 5));
    assert_eq!(buffer, vec![0, 7, 7, 0, 0, 7, 7, 0, 0, 0, 0, 0]);
}

#[test]
fn empty_opaque_spans_change_nothing() {
    let mut buffer = vec![1u32; 8];
    fill_opaque_span_rows(&mut buffer, 4, 3, 3, 0, 2, 9, BufferRows::full());
    fill_opaque_span_rows(&mut buffer, 4, 0, 4, 2, 1, 9, BufferRows::full());
    assert_eq!(buffer, vec![1u32; 8]);
}

#[test]
fn damage_rects_cover_exactly_the_visible_pixels() {
    let o = pack_rgb(Color::rgb(9, 9, 9));
    let t = pack_transparent();
    // A 5x4 frame shown on a 4x3 surface.
    let source = vec![
        o, o, t, o, o, //
        t, o, o, o, t, //
        o, t, t, o, o, //
        o, o, o, o, o,
    ];
    let damage = non_transparent_damage_rects(&source, 5, 4, 4, 3);
    for y in 0..4usize {
        for x in 0..5usize {
            let covered = damage.iter().any(|rect| {
                (rect.x as usize) <= x
                    && x < (rect.x + rect.width) as usize
                    && (rect.y as usize) <= y
                    && y < (rect.y + rect.height) as usize
            });
            let visible = x < 4 && y < 3 && source[y * 5 + x] != t;
            assert_eq!(covered, visible, "pixel ({x}, {y})");
        }
    }
}

#[test]
fn row_bands_hold_every_row_exactly_once() {
    for height in [1usize, 7, 80, 481] {
        for workers in [0usize, 1, 3, 12] {
            let bands = render_row_bands(height, workers);
            for row in 0..height {
                let holders = bands.iter().filter(|band| band.start <= row && row < band.end).count();
                assert_eq!(holders, 1, "row {row} of {height} with {workers} workers");
            }
        }
    }
}
