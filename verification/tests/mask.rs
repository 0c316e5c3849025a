use renderer::mask::{
    AlphaMask, blur_bands, blur_mask, blur_mask_horizontally, blur_mask_vertically, blur_mask_with_workers,
    blur_pass_radii, blur_worker_count, dilate_mask, erode_mask, pad_mask, shadow_mask_from_raster,
    stroke_mask_from_raster, subtract_mask,
};

fn filled(origin_x: i32, origin_y: i32, width: i32, height: i32, value: u8) -> AlphaMask {
    let mut mask = AlphaMask::new(origin_x, origin_y, width, height);
    for y in 0..height {
        for x in 0..width {
            mask.set_max(x, y, value);
        }
    }
    mask
}

#[test]
fn stroke_mask_keeps_edge_pixels_inside_the_original_fill_area() {
    let mut raster = AlphaMask::new(0, 0, 3, 3);
    for y in 0..3 {
        for x in 0..3 {
            raster.set_max(x, y, 255);
        }
    }

    let outline = stroke_mask_from_raster(&raster, 1);

    assert_eq!(outline.get(1 - outline.origin_x, 1 - outline.origin_y), 0);

    for y in 0..3 {
        for x in 0..3 {
            if x == 1 && y == 1 {
                continue;
            }
            let local_x = x - outline.origin_x;
            let local_y = y - outline.origin_y;
            assert!(outline.get(local_x, local_y) > 0);
        }
    }

    assert!(outline.alpha.iter().any(|alpha| *alpha > 0));
}

#[test]
fn multithreaded_blur_matches_the_single_threaded_result() {
    let mut mask = AlphaMask::new(0, 0, 96, 64);
    for y in 0..64 {
        for x in 0..96 {
            let value = (((x * 13) + (y * 17)) % 256) as u8;
            mask.set_max(x, y, value);
        }
    }

    let single = blur_mask_with_workers(&mask, 12, 1);
    let threaded = blur_mask_with_workers(&mask, 12, 4);

    assert_eq!(single.origin_x, threaded.origin_x);
    assert_eq!(single.origin_y, threaded.origin_y);
    assert_eq!(single.width, threaded.width);
    assert_eq!(single.height, threaded.height);
    assert_eq!(single.alpha, threaded.alpha);
}

#[test]
fn blur_passes_preserve_the_requested_total_radius() {
    assert_eq!(blur_pass_radii(1), vec![1]);
    assert_eq!(blur_pass_radii(2), vec![1, 1]);
    assert_eq!(blur_pass_radii(3), vec![1, 1, 1]);
    assert_eq!(blur_pass_radii(6), vec![2, 2, 2]);
    assert_eq!(blur_pass_radii(10), vec![4, 3, 3]);
    assert_eq!(blur_pass_radii(10).iter().sum::<usize>(), 10);
}

#[test]
fn a_zero_radius_has_no_passes() {
    assert!(blur_pass_radii(0).is_empty());
    for radius in 1..200 {
        let radii = blur_pass_radii(radius);
        assert_eq!(radii.iter().sum::<usize>(), radius);
        assert!(radii.iter().all(|r| *r >= 1));
        assert!(radii.windows(2).all(|pair| pair[0] >= pair[1] && pair[0] - pair[1] <= 1));
    }
}

#[test]
fn new_masks_are_empty_and_clamp_negative_sizes() {
    let mask = AlphaMask::new(-3, 4, 5, -2);
    assert_eq!(mask.width, 5);
    assert_eq!(mask.height, 0);
    assert!(mask.alpha.is_empty());
    let mask = AlphaMask::new(1, 2, 3, 2);
    assert_eq!(mask.alpha, vec![0; 6]);
    assert_eq!(mask.get(-1, 0), 0);
    assert_eq!(mask.get(3, 0), 0);
}

#[test]
fn set_max_only_raises_coverage() {
    let mut mask = AlphaMask::new(0, 0, 2, 2);
    mask.set_max(1, 0, 100);
    mask.set_max(1, 0, 50);
    assert_eq!(mask.get(1, 0), 100);
    mask.set_max(5, 5, 200);
    assert_eq!(mask.alpha, vec![0, 100, 0, 0]);
}

#[test]
fn a_horizontal_box_averages_the_clipped_window() {
    let mut mask = AlphaMask::new(0, 0, 3, 1);
    mask.set_max(0, 0, 90);
    mask.set_max(1, 0, 30);
    mask.set_max(2, 0, 0);
    let blurred = blur_mask_horizontally(&mask, 1, 1);
    // (90 + 30) / 2, (90 + 30 + 0) / 3, (30 + 0) / 2.
    assert_eq!(blurred.alpha, vec![60, 40, 15]);
    assert_eq!(blur_mask_horizontally(&mask, 1, 3).alpha, blurred.alpha);
}

#[test]
fn a_vertical_box_averages_the_clipped_window() {
    let mut mask = AlphaMask::new(0, 0, 1, 3);
    mask.set_max(0, 0, 90);
    mask.set_max(0, 1, 30);
    let blurred = blur_mask_vertically(&mask, 1, 1);
    assert_eq!(blurred.alpha, vec![60, 40, 15]);
    assert_eq!(blur_mask_vertically(&mask, 1, 2).alpha, blurred.alpha);
}

#[test]
fn bands_cover_the_extent_in_order() {
    assert_eq!(blur_bands(10, 4), vec![(0, 3), (3, 6), (6, 9), (9, 10)]);
    assert_eq!(blur_bands(5, 4), vec![(0, 2), (2, 4), (4, 5)]);
    assert_eq!(blur_bands(3, 0), vec![(0, 3)]);
    assert_eq!(blur_bands(2, 8), vec![(0, 1), (1, 2)]);
    assert!(blur_bands(0, 3).is_empty());
}

#[test]
fn blur_worker_counts() {
    let small = AlphaMask::new(0, 0, 10, 10);
    assert_eq!(blur_worker_count(&small, 16), 1);
    let large = AlphaMask::new(0, 0, 200, 200);
    assert_eq!(blur_worker_count(&large, 16), 8);
    assert_eq!(blur_worker_count(&large, 3), 3);
    assert_eq!(blur_worker_count(&large, 0), 1);
}

#[test]
fn blur_of_a_zero_radius_or_empty_mask_is_a_copy() {
    let mask = filled(2, 3, 4, 4, 77);
    let same = blur_mask(&mask, 0, 4);
    assert_eq!(same.alpha, mask.alpha);
    assert_eq!((same.origin_x, same.origin_y), (2, 3));
    let uniform = blur_mask(&mask, 2, 4);
    assert_eq!(uniform.alpha, mask.alpha);
}

#[test]
fn padding_adds_an_empty_border() {
    let mask = filled(5, 6, 2, 1, 9);
    let padded = pad_mask(&mask, 2);
    assert_eq!((padded.origin_x, padded.origin_y, padded.width, padded.height), (3, 4, 6, 5));
    for y in 0..5 {
        for x in 0..6 {
            let expected = if y == 2 && (x == 2 || x == 3) { 9 } else { 0 };
            assert_eq!(padded.get(x, y), expected);
        }
    }
    assert_eq!(pad_mask(&mask, 0).alpha, mask.alpha);
}

#[test]
fn dilation_spreads_the_largest_coverage_over_the_disk() {
    let mut mask = AlphaMask::new(0, 0, 1, 1);
    mask.set_max(0, 0, 200);
    // Reach 1: the plus-shaped disk of radius 1.
    let grown = dilate_mask(&mask, 1, 1);
    assert_eq!((grown.origin_x, grown.origin_y, grown.width, grown.height), (-1, -1, 3, 3));
    assert_eq!(grown.alpha, vec![0, 200, 0, 200, 200, 200, 0, 200, 0]);
    // Reach 2 takes the corners as well.
    let square = dilate_mask(&mask, 1, 2);
    assert_eq!(square.alpha, vec![200; 9]);
}

#[test]
fn erosion_wears_edges_away() {
    let mask = filled(0, 0, 3, 3, 255);
    let worn = erode_mask(&mask, 1, 1);
    assert_eq!(worn.alpha, vec![0, 0, 0, 0, 255, 0, 0, 0, 0]);
    let untouched = erode_mask(&mask, 0, 0);
    assert_eq!(untouched.alpha, mask.alpha);
}

#[test]
fn subtraction_aligns_masks_in_frame_coordinates() {
    let base = filled(0, 0, 3, 1, 200);
    let mut cut = AlphaMask::new(1, 0, 2, 1);
    cut.set_max(0, 0, 50);
    cut.set_max(1, 0, 250);
    let rest = subtract_mask(&base, &cut);
    assert_eq!(rest.alpha, vec![200, 150, 0]);
}

#[test]
fn shadows_spread_then_blur() {
    let mut raster = AlphaMask::new(0, 0, 1, 1);
    raster.set_max(0, 0, 255);
    let unchanged = shadow_mask_from_raster(&raster, 0, 0, 0, 1);
    assert_eq!(unchanged.alpha, raster.alpha);
    let spread = shadow_mask_from_raster(&raster, 1, 2, 0, 1);
    assert_eq!(spread.alpha, vec![255; 9]);
    let blurred = shadow_mask_from_raster(&raster, 0, 0, 1, 1);
    assert_eq!((blurred.origin_x, blurred.origin_y, blurred.width, blurred.height), (-1, -1, 3, 3));
    assert!(blurred.get(1, 1) > 0 && blurred.get(1, 1) < 255);
    assert!(blurred.get(0, 0) > 0);
}

#[test]
fn every_cell_lies_between_its_erosion_and_its_dilation() {
    let mut mask = AlphaMask::new(2, -1, 4, 3);
    let values = [10u8, 200, 0, 90, 255, 30, 60, 0, 120, 7, 180, 40];
    for (i, value) in values.iter().enumerate() {
        mask.set_max((i % 4) as i32, (i / 4) as i32, *value);
    }
    for (pad, reach) in [(0, 0), (1, 1), (1, 2), (2, 4)] {
        let grown = dilate_mask(&mask, pad, reach);
        let worn = erode_mask(&mask, pad, reach);
        let p = pad as usize;
        for y in 0..3usize {
            for x in 0..4usize {
                let cell = mask.alpha[x + y * 4];
                assert!(worn.alpha[x + y * 4] <= cell);
                assert!(cell <= grown.alpha[(x + p) + (y + p) * (4 + 2 * p)]);
            }
        }
    }
}
