use std::collections::HashSet;

use renderer::color::{Color, pack_rgb, pack_softbuffer_rgb, pack_transparent, u8_to_u10_channel};
use renderer::dither::{
    generate_blue_noise_tile, quantize_channel_with_blue_noise, threshold_at, to_softbuffer_rgb_blue_noise,
};

#[test]
fn blue_noise_tile_is_a_full_permutation() {
    let tile = generate_blue_noise_tile();
    let unique = tile.iter().copied().collect::<HashSet<_>>();
    assert_eq!(unique.len(), 64);
    assert_eq!(unique.iter().copied().min(), Some(0));
    assert_eq!(unique.iter().copied().max(), Some(63));
}

#[test]
fn exact_8bit_anchor_channels_do_not_dither() {
    for channel in 0_u16..=255 {
        let channel10 = u8_to_u10_channel(channel as u8);
        for threshold in 0_u8..64 {
            assert_eq!(quantize_channel_with_blue_noise(channel10, threshold), channel as u8);
        }
    }
}

#[test]
fn exact_8bit_colors_stay_stable_after_present_conversion() {
    let tile = generate_blue_noise_tile();
    let color = Color::rgb(45, 117, 240);
    let packed = pack_rgb(color);
    for y in 0..8 {
        for x in 0..8 {
            assert_eq!(to_softbuffer_rgb_blue_noise(packed, x, y, &tile), pack_softbuffer_rgb(color));
        }
    }
}

#[test]
fn the_tile_is_the_same_every_time() {
    assert_eq!(generate_blue_noise_tile(), generate_blue_noise_tile());
}

#[test]
fn thresholds_repeat_every_eight_pixels() {
    let tile = generate_blue_noise_tile();
    for y in 0..8 {
        for x in 0..8 {
            assert_eq!(threshold_at(&tile, x, y), tile[y * 8 + x]);
            assert_eq!(threshold_at(&tile, x + 8, y + 16), tile[y * 8 + x]);
        }
    }
}

#[test]
fn a_channel_between_levels_picks_one_of_its_neighbours() {
    // 10-bit 2 lies between the 8-bit levels 0 (anchor 0) and 1 (anchor 4).
    let mut seen_lower = false;
    let mut seen_upper = false;
    for threshold in 0_u8..64 {
        let level = quantize_channel_with_blue_noise(2, threshold);
        assert!(level == 0 || level == 1);
        seen_lower |= level == 0;
        seen_upper |= level == 1;
    }
    assert!(seen_lower && seen_upper);
    // Half-way: position 2 of a span of 4 picks the upper level for
    // thresholds below 32.
    assert_eq!(quantize_channel_with_blue_noise(2, 31), 1);
    assert_eq!(quantize_channel_with_blue_noise(2, 32), 0);
}

#[test]
fn transparent_pixels_dither_to_zero() {
    let tile = generate_blue_noise_tile();
    assert_eq!(to_softbuffer_rgb_blue_noise(pack_transparent(), 3, 5, &tile), 0);
}
