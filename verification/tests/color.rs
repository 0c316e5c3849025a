use renderer::color::{
    Color, coverage_from_sample_hits, is_transparent, pack_internal_rgb_u10, pack_rgb, pack_rgba, pack_softbuffer_channels,
    pack_softbuffer_rgb, pack_transparent, u10_to_u8_channel, u8_to_u10_channel, u8_to_u2_alpha,
    unpack_alpha8, unpack_rgb, unpack_rgb10,
};

#[test]
fn pack_and_unpack_rgb_round_trips_8bit_inputs() {
    let samples = [
        Color::rgb(0, 0, 0),
        Color::rgb(255, 255, 255),
        Color::rgb(15, 23, 42),
        Color::rgb(37, 99, 235),
        Color::rgb(244, 114, 182),
    ];

    for sample in samples {
        let packed = pack_rgb(sample);
        assert_eq!(unpack_rgb(packed), sample);
    }
}

#[test]
fn u8_to_u10_is_monotonic() {
    let mut previous = 0_u16;
    for value in 0_u16..=255 {
        let current = u8_to_u10_channel(value as u8);
        assert!(current >= previous);
        previous = current;
    }
}

#[test]
fn transparent_pixel_preserves_alpha_state() {
    assert!(is_transparent(pack_transparent()));
    assert!(!is_transparent(pack_rgb(Color::rgb(0, 0, 0))));
}

#[test]
fn pack_rgba_preserves_quantized_alpha_state() {
    let transparent = pack_rgba(Color::rgba(10, 20, 30, 0));
    let translucent = pack_rgba(Color::rgba(10, 20, 30, 128));
    let opaque = pack_rgba(Color::rgba(10, 20, 30, 255));

    assert!(is_transparent(transparent));
    assert!(!is_transparent(translucent));
    assert_eq!(unpack_alpha8(opaque), 255);
    assert!(unpack_alpha8(translucent) < 255);
}

#[test]
fn channel_widening_hits_both_ends_and_rounds_to_nearest() {
    assert_eq!(u8_to_u10_channel(0), 0);
    assert_eq!(u8_to_u10_channel(255), 1023);
    // 128 * 1023 / 255 = 513.5..., rounded to 514.
    assert_eq!(u8_to_u10_channel(128), 514);
    assert_eq!(u10_to_u8_channel(1023), 255);
    assert_eq!(u10_to_u8_channel(514), 128);
    assert_eq!(u10_to_u8_channel(2), 0);
}

#[test]
fn every_8bit_channel_survives_widening() {
    for value in 0_u16..=255 {
        let value = value as u8;
        assert_eq!(u10_to_u8_channel(u8_to_u10_channel(value)), value);
    }
}

#[test]
fn two_bit_alpha_levels() {
    assert_eq!(u8_to_u2_alpha(0), 0);
    assert_eq!(u8_to_u2_alpha(42), 0);
    assert_eq!(u8_to_u2_alpha(43), 1);
    assert_eq!(u8_to_u2_alpha(128), 2);
    assert_eq!(u8_to_u2_alpha(255), 3);
}

#[test]
fn packed_layout_puts_red_on_top_and_alpha_at_the_bottom() {
    assert_eq!(pack_internal_rgb_u10(1023, 0, 0, 0), 0xffc0_0000);
    assert_eq!(pack_internal_rgb_u10(0, 1023, 0, 0), 0x003f_f000);
    assert_eq!(pack_internal_rgb_u10(0, 0, 1023, 0), 0x0000_0ffc);
    assert_eq!(pack_internal_rgb_u10(0, 0, 0, 3), 3);
    assert_eq!(pack_rgb(Color::rgb(255, 255, 255)), 0xffff_ffff);
    assert_eq!(unpack_rgb10(pack_rgb(Color::rgb(255, 0, 128))), (1023, 0, 514));
}

#[test]
fn softbuffer_words_are_0x00rrggbb() {
    assert_eq!(pack_softbuffer_channels(0x12, 0x34, 0x56), 0x0012_3456);
    assert_eq!(pack_softbuffer_rgb(Color::rgb(1, 2, 3)), 0x0001_0203);
}

#[test]
fn sample_coverage_matches_the_rounded_fraction() {
    assert_eq!(coverage_from_sample_hits(0, 16), 0);
    assert_eq!(coverage_from_sample_hits(16, 16), 255);
    assert_eq!(coverage_from_sample_hits(20, 16), 255);
    assert_eq!(coverage_from_sample_hits(1, 4), 64);
    assert_eq!(coverage_from_sample_hits(2, 4), 128);
    assert_eq!(coverage_from_sample_hits(3, 16), 48);
    for total in 1..=255u8 {
        for hits in 0..=total {
            let expected = if hits == 0 {
                0
            } else if hits >= total {
                255
            } else {
                ((hits as f32 / total as f32) * 255.0).round() as u8
            };
            assert_eq!(coverage_from_sample_hits(hits, total), expected, "{hits}/{total}");
        }
    }
}
