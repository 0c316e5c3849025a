use renderer::bitmap_text::{PlacedChar, rasterize_bitmap_glyphs};

fn placed(origin_x: i32, origin_y: i32, character: char) -> PlacedChar {
    PlacedChar { origin_x, origin_y, character }
}

#[test]
fn bitmap_text_lights_the_font_bits() {
    let mask = rasterize_bitmap_glyphs(&vec![placed(3, 4, '!')], 1).expect("'!' has a bitmap");
    assert_eq!((mask.origin_x, mask.origin_y, mask.width, mask.height), (3, 4, 8, 8));
    // font8x8 '!': rows 0x18, 0x3C, 0x3C, 0x18, 0x18, 0x00, 0x18, 0x00.
    let rows = [0x18_u8, 0x3C, 0x3C, 0x18, 0x18, 0x00, 0x18, 0x00];
    for (y, row) in rows.iter().enumerate() {
        for x in 0..8 {
            let lit = (row >> x) & 1 == 1;
            assert_eq!(mask.get(x as i32, y as i32), if lit { 255 } else { 0 });
        }
    }
}

#[test]
fn bitmap_text_scales_and_skips_characters_without_bitmaps() {
    let mask = rasterize_bitmap_glyphs(&vec![placed(0, 0, 'é'), placed(20, 2, '!'), placed(40, 2, '!')], 2)
        .expect("'!' has a bitmap");
    assert_eq!((mask.origin_x, mask.origin_y, mask.width, mask.height), (20, 2, 36, 16));
    // The top row of '!' (0x18) lights columns 3 and 4, doubled.
    assert_eq!(mask.get(6, 0), 255);
    assert_eq!(mask.get(9, 1), 255);
    assert_eq!(mask.get(5, 0), 0);
    assert_eq!(mask.get(26, 0), 255);
    assert!(rasterize_bitmap_glyphs(&vec![placed(0, 0, 'é')], 1).is_none());
    assert!(rasterize_bitmap_glyphs(&Vec::new(), 3).is_none());
}
