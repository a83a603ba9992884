use rustdecks::render::{dim, icon_glyph, parse_color, Canvas};

#[test]
fn color_parsing() {
    assert_eq!(parse_color("#00ff00"), Some([0, 255, 0]));
    assert_eq!(parse_color("#0f0"), Some([0, 255, 0]));
    assert_eq!(parse_color("red"), Some([220, 40, 40]));
    assert_eq!(parse_color("nonsense"), None);
}

#[test]
fn icon_glyph_resolves_names_and_hex() {
    assert_eq!(icon_glyph("engine"), Some('\u{f085}'));
    assert_eq!(icon_glyph("f085"), Some('\u{f085}'));
    assert_eq!(icon_glyph("uf085"), Some('\u{f085}'));
    assert_eq!(icon_glyph("not-a-glyph"), None);
}

#[test]
fn color_names_case_space_and_hex_edges() {
    assert_eq!(parse_color("  White \n"), Some([255, 255, 255]));
    assert_eq!(parse_color("GREY"), Some([128, 128, 128]));
    assert_eq!(parse_color("skyblue"), Some([0, 191, 255]));
    assert_eq!(parse_color("#FfA"), Some([255, 255, 170]));
    assert_eq!(parse_color("#123456"), Some([0x12, 0x34, 0x56]));
    assert_eq!(parse_color("#12345"), None);
    assert_eq!(parse_color("#12345g"), None);
    assert_eq!(parse_color("#"), None);
    assert_eq!(parse_color(""), None);
    // hex digits only: no sign, and no character outside the hex digits
    assert_eq!(parse_color("#+f0000"), None);
    assert_eq!(parse_color("#+f+f+f"), None);
    assert_eq!(parse_color("#0é000"), None);
    assert_eq!(parse_color("#0é0000"), None);
    assert_eq!(parse_color("#é0"), None);
    assert_eq!(parse_color("#ff 000"), None);
}

#[test]
fn icon_names_and_codepoints() {
    assert_eq!(icon_glyph("gauge"), Some('\u{f3fd}'));
    assert_eq!(icon_glyph("map"), Some('\u{f279}'));
    assert_eq!(icon_glyph("uuu41"), Some('A'));
    assert_eq!(icon_glyph("d800"), None); // a surrogate is no character
    assert_eq!(icon_glyph("110000"), None);
    assert_eq!(icon_glyph(""), None);
    assert_eq!(icon_glyph("Engine"), None); // names match exactly
}

#[test]
fn key_canvas_packs_to_device_size() {
    let c = Canvas::new(90, 90, [22, 22, 26]);
    assert_eq!(c.width(), 90);
    assert_eq!(c.height(), 90);
    let buf = c.finish(true);
    assert_eq!(buf.len(), 90 * 90 * 2);
    let strip = Canvas::new(60, 270, [22, 22, 26]).finish(false);
    assert_eq!(strip.len(), 60 * 270 * 2);
}

#[test]
fn rgb565_packing_is_exact() {
    let c = Canvas::new(1, 1, [0xFF, 0x00, 0x00]);
    assert_eq!(c.to_rgb565_le(), vec![0x00, 0xF8]);
    let c = Canvas::new(1, 1, [0x00, 0xFF, 0x00]);
    assert_eq!(c.to_rgb565_le(), vec![0xE0, 0x07]);
    let c = Canvas::new(1, 1, [0x00, 0x00, 0xFF]);
    assert_eq!(c.to_rgb565_le(), vec![0x1F, 0x00]);
    let c = Canvas::new(2, 1, [22, 22, 26]);
    // (22 & 0xF8) << 8 | (22 & 0xFC) << 3 | 26 >> 3 = 0x10A3
    assert_eq!(c.to_rgb565_le(), vec![0xA3, 0x10, 0xA3, 0x10]);
}

#[test]
fn fill_is_clamped_and_frame_marks_the_edge() {
    let mut c = Canvas::new(3, 3, [0, 0, 0]);
    c.fill_rect(1, 1, 10, 10, [255, 255, 255]);
    let px = c.to_rgb565_le();
    let white = [0xFF, 0xFF];
    let black = [0x00, 0x00];
    for y in 0..3 {
        for x in 0..3 {
            let i = 2 * (y * 3 + x);
            let want = if x >= 1 && y >= 1 { white } else { black };
            assert_eq!(&px[i..i + 2], &want, "({x},{y})");
        }
    }
    let mut f = Canvas::new(3, 3, [0, 0, 0]);
    f.frame([255, 255, 255]);
    let px = f.to_rgb565_le();
    for y in 0..3 {
        for x in 0..3 {
            let i = 2 * (y * 3 + x);
            let want = if x == 1 && y == 1 { black } else { white };
            assert_eq!(&px[i..i + 2], &want, "({x},{y})");
        }
    }
}

#[test]
fn accent_bar_sets_content_top() {
    let mut c = Canvas::new(4, 8, [0, 0, 0]);
    assert_eq!(c.paint_accent(None), 0);
    assert_eq!(c.to_rgb565_le(), vec![0; 4 * 8 * 2]);
    assert_eq!(c.paint_accent(Some([255, 255, 255])), 9);
    let px = c.to_rgb565_le();
    assert!(px[..2 * 4 * 5].iter().all(|&b| b == 0xFF));
    assert!(px[2 * 4 * 5..].iter().all(|&b| b == 0));
}

#[test]
fn blit_blends_and_clips() {
    let mut c = Canvas::new(2, 2, [0, 0, 0]);
    // full coverage at (0,0), none at (1,0); the second row falls off the canvas at y=1..
    c.blit(&[255, 0, 128, 51], 2, 2, 0, 1, [255, 255, 255]);
    let px = c.to_rgb565_le();
    // row 0 untouched
    assert_eq!(&px[0..4], &[0, 0, 0, 0]);
    // (0,1): coverage 255 -> white
    assert_eq!(&px[4..6], &[0xFF, 0xFF]);
    // (1,1): coverage 0 -> untouched
    assert_eq!(&px[6..8], &[0, 0]);
    let mut d = Canvas::new(1, 1, [0, 0, 0]);
    d.blit(&[51], 1, 1, 0, 0, [255, 255, 255]);
    // (255*51 + 0*204)/255 = 51 per channel
    let v: u16 = ((51u16 & 0xF8) << 8) | ((51u16 & 0xFC) << 3) | (51u16 >> 3);
    assert_eq!(d.to_rgb565_le(), vec![v as u8, (v >> 8) as u8]);
    let mut e = Canvas::new(1, 1, [9, 9, 9]);
    e.blit(&[255], 1, 1, -1, 0, [255, 255, 255]);
    e.blit(&[255], 1, 1, 0, 5, [255, 255, 255]);
    assert_eq!(e.to_rgb565_le(), Canvas::new(1, 1, [9, 9, 9]).to_rgb565_le());
}

#[test]
fn dim_is_the_unlit_shade() {
    // The unlit shade is 22% of each channel, as a float product truncates.
    for c in 0..=255u8 {
        let want = (c as f32 * 0.22) as u8;
        assert_eq!(dim([c, 0, 255 - c]), [want, 0, ((255 - c) as f32 * 0.22) as u8], "{c}");
    }
    assert_eq!(dim([40, 200, 60]), [8, 44, 13]);
}

#[test]
fn long_hex_reads_back_its_bytes() {
    for &(r, g, b) in &[(0u8, 0u8, 0u8), (255, 255, 255), (10, 171, 254), (0x12, 0xa0, 0x0f)] {
        let c = [r, g, b];
        assert_eq!(parse_color(&format!("#{:02x}{:02x}{:02x}", r, g, b)), Some(c));
        assert_eq!(parse_color(&format!("#{:02X}{:02X}{:02X}", r, g, b)), Some(c));
        assert_eq!(parse_color(&format!(" \t#{:02x}{:02x}{:02x}\n", r, g, b)), Some(c));
    }
}

#[test]
fn short_hex_is_the_doubled_long_form() {
    assert_eq!(parse_color("#f80"), parse_color("#ff8800"));
    assert_eq!(parse_color("#f80"), Some([255, 136, 0]));
    assert_eq!(parse_color("#0aF"), parse_color("#00aaFF"));
    assert_eq!(parse_color("#0aF"), Some([0, 170, 255]));
}

#[test]
fn hex_icon_names_round_trip_through_from_u32() {
    for cp in [0u32, 0x41, 0xf085, 0xd7ff, 0xd800, 0xdfff, 0xe000, 0x10ffff, 0x110000, u32::MAX] {
        let name = format!("{cp:x}");
        assert_eq!(icon_glyph(&name), char::from_u32(cp));
        assert_eq!(icon_glyph(&format!("u{name}")), char::from_u32(cp));
    }
    assert_eq!(icon_glyph("d800"), None);
    assert_eq!(icon_glyph("110000"), None);
}
