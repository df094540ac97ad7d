use rmenu::frame::PAD;
use rmenu::render::{
    bgra, draw, masked_input, parse_color, rect, rounded_span, scroll_thumb, Colors, GlyphPlane,
    PlacedGlyph, Row, Subpixel, TextLayout, CLEAR, CORNER_RADIUS, LABEL_RAIL_W, PILL_VPAD,
};

/// Metrics of a 16px font: 24px rows (16px line, 4px above and below),
/// baseline-minus-descent at the text block bottom.
fn layout(pen_x: u32, rows: usize) -> TextLayout {
    TextLayout {
        row_h: 24,
        line_h: 16,
        caret_bottom: 20,
        pen_x,
        prompt: Vec::new(),
        query: Vec::new(),
        rows: (0..rows).map(|_| Vec::new()).collect(),
    }
}

fn px(buf: &[u8], w: u32, x: u32, y: u32) -> [u8; 4] {
    let i = ((y * w + x) * 4) as usize;
    [buf[i], buf[i + 1], buf[i + 2], buf[i + 3]]
}

#[test]
fn rounded_span_outline_geometry() {
    let (w, h, r) = (200u32, 40u32, 10u32);
    let (x0, _) = rounded_span(w, h, r, 0);
    assert!(x0 > 0 && x0 < r);
    assert_eq!(rounded_span(w, h, r, 20), (0, w));
    let (_, x1) = rounded_span(w, h, r, h - 1);
    assert!(x1 > w - r && x1 < w);
    assert_eq!(rounded_span(w, h, 0, 0), (0, w));
    let (x0, x1) = rounded_span(w, 2, 10, 0);
    assert!(x0 <= 1 && x1 >= w - 1);
}

#[test]
fn rounded_span_exact_corner_insets() {
    // r = 10: row 0's pixel centre is 9.5 rows from the corner centre, so the
    // inset is ceil(10 - sqrt(100 - 90.25)) = 7; row 9 is 0.5 away: ceil(10 - 9.99) = 1.
    assert_eq!(rounded_span(200, 40, 10, 0), (7, 193));
    assert_eq!(rounded_span(200, 40, 10, 9), (1, 199));
    assert_eq!(rounded_span(200, 40, 10, 10), (0, 200));
    assert_eq!(rounded_span(200, 40, 10, 39), (7, 193));
}

#[test]
fn scroll_thumb_only_when_overflowing_and_tracks_position() {
    assert_eq!(scroll_thumb(24, 240, 10, 10, 0), None, "no overflow, no indicator");
    assert_eq!(scroll_thumb(24, 240, 10, 0, 0), None, "empty list");
    assert_eq!(scroll_thumb(24, 0, 10, 100, 0), None, "collapsed bar has no track");
    let (y0, h0) = scroll_thumb(24, 240, 10, 100, 0).expect("overflows");
    assert_eq!(y0, 24, "at the top the thumb starts at the track top");
    assert_eq!(h0, 24, "length tracks the visible/total ratio");
    let (y1, h1) = scroll_thumb(24, 240, 10, 100, 90).expect("overflows");
    assert_eq!(y1 + h1, 24 + 240, "at the end the thumb ends at the track bottom");
    let (ym, hm) = scroll_thumb(24, 240, 10, 100, 45).expect("overflows");
    assert!(ym > y0 && ym < y1, "mid-scroll sits between the ends");
    assert_eq!(hm, h0);
}

#[test]
fn password_mode_masks_query_with_asterisks() {
    assert_eq!(masked_input("hunter2", true), "*******");
    assert_eq!(masked_input("中文", true), "**");
    assert_eq!(masked_input("hunter2", false), "hunter2");
}

#[test]
fn parses_wmenu_colors() {
    assert_eq!(parse_color("bb2222"), Some([0x22, 0x22, 0xbb, 0xff]));
    assert_eq!(parse_color("005577"), Some([0x77, 0x55, 0x00, 0xff]));
    assert_eq!(parse_color("11223344"), Some([0x33, 0x22, 0x11, 0x44]));
    assert_eq!(parse_color("12345"), None);
    assert_eq!(parse_color("zzzzzz"), None);
    assert_eq!(parse_color("#bb2222"), Some([0x22, 0x22, 0xbb, 0xff]));
    assert_eq!(parse_color("#11223344"), Some([0x33, 0x22, 0x11, 0x44]));
    assert_eq!(parse_color("##123456"), None);
    assert_eq!(parse_color("#12345"), None);
}

#[test]
fn bgra_orders_bytes_blue_first() {
    assert_eq!(bgra(1, 2, 3, 4), [3, 2, 1, 4]);
}

#[test]
fn rect_is_clipped_to_the_buffer() {
    let (w, h) = (4u32, 3u32);
    let mut buf = vec![0u8; (w * h * 4) as usize];
    rect(&mut buf, w, h, 2, 1, 10, 10, [9, 8, 7, 6]);
    assert_eq!(px(&buf, w, 1, 1), [0, 0, 0, 0]);
    assert_eq!(px(&buf, w, 2, 1), [9, 8, 7, 6]);
    assert_eq!(px(&buf, w, 3, 2), [9, 8, 7, 6]);
    assert_eq!(px(&buf, w, 3, 0), [0, 0, 0, 0]);
}

#[test]
fn rounded_corner_pixels_are_transparent_inside_is_opaque() {
    let (w, h) = (200u32, 24 * 3);
    let mut buf = vec![7u8; (w * h * 4) as usize];
    let colors = Colors::default();
    draw(&mut buf, w, h, &layout(PAD, 0), "", &[], PAD, &colors, 1, true, Subpixel::Gray);
    assert_eq!(px(&buf, w, 0, 0), CLEAR);
    assert_eq!(px(&buf, w, w - 1, 0), CLEAR);
    assert_eq!(px(&buf, w, 0, h - 1), CLEAR);
    assert_eq!(px(&buf, w, w - 1, h - 1), CLEAR);
    assert_eq!(px(&buf, w, 6, 2)[3], 0xff);
    assert_eq!(px(&buf, w, w / 2, h / 2), colors.bg_normal);
}

#[test]
fn prompt_bar_and_list_have_distinct_backgrounds() {
    let def = Colors::default();
    assert_ne!(def.bg_prompt, def.bg_normal, "input bar color must differ from list color");
    let (w, h) = (200u32, 24 * 2);
    let mut buf = vec![0u8; (w * h * 4) as usize];
    let rows = [Row { text: "app", selected: false }];
    draw(&mut buf, w, h, &layout(PAD + 8, 1), "", &rows, PAD, &def, 1, true, Subpixel::Gray);
    assert_eq!(px(&buf, w, w / 2, 2), def.bg_prompt);
    assert_eq!(px(&buf, w, w / 2, 24 + 2), def.bg_normal);
}

#[test]
fn selected_row_gets_the_selection_band() {
    let def = Colors::default();
    let (w, h) = (200u32, 24 * 3);
    let mut buf = vec![0u8; (w * h * 4) as usize];
    let rows = [Row { text: "a", selected: false }, Row { text: "b", selected: true }];
    draw(&mut buf, w, h, &layout(PAD, 2), "", &rows, PAD, &def, 1, false, Subpixel::Gray);
    assert_eq!(px(&buf, w, w / 2, 24 + 12), def.bg_normal);
    assert_eq!(px(&buf, w, w / 2, 48 + 12), def.bg_sel);
    // The band follows the rounded outline at the bottom corners.
    assert_eq!(px(&buf, w, 0, h - 1), CLEAR);
}

#[test]
fn prompt_label_is_a_left_rail_over_an_uniform_bar() {
    let def = Colors::default();
    assert_ne!(def.label_accent, def.bg_prompt, "label accent must differ from the bar");
    let (w, h) = (240u32, 24);
    let mut buf = vec![0u8; (w * h * 4) as usize];
    draw(&mut buf, w, h, &layout(100, 0), "address", &[], PAD, &def, 1, true, Subpixel::Gray);
    let rail_h = 16 + 2 * PILL_VPAD;
    let rail_y = (24 - rail_h) / 2;
    let mid = 24 / 2;
    assert_eq!(px(&buf, w, PAD, mid), def.label_accent, "rail left edge");
    assert_eq!(px(&buf, w, PAD + LABEL_RAIL_W - 1, mid), def.label_accent, "rail right edge");
    assert_eq!(px(&buf, w, PAD + LABEL_RAIL_W, mid), def.bg_prompt, "just past the rail");
    assert_eq!(px(&buf, w, PAD + 8, mid), def.bg_prompt, "between rail and label text");
    assert_eq!(px(&buf, w, w - 10, mid), def.bg_prompt);
    assert_eq!(px(&buf, w, PAD, rail_y), def.label_accent, "rail top");
    assert_eq!(px(&buf, w, PAD, rail_y - 1), def.bg_prompt, "above the rail");
    assert_eq!(px(&buf, w, PAD, rail_y + rail_h), def.bg_prompt, "below the rail");

    let mut buf2 = vec![0u8; (w * h * 4) as usize];
    draw(&mut buf2, w, h, &layout(PAD + 8, 0), "", &[], PAD, &def, 1, true, Subpixel::Gray);
    assert_eq!(px(&buf2, w, PAD, mid), def.bg_prompt);
}

#[test]
fn caret_can_be_hidden_for_blinking() {
    let (w, h) = (200u32, 24);
    let mut buf = vec![0u8; (w * h * 4) as usize];
    let colors = Colors::default();
    draw(&mut buf, w, h, &layout(40, 0), "", &[], PAD, &colors, 1, false, Subpixel::Gray);
    let mid = 24 / 2;
    let solid = (1..w - 3)
        .any(|x| px(&buf, w, x, mid) == colors.fg_prompt && px(&buf, w, x + 1, mid) == colors.fg_prompt);
    assert!(!solid, "blinked-off caret must not be drawn");
}

#[test]
fn caret_is_solid_bar_just_past_query_spanning_text_block() {
    let (w, h) = (200u32, 24);
    let mut buf = vec![0u8; (w * h * 4) as usize];
    let colors = Colors::default();
    // The typed text ends at pen x = 40.
    draw(&mut buf, w, h, &layout(40, 0), "", &[], PAD, &colors, 1, true, Subpixel::Gray);
    let mid = 24 / 2;
    let mut caret_x = None;
    for x in 1..w - 3 {
        if px(&buf, w, x, mid) == colors.fg_prompt
            && px(&buf, w, x + 1, mid) == colors.fg_prompt
            && px(&buf, w, x - 1, mid) != colors.fg_prompt
            && px(&buf, w, x + 2, mid) != colors.fg_prompt
        {
            caret_x = Some(x);
            break;
        }
    }
    let x = caret_x.expect("caret must be drawn after the query text");
    assert_eq!(x, 41, "caret starts one density pixel past the pen");
    let top_expected = (24 - 16) / 2;
    let mut top = None;
    let mut bottom = None;
    for y in 0..24 {
        let solid = px(&buf, w, x, y) == colors.fg_prompt && px(&buf, w, x + 1, y) == colors.fg_prompt;
        if solid && top.is_none() {
            top = Some(y);
        }
        if solid {
            bottom = Some(y);
        }
    }
    assert_eq!(top, Some(top_expected), "caret must start at the text block top");
    assert_eq!(bottom, Some(top_expected + 16 - 1), "caret must span the full text block");
}

#[test]
fn hidpi_scale_doubles_the_buffer_geometry() {
    let (w, h) = (480u32, 48 * 2);
    let mut buf = vec![0u8; (w * h * 4) as usize];
    let def = Colors::default();
    let t = TextLayout {
        row_h: 48,
        line_h: 32,
        caret_bottom: 40,
        pen_x: 200,
        prompt: Vec::new(),
        query: Vec::new(),
        rows: Vec::new(),
    };
    draw(&mut buf, w, h, &t, "address", &[], PAD, &def, 2, true, Subpixel::Gray);
    let mid = 48 / 2;
    let rail_x = PAD * 2;
    assert_eq!(px(&buf, w, rail_x, mid), def.label_accent, "rail starts at scaled padding");
    assert_eq!(px(&buf, w, rail_x + 2 * LABEL_RAIL_W - 1, mid), def.label_accent, "rail is 2x wide");
    assert_eq!(px(&buf, w, rail_x + 2 * LABEL_RAIL_W, mid), def.bg_prompt, "past the scaled rail");
    let (x0, _) = rounded_span(w, h, CORNER_RADIUS * 2, 0);
    assert!(x0 > CORNER_RADIUS, "corner inset scales with density: {x0}");
    assert_eq!(px(&buf, w, x0 - 1, 0), CLEAR);
}

fn one_pixel_glyph(dx: i32, dy: i32, planes: usize) -> PlacedGlyph {
    PlacedGlyph {
        planes: (0..planes)
            .map(|_| GlyphPlane { min_x: 0, min_y: 0, w: 1, h: 1, coverage: vec![255] })
            .collect(),
        dx,
        dy,
    }
}

#[test]
fn glyph_ink_is_blended_per_channel_in_subpixel_order() {
    let (w, h) = (100u32, 24);
    let colors = Colors::default();
    let render = |sp: Subpixel, planes: usize| {
        let mut buf = vec![0u8; (w * h * 4) as usize];
        let mut t = layout(60, 0);
        t.query = vec![one_pixel_glyph(30, 10, planes)];
        draw(&mut buf, w, h, &t, "", &[], PAD, &colors, 1, false, sp);
        px(&buf, w, 30, 10)
    };
    let fg = colors.fg_prompt;
    let bg = colors.bg_prompt;
    // Full coverage: grayscale paints all colour channels, alpha untouched.
    assert_eq!(render(Subpixel::Gray, 1), [fg[0], fg[1], fg[2], bg[3]]);
    // One plane per sub-column: the single plane feeds red (RGB) or blue (BGR).
    assert_eq!(render(Subpixel::Rgb, 1), [bg[0], bg[1], fg[2], bg[3]]);
    assert_eq!(render(Subpixel::Bgr, 1), [fg[0], bg[1], bg[2], bg[3]]);
    assert_eq!(render(Subpixel::Rgb, 3), [fg[0], fg[1], fg[2], bg[3]]);
}

#[test]
fn colors_are_hex_digits_only() {
    assert_eq!(parse_color("+12345"), None);
    assert_eq!(parse_color("#+12345"), None);
    assert_eq!(parse_color("+1234567"), None);
    assert_eq!(parse_color("#AbCdEf"), Some([0xef, 0xcd, 0xab, 0xff]));
    assert_eq!(parse_color("#"), None);
    assert_eq!(parse_color("12 456"), None);
}

#[test]
fn two_digit_hex_colors_read_back() {
    for &(r, g, b, a) in &[(0u8, 0u8, 0u8, 0u8), (0x12, 0xab, 0xff, 0x80), (255, 1, 16, 254)] {
        for p in ["", "#"] {
            assert_eq!(parse_color(&format!("{p}{r:02x}{g:02x}{b:02x}")), Some(bgra(r, g, b, 0xff)));
            assert_eq!(parse_color(&format!("{p}{r:02X}{g:02X}{b:02X}{a:02X}")), Some(bgra(r, g, b, a)));
        }
    }
}

#[test]
fn scroll_thumb_moves_down_with_the_list() {
    let mut last = 0;
    for top in 0..100usize {
        let (y, h) = scroll_thumb(24, 240, 10, 100, top).expect("overflows");
        assert!(y >= last && y >= 24 && y + h <= 24 + 240);
        last = y;
    }
}

/// A glyph of `w`×`h` pixels at `(dx, dy)`, one coverage plane per entry of
/// `levels`, each plane a ramp scaled by its level.
fn ramp_glyph(dx: i32, dy: i32, w: u32, h: u32, levels: &[u8]) -> PlacedGlyph {
    PlacedGlyph {
        planes: levels
            .iter()
            .map(|&l| GlyphPlane {
                min_x: 0,
                min_y: 0,
                w,
                h,
                coverage: (0..w * h).map(|i| ((i % w) * 255 / w.max(1)) as u8 / 2 + l / 2).collect(),
            })
            .collect(),
        dx,
        dy,
    }
}

#[test]
fn renders_frame_with_cjk_text() {
    let row_h = 24u32;
    let (w, h) = (320u32, row_h * 4);
    let mut buf = vec![0u8; (w * h * 4) as usize];
    let colors = Colors::default();
    let rows = [
        Row { text: "Firefox 火狐浏览器", selected: true },
        Row { text: "Terminal", selected: false },
        Row { text: "Settings", selected: false },
    ];
    let mut t = layout(120, 3);
    // The first row's text: Latin and CJK glyphs side by side on its text line.
    t.rows[0] = (0..10).map(|k| ramp_glyph(PAD as i32 + 12 * k, row_h as i32 + 6, 10, 12, &[255])).collect();
    draw(&mut buf, w, h, &t, "run: ", &rows, PAD, &colors, 1, true, Subpixel::Gray);
    assert_eq!(px(&buf, w, w / 2, row_h), colors.bg_sel, "selected row has the selection background");
    assert_eq!(px(&buf, w, w / 2, row_h * 2), colors.bg_normal, "normal row has the normal background");
    assert_eq!(px(&buf, w, w / 2, 0), colors.bg_prompt, "prompt row has the prompt background");
    let mut text_has_ink = false;
    'outer: for y in 2..24u32 {
        for x in 2..200u32 {
            if px(&buf, w, x, row_h + y) != colors.bg_sel {
                text_has_ink = true;
                break 'outer;
            }
        }
    }
    assert!(text_has_ink, "text should be drawn over the selection row");
}

#[test]
fn subpixel_aa_is_per_channel_and_order_symmetric() {
    let (w, h) = (240u32, 24);
    let render = |aa: Subpixel| {
        let mut buf = vec![0u8; (w * h * 4) as usize];
        let mut t = layout(90, 0);
        // "firim": five glyphs; the LCD layouts carry three sub-column planes.
        let levels: &[u8] = if aa == Subpixel::Gray { &[160] } else { &[40, 160, 250] };
        t.query = (0..5).map(|k| ramp_glyph(PAD as i32 + 14 * k, 6, 9, 12, levels)).collect();
        draw(&mut buf, w, h, &t, "", &[], PAD, &Colors::default(), 1, true, aa);
        buf
    };
    let gray = render(Subpixel::Gray);
    let rgb = render(Subpixel::Rgb);
    let bgr = render(Subpixel::Bgr);
    assert_ne!(gray, rgb, "subpixel AA must change the rendering");
    assert!(gray.chunks_exact(4).all(|p| p[0] == p[2]), "grayscale AA must stay colour-neutral");
    assert!(rgb.chunks_exact(4).any(|p| p[0] != p[2]), "RGB subpixel AA must produce channel differences");
    for (a, b) in rgb.chunks_exact(4).zip(bgr.chunks_exact(4)) {
        assert_eq!(a[0], b[2], "blue and red are mirrored");
        assert_eq!(a[2], b[0]);
        assert_eq!(a[1], b[1], "green is shared");
    }
}

#[test]
fn glyph_cache_is_reused_across_frames() {
    let (w, h) = (320u32, 24 * 2);
    let colors = Colors::default();
    let rows = [Row { text: "Firefox 火狐", selected: true }];
    let mut t = layout(80, 1);
    t.prompt = (0..4).map(|k| ramp_glyph(PAD as i32 + 8 + 9 * k, 6, 8, 12, &[200])).collect();
    t.query = (0..3).map(|k| ramp_glyph(60 + 7 * k, 6, 6, 12, &[200])).collect();
    t.rows[0] = (0..6).map(|k| ramp_glyph(PAD as i32 + 11 * k, 30, 10, 12, &[255])).collect();
    let mut a = vec![0u8; (w * h * 4) as usize];
    draw(&mut a, w, h, &t, "run:", &rows, PAD, &colors, 1, true, Subpixel::Gray);
    let mut b = vec![0u8; (w * h * 4) as usize];
    draw(&mut b, w, h, &t, "run:", &rows, PAD, &colors, 1, true, Subpixel::Gray);
    assert_eq!(a, b, "the same glyphs must render exactly as the first frame");
}
