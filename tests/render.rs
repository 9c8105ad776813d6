use unifont_render::error::RenderError;
use unifont_render::renderer::{count_char_width, gen_missing_char_str, Color, SurfaceRenderer};
use unifont_render::unifont::{initialise_unifont, GlyphTable};

const RED: Color = Color { r: 255, g: 0, b: 0, a: 255 };
const BLACK: Color = Color { r: 0, g: 0, b: 0, a: 255 };

fn table(lines: &[&str]) -> GlyphTable {
    let mut s = String::new();
    for l in lines {
        s.push_str(l);
        s.push('\n');
    }
    initialise_unifont(s.as_bytes(), &[]).unwrap()
}

/// "A" fully set, "B" with only the top-left pixel set, and a full-width
/// "あ" with only its top-right pixel set.
fn sample() -> GlyphTable {
    table(&[
        "0041:FFFFFFFFFFFFFFFFFFFFFFFFFFFFFFFF",
        "0042:80000000000000000000000000000000",
        "3042:0001000000000000000000000000000000000000000000000000000000000000",
    ])
}

fn pixel(bytes: &[u8], width: u32, x: u32, y: u32) -> Color {
    let p = 4 * (y * width + x) as usize;
    Color { r: bytes[p], g: bytes[p + 1], b: bytes[p + 2], a: bytes[p + 3] }
}

#[test]
fn new_renderer_is_plain_at_scale_one() {
    let r = SurfaceRenderer::new(RED, BLACK);
    assert_eq!(r.scale, 1);
    assert!(!r.bold);
    assert!(!r.italic);
    assert_eq!(r.fg_color, RED);
    assert_eq!(r.bg_color, BLACK);
}

#[test]
fn width_sums_glyph_widths() {
    let t = sample();
    let r = SurfaceRenderer::new(RED, BLACK);
    assert_eq!(r.measure_width(&t, "AB"), Ok(16));
    assert_eq!(r.measure_width(&t, "Aあ"), Ok(24));
    assert_eq!(count_char_width(&t, "AあB"), Ok(32));
}

#[test]
fn width_is_linear_in_scale() {
    let t = sample();
    let mut r = SurfaceRenderer::new(RED, BLACK);
    let one = r.measure_width(&t, "ABあ").unwrap();
    r.scale = 2;
    assert_eq!(r.measure_width(&t, "ABあ").unwrap(), 2 * one);
    assert_eq!(one, 32);
}

#[test]
fn bold_and_italic_widen_the_text() {
    let t = sample();
    let mut r = SurfaceRenderer::new(RED, BLACK);
    r.scale = 3;
    r.bold = true;
    assert_eq!(r.measure_width(&t, "A"), Ok(25));
    r.italic = true;
    assert_eq!(r.measure_width(&t, "A"), Ok(32));
    r.bold = false;
    assert_eq!(r.measure_width(&t, "A"), Ok(31));
}

#[test]
fn empty_text_has_no_width() {
    let t = sample();
    let mut r = SurfaceRenderer::new(RED, BLACK);
    assert_eq!(r.measure_width(&t, ""), Ok(0));
    r.scale = 5;
    assert_eq!(r.measure_width(&t, ""), Ok(0));
    r.bold = true;
    assert_eq!(r.measure_width(&t, ""), Ok(1));
}

#[test]
fn height_is_sixteen_times_scale() {
    let mut r = SurfaceRenderer::new(RED, BLACK);
    assert_eq!(r.measure_height("anything"), Ok(16));
    r.scale = 4;
    assert_eq!(r.measure_height(""), Ok(64));
    r.scale = u32::MAX;
    assert_eq!(r.measure_height("x"), Err(RenderError::SizeOverflow));
}

#[test]
fn missing_glyph_is_reported() {
    let t = sample();
    let r = SurfaceRenderer::new(RED, BLACK);
    let e = RenderError::GlyphNotFound { ch: 'z', codepoint: 0x7A };
    assert_eq!(r.measure_width(&t, "AzAy"), Err(e.clone()));
    assert_eq!(count_char_width(&t, "Bz"), Err(e.clone()));
    assert_eq!(r.draw(&t, "z").err(), Some(e.clone()));
    assert_eq!(gen_missing_char_str('z'), e);
}

#[test]
fn fully_set_glyph_renders_all_foreground() {
    let t = table(&["0041:FFFFFFFFFFFFFFFFFFFFFFFFFFFFFFFF"]);
    let r = SurfaceRenderer::new(RED, BLACK);
    let buf = r.draw(&t, "A").unwrap();
    assert_eq!(buf.width, 8);
    assert_eq!(buf.height, 16);
    assert_eq!(buf.bytes.len(), 8 * 16 * 4);
    for p in buf.bytes.chunks(4) {
        assert_eq!(p, &[255, 0, 0, 255]);
    }
}

#[test]
fn single_pixels_land_where_their_bits_say() {
    let t = sample();
    let r = SurfaceRenderer::new(RED, BLACK);
    let buf = r.draw(&t, "Bあ").unwrap();
    assert_eq!(buf.width, 24);
    for y in 0..16 {
        for x in 0..24 {
            let on = y == 0 && (x == 0 || x == 23);
            let want = if on { RED } else { BLACK };
            assert_eq!(pixel(&buf.bytes, 24, x, y), want, "pixel ({}, {})", x, y);
        }
    }
}

#[test]
fn scale_paints_blocks_and_bold_doubles_them() {
    let t = sample();
    let mut r = SurfaceRenderer::new(RED, BLACK);
    r.scale = 2;
    let buf = r.draw(&t, "B").unwrap();
    assert_eq!((buf.width, buf.height), (16, 32));
    assert_eq!(pixel(&buf.bytes, 16, 0, 0), RED);
    assert_eq!(pixel(&buf.bytes, 16, 1, 1), RED);
    assert_eq!(pixel(&buf.bytes, 16, 2, 0), BLACK);
    assert_eq!(pixel(&buf.bytes, 16, 0, 2), BLACK);
    r.bold = true;
    let buf = r.draw(&t, "B").unwrap();
    assert_eq!(buf.width, 17);
    assert_eq!(pixel(&buf.bytes, 17, 2, 0), RED);
    assert_eq!(pixel(&buf.bytes, 17, 3, 1), RED);
    assert_eq!(pixel(&buf.bytes, 17, 4, 0), BLACK);
}

#[test]
fn italic_shifts_rows_right() {
    let t = table(&["0041:80808080808080808080808080808080"]);
    let mut r = SurfaceRenderer::new(RED, BLACK);
    r.italic = true;
    let buf = r.draw(&t, "A").unwrap();
    assert_eq!(buf.width, 15);
    for y in 0..16u32 {
        for x in 0..15u32 {
            let want = if x == y / 2 { RED } else { BLACK };
            assert_eq!(pixel(&buf.bytes, 15, x, y), want);
        }
    }
}

#[test]
fn draw_raw_fills_a_matching_buffer() {
    let t = sample();
    let r = SurfaceRenderer::new(RED, BLACK);
    let mut px = vec![7u8; 8 * 16 * 4];
    assert_eq!(r.draw_raw(&t, &mut px, 8, "B"), Ok(()));
    assert_eq!(pixel(&px, 8, 0, 0), RED);
    assert_eq!(pixel(&px, 8, 1, 0), BLACK);
    assert_eq!(pixel(&px, 8, 7, 15), BLACK);
}

#[test]
fn draw_raw_leaves_buffer_alone_on_missing_glyph() {
    let t = sample();
    let r = SurfaceRenderer::new(RED, BLACK);
    let mut px = vec![7u8; 16 * 16 * 4];
    let res = r.draw_raw(&t, &mut px, 16, "Aé");
    assert_eq!(res, Err(RenderError::GlyphNotFound { ch: 'é', codepoint: 0xE9 }));
    assert!(px.iter().all(|b| *b == 7));
}

#[test]
fn draw_raw_rejects_wrong_sizes() {
    let t = sample();
    let r = SurfaceRenderer::new(RED, BLACK);
    let mut px = vec![7u8; 8 * 16 * 4];
    assert_eq!(
        r.draw_raw(&t, &mut px, 9, "B"),
        Err(RenderError::BufferSizeMismatch { width: 9, len: 512 })
    );
    let mut short = vec![7u8; 100];
    assert_eq!(
        r.draw_raw(&t, &mut short, 8, "B"),
        Err(RenderError::BufferSizeMismatch { width: 8, len: 100 })
    );
    assert!(px.iter().all(|b| *b == 7));
    assert!(short.iter().all(|b| *b == 7));
}

#[test]
fn huge_scale_overflows() {
    let t = sample();
    let mut r = SurfaceRenderer::new(RED, BLACK);
    r.scale = u32::MAX / 8;
    assert_eq!(r.measure_width(&t, "AB"), Err(RenderError::SizeOverflow));
    assert_eq!(r.draw(&t, "A").err(), Some(RenderError::SizeOverflow));
}
