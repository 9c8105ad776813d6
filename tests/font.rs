use unifont_render::error::RenderError;
use unifont_render::unifont::{
    encode_line, get_unifont, initialise_generic, initialise_unifont, FontChar, Unifont,
};

const LETTER_A: &str = "0041:0000000018242442427E424242420000";
const FULL_WIDTH: &str = "3042:00000200020003F03E00020003E0064009381A441284148413080C0000000000";

fn source(lines: &[&str]) -> Vec<u8> {
    let mut s = String::new();
    for l in lines {
        s.push_str(l);
        s.push('\n');
    }
    s.into_bytes()
}

#[test]
fn half_width_glyph_is_decoded_into_high_bytes() {
    let table = initialise_unifont(&source(&[LETTER_A]), &[]).unwrap();
    let a = table.get(0x41).unwrap();
    assert_eq!(a.width, 8);
    assert_eq!(
        a.bitmap,
        [
            0x0000, 0x0000, 0x0000, 0x0000, 0x1800, 0x2400, 0x2400, 0x4200, 0x4200, 0x7E00, 0x4200,
            0x4200, 0x4200, 0x4200, 0x0000, 0x0000
        ]
    );
    assert_eq!(table.len(), 1);
}

#[test]
fn full_width_glyph_keeps_four_digit_rows() {
    let table = initialise_unifont(&source(&[FULL_WIDTH]), &[]).unwrap();
    let g = table.get(0x3042).unwrap();
    assert_eq!(g.width, 16);
    assert_eq!(g.bitmap[0], 0x0000);
    assert_eq!(g.bitmap[1], 0x0200);
    assert_eq!(g.bitmap[3], 0x03F0);
    assert_eq!(g.bitmap[12], 0x1308);
    assert_eq!(g.bitmap[13], 0x0C00);
}

#[test]
fn width_is_a_quarter_of_the_digit_count() {
    let v = initialise_generic(&source(&[LETTER_A, FULL_WIDTH])).unwrap();
    assert_eq!(v.len(), 2);
    assert_eq!(v[0].0, 0x41);
    assert_eq!(v[0].1.width as usize, 32 / 4);
    assert_eq!(v[1].0, 0x3042);
    assert_eq!(v[1].1.width as usize, 64 / 4);
}

#[test]
fn reparsing_a_glyph_gives_the_same_bits() {
    let first = initialise_generic(LETTER_A.as_bytes()).unwrap();
    let second = initialise_generic(LETTER_A.as_bytes()).unwrap();
    assert_eq!(first, second);
}

#[test]
fn lower_case_digits_are_accepted() {
    let table = initialise_unifont(b"00e9:000000000000000000000000000000ff", &[]).unwrap();
    let g = table.get(0xE9).unwrap();
    assert_eq!(g.bitmap[15], 0xFF00);
}

#[test]
fn last_line_needs_no_newline_and_empty_source_is_empty() {
    let v = initialise_generic(LETTER_A.as_bytes()).unwrap();
    assert_eq!(v.len(), 1);
    let table = initialise_unifont(&[], &[]).unwrap();
    assert_eq!(table.len(), 0);
    assert!(table.get(0x41).is_none());
}

#[test]
fn missing_colon_is_malformed() {
    let src = source(&["00410000000018242442427E424242420000"]);
    let e = initialise_generic(&src).unwrap_err();
    assert_eq!(
        e,
        RenderError::MalformedSource {
            line: 1,
            content: b"00410000000018242442427E424242420000".to_vec()
        }
    );
}

#[test]
fn non_hex_codepoint_is_malformed() {
    let e = initialise_generic(&source(&["00G1:0000000018242442427E424242420000"])).unwrap_err();
    assert!(matches!(e, RenderError::MalformedSource { line: 1, .. }));
    let e = initialise_generic(&source(&[":0000000018242442427E424242420000"])).unwrap_err();
    assert!(matches!(e, RenderError::MalformedSource { line: 1, .. }));
    let e = initialise_generic(&source(&["100000000:0000000018242442427E424242420000"])).unwrap_err();
    assert!(matches!(e, RenderError::MalformedSource { line: 1, .. }));
}

#[test]
fn bad_bitmap_length_is_malformed() {
    // 30 digits: not a multiple of 4
    let e = initialise_generic(&source(&["0041:00000018242442427E424242420000"])).unwrap_err();
    assert!(matches!(e, RenderError::MalformedSource { line: 1, .. }));
    // 36 digits: a multiple of 4, but 9 columns
    let e = initialise_generic(&source(&["0041:00000000000018242442427E424242420000"])).unwrap_err();
    assert!(matches!(e, RenderError::MalformedSource { line: 1, .. }));
    // a non-digit in the bitmap
    let e = initialise_generic(&source(&["0041:0000000018242442427E42424242000Z"])).unwrap_err();
    assert!(matches!(e, RenderError::MalformedSource { line: 1, .. }));
}

#[test]
fn error_names_the_first_bad_line() {
    let src = source(&[LETTER_A, "zz", "also bad"]);
    let e = initialise_generic(&src).unwrap_err();
    assert_eq!(e, RenderError::MalformedSource { line: 2, content: b"zz".to_vec() });
}

#[test]
fn a_bad_line_fails_the_whole_build() {
    let plane0 = source(&[LETTER_A]);
    let plane1 = source(&[FULL_WIDTH, ""]);
    let e = initialise_unifont(&plane0, &plane1).err().unwrap();
    assert_eq!(e, RenderError::MalformedSource { line: 2, content: vec![] });
    let e = initialise_unifont(&source(&["bad"]), &plane1).err().unwrap();
    assert_eq!(e, RenderError::MalformedSource { line: 1, content: b"bad".to_vec() });
}

#[test]
fn later_lines_replace_earlier_ones() {
    let plane0 = source(&[LETTER_A, "0041:FFFFFFFFFFFFFFFFFFFFFFFFFFFFFFFF"]);
    let table = initialise_unifont(&plane0, &[]).unwrap();
    assert_eq!(table.get(0x41).unwrap().bitmap[0], 0xFF00);
    let plane1 = source(&["0041:0000000000000000000000000000000000000000000000000000000000000001"]);
    let table = initialise_unifont(&plane0, &plane1).unwrap();
    let g = table.get(0x41).unwrap();
    assert_eq!(g.width, 16);
    assert_eq!(g.bitmap[15], 0x0001);
    assert_eq!(table.len(), 1);
}

#[test]
fn font_is_built_once_and_shared() {
    let font = Unifont::new(source(&[LETTER_A]), vec![]);
    let t1 = get_unifont(&font).unwrap();
    let t2 = get_unifont(&font).unwrap();
    assert!(std::ptr::eq(t1, t2));
    assert_eq!(t1.get(0x41).unwrap().width, 8);
}

#[test]
fn failed_build_is_kept() {
    let font = Unifont::new(source(&["oops"]), vec![]);
    let e1 = get_unifont(&font).err().unwrap();
    let e2 = get_unifont(&font).err().unwrap();
    assert!(std::ptr::eq(e1, e2));
    assert_eq!(*e1, RenderError::MalformedSource { line: 1, content: b"oops".to_vec() });
}

#[test]
fn encoding_a_glyph_and_parsing_it_back_round_trips() {
    let v = initialise_generic(LETTER_A.as_bytes()).unwrap();
    let (cp, g) = v[0];
    let line = encode_line(cp, &g);
    assert_eq!(line, LETTER_A.as_bytes());
    let back = initialise_generic(&line).unwrap();
    assert_eq!(back, vec![(0x41, g)]);

    let v = initialise_generic(FULL_WIDTH.as_bytes()).unwrap();
    let (cp, g) = v[0];
    assert_eq!(encode_line(cp, &g), FULL_WIDTH.as_bytes());
}

#[test]
fn encoding_uses_as_many_codepoint_digits_as_needed() {
    let g = FontChar { width: 8, bitmap: [0xA500; 16] };
    let line = encode_line(0x1F600, &g);
    assert_eq!(line, b"1F600:A5A5A5A5A5A5A5A5A5A5A5A5A5A5A5A5".to_vec());
    let back = initialise_generic(&line).unwrap();
    assert_eq!(back, vec![(0x1F600, g)]);
    let line = encode_line(0x7, &g);
    assert_eq!(&line[..5], b"0007:");
}
