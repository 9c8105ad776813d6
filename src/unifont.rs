//! The Unifont `.hex` format and the table of glyphs built from it.
//!
//! A font source is a block of lines `CODEPOINT:BITMAP`, both fields in
//! hexadecimal. A bitmap of 32 digits describes a half-width glyph (8 columns,
//! two digits per row), one of 64 digits a full-width glyph (16 columns, four
//! digits per row); every glyph has 16 rows. Rows are kept as 16-bit values
//! whose most significant bits are the pixels from left to right, so that a
//! half-width row occupies the high byte and its low byte is zero.
use crate::error::RenderError;
use std::collections::HashMap;
use std::sync::OnceLock;
use vstd::prelude::*;

verus! {

/// The byte `\n` that ends a line of a font source.
pub const NEWLINE: u8 = 0x0a;

/// The byte `:` between the code point and the bitmap of a line.
pub const COLON: u8 = 0x3a;

/// Number of rows of every glyph.
pub const GLYPH_ROWS: usize = 16;

/// Describes a single character in the font.
#[derive(Clone, Copy, Debug, PartialEq, Eq)]
pub struct FontChar {
    /// Width, either 8px (half-width) or 16px (full-width)
    pub width: u8,
    /// The rows of the character's form, top to bottom. The pixels of a row
    /// are its most significant bits, left to right; the low byte is unused
    /// (and zero) for half-width characters.
    pub bitmap: [u16; 16],
}

impl FontChar {
    /// A glyph as the font format can describe it.
    pub open spec fn wf(self) -> bool {
        &&& (self.width == 8 || self.width == 16)
        &&& self.width == 8 ==> forall|r: int| 0 <= r < 16 ==> #[trigger] self.bitmap@[r] % 256 == 0
    }
}

pub open spec fn is_hex_digit(b: u8) -> bool {
    (0x30 <= b <= 0x39) || (0x41 <= b <= 0x46) || (0x61 <= b <= 0x66)
}

/// The value of a hexadecimal digit (either case).
pub open spec fn hex_digit_value(b: u8) -> nat {
    if b <= 0x39 {
        (b - 0x30) as nat
    } else if b <= 0x46 {
        (b - 0x41 + 10) as nat
    } else {
        (b - 0x61 + 10) as nat
    }
}

pub open spec fn all_hex(s: Seq<u8>) -> bool {
    forall|i: int| 0 <= i < s.len() ==> is_hex_digit(#[trigger] s[i])
}

/// The number that a string of hexadecimal digits denotes, most significant first.
pub open spec fn hex_value(s: Seq<u8>) -> nat
    decreases s.len(),
{
    if s.len() == 0 {
        0
    } else {
        hex_value(s.drop_last()) * 16 + hex_digit_value(s.last())
    }
}

pub open spec fn pow16(n: nat) -> nat
    decreases n,
{
    if n == 0 {
        1
    } else {
        16 * pow16((n - 1) as nat)
    }
}

/// The index of the first occurrence of `b` in `s`, or `s.len()` if there is none.
pub open spec fn first_index_of(s: Seq<u8>, b: u8) -> nat
    decreases s.len(),
{
    if s.len() == 0 {
        0
    } else if s[0] == b {
        0
    } else {
        1 + first_index_of(s.subrange(1, s.len() as int), b)
    }
}

/// The code point field of a line: what stands before its first `:`.
pub open spec fn codepoint_field(l: Seq<u8>) -> Seq<u8> {
    l.subrange(0, first_index_of(l, COLON) as int)
}

/// The bitmap field of a line: what stands after its first `:`.
pub open spec fn bitmap_field(l: Seq<u8>) -> Seq<u8> {
    l.subrange(first_index_of(l, COLON) as int + 1, l.len() as int)
}

/// Whether a line is a well-formed glyph description.
pub open spec fn line_ok(l: Seq<u8>) -> bool {
    let cp = codepoint_field(l);
    let bm = bitmap_field(l);
    &&& first_index_of(l, COLON) < l.len()
    &&& cp.len() > 0
    &&& all_hex(cp)
    &&& hex_value(cp) <= u32::MAX
    &&& all_hex(bm)
    &&& (bm.len() == 32 || bm.len() == 64)
}

/// Row `r` of a glyph whose bitmap digits are `bm`: two digits shifted into
/// the high byte for a half-width glyph, four digits for a full-width one.
pub open spec fn row_value(bm: Seq<u8>, r: int) -> nat {
    if bm.len() == 32 {
        hex_value(bm.subrange(2 * r, 2 * r + 2)) * 256
    } else {
        hex_value(bm.subrange(4 * r, 4 * r + 4))
    }
}

/// Whether the well-formed line `l` describes the glyph `g` for the code point `cp`.
pub open spec fn line_decodes(l: Seq<u8>, cp: u32, g: FontChar) -> bool {
    let bm = bitmap_field(l);
    &&& line_ok(l)
    &&& cp == hex_value(codepoint_field(l))
    &&& g.width == bm.len() / 4
    &&& forall|r: int| 0 <= r < 16 ==> #[trigger] g.bitmap@[r] == row_value(bm, r)
}

proof fn lemma_first_index_of(s: Seq<u8>, b: u8, j: int)
    requires
        0 <= j <= s.len(),
        forall|k: int| 0 <= k < j ==> s[k] != b,
        j == s.len() || s[j] == b,
    ensures
        first_index_of(s, b) == j,
    decreases j,
{
    if j > 0 {
        let t = s.subrange(1, s.len() as int);
        assert forall|k: int| 0 <= k < j - 1 implies t[k] != b by {
            assert(t[k] == s[k + 1]);
        }
        if j - 1 < t.len() {
            assert(t[j - 1] == s[j]);
        }
        lemma_first_index_of(t, b, j - 1);
    }
}

proof fn lemma_hex_value_bound(s: Seq<u8>)
    requires
        all_hex(s),
    ensures
        hex_value(s) < pow16(s.len()),
    decreases s.len(),
{
    if s.len() > 0 {
        let t = s.drop_last();
        assert(all_hex(t)) by {
            assert forall|i: int| 0 <= i < t.len() implies is_hex_digit(#[trigger] t[i]) by {
                assert(t[i] == s[i]);
            }
        }
        lemma_hex_value_bound(t);
        assert(is_hex_digit(s[s.len() - 1]));
        assert(hex_digit_value(s.last()) < 16);
    }
}

fn hex_digit(b: u8) -> (r: Option<u8>)
    ensures
        r is Some <==> is_hex_digit(b),
        r matches Some(v) ==> v as nat == hex_digit_value(b),
{
    if 0x30 <= b && b <= 0x39 {
        Some(b - 0x30)
    } else if 0x41 <= b && b <= 0x46 {
        Some(b - 0x41 + 10)
    } else if 0x61 <= b && b <= 0x66 {
        Some(b - 0x61 + 10)
    } else {
        None
    }
}

/// Whether the bytes `src[from..to]` are all hexadecimal digits.
fn all_hex_in(src: &[u8], from: usize, to: usize) -> (r: bool)
    requires
        from <= to <= src@.len(),
    ensures
        r == all_hex(src@.subrange(from as int, to as int)),
{
    let ghost s = src@.subrange(from as int, to as int);
    let mut i: usize = from;
    while i < to
        invariant
            from <= i <= to <= src@.len(),
            s == src@.subrange(from as int, to as int),
            forall|k: int| 0 <= k < i - from ==> is_hex_digit(#[trigger] s[k]),
        decreases to - i,
    {
        if hex_digit(src[i]).is_none() {
            assert(s[i - from] == src@[i as int]);
            return false;
        }
        assert(s[i - from] == src@[i as int]);
        i = i + 1;
    }
    true
}

/// The value of the hexadecimal digits `src[from..to]`, or `None` where one
/// of them is no digit, there are none, or the value exceeds `u32::MAX`.
fn parse_hex_u32(src: &[u8], from: usize, to: usize) -> (r: Option<u32>)
    requires
        from <= to <= src@.len(),
    ensures
        ({
            let s = src@.subrange(from as int, to as int);
            &&& r is Some <==> (s.len() > 0 && all_hex(s) && hex_value(s) <= u32::MAX)
            &&& r matches Some(v) ==> v as nat == hex_value(s)
        }),
{
    let ghost s = src@.subrange(from as int, to as int);
    if from == to {
        return None;
    }
    let cap: u64 = 0x1_0000_0000;
    let mut acc: u64 = 0;
    let mut i: usize = from;
    while i < to
        invariant
            from <= i <= to <= src@.len(),
            s == src@.subrange(from as int, to as int),
            all_hex(s.subrange(0, i - from)),
            acc as nat == if hex_value(s.subrange(0, i - from)) < cap as nat {
                hex_value(s.subrange(0, i - from))
            } else {
                cap as nat
            },
            cap == 0x1_0000_0000u64,
        decreases to - i,
    {
        let ghost p = s.subrange(0, i - from);
        let ghost q = s.subrange(0, i - from + 1);
        assert(q.drop_last() =~= p);
        assert(q.last() == src@[i as int]);
        match hex_digit(src[i]) {
            None => {
                assert(!all_hex(s)) by {
                    assert(s[i - from] == src@[i as int]);
                }
                return None;
            },
            Some(d) => {
                let next = acc * 16 + d as u64;
                acc = if next < cap {
                    next
                } else {
                    cap
                };
                assert(all_hex(q)) by {
                    assert forall|k: int| 0 <= k < q.len() implies is_hex_digit(#[trigger] q[k]) by {
                        if k < p.len() {
                            assert(q[k] == p[k]);
                        }
                    }
                }
            },
        }
        i = i + 1;
    }
    assert(s.subrange(0, to - from) =~= s);
    if acc < cap {
        Some(acc as u32)
    } else {
        None
    }
}

/// The 16 rows of a bitmap field `src[from..from + n]`, with `n` 32 for a
/// half-width glyph and 64 for a full-width one.
fn parse_rows(src: &[u8], from: usize, half: bool) -> (rows: [u16; 16])
    requires
        from + (if half { 32int } else { 64int }) <= src@.len(),
        all_hex(src@.subrange(from as int, from + (if half { 32int } else { 64int }))),
    ensures
        ({
            let bm = src@.subrange(from as int, from + (if half { 32int } else { 64int }));
            forall|r: int| 0 <= r < 16 ==> #[trigger] rows@[r] == row_value(bm, r)
        }),
        half ==> forall|r: int| 0 <= r < 16 ==> #[trigger] rows@[r] % 256 == 0,
{
    let ghost n: int = if half { 32int } else { 64int };
    let ghost bm = src@.subrange(from as int, from + n);
    let len = src.len();
    let mut rows: [u16; 16] = [0u16; 16];
    let mut r: usize = 0;
    while r < GLYPH_ROWS
        invariant
            r <= 16,
            len == src@.len(),
            n == if half { 32int } else { 64int },
            from + n <= src@.len(),
            bm == src@.subrange(from as int, from + n),
            all_hex(bm),
            forall|k: int| 0 <= k < r ==> #[trigger] rows@[k] == row_value(bm, k),
            half ==> forall|k: int| 0 <= k < r ==> #[trigger] rows@[k] % 256 == 0,
        decreases 16 - r,
    {
        let d: usize = if half { 2 } else { 4 };
        let a: usize = if half { from + 2 * r } else { from + 4 * r };
        let ghost chunk = src@.subrange(a as int, a + d);
        assert(chunk =~= bm.subrange(a - from, a - from + d));
        assert(all_hex(chunk)) by {
            assert forall|i: int| 0 <= i < chunk.len() implies is_hex_digit(#[trigger] chunk[i]) by {
                assert(chunk[i] == bm[a - from + i]);
            }
        }
        proof {
            lemma_hex_value_bound(chunk);
            reveal_with_fuel(pow16, 5);
        }
        let v = match parse_hex_u32(src, a, a + d) {
            Some(v) => v,
            None => {
                proof {
                    assert(false);
                }
                0
            },
        };
        let ghost before = rows@;
        if half {
            rows[r] = (v * 256) as u16;
        } else {
            rows[r] = v as u16;
        }
        assert forall|k: int| 0 <= k < r implies rows@[k] == before[k] by {}
        r = r + 1;
    }
    rows
}

/// Decodes the line `src[start..end]` into its code point and glyph, or
/// `None` where the line is not a well-formed glyph description.
fn parse_line(src: &[u8], start: usize, end: usize) -> (r: Option<(u32, FontChar)>)
    requires
        start <= end <= src@.len(),
    ensures
        ({
            let l = src@.subrange(start as int, end as int);
            &&& r is Some <==> line_ok(l)
            &&& r matches Some((cp, g)) ==> line_decodes(l, cp, g) && g.wf()
        }),
{
    let ghost l = src@.subrange(start as int, end as int);
    let mut c: usize = start;
    while c < end && src[c] != COLON
        invariant
            start <= c <= end <= src@.len(),
            forall|k: int| start <= k < c ==> src@[k] != COLON,
        decreases end - c,
    {
        c = c + 1;
    }
    proof {
        assert forall|k: int| 0 <= k < c - start implies l[k] != COLON by {
            assert(l[k] == src@[start + k]);
        }
        if c < end {
            assert(l[c - start] == src@[c as int]);
        }
        lemma_first_index_of(l, COLON, c - start);
    }
    if c == end {
        return None;
    }
    assert(codepoint_field(l) =~= src@.subrange(start as int, c as int));
    assert(bitmap_field(l) =~= src@.subrange(c + 1, end as int));
    let cp = match parse_hex_u32(src, start, c) {
        None => return None,
        Some(v) => v,
    };
    let digits = end - (c + 1);
    if digits != 32 && digits != 64 {
        return None;
    }
    if !all_hex_in(src, c + 1, end) {
        return None;
    }
    let half = digits == 32;
    let bitmap = parse_rows(src, c + 1, half);
    let width: u8 = if half { 8 } else { 16 };
    Some((cp, FontChar { width, bitmap }))
}

/// The lines of a font source: the pieces between `\n` bytes, where a `\n`
/// at the very end starts no further line.
pub open spec fn source_lines(s: Seq<u8>) -> Seq<Seq<u8>>
    decreases s.len(),
{
    if s.len() == 0 {
        seq![]
    } else {
        let n = first_index_of(s, NEWLINE);
        if n < s.len() {
            seq![s.subrange(0, n as int)] + source_lines(s.subrange(n as int + 1, s.len() as int))
        } else {
            seq![s]
        }
    }
}

pub open spec fn all_lines_ok(ls: Seq<Seq<u8>>) -> bool {
    forall|i: int| 0 <= i < ls.len() ==> line_ok(#[trigger] ls[i])
}

/// Whether `e` reports line `line` (counted from 1) of `ls` as the first
/// malformed one, with its content.
pub open spec fn reports_first_bad_line(ls: Seq<Seq<u8>>, e: RenderError) -> bool {
    match e {
        RenderError::MalformedSource { line, content } => {
            &&& 1 <= line <= ls.len()
            &&& !line_ok(ls[line - 1])
            &&& forall|j: int| 0 <= j < line - 1 ==> line_ok(#[trigger] ls[j])
            &&& content@ == ls[line - 1]
        },
        _ => false,
    }
}

/// The code point that a line names.
pub open spec fn line_codepoint(l: Seq<u8>) -> nat {
    hex_value(codepoint_field(l))
}

/// What loading the lines `ls`, in order, makes of the code point `k`: absent
/// where no line names it, else the glyph of the last line that does.
pub open spec fn table_from_lines(ls: Seq<Seq<u8>>, m: Map<u32, FontChar>) -> bool {
    &&& forall|k: u32| #[trigger]
        m.contains_key(k) <==> exists|i: int| 0 <= i < ls.len() && line_codepoint(#[trigger] ls[i]) == k
    &&& forall|k: u32, i: int|
        0 <= i < ls.len() && line_codepoint(#[trigger] ls[i]) == k && (forall|j: int|
            i < j < ls.len() ==> line_codepoint(#[trigger] ls[j]) != k) ==> line_decodes(
            ls[i],
            k,
            #[trigger] m[k],
        )
}

/// The map that inserting the entries `es` in order into an empty map yields.
pub open spec fn entries_map(es: Seq<(u32, FontChar)>) -> Map<u32, FontChar>
    decreases es.len(),
{
    if es.len() == 0 {
        Map::empty()
    } else {
        entries_map(es.drop_last()).insert(es.last().0, es.last().1)
    }
}

proof fn lemma_source_lines_step(s: Seq<u8>, e: int)
    requires
        0 < s.len(),
        0 <= e <= s.len(),
        forall|k: int| 0 <= k < e ==> s[k] != NEWLINE,
        e == s.len() || s[e] == NEWLINE,
    ensures
        source_lines(s) == seq![s.subrange(0, e)] + (if e < s.len() {
            source_lines(s.subrange(e + 1, s.len() as int))
        } else {
            seq![]
        }),
{
    lemma_first_index_of(s, NEWLINE, e);
    if e == s.len() {
        assert(s.subrange(0, e) =~= s);
        assert(seq![s] + Seq::<Seq<u8>>::empty() =~= seq![s]);
    }
}

proof fn lemma_entries_map(es: Seq<(u32, FontChar)>)
    ensures
        forall|k: u32| #[trigger]
            entries_map(es).contains_key(k) <==> exists|i: int| 0 <= i < es.len() && (#[trigger] es[i]).0 == k,
        forall|i: int|
            0 <= i < es.len() && (forall|j: int| i < j < es.len() ==> (#[trigger] es[j]).0 != es[i].0)
                ==> entries_map(es)[(#[trigger] es[i]).0] == es[i].1,
    decreases es.len(),
{
    if es.len() > 0 {
        let t = es.drop_last();
        lemma_entries_map(t);
        let n = es.len() - 1;
        assert forall|k: u32| #[trigger]
            entries_map(es).contains_key(k) <==> exists|i: int| 0 <= i < es.len() && (#[trigger] es[i]).0 == k by {
            if entries_map(es).contains_key(k) {
                if k == es[n].0 {
                    assert(es[n].0 == k);
                } else {
                    assert(entries_map(t).contains_key(k));
                    let i = choose|i: int| 0 <= i < t.len() && (#[trigger] t[i]).0 == k;
                    assert(es[i] == t[i]);
                    assert(es[i].0 == k);
                }
            }
            if exists|i: int| 0 <= i < es.len() && (#[trigger] es[i]).0 == k {
                let i = choose|i: int| 0 <= i < es.len() && (#[trigger] es[i]).0 == k;
                if i < n {
                    assert(t[i] == es[i]);
                    assert(t[i].0 == k);
                    assert(entries_map(t).contains_key(k));
                }
            }
        }
        assert forall|i: int|
            0 <= i < es.len() && (forall|j: int| i < j < es.len() ==> (#[trigger] es[j]).0 != es[i].0)
                implies entries_map(es)[(#[trigger] es[i]).0] == es[i].1 by {
            if i < n {
                assert(t[i] == es[i]);
                assert forall|j: int| i < j < t.len() implies (#[trigger] t[j]).0 != t[i].0 by {
                    assert(t[j] == es[j]);
                }
                assert(es[n].0 != es[i].0);
            }
        }
    }
}

/// A copy of `src[from..to]`.
fn copy_range(src: &[u8], from: usize, to: usize) -> (r: Vec<u8>)
    requires
        from <= to <= src@.len(),
    ensures
        r@ == src@.subrange(from as int, to as int),
{
    let mut r: Vec<u8> = Vec::new();
    let mut i: usize = from;
    while i < to
        invariant
            from <= i <= to <= src@.len(),
            r@ == src@.subrange(from as int, i as int),
        decreases to - i,
    {
        r.push(src[i]);
        assert(r@ =~= src@.subrange(from as int, i + 1));
        i = i + 1;
    }
    r
}

/// Decodes every line of the font source `font_raw`, in order: the code point
/// and glyph of each, or an error naming the first malformed line.
pub fn initialise_generic(font_raw: &[u8]) -> (r: Result<Vec<(u32, FontChar)>, RenderError>)
    ensures
        ({
            let ls = source_lines(font_raw@);
            &&& r is Ok <==> all_lines_ok(ls)
            &&& r matches Ok(v) ==> {
                &&& v@.len() == ls.len()
                &&& forall|i: int|
                    0 <= i < ls.len() ==> line_decodes(ls[i], v@[i].0, v@[i].1) && (#[trigger] v@[i]).1.wf()
            }
            &&& r matches Err(e) ==> reports_first_bad_line(ls, e)
        }),
{
    let len = font_raw.len();
    let mut v: Vec<(u32, FontChar)> = Vec::new();
    let mut pos: usize = 0;
    let ghost done: Seq<Seq<u8>> = seq![];
    assert(font_raw@.subrange(0, len as int) =~= font_raw@);
    assert(done + source_lines(font_raw@) =~= source_lines(font_raw@));
    while pos < len
        invariant
            len == font_raw@.len(),
            pos <= len,
            done + source_lines(font_raw@.subrange(pos as int, len as int)) == source_lines(font_raw@),
            all_lines_ok(done),
            v@.len() == done.len(),
            v@.len() <= pos,
            forall|i: int|
                0 <= i < done.len() ==> line_decodes(done[i], v@[i].0, v@[i].1) && (#[trigger] v@[i]).1.wf(),
        decreases len - pos,
    {
        let ghost rest = font_raw@.subrange(pos as int, len as int);
        let mut e: usize = pos;
        while e < len && font_raw[e] != NEWLINE
            invariant
                pos <= e <= len,
                len == font_raw@.len(),
                forall|k: int| pos <= k < e ==> font_raw@[k] != NEWLINE,
            decreases len - e,
        {
            e = e + 1;
        }
        proof {
            assert forall|k: int| 0 <= k < e - pos implies rest[k] != NEWLINE by {
                assert(rest[k] == font_raw@[pos + k]);
            }
            if e < len {
                assert(rest[e - pos] == font_raw@[e as int]);
            }
            lemma_source_lines_step(rest, e - pos);
            assert(rest.subrange(0, e - pos) =~= font_raw@.subrange(pos as int, e as int));
            if e < len {
                assert(rest.subrange(e - pos + 1, rest.len() as int) =~= font_raw@.subrange(
                    e + 1,
                    len as int,
                ));
            }
        }
        let ghost line = font_raw@.subrange(pos as int, e as int);
        match parse_line(font_raw, pos, e) {
            None => {
                let content = copy_range(font_raw, pos, e);
                let err = RenderError::MalformedSource { line: v.len() + 1, content };
                proof {
                    let ls = source_lines(font_raw@);
                    assert(ls[done.len() as int] == line);
                    assert forall|j: int| 0 <= j < done.len() implies line_ok(#[trigger] ls[j]) by {
                        assert(ls[j] == done[j]);
                    }
                }
                return Err(err);
            },
            Some(entry) => {
                v.push(entry);
                proof {
                    let d2 = done.push(line);
                    assert forall|i: int| 0 <= i < d2.len() implies line_ok(#[trigger] d2[i]) by {
                        if i < done.len() {
                            assert(d2[i] == done[i]);
                        }
                    }
                    if e < len {
                        assert(d2 + source_lines(font_raw@.subrange(e + 1, len as int)) =~= done
                            + source_lines(rest));
                    } else {
                        assert(d2 + source_lines(font_raw@.subrange(len as int, len as int)) =~= done
                            + source_lines(rest));
                    }
                    done = d2;
                }
            },
        }
        pos = if e < len {
            e + 1
        } else {
            len
        };
    }
    proof {
        assert(source_lines(font_raw@.subrange(pos as int, len as int)) =~= seq![]);
        assert(done + seq![] =~= done);
    }
    Ok(v)
}

/// The glyphs of a font, by code point.
pub struct GlyphTable {
    glyphs: HashMap<u32, FontChar>,
}

impl View for GlyphTable {
    type V = Map<u32, FontChar>;

    closed spec fn view(&self) -> Map<u32, FontChar> {
        self.glyphs@
    }
}

impl GlyphTable {
    #[verifier::type_invariant]
    closed spec fn inv(self) -> bool {
        forall|k: u32| self.glyphs@.contains_key(k) ==> #[trigger] self.glyphs@[k].wf()
    }

    /// The glyph of `codepoint`, if the font has one.
    pub fn get(&self, codepoint: u32) -> (r: Option<&FontChar>)
        ensures
            match r {
                Some(g) => self@.contains_key(codepoint) && *g == self@[codepoint] && g.wf(),
                None => !self@.contains_key(codepoint),
            },
    {
        broadcast use vstd::std_specs::hash::group_hash_axioms;

        proof {
            use_type_invariant(self);
        }
        self.glyphs.get(&codepoint)
    }

    /// The number of code points that have a glyph.
    pub fn len(&self) -> (r: usize)
        ensures
            r == self@.len(),
    {
        broadcast use vstd::std_specs::hash::group_hash_axioms;

        self.glyphs.len()
    }
}

/// What building a table from the sources `plane0` and `plane1` yields: a
/// table of the lines of both, the later line winning for a code point named
/// twice, or the first malformed line (of `plane0` before `plane1`).
pub open spec fn built_from(plane0: Seq<u8>, plane1: Seq<u8>, r: Result<GlyphTable, RenderError>) -> bool {
    let l0 = source_lines(plane0);
    let l1 = source_lines(plane1);
    &&& r is Ok <==> all_lines_ok(l0) && all_lines_ok(l1)
    &&& r matches Ok(t) ==> table_from_lines(l0 + l1, t@)
    &&& r matches Err(e) ==> if !all_lines_ok(l0) {
        reports_first_bad_line(l0, e)
    } else {
        reports_first_bad_line(l1, e)
    }
}

/// Builds the glyph table from a plane 0 source and a plane 1 source (either
/// may be empty). Glyphs of `plane1` replace those of `plane0` for the same
/// code point; a malformed line anywhere fails the whole build.
pub fn initialise_unifont(plane0: &[u8], plane1: &[u8]) -> (r: Result<GlyphTable, RenderError>)
    ensures
        built_from(plane0@, plane1@, r),
{
    broadcast use vstd::std_specs::hash::group_hash_axioms;

    let v0 = match initialise_generic(plane0) {
        Ok(v) => v,
        Err(e) => return Err(e),
    };
    let v1 = match initialise_generic(plane1) {
        Ok(v) => v,
        Err(e) => return Err(e),
    };
    let ghost ls = source_lines(plane0@) + source_lines(plane1@);
    let ghost es = v0@ + v1@;
    let mut glyphs: HashMap<u32, FontChar> = HashMap::new();
    assert forall|i: int| 0 <= i < es.len() implies line_decodes(ls[i], (#[trigger] es[i]).0, es[i].1)
        && es[i].1.wf() by {
        if i < v0@.len() {
            assert(v0@[i] == es[i]);
        } else {
            assert(v1@[i - v0@.len()] == es[i]);
        }
    }
    let mut i: usize = 0;
    while i < v0.len()
        invariant
            i <= v0@.len(),
            es == v0@ + v1@,
            glyphs@ == entries_map(es.take(i as int)),
            forall|k: u32| glyphs@.contains_key(k) ==> #[trigger] glyphs@[k].wf(),
            forall|j: int| 0 <= j < es.len() ==> (#[trigger] es[j]).1.wf(),
        decreases v0@.len() - i,
    {
        let (cp, g) = v0[i];
        assert(es[i as int] == v0@[i as int]);
        assert(es.take(i + 1).drop_last() =~= es.take(i as int));
        glyphs.insert(cp, g);
        i = i + 1;
    }
    let mut j: usize = 0;
    while j < v1.len()
        invariant
            j <= v1@.len(),
            es == v0@ + v1@,
            glyphs@ == entries_map(es.take(v0@.len() + j)),
            forall|k: u32| glyphs@.contains_key(k) ==> #[trigger] glyphs@[k].wf(),
            forall|j: int| 0 <= j < es.len() ==> (#[trigger] es[j]).1.wf(),
        decreases v1@.len() - j,
    {
        let (cp, g) = v1[j];
        assert(es[v0@.len() + j] == v1@[j as int]);
        assert(es.take(v0@.len() + j + 1).drop_last() =~= es.take(v0@.len() + j));
        glyphs.insert(cp, g);
        j = j + 1;
    }
    assert(es.take(es.len() as int) =~= es);
    proof {
        lemma_entries_map(es);
        let m = glyphs@;
        assert forall|k: u32| #[trigger]
            m.contains_key(k) <==> exists|i: int| 0 <= i < ls.len() && line_codepoint(#[trigger] ls[i]) == k by {
            if m.contains_key(k) {
                let i = choose|i: int| 0 <= i < es.len() && (#[trigger] es[i]).0 == k;
                assert(line_codepoint(ls[i]) == k);
            }
            if exists|i: int| 0 <= i < ls.len() && line_codepoint(#[trigger] ls[i]) == k {
                let i = choose|i: int| 0 <= i < ls.len() && line_codepoint(#[trigger] ls[i]) == k;
                assert(es[i].0 == k);
            }
        }
        assert forall|k: u32, i: int|
            0 <= i < ls.len() && line_codepoint(#[trigger] ls[i]) == k && (forall|j: int|
                i < j < ls.len() ==> line_codepoint(#[trigger] ls[j]) != k) implies line_decodes(
            ls[i],
            k,
            #[trigger] m[k],
        ) by {
            assert(es[i].0 == k);
            assert forall|j: int| i < j < es.len() implies (#[trigger] es[j]).0 != es[i].0 by {
                assert(line_codepoint(ls[j]) != k);
            }
        }
    }
    Ok(GlyphTable { glyphs })
}

#[verifier::external_type_specification]
#[verifier::external_body]
#[verifier::reject_recursive_types(T)]
pub struct ExOnceLock<T>(OnceLock<T>);

/// A font given by its plane 0 and plane 1 sources, whose glyph table is
/// built once, on first use, and then shared by every user of the font.
pub struct Unifont {
    plane0: Vec<u8>,
    plane1: Vec<u8>,
    table: OnceLock<Result<GlyphTable, RenderError>>,
}

/// Relies on `std::sync::OnceLock::new`: a cell that holds no value yet.
#[verifier::external_body]
fn empty_cell() -> (r: OnceLock<Result<GlyphTable, RenderError>>) {
    OnceLock::new()
}

/// Relies on `std::sync::OnceLock::get_or_init`: the first caller runs the
/// initialising function, callers that arrive meanwhile wait for it, and every
/// call returns the one value that it stored. The only function ever handed
/// to the cell of a `Unifont` is `initialise_unifont` on the font's own
/// sources, which never change, so the value is what it returns on them.
#[verifier::external_body]
fn built_table(font: &Unifont) -> (r: &Result<GlyphTable, RenderError>)
    ensures
        built_from(font.plane0(), font.plane1(), *r),
{
    font.table.get_or_init(|| initialise_unifont(&font.plane0, &font.plane1))
}

impl Unifont {
    /// The plane 0 source.
    pub closed spec fn plane0(&self) -> Seq<u8> {
        self.plane0@
    }

    /// The plane 1 source.
    pub closed spec fn plane1(&self) -> Seq<u8> {
        self.plane1@
    }

    /// A font of the two sources (either may be empty); nothing is parsed yet.
    pub fn new(plane0: Vec<u8>, plane1: Vec<u8>) -> (r: Unifont)
        ensures
            r.plane0() == plane0@,
            r.plane1() == plane1@,
    {
        Unifont { plane0, plane1, table: empty_cell() }
    }
}

/// The glyph table of `font`. The first call builds it from the font's
/// sources; every call, from any thread, then shares that one table, or the
/// error of that one failed build.
pub fn get_unifont(font: &Unifont) -> (r: Result<&GlyphTable, &RenderError>)
    ensures
        match r {
            Ok(t) => built_from(font.plane0(), font.plane1(), Ok(*t)),
            Err(e) => built_from(font.plane0(), font.plane1(), Err(*e)),
        },
{
    match built_table(font) {
        Ok(t) => Ok(t),
        Err(e) => Err(e),
    }
}

/// A line without `:`, with a code point field that holds a byte other than
/// a hexadecimal digit, or with a bitmap field whose number of digits is not
/// a multiple of 4 is malformed.
pub proof fn lemma_malformed_lines(l: Seq<u8>)
    ensures
        first_index_of(l, COLON) >= l.len() ==> !line_ok(l),
        (exists|i: int|
            0 <= i < codepoint_field(l).len() && !is_hex_digit(#[trigger] codepoint_field(l)[i]))
            ==> !line_ok(l),
        bitmap_field(l).len() % 4 != 0 ==> !line_ok(l),
{
}

proof fn lemma_last_naming_line(ls: Seq<Seq<u8>>, k: u32, i0: int)
    requires
        0 <= i0 < ls.len(),
        line_codepoint(ls[i0]) == k,
    ensures
        exists|i: int|
            0 <= i < ls.len() && line_codepoint(#[trigger] ls[i]) == k && forall|j: int|
                i < j < ls.len() ==> line_codepoint(#[trigger] ls[j]) != k,
    decreases ls.len() - i0,
{
    if exists|j: int| i0 < j < ls.len() && line_codepoint(#[trigger] ls[j]) == k {
        let j = choose|j: int| i0 < j < ls.len() && line_codepoint(#[trigger] ls[j]) == k;
        lemma_last_naming_line(ls, k, j);
    } else {
        assert(forall|j: int| i0 < j < ls.len() ==> line_codepoint(#[trigger] ls[j]) != k);
    }
}

/// Building a table twice from the same sources gives the same outcome:
/// equal tables, or the same error.
pub proof fn lemma_builds_agree(
    plane0: Seq<u8>,
    plane1: Seq<u8>,
    r1: Result<GlyphTable, RenderError>,
    r2: Result<GlyphTable, RenderError>,
)
    requires
        built_from(plane0, plane1, r1),
        built_from(plane0, plane1, r2),
    ensures
        r1 is Ok <==> r2 is Ok,
        r1 matches Ok(t1) ==> r2 matches Ok(t2) && t1@ == t2@,
        r1 matches Err(e1) ==> r2 matches Err(e2) && e1 matches RenderError::MalformedSource {
            line: n1,
            content: c1,
        } && e2 matches RenderError::MalformedSource { line: n2, content: c2 } && n1 == n2 && c1@
            == c2@,
{
    broadcast use vstd::array::group_array_axioms;

    let ls = source_lines(plane0) + source_lines(plane1);
    if let Ok(t1) = r1 {
        if let Ok(t2) = r2 {
            let m1 = t1@;
            let m2 = t2@;
            assert forall|k: u32| m1.contains_key(k) implies m2.contains_key(k) && m1[k] == m2[k] by {
                let i0 = choose|i: int| 0 <= i < ls.len() && line_codepoint(#[trigger] ls[i]) == k;
                lemma_last_naming_line(ls, k, i0);
                let i = choose|i: int|
                    0 <= i < ls.len() && line_codepoint(#[trigger] ls[i]) == k && forall|j: int|
                        i < j < ls.len() ==> line_codepoint(#[trigger] ls[j]) != k;
                assert(line_decodes(ls[i], k, m1[k]));
                assert(line_decodes(ls[i], k, m2[k]));
                assert(m1[k].bitmap =~= m2[k].bitmap);
            }
            assert forall|k: u32| m2.contains_key(k) implies m1.contains_key(k) by {
                let i0 = choose|i: int| 0 <= i < ls.len() && line_codepoint(#[trigger] ls[i]) == k;
                assert(line_codepoint(ls[i0]) == k);
            }
            assert(m1 =~= m2);
        }
    }
    if let Err(e1) = r1 {
        if let Err(e2) = r2 {
            let l0 = source_lines(plane0);
            let l1 = source_lines(plane1);
            let lsb = if !all_lines_ok(l0) { l0 } else { l1 };
            if let RenderError::MalformedSource { line: n1, content: c1 } = e1 {
                if let RenderError::MalformedSource { line: n2, content: c2 } = e2 {
                    if n1 < n2 {
                        assert(line_ok(lsb[n1 - 1]));
                    }
                    if n2 < n1 {
                        assert(line_ok(lsb[n2 - 1]));
                    }
                }
            }
        }
    }
}

/// The upper-case hexadecimal digit of `d`, for `d < 16`.
pub open spec fn hex_char(d: nat) -> u8 {
    if d < 10 {
        (0x30 + d) as u8
    } else {
        (0x41 + d - 10) as u8
    }
}

/// The last `n` hexadecimal digits of `v`, most significant first.
pub open spec fn hex_digits(v: nat, n: nat) -> Seq<u8>
    decreases n,
{
    if n == 0 {
        seq![]
    } else {
        hex_digits(v / 16, (n - 1) as nat).push(hex_char(v % 16))
    }
}

proof fn lemma_hex_digits(v: nat, n: nat)
    requires
        v < pow16(n),
    ensures
        hex_digits(v, n).len() == n,
        all_hex(hex_digits(v, n)),
        hex_value(hex_digits(v, n)) == v,
        forall|k: int| 0 <= k < n ==> #[trigger] hex_digits(v, n)[k] != COLON,
    decreases n,
{
    if n > 0 {
        let p = pow16((n - 1) as nat);
        assert(v / 16 < p) by (nonlinear_arith)
            requires
                v < 16 * p,
        ;
        lemma_hex_digits(v / 16, (n - 1) as nat);
        let s = hex_digits(v, n);
        assert(s.drop_last() =~= hex_digits(v / 16, (n - 1) as nat));
        assert(v == (v / 16) * 16 + v % 16);
        assert forall|k: int| 0 <= k < n implies is_hex_digit(#[trigger] s[k]) && s[k] != COLON by {
            if k < n - 1 {
                assert(s[k] == hex_digits(v / 16, (n - 1) as nat)[k]);
            }
        }
    }
}

fn hex_char_of(d: u32) -> (r: u8)
    requires
        d < 16,
    ensures
        r == hex_char(d as nat),
{
    if d < 10 {
        0x30 + d as u8
    } else {
        0x41 + (d - 10) as u8
    }
}

/// Appends the last `n` hexadecimal digits of `v` to `out`.
fn push_hex(out: &mut Vec<u8>, v: u32, n: usize)
    ensures
        final(out)@ == old(out)@ + hex_digits(v as nat, n as nat),
    decreases n,
{
    if n == 0 {
        assert(old(out)@ + seq![] =~= old(out)@);
    } else {
        push_hex(out, v / 16, n - 1);
        out.push(hex_char_of(v % 16));
        assert(final(out)@ =~= old(out)@ + hex_digits(v as nat, n as nat));
    }
}

/// Digits `k` of an encoded bitmap that starts at `start` in `l`.
spec fn encoded_chunk(l: Seq<u8>, start: int, half: bool, k: int) -> Seq<u8> {
    if half {
        l.subrange(start + 2 * k, start + 2 * k + 2)
    } else {
        l.subrange(start + 4 * k, start + 4 * k + 4)
    }
}

/// The digits that encode row `k` of `g`.
spec fn row_digits(g: FontChar, half: bool, k: int) -> Seq<u8> {
    if half {
        hex_digits(g.bitmap@[k] as nat / 256, 2)
    } else {
        hex_digits(g.bitmap@[k] as nat, 4)
    }
}

/// The line of the font format that describes the glyph `g` for the code
/// point `cp`: at least four upper-case digits of the code point, a `:`, and
/// two digits a row for a half-width glyph or four for a full-width one.
pub fn encode_line(cp: u32, g: &FontChar) -> (r: Vec<u8>)
    requires
        g.wf(),
    ensures
        line_decodes(r@, cp, *g),
{
    reveal_with_fuel(pow16, 9);
    let n: usize = if cp <= 0xffff {
        4
    } else if cp <= 0xf_ffff {
        5
    } else if cp <= 0xff_ffff {
        6
    } else {
        8
    };
    proof {
        lemma_hex_digits(cp as nat, n as nat);
    }
    let mut out: Vec<u8> = Vec::new();
    push_hex(&mut out, cp, n);
    out.push(COLON);
    let ghost head = out@;
    let half = g.width == 8;
    let mut i: usize = 0;
    while i < GLYPH_ROWS
        invariant
            i <= 16,
            half == (g.width == 8),
            g.wf(),
            head.len() == n + 1,
            out@.len() == n + 1 + (if half { 2 * i } else { 4 * i }),
            out@.subrange(0, n + 1) == head,
            forall|k: int|
                0 <= k < i ==> #[trigger] encoded_chunk(out@, n + 1, half, k) == row_digits(
                    *g,
                    half,
                    k,
                ),
        decreases 16 - i,
    {
        let ghost before = out@;
        let row = g.bitmap[i];
        proof {
            reveal_with_fuel(pow16, 5);
            if half {
                lemma_hex_digits(row as nat / 256, 2);
            } else {
                lemma_hex_digits(row as nat, 4);
            }
        }
        if half {
            push_hex(&mut out, (row / 256) as u32, 2);
        } else {
            push_hex(&mut out, row as u32, 4);
        }
        assert(out@.subrange(0, n + 1) =~= before.subrange(0, n + 1));
        assert forall|k: int| 0 <= k < i + 1 implies #[trigger] encoded_chunk(out@, n + 1, half, k)
            == row_digits(*g, half, k) by {
            let a = n + 1 + (if half { 2 * k } else { 4 * k });
            let b = n + 1 + (if half { 2 * k + 2 } else { 4 * k + 4 });
            if k < i {
                assert(encoded_chunk(before, n + 1, half, k) == row_digits(*g, half, k));
                assert(out@.subrange(a, b) =~= before.subrange(a, b));
            } else {
                if half {
                    assert(out@.subrange(a, b) =~= hex_digits(g.bitmap@[k] as nat / 256, 2));
                } else {
                    assert(out@.subrange(a, b) =~= hex_digits(g.bitmap@[k] as nat, 4));
                }
            }
        }
        i = i + 1;
    }
    proof {
        let l = out@;
        let d = hex_digits(cp as nat, n as nat);
        assert(head.subrange(0, n as int) =~= d);
        assert forall|k: int| 0 <= k < n implies l[k] != COLON by {
            assert(l[k] == l.subrange(0, n + 1)[k]);
            assert(d[k] == head[k]);
        }
        assert(l[n as int] == l.subrange(0, n + 1)[n as int]);
        lemma_first_index_of(l, COLON, n as int);
        assert(codepoint_field(l) =~= d);
        let bm = bitmap_field(l);
        assert(bm.len() == if half { 32int } else { 64int });
        assert forall|r: int| 0 <= r < 16 implies #[trigger] g.bitmap@[r] == row_value(bm, r) by {
            let v = g.bitmap@[r] as nat;
            let a = n + 1 + (if half { 2 * r } else { 4 * r });
            let b = n + 1 + (if half { 2 * r + 2 } else { 4 * r + 4 });
            let c = if half { hex_digits(v / 256, 2) } else { hex_digits(v, 4) };
            assert(encoded_chunk(l, n + 1, half, r) == row_digits(*g, half, r));
            assert(l.subrange(a, b) == c);
            if half {
                assert(bm.subrange(2 * r, 2 * r + 2) =~= l.subrange(a, b));
                assert(v / 256 < pow16(2));
                lemma_hex_digits(v / 256, 2);
                assert(v % 256 == 0);
                assert(v == (v / 256) * 256);
            } else {
                assert(bm.subrange(4 * r, 4 * r + 4) =~= l.subrange(a, b));
                lemma_hex_digits(v, 4);
            }
        }
        assert(all_hex(bm)) by {
            assert forall|t: int| 0 <= t < bm.len() implies is_hex_digit(#[trigger] bm[t]) by {
                let r = if half { t / 2 } else { t / 4 };
                let v = g.bitmap@[r] as nat;
                let a = n + 1 + (if half { 2 * r } else { 4 * r });
                let b = n + 1 + (if half { 2 * r + 2 } else { 4 * r + 4 });
                let c = if half { hex_digits(v / 256, 2) } else { hex_digits(v, 4) };
                assert(encoded_chunk(l, n + 1, half, r) == row_digits(*g, half, r));
                assert(l.subrange(a, b) == c);
                if half {
                    lemma_hex_digits(v / 256, 2);
                } else {
                    lemma_hex_digits(v, 4);
                }
                assert(bm[t] == l.subrange(a, b)[n + 1 + t - a]);
            }
        }
    }
    out
}

/// A line describes at most one glyph and code point: so decoding the line
/// that `encode_line` makes for a glyph gives back that very glyph and code
/// point.
pub proof fn lemma_round_trip(l: Seq<u8>, cp: u32, g: FontChar, cp2: u32, g2: FontChar)
    requires
        line_decodes(l, cp, g),
        line_decodes(l, cp2, g2),
    ensures
        cp2 == cp,
        g2 == g,
{
    broadcast use vstd::array::group_array_axioms;

    assert(g.bitmap =~= g2.bitmap);
}

} // verus!
