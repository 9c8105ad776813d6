//! Measuring and rasterising text with the glyphs of a [`GlyphTable`].
//!
//! The text is laid out as one row of glyphs, left to right, each glyph
//! `width * scale` pixels wide and the line `16 * scale` pixels high. Bold
//! widens every painted block by one more `scale` step to the right and the
//! text by one pixel; italic moves row `r` of every glyph `r / 2` pixels to
//! the right and widens the text by seven pixels. Pixels that would fall
//! right of the measured width are not drawn.
use crate::bits::{bit_is_set, row_bit};
use crate::error::RenderError;
use crate::unifont::{FontChar, GlyphTable, GLYPH_ROWS};
use vstd::prelude::*;

verus! {

/// Number of vertical pixels in each Unifont character.
pub const UNIFONT_HEIGHT: u32 = 16;

/// A colour with red, green, blue and alpha channels.
#[derive(Clone, Copy, Debug, PartialEq, Eq, Structural)]
pub struct Color {
    pub r: u8,
    pub g: u8,
    pub b: u8,
    pub a: u8,
}

/// Storage class for rendering settings.
#[derive(Clone, Copy, Debug)]
pub struct SurfaceRenderer {
    /// The colour to use to draw the text.
    pub fg_color: Color,
    /// The colour to use to fill the surface before drawing text.
    pub bg_color: Color,
    /// Integer scale multiplier, since Unifont is a raster font.
    pub scale: u32,
    /// Whether or not to make text bold: each painted block is doubled on the
    /// x-axis, and the text is one pixel wider.
    pub bold: bool,
    /// Whether or not to make text italicised: rows are shifted one pixel to
    /// the right every two rows, and the text is seven pixels wider.
    pub italic: bool,
}

/// Rendered text: `width * height` pixels, row by row from the top, each as
/// the four bytes red, green, blue, alpha.
#[derive(Debug)]
pub struct PixelBuffer {
    pub width: u32,
    pub height: u32,
    pub bytes: Vec<u8>,
}

/// Whether the font `m` has a glyph for every character of `cs`.
pub open spec fn all_present(m: Map<u32, FontChar>, cs: Seq<char>) -> bool {
    forall|i: int| 0 <= i < cs.len() ==> m.contains_key(#[trigger] cs[i] as u32)
}

/// The glyphs of the characters `cs`, in order.
pub open spec fn text_glyphs(m: Map<u32, FontChar>, cs: Seq<char>) -> Seq<FontChar> {
    Seq::new(cs.len(), |i: int| m[cs[i] as u32])
}

/// Whether `e` names the first character of `cs` that the font `m` lacks.
pub open spec fn reports_missing(m: Map<u32, FontChar>, cs: Seq<char>, e: RenderError) -> bool {
    match e {
        RenderError::GlyphNotFound { ch, codepoint } => {
            &&& codepoint == ch as u32
            &&& exists|i: int|
                0 <= i < cs.len() && cs[i] == ch && !m.contains_key(codepoint) && forall|j: int|
                    0 <= j < i ==> m.contains_key(#[trigger] cs[j] as u32)
        },
        _ => false,
    }
}

/// The sum of the widths of the glyphs `gs`, in unscaled pixels.
pub open spec fn widths_sum(gs: Seq<FontChar>) -> nat
    decreases gs.len(),
{
    if gs.len() == 0 {
        0
    } else {
        widths_sum(gs.drop_last()) + gs.last().width as nat
    }
}

/// The width in pixels of the glyphs `gs` drawn in the style `st`.
pub open spec fn text_width(st: SurfaceRenderer, gs: Seq<FontChar>) -> nat {
    (st.scale * widths_sum(gs) + (if st.bold { 1nat } else { 0 }) + (if st.italic { 7nat } else { 0 })) as nat
}

/// The height in pixels of a line drawn in the style `st`.
pub open spec fn text_height(st: SurfaceRenderer) -> nat {
    (16 * st.scale) as nat
}

/// Whether both dimensions of `gs` drawn in the style `st` fit in a `u32`.
pub open spec fn dims_fit(st: SurfaceRenderer, gs: Seq<FontChar>) -> bool {
    text_width(st, gs) <= u32::MAX && text_height(st) <= u32::MAX
}

/// The unscaled pixel columns of the glyphs `gs`, left to right: for each,
/// the index of its glyph and its place within the glyph, from the left.
pub open spec fn columns(gs: Seq<FontChar>) -> Seq<(int, int)>
    decreases gs.len(),
{
    if gs.len() == 0 {
        seq![]
    } else {
        columns(gs.drop_last()) + Seq::new(
            gs.last().width as nat,
            |j: int| ((gs.len() - 1) as int, j),
        )
    }
}

/// Whether unscaled column `k` of the glyphs `gs` is set in row `row`: its
/// place `j` from the left is bit `15 - j` of the glyph's row.
pub open spec fn column_ink(gs: Seq<FontChar>, k: int, row: int) -> bool {
    &&& 0 <= k < columns(gs).len()
    &&& bit_is_set(gs[columns(gs)[k].0].bitmap@[row], (15 - columns(gs)[k].1) as u16)
}

/// How far row `row` of a glyph moves to the right.
pub open spec fn italic_shift(st: SurfaceRenderer, row: int) -> int {
    if st.italic {
        row / 2
    } else {
        0
    }
}

/// Whether pixel (`x`, `y`) of `gs` drawn in the style `st` is foreground:
/// a set unscaled column covers the `scale`-wide block it falls in (after
/// the italic shift of its row), or, in bold, the block to its left.
pub open spec fn pixel_ink(st: SurfaceRenderer, gs: Seq<FontChar>, x: int, y: int) -> bool {
    let s = st.scale as int;
    let row = y / s;
    let u = x - italic_shift(st, row);
    &&& u >= 0
    &&& (column_ink(gs, u / s, row) || (st.bold && u / s >= 1 && column_ink(gs, u / s - 1, row)))
}

pub open spec fn pixel_color(st: SurfaceRenderer, gs: Seq<FontChar>, x: int, y: int) -> Color {
    if pixel_ink(st, gs, x, y) {
        st.fg_color
    } else {
        st.bg_color
    }
}

/// Whether pixel `p` of the buffer `bytes` holds the colour `c`.
pub open spec fn pixel_is(bytes: Seq<u8>, p: int, c: Color) -> bool {
    &&& bytes[4 * p] == c.r
    &&& bytes[4 * p + 1] == c.g
    &&& bytes[4 * p + 2] == c.b
    &&& bytes[4 * p + 3] == c.a
}

/// Whether `bytes` is the image of `gs` drawn in the style `st`, `width`
/// pixels wide.
pub open spec fn renders(st: SurfaceRenderer, gs: Seq<FontChar>, width: int, bytes: Seq<u8>) -> bool {
    let n = width * text_height(st);
    &&& bytes.len() == 4 * n
    &&& forall|p: int|
        0 <= p < n ==> #[trigger] pixel_is(bytes, p, pixel_color(st, gs, p % width, p / width))
}

pub open spec fn all_wf(gs: Seq<FontChar>) -> bool {
    forall|i: int| 0 <= i < gs.len() ==> (#[trigger] gs[i]).wf()
}

/// The glyph of every character of `text`, or the error naming the first
/// character that the font lacks.
fn lookup_glyphs(table: &GlyphTable, text: &str) -> (r: Result<Vec<FontChar>, RenderError>)
    ensures
        r is Ok <==> all_present(table@, text@),
        r matches Ok(v) ==> v@ == text_glyphs(table@, text@) && all_wf(v@),
        r matches Err(e) ==> reports_missing(table@, text@, e),
{
    broadcast use vstd::string::group_string_axioms;

    let mut v: Vec<FontChar> = Vec::new();
    for c in it: text.chars()
        invariant
            it.seq() == text@,
            v@ == text_glyphs(table@, text@.take(it.index() as int)),
            all_present(table@, text@.take(it.index() as int)),
            all_wf(v@),
    {
        let ghost i = it.index() as int;
        assert(text@[i] == c);
        match table.get(c as u32) {
            None => {
                let e = gen_missing_char_str(c);
                proof {
                    assert forall|j: int| 0 <= j < i implies table@.contains_key(
                        #[trigger] text@[j] as u32,
                    ) by {
                        assert(text@.take(i)[j] == text@[j]);
                    }
                }
                return Err(e);
            },
            Some(g) => {
                v.push(*g);
                proof {
                    let t = text@.take(i + 1);
                    assert forall|j: int| 0 <= j < t.len() implies table@.contains_key(
                        #[trigger] t[j] as u32,
                    ) by {
                        if j < i {
                            assert(t[j] == text@.take(i)[j]);
                        }
                    }
                    assert(v@ =~= text_glyphs(table@, t));
                }
            },
        }
    }
    assert(text@.take(text@.len() as int) =~= text@);
    Ok(v)
}

/// The error for a character that the font lacks.
pub fn gen_missing_char_str(c: char) -> (e: RenderError)
    ensures
        e == (RenderError::GlyphNotFound { ch: c, codepoint: c as u32 }),
{
    RenderError::GlyphNotFound { ch: c, codepoint: c as u32 }
}

proof fn lemma_widths_sum_bound(gs: Seq<FontChar>)
    requires
        all_wf(gs),
    ensures
        widths_sum(gs) <= 16 * gs.len(),
    decreases gs.len(),
{
    if gs.len() > 0 {
        lemma_widths_sum_bound(gs.drop_last());
    }
}

/// The sum of the widths of `gs`, or `None` where it exceeds `u32::MAX`.
fn sum_widths(gs: &Vec<FontChar>) -> (r: Option<u32>)
    requires
        all_wf(gs@),
    ensures
        r is Some <==> widths_sum(gs@) <= u32::MAX,
        r matches Some(w) ==> w == widths_sum(gs@),
{
    let mut sum: u64 = 0;
    let mut i: usize = 0;
    while i < gs.len()
        invariant
            i <= gs@.len(),
            all_wf(gs@),
            sum == widths_sum(gs@.take(i as int)),
            sum <= u32::MAX,
        decreases gs@.len() - i,
    {
        assert(gs@.take(i + 1).drop_last() =~= gs@.take(i as int));
        sum = sum + gs[i].width as u64;
        if sum > u32::MAX as u64 {
            proof {
                lemma_widths_prefix(gs@, i + 1);
            }
            return None;
        }
        i = i + 1;
    }
    assert(gs@.take(i as int) =~= gs@);
    Some(sum as u32)
}

proof fn lemma_widths_prefix(gs: Seq<FontChar>, n: int)
    requires
        0 <= n <= gs.len(),
    ensures
        widths_sum(gs.take(n)) <= widths_sum(gs),
    decreases gs.len(),
{
    if n < gs.len() {
        assert(gs.drop_last().take(n) =~= gs.take(n));
        lemma_widths_prefix(gs.drop_last(), n);
    } else {
        assert(gs.take(n) =~= gs);
    }
}

/// Finds the width of a string in unscaled pixels, the sum of the widths of
/// its characters: 8 for half-width and 16 for full-width ones. Fails where a
/// character is not in the font, or the sum exceeds `u32::MAX`.
pub fn count_char_width(table: &GlyphTable, text: &str) -> (r: Result<u32, RenderError>)
    ensures
        !all_present(table@, text@) ==> (r matches Err(e) && reports_missing(table@, text@, e)),
        all_present(table@, text@) ==> {
            let total = widths_sum(text_glyphs(table@, text@));
            if total <= u32::MAX {
                r == Ok::<u32, RenderError>(total as u32)
            } else {
                r == Err::<u32, RenderError>(RenderError::SizeOverflow)
            }
        },
{
    let gs = match lookup_glyphs(table, text) {
        Ok(gs) => gs,
        Err(e) => return Err(e),
    };
    match sum_widths(&gs) {
        Some(w) => Ok(w),
        None => Err(RenderError::SizeOverflow),
    }
}

impl SurfaceRenderer {
    /// Creates a new renderer with the given colours, at scale 1, neither bold
    /// nor italic.
    pub fn new(fg_color: Color, bg_color: Color) -> (r: SurfaceRenderer)
        ensures
            r == (SurfaceRenderer { fg_color, bg_color, scale: 1, bold: false, italic: false }),
    {
        SurfaceRenderer { fg_color, bg_color, scale: 1, bold: false, italic: false }
    }

    /// Sums the width of each character in the supplied text, and multiples the
    /// sum by the renderer's integer scale factor; bold adds one pixel and
    /// italic seven.
    pub fn measure_width(&self, table: &GlyphTable, text: &str) -> (r: Result<u32, RenderError>)
        requires
            self.scale >= 1,
        ensures
            !all_present(table@, text@) ==> (r matches Err(e) && reports_missing(table@, text@, e)),
            all_present(table@, text@) ==> {
                let w = text_width(*self, text_glyphs(table@, text@));
                if w <= u32::MAX {
                    r == Ok::<u32, RenderError>(w as u32)
                } else {
                    r == Err::<u32, RenderError>(RenderError::SizeOverflow)
                }
            },
    {
        let gs = match lookup_glyphs(table, text) {
            Ok(gs) => gs,
            Err(e) => return Err(e),
        };
        self.width_of(&gs)
    }

    /// The width of the glyphs `gs` drawn in this style.
    fn width_of(&self, gs: &Vec<FontChar>) -> (r: Result<u32, RenderError>)
        requires
            self.scale >= 1,
            all_wf(gs@),
        ensures
            text_width(*self, gs@) <= u32::MAX ==> r == Ok::<u32, RenderError>(
                text_width(*self, gs@) as u32,
            ),
            text_width(*self, gs@) > u32::MAX ==> r == Err::<u32, RenderError>(
                RenderError::SizeOverflow,
            ),
    {
        let base = match sum_widths(gs) {
            Some(w) => w,
            None => {
                assert(self.scale * widths_sum(gs@) >= widths_sum(gs@)) by (nonlinear_arith)
                    requires
                        self.scale >= 1,
                ;
                return Err(RenderError::SizeOverflow);
            },
        };
        let sc = self.scale as u64;
        let bs = base as u64;
        assert(sc * bs <= 0xffff_ffffu64 * 0xffff_ffffu64) by (nonlinear_arith)
            requires
                sc <= 0xffff_ffffu64,
                bs <= 0xffff_ffffu64,
        ;
        let scaled: u64 = sc * bs;
        let extra: u64 = (if self.bold { 1u64 } else { 0u64 }) + (if self.italic { 7u64 } else { 0u64 });
        let total = scaled + extra;
        if total > u32::MAX as u64 {
            Err(RenderError::SizeOverflow)
        } else {
            Ok(total as u32)
        }
    }

    /// The height of the text, `16 * scale`: text is a single line.
    pub fn measure_height(&self, text: &str) -> (r: Result<u32, RenderError>)
        ensures
            text_height(*self) <= u32::MAX ==> r == Ok::<u32, RenderError>(
                text_height(*self) as u32,
            ),
            text_height(*self) > u32::MAX ==> r == Err::<u32, RenderError>(
                RenderError::SizeOverflow,
            ),
    {
        match self.scale.checked_mul(UNIFONT_HEIGHT) {
            Some(h) => Ok(h),
            None => Err(RenderError::SizeOverflow),
        }
    }
}

/// Whether `cols` lists the columns of `gs` as pairs of a glyph index and
/// the bit of the glyph's rows that holds the column.
pub open spec fn columns_listed(gs: Seq<FontChar>, cols: Seq<(usize, usize)>) -> bool {
    &&& cols.len() == columns(gs).len()
    &&& forall|k: int|
        0 <= k < cols.len() ==> {
            &&& (#[trigger] cols[k]).0 == columns(gs)[k].0
            &&& cols[k].1 + columns(gs)[k].1 == 15
            &&& cols[k].0 < gs.len()
            &&& cols[k].1 < 16
        }
}

/// The columns of the glyphs `gs`, left to right.
fn text_columns(gs: &Vec<FontChar>) -> (cols: Vec<(usize, usize)>)
    requires
        all_wf(gs@),
    ensures
        columns_listed(gs@, cols@),
{
    let mut cols: Vec<(usize, usize)> = Vec::new();
    let mut i: usize = 0;
    while i < gs.len()
        invariant
            i <= gs@.len(),
            all_wf(gs@),
            columns_listed(gs@.take(i as int), cols@),
            forall|k: int| 0 <= k < cols@.len() ==> (#[trigger] cols@[k]).0 < i,
        decreases gs@.len() - i,
    {
        let w = gs[i].width as usize;
        let ghost prev = columns(gs@.take(i as int));
        let ghost next = columns(gs@.take(i + 1));
        assert(gs@.take(i + 1).drop_last() =~= gs@.take(i as int));
        assert(next == prev + Seq::new(w as nat, |j: int| (i as int, j)));
        let mut j: usize = 0;
        while j < w
            invariant
                i < gs@.len(),
                j <= w <= 16,
                w == gs@[i as int].width,
                next == prev + Seq::new(w as nat, |j: int| (i as int, j)),
                cols@.len() == prev.len() + j,
                forall|k: int|
                    0 <= k < cols@.len() ==> {
                        &&& (#[trigger] cols@[k]).0 == next[k].0
                        &&& cols@[k].1 + next[k].1 == 15
                        &&& cols@[k].0 <= i
                        &&& cols@[k].1 < 16
                    },
            decreases w - j,
        {
            cols.push((i, 15 - j));
            j = j + 1;
        }
        proof {
            let cl = cols@;
            assert forall|k: int| 0 <= k < cl.len() implies {
                &&& (#[trigger] cl[k]).0 == next[k].0
                &&& cl[k].1 + next[k].1 == 15
                &&& cl[k].0 < gs@.take(i + 1).len()
                &&& cl[k].1 < 16
            } by {}
        }
        i = i + 1;
    }
    assert(gs@.take(i as int) =~= gs@);
    cols
}

/// Whether unscaled column `k` of the text is set in row `row`.
fn column_bit(gs: &Vec<FontChar>, cols: &Vec<(usize, usize)>, k: usize, row: usize) -> (r: bool)
    requires
        columns_listed(gs@, cols@),
        row < 16,
    ensures
        r == column_ink(gs@, k as int, row as int),
{
    if k >= cols.len() {
        false
    } else {
        let (gi, bit) = cols[k];
        assert(cols@[k as int].0 == gi);
        row_bit(gs[gi].bitmap[row], bit)
    }
}

impl SurfaceRenderer {
    /// Whether pixel (`x`, `y`) of the text is foreground.
    fn ink_at(&self, gs: &Vec<FontChar>, cols: &Vec<(usize, usize)>, x: usize, y: usize) -> (r: bool)
        requires
            self.scale >= 1,
            (y as int) < text_height(*self),
            columns_listed(gs@, cols@),
        ensures
            r == pixel_ink(*self, gs@, x as int, y as int),
    {
        let s = self.scale as usize;
        assert(y / s < 16) by (nonlinear_arith)
            requires
                s >= 1,
                y < 16 * s,
        ;
        let row = y / s;
        let shift = if self.italic {
            row / 2
        } else {
            0
        };
        if x < shift {
            return false;
        }
        let k = (x - shift) / s;
        if column_bit(gs, cols, k, row) {
            true
        } else if self.bold && k >= 1 {
            column_bit(gs, cols, k - 1, row)
        } else {
            false
        }
    }

    /// Writes the image of the glyphs `gs` into `pixels`, `width` pixels wide.
    fn fill_pixels(&self, gs: &Vec<FontChar>, pixels: &mut Vec<u8>, width: usize)
        requires
            self.scale >= 1,
            all_wf(gs@),
            text_height(*self) <= u32::MAX,
            old(pixels)@.len() == 4 * (width * text_height(*self)),
        ensures
            renders(*self, gs@, width as int, final(pixels)@),
    {
        let cols = text_columns(gs);
        let height = (16 * self.scale) as usize;
        let ghost n = width * text_height(*self);
        let len = pixels.len();
        let fg = self.fg_color;
        let bg = self.bg_color;
        let mut p: usize = 0;
        let mut y: usize = 0;
        while y < height
            invariant
                height == text_height(*self),
                self.scale >= 1,
                columns_listed(gs@, cols@),
                n == width * height,
                len == 4 * n,
                pixels@.len() == len,
                y <= height,
                p == y * width,
                fg == self.fg_color,
                bg == self.bg_color,
                forall|q: int|
                    0 <= q < p ==> #[trigger] pixel_is(
                        pixels@,
                        q,
                        pixel_color(*self, gs@, q % (width as int), q / (width as int)),
                    ),
            decreases height - y,
        {
            let mut x: usize = 0;
            while x < width
                invariant
                    height == text_height(*self),
                    self.scale >= 1,
                    columns_listed(gs@, cols@),
                    n == width * height,
                    len == 4 * n,
                    pixels@.len() == len,
                    y < height,
                    x <= width,
                    p == y * width + x,
                    fg == self.fg_color,
                    bg == self.bg_color,
                    forall|q: int|
                        0 <= q < p ==> #[trigger] pixel_is(
                            pixels@,
                            q,
                            pixel_color(*self, gs@, q % (width as int), q / (width as int)),
                        ),
                decreases width - x,
            {
                assert(p < n) by (nonlinear_arith)
                    requires
                        p == y * width + x,
                        x < width,
                        y < height,
                        n == width * height,
                ;
                proof {
                    vstd::arithmetic::div_mod::lemma_fundamental_div_mod_converse(
                        p as int,
                        width as int,
                        y as int,
                        x as int,
                    );
                }
                let c = if self.ink_at(gs, &cols, x, y) {
                    fg
                } else {
                    bg
                };
                let ghost before = pixels@;
                let b = 4 * p;
                pixels.set(b, c.r);
                pixels.set(b + 1, c.g);
                pixels.set(b + 2, c.b);
                pixels.set(b + 3, c.a);
                assert forall|q: int| 0 <= q < p + 1 implies #[trigger] pixel_is(
                    pixels@,
                    q,
                    pixel_color(*self, gs@, q % (width as int), q / (width as int)),
                ) by {
                    if q < p {
                        assert(pixel_is(
                            before,
                            q,
                            pixel_color(*self, gs@, q % (width as int), q / (width as int)),
                        ));
                    }
                }
                p = p + 1;
                x = x + 1;
            }
            assert(p == (y + 1) * width) by (nonlinear_arith)
                requires
                    p == y * width + width,
            ;
            y = y + 1;
        }
        assert(p == n) by (nonlinear_arith)
            requires
                p == y * width,
                y == height,
                n == width * height,
        ;
    }
}

/// The number of bytes of an image of `width` by `height` pixels.
pub open spec fn image_len(width: int, height: int) -> int {
    4 * (width * height)
}

/// Whether the dimensions of the image of `gs` in the style `st` fit in a
/// `u32`, and its number of bytes in a `usize`.
pub open spec fn image_fits(st: SurfaceRenderer, gs: Seq<FontChar>) -> bool {
    &&& dims_fit(st, gs)
    &&& image_len(text_width(st, gs) as int, text_height(st) as int) <= usize::MAX
}

impl SurfaceRenderer {
    /// The width, height and byte length of the image of `gs` in this style,
    /// or `SizeOverflow` where one does not fit its type.
    fn image_size(&self, gs: &Vec<FontChar>) -> (r: Result<(u32, u32, usize), RenderError>)
        requires
            self.scale >= 1,
            all_wf(gs@),
        ensures
            !dims_fit(*self, gs@) ==> r == Err::<(u32, u32, usize), RenderError>(
                RenderError::SizeOverflow,
            ),
            dims_fit(*self, gs@) ==> {
                let n = image_len(text_width(*self, gs@) as int, text_height(*self) as int);
                if n <= usize::MAX {
                    r == Ok::<(u32, u32, usize), RenderError>(
                        (
                            text_width(*self, gs@) as u32,
                            text_height(*self) as u32,
                            n as usize,
                        ),
                    )
                } else {
                    r == Err::<(u32, u32, usize), RenderError>(RenderError::SizeOverflow)
                }
            },
    {
        let w = match self.width_of(gs) {
            Ok(w) => w,
            Err(e) => return Err(e),
        };
        let h = match self.scale.checked_mul(UNIFONT_HEIGHT) {
            Some(h) => h,
            None => return Err(RenderError::SizeOverflow),
        };
        let area = match (w as usize).checked_mul(h as usize) {
            Some(a) => a,
            None => {
                assert(4 * (w * h) >= w * h) by (nonlinear_arith)
                    requires
                        w * h >= 0,
                ;
                return Err(RenderError::SizeOverflow);
            },
        };
        match area.checked_mul(4) {
            Some(n) => Ok((w, h, n)),
            None => Err(RenderError::SizeOverflow),
        }
    }

    /// Draws the supplied text into `pixels`, an image `surf_width` pixels
    /// wide and `16 * scale` high, with four bytes (red, green, blue, alpha)
    /// per pixel, row by row. Every pixel is written: foreground where the
    /// text is set, background elsewhere. The buffer is left untouched where a
    /// character is not in the font, a dimension overflows, or the buffer does
    /// not have the size that `measure_width` and `measure_height` give.
    pub fn draw_raw(&self, table: &GlyphTable, pixels: &mut Vec<u8>, surf_width: u32, text: &str) -> (r:
        Result<(), RenderError>)
        requires
            self.scale >= 1,
        ensures
            ({
                let gs = text_glyphs(table@, text@);
                let len = old(pixels)@.len();
                let fits = image_fits(*self, gs);
                let matching = surf_width == text_width(*self, gs) && len == image_len(
                    surf_width as int,
                    text_height(*self) as int,
                );
                &&& !all_present(table@, text@) ==> (r matches Err(e) && reports_missing(
                    table@,
                    text@,
                    e,
                ))
                &&& all_present(table@, text@) && !fits ==> r == Err::<(), RenderError>(
                    RenderError::SizeOverflow,
                )
                &&& all_present(table@, text@) && fits && !matching ==> r == Err::<(), RenderError>(
                    RenderError::BufferSizeMismatch { width: surf_width, len: len as usize },
                )
                &&& all_present(table@, text@) && fits && matching ==> r is Ok && renders(
                    *self,
                    gs,
                    surf_width as int,
                    final(pixels)@,
                )
                &&& r is Err ==> final(pixels)@ == old(pixels)@
            }),
    {
        let gs = match lookup_glyphs(table, text) {
            Ok(gs) => gs,
            Err(e) => return Err(e),
        };
        let len = pixels.len();
        match self.image_size(&gs) {
            Err(e) => Err(e),
            Ok((w, h, n)) => {
                if w != surf_width || n != len {
                    Err(RenderError::BufferSizeMismatch { width: surf_width, len })
                } else {
                    self.fill_pixels(&gs, pixels, w as usize);
                    Ok(())
                }
            },
        }
    }

    /// Draws the supplied text into a new image sized to fit it exactly:
    /// `measure_width` by `measure_height` pixels. Fails where a character is
    /// not in the font or the image is too large for its types.
    pub fn draw(&self, table: &GlyphTable, text: &str) -> (r: Result<PixelBuffer, RenderError>)
        requires
            self.scale >= 1,
        ensures
            ({
                let gs = text_glyphs(table@, text@);
                let w = text_width(*self, gs);
                let h = text_height(*self);
                &&& !all_present(table@, text@) ==> (r matches Err(e) && reports_missing(
                    table@,
                    text@,
                    e,
                ))
                &&& all_present(table@, text@) && !image_fits(*self, gs) ==> (r matches Err(
                    RenderError::SizeOverflow,
                ))
                &&& all_present(table@, text@) && image_fits(*self, gs) ==> (r matches Ok(buf) && buf.width == w && buf.height == h
                    && renders(*self, gs, w as int, buf.bytes@))
            }),
    {
        let gs = match lookup_glyphs(table, text) {
            Ok(gs) => gs,
            Err(e) => return Err(e),
        };
        let (w, h, n) = match self.image_size(&gs) {
            Ok(size) => size,
            Err(e) => return Err(e),
        };
        let mut bytes: Vec<u8> = Vec::new();
        let mut i: usize = 0;
        while i < n
            invariant
                i <= n,
                bytes@.len() == i,
            decreases n - i,
        {
            bytes.push(0);
            i = i + 1;
        }
        self.fill_pixels(&gs, &mut bytes, w as usize);
        Ok(PixelBuffer { width: w, height: h, bytes })
    }
}

/// Without bold or italic, the width of a text grows linearly with the scale:
/// at scale `k` it is `k` times the width at scale 1.
pub proof fn lemma_width_linear_in_scale(st: SurfaceRenderer, gs: Seq<FontChar>)
    requires
        !st.bold,
        !st.italic,
    ensures
        text_width(st, gs) == st.scale * text_width(SurfaceRenderer { scale: 1, ..st }, gs),
        text_width(SurfaceRenderer { scale: 2, ..st }, gs) == 2 * text_width(
            SurfaceRenderer { scale: 1, ..st },
            gs,
        ),
{
}

/// The empty text is as wide as the bold and italic margins: one pixel for
/// bold and seven for italic, so nothing in the plain style.
pub proof fn lemma_empty_text_width(st: SurfaceRenderer, m: Map<u32, FontChar>)
    ensures
        all_present(m, Seq::<char>::empty()),
        text_width(st, text_glyphs(m, Seq::<char>::empty())) == (if st.bold { 1int } else { 0 }) + (
        if st.italic { 7int } else { 0 }),
        !st.bold && !st.italic ==> text_width(st, text_glyphs(m, Seq::<char>::empty())) == 0,
{
    assert(text_glyphs(m, Seq::<char>::empty()) =~= Seq::<FontChar>::empty());
    assert(widths_sum(Seq::<FontChar>::empty()) == 0);
    assert(st.scale * 0nat == 0);
}

} // verus!
