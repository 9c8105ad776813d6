//! The errors of font loading, measuring and rendering.
use vstd::prelude::*;

verus! {

#[derive(Clone, Debug, PartialEq, Eq)]
pub enum RenderError {
    /// A line of a font source is not a well-formed glyph description. `line`
    /// counts from 1 within its source; `content` holds the line's bytes.
    MalformedSource { line: usize, content: Vec<u8> },
    /// The font has no glyph for `ch`, whose code point is `codepoint`.
    GlyphNotFound { ch: char, codepoint: u32 },
    /// A pixel buffer (of `len` bytes) or its width (`width` pixels) does
    /// not match the measured text.
    BufferSizeMismatch { width: u32, len: usize },
    /// A dimension or a buffer size of the rendered text exceeds what the
    /// integer types can hold.
    SizeOverflow,
}

} // verus!
