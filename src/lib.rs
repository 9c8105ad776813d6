//! Rendering of text in the Unifont bitmap font into RGBA pixel buffers.
//!
//! The font is read from its line-oriented `.hex` form into a [`unifont::GlyphTable`];
//! [`renderer::SurfaceRenderer`] measures text and rasterises it with integer
//! scaling and synthetic bold and italic styles.

pub mod bits;
pub mod error;
pub mod renderer;
pub mod unifont;
