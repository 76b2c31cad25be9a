//! Renders raster images as grids of coloured terminal glyphs.
//!
//! Every cell of the output stands for a small block of pixels. The block is
//! reduced to a bit pattern, the glyph whose ink pattern is closest to it is
//! picked from a catalog, and the two colours of the cell are the means of the
//! two pixel sets the pattern separates.

pub mod binarize;
pub mod bitmask;
pub mod colorize;
pub mod geometry;
pub mod glyphs;
pub mod matcher;
pub mod paint;
pub mod pixel;
pub mod render;
