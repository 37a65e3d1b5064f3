//! Renders text to a monochrome RGB raster from vector glyphs made of straight
//! segments and quadratic curves.

pub mod canvas;
pub mod raster;
pub mod glyph;
pub mod font;
pub mod layout;
