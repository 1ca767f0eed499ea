//! What the renderer needs that is not floating point: the font's glyphs,
//! the primitives' draw groups and the palette.

pub mod font;
pub mod primitives;
pub mod colors;
