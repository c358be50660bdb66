//! A software rasterizer core: packed pixels, a supersampled canvas with a
//! depth buffer, and a scanline polygon fill driven by edge tables.
pub mod canvas;
pub mod color;
pub mod dictionary;
pub mod orientation;
pub mod scanline;
