//! A CPU-only 2D vector-graphics rasterizer.
//!
//! Paths described in fixed-point device coordinates (1/256 of a pixel) are
//! filled or stroked into an 8-bit-per-channel premultiplied ARGB framebuffer.
//! Polygons are converted into per-pixel signed area-coverage deltas; a sparse
//! bitmask index over horizontal 4-pixel cells lets the compositor skip empty
//! runs. Coverage arithmetic is exact integer arithmetic throughout, so the
//! whole pipeline carries machine-checked contracts.

pub mod bbox;
pub mod color;
pub mod composite;
pub mod covmath;
pub mod flatten;
pub mod geom;
pub mod laws;
pub mod line;
pub mod path;
pub mod pipeline;
pub mod raster;
pub mod render;

pub use bbox::Bbox;
pub use color::Color;
pub use path::Path;
pub use raster::Rasterizer;
pub use render::RenderTarget;
pub use render::Renderer;
pub use geom::Affine;
pub use geom::Point;

use vstd::prelude::*;

verus! {

/// Fixed-point coordinate scale: how many coordinate units make one pixel.
pub const FX_ONE: i64 = 256;

/// Full coverage of one pixel, in coverage-buffer units: `2 * FX_ONE * FX_ONE`.
pub const COV_ONE: i64 = 131072;

/// Largest coordinate magnitude the rasterizer accepts, in fixed-point units.
pub const MAX_COORD: i64 = 0x400_0000;

} // verus!
