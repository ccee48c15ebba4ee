//! Procedural terrain synthesis and queries over a regular height grid.
//!
//! Heights and coordinates are fixed-point numbers: an `i64` counts units of
//! `1 / UNIT` (see [`num::UNIT`]), so all arithmetic is exact integer
//! arithmetic and every algorithm is specified and verified over it.

pub mod displacement;
pub mod fault;
pub mod height;
pub mod heightmap;
pub mod num;
pub mod perlin;
pub mod raycast;
pub mod sampler;
pub mod unbounded;
pub mod voronoi;
