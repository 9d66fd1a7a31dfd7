//! Right-triangulated irregular network (RTIN) terrain meshing: binary
//! triangle identifiers, their geometry on a square height grid, the
//! error-driven selection of triangles, and the mesh topology built from them.
pub mod bits;
pub mod rtin;
pub mod geometry;
pub mod selection;
pub mod error_plan;
pub mod mesh;
pub mod opposite;
pub mod terrain;
pub mod tiling;
