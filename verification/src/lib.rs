//! Subdivision-surface refinement for quad and triangle meshes.
//!
//! The engine refines a polygonal mesh by uniform linear splitting and by the
//! Catmull-Clark (quads) or Loop (triangles) smoothing rules, with optional
//! sharp-edge preservation, then colors the faces for display and recenters
//! the resulting vertex stream.
//!
//! Positions are fixed-point: each coordinate is an `i64` count of units,
//! with `SCALE` units to one model unit. All geometry is exact integer
//! arithmetic; divisions round toward negative infinity.

pub mod arith;
pub mod mesh;
pub mod weld;
pub mod quad_subdivide;
pub mod triangle_subdivide;
