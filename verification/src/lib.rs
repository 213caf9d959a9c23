//! Ear-clipping triangulation of simple planar polygons embedded in 3D space.
//!
//! A polygon is given as an ordered loop of indices into a shared buffer of
//! 3D points with exact integer coordinates (callers working in real units
//! choose a fixed-point scale).  The library checks that the loop's points
//! are coplanar within a configurable tolerance, projects them onto an
//! in-plane 2D basis, and clips ears off the 2D outline until only triangles
//! remain, re-mapping each triangle back to the original point indices.

pub mod coplanar;
pub mod earclip;
pub mod isqrt;
pub mod project;
pub mod vec3;

pub use coplanar::is_coplanar;
pub use coplanar::is_coplanar_with_tolerance;
pub use earclip::triangularize_index_list;
pub use earclip::triangularize_index_list_with_tolerance;
pub use earclip::triangularize_polygon;
pub use earclip::Triangle;
pub use project::cross_2d;
pub use project::project_to_2d;
pub use vec3::Point3;
pub use vec3::COORD_LIMIT;
