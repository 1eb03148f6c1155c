//! Core of a boolean-operation engine for planar polygonal shapes.
//!
//! Segments with fill tags are split until no two properly cross, then
//! assembled into an overlay graph whose traversal helpers walk contour
//! edges in angular order.

pub mod geom;
pub mod index;
pub mod layout;
pub mod line_range;
pub mod segment;
pub mod split;
