//! The splitter: resolves all proper crossings of a segment bag into
//! endpoint-shared sub-segments, by a list strategy or a segment tree.

pub mod cross_solver;
pub mod fragment;
pub mod segment_tree;
pub mod solver;
pub mod solver_tree;
pub mod space_layout;
