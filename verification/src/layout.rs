//! The overlay graph and its parts.

pub mod overlay_graph;
pub mod overlay_link;
pub mod overlay_node;
