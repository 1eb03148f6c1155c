//! A node of the overlay graph: the set of links meeting at one point.

use vstd::prelude::*;

verus! {

/// A graph node; `indices` lists every link incident at the node's point.
#[derive(Debug)]
pub struct OverlayNode {
    pub indices: Vec<usize>,
}

} // verus!
