//! A link of the overlay graph: an edge between two nodes carrying the
//! fill tag of the segment it came from.

use vstd::prelude::*;
use crate::geom::IndexPoint;

verus! {

/// The point at which `l` touches the node with index `n0`.
pub open spec fn point_at(l: OverlayLink, n0: int) -> crate::geom::IntPoint {
    if l.a.index == n0 {
        l.a.point
    } else {
        l.b.point
    }
}

/// The point of the endpoint of `l` that does not equal `node`.
pub open spec fn other_point(l: OverlayLink, node: IndexPoint) -> crate::geom::IntPoint {
    if l.a == node {
        l.b.point
    } else {
        l.a.point
    }
}

/// A graph edge between node-tagged endpoints `a` and `b`.
#[derive(Clone, Copy, PartialEq, Eq, Structural, Debug)]
pub struct OverlayLink {
    pub a: IndexPoint,
    pub b: IndexPoint,
    pub fill: u8,
}

impl OverlayLink {
    pub fn new(a: IndexPoint, b: IndexPoint, fill: u8) -> (r: OverlayLink)
        ensures
            r == (OverlayLink { a, b, fill }),
    {
        OverlayLink { a, b, fill }
    }

    /// The endpoint opposite to `node`.
    pub fn other(&self, node: IndexPoint) -> (r: IndexPoint)
        ensures
            r == (if self.a == node {
                self.b
            } else {
                self.a
            }),
    {
        if self.a == node {
            self.b
        } else {
            self.a
        }
    }
}

} // verus!
