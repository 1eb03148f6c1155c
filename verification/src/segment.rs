//! Segments: ordered pairs of points carrying a four-bit fill tag.

use vstd::prelude::*;
use crate::geom::{IntPoint, key};

verus! {

/// Fill bit: the subject half-plane below (right of) the edge is filled.
pub const SUBJ_BOTTOM: u8 = 0b0001;

/// Fill bit: the subject half-plane above (left of) the edge is filled.
pub const SUBJ_TOP: u8 = 0b0010;

/// Fill bit: the clip half-plane below (right of) the edge is filled.
pub const CLIP_BOTTOM: u8 = 0b0100;

/// Fill bit: the clip half-plane above (left of) the edge is filled.
pub const CLIP_TOP: u8 = 0b1000;

/// A segment with ordered endpoints: `a` strictly precedes `b` in the
/// (y, x) point order, so a segment is never zero-length.
#[derive(Clone, Copy, PartialEq, Eq, Structural, Debug)]
pub struct XSegment {
    pub a: IntPoint,
    pub b: IntPoint,
}

impl XSegment {
    /// Endpoint order invariant: `a` comes strictly before `b`.
    pub open spec fn well_formed(self) -> bool {
        key(self.a) < key(self.b)
    }
}

/// A segment classified with its fill tag.
#[derive(Clone, Copy, PartialEq, Eq, Structural, Debug)]
pub struct Segment {
    pub x_segment: XSegment,
    pub fill: u8,
}

/// All segments of a bag satisfy the endpoint order invariant.
pub open spec fn all_well_formed(edges: Seq<Segment>) -> bool {
    forall|i: int| 0 <= i < edges.len() ==> (#[trigger] edges[i]).x_segment.well_formed()
}

/// The bag is ordered by the key of the `a` endpoints, as the splitter
/// leaves it.
pub open spec fn sorted_by_a(edges: Seq<Segment>) -> bool {
    forall|i: int, j: int|
        0 <= i <= j < edges.len() ==> key((#[trigger] edges[i]).x_segment.a) <= key(
            (#[trigger] edges[j]).x_segment.a,
        )
}

} // verus!
