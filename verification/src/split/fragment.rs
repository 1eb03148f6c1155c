//! A portion of a segment local to one strip of the segment tree,
//! carrying its clipped bounding box and the whole segment for exact
//! intersection tests.

use vstd::prelude::*;
use crate::segment::XSegment;

verus! {

/// A strip-local piece of the segment at position `index`.
#[derive(Clone, Copy, PartialEq, Eq, Structural, Debug)]
pub struct Fragment {
    pub index: usize,
    pub min_x: i32,
    pub max_x: i32,
    pub min_y: i32,
    pub max_y: i32,
    pub x_segment: XSegment,
}

impl Fragment {
    /// A fragment covering the whole segment: its bounding box.
    pub fn with_index_and_segment(index: usize, s: XSegment) -> (r: Fragment)
        ensures
            r.index == index,
            r.x_segment == s,
            r.min_x == if s.a.x <= s.b.x { s.a.x } else { s.b.x },
            r.max_x == if s.a.x <= s.b.x { s.b.x } else { s.a.x },
            r.min_y == if s.a.y <= s.b.y { s.a.y } else { s.b.y },
            r.max_y == if s.a.y <= s.b.y { s.b.y } else { s.a.y },
            r.min_x <= r.max_x,
            r.min_y <= r.max_y,
    {
        let (min_x, max_x) = if s.a.x <= s.b.x {
            (s.a.x, s.b.x)
        } else {
            (s.b.x, s.a.x)
        };
        let (min_y, max_y) = if s.a.y <= s.b.y {
            (s.a.y, s.b.y)
        } else {
            (s.b.y, s.a.y)
        };
        Fragment { index, min_x, max_x, min_y, max_y, x_segment: s }
    }
}

} // verus!
