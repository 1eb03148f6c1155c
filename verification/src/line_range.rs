//! A closed range of y coordinates.

use vstd::prelude::*;

verus! {

/// A vertical extent; `min` never exceeds `max` where the range is used.
#[derive(Clone, Copy, PartialEq, Eq, Structural, Debug)]
pub struct LineRange {
    pub min: i32,
    pub max: i32,
}

impl LineRange {
    /// The extent's height.
    pub fn width(&self) -> (r: u64)
        requires
            self.min <= self.max,
        ensures
            r == self.max - self.min,
    {
        (self.max as i64 - self.min as i64) as u64
    }
}

} // verus!
