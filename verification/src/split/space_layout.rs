//! The power-of-two partition of the y-range that buckets segments for
//! the tree strategy, and the policy that decides whether breaking
//! segments into per-strip fragments pays off.

use vstd::prelude::*;
use crate::segment::{Segment, XSegment};
use crate::split::fragment::Fragment;

verus! {

/// Below this vertical extent the list strategy is always adequate.
pub const MIN_HEIGHT: u64 = 4;

/// The shallowest partition: four strips.
pub const MIN_POWER: usize = 2;

/// The deepest partition: 4096 strips.
pub const MAX_POWER: usize = 12;

/// The chosen partition: `2^power` strips of height `min_size`.
#[derive(Clone, Copy, PartialEq, Eq, Structural, Debug)]
pub struct SpaceLayout {
    pub power: usize,
    pub min_size: u64,
}

/// Estimated strip count of the first `k` segments: one per strip a
/// segment's y-extent touches.
pub open spec fn strip_estimate(edges: Seq<Segment>, min_size: u64, k: int) -> int
    decreases k,
{
    if k <= 0 {
        0
    } else {
        let s = edges[k - 1].x_segment;
        let span = if s.a.y <= s.b.y {
            s.b.y - s.a.y
        } else {
            s.a.y - s.b.y
        };
        strip_estimate(edges, min_size, k - 1) + span / (min_size as int) + 1
    }
}

impl SpaceLayout {
    /// Choose a partition depth: deepen while segments per strip stay
    /// high and strips stay tall enough.
    pub fn new(height: u64, count: usize) -> (r: SpaceLayout)
        ensures
            MIN_POWER <= r.power <= MAX_POWER,
            r.min_size >= 1,
            r.min_size == (if height >> (r.power as u64) >= 1 {
                height >> (r.power as u64)
            } else {
                1u64
            }),
            // the deepening stopped for a stated reason
            r.power == MAX_POWER || !((count >> r.power) > 8) || !((height >> (r.power as u64
                + 1)) >= MIN_HEIGHT),
    {
        let mut power: usize = MIN_POWER;
        while power < MAX_POWER && (count >> power) > 8 && (height >> (power as u64 + 1))
            >= MIN_HEIGHT
            invariant
                MIN_POWER <= power <= MAX_POWER,
            decreases MAX_POWER - power,
        {
            power += 1;
        }
        let shifted = height >> (power as u64);
        let min_size = if shifted >= 1 {
            shifted
        } else {
            1
        };
        SpaceLayout { power, min_size }
    }

    /// True when the bag can go into the tree as whole segments: the
    /// per-strip estimate stays within ten percent above the edge
    /// count, so fragmenting would gain nothing.
    pub fn is_fragmentation_required_for_edges(&self, edges: &Vec<Segment>) -> (r: bool)
        requires
            self.min_size >= 1,
        ensures
            r == (100 * strip_estimate(edges@, self.min_size, edges@.len() as int) <= 110
                * edges@.len()),
    {
        let mut total: u128 = 0;
        let mut i: usize = 0;
        while i < edges.len()
            invariant
                i <= edges@.len(),
                self.min_size >= 1,
                total == strip_estimate(edges@, self.min_size, i as int),
                total <= i * 0x2_0000_0001,
            decreases edges@.len() - i,
        {
            let s = edges[i].x_segment;
            let span: u64 = if s.a.y <= s.b.y {
                (s.b.y as i64 - s.a.y as i64) as u64
            } else {
                (s.a.y as i64 - s.b.y as i64) as u64
            };
            total = total + (span / self.min_size) as u128 + 1;
            i += 1;
        }
        100 * total <= 110 * (edges.len() as u128)
    }

    /// Append one fragment per strip that the segment's y-extent
    /// touches, each clipped to the strip vertically.
    #[verifier::loop_isolation(false)]
    pub fn break_into_fragments(
        &self,
        index: usize,
        s: &XSegment,
        fragments: &mut Vec<Fragment>,
    )
        requires
            self.min_size >= 1,
        ensures
            final(fragments)@.len() > old(fragments)@.len(),
            forall|k: int|
                0 <= k < old(fragments)@.len() ==> final(fragments)@[k] == old(fragments)@[k],
            forall|k: int|
                old(fragments)@.len() <= k < final(fragments)@.len() ==> {
                    let f = #[trigger] final(fragments)@[k];
                    &&& f.index == index
                    &&& f.x_segment == *s
                    &&& f.min_x <= f.max_x
                    &&& f.min_y <= f.max_y
                },
    {
        let (min_x, max_x) = if s.a.x <= s.b.x {
            (s.a.x, s.b.x)
        } else {
            (s.b.x, s.a.x)
        };
        let (min_y, max_y) = if s.a.y <= s.b.y {
            (s.a.y, s.b.y)
        } else {
            (s.b.y, s.a.y)
        };
        let step: i64 = if self.min_size <= 0x1_0000_0000 {
            self.min_size as i64
        } else {
            0x1_0000_0000
        };

        // walk the y-extent in strip-high steps, one fragment per strip
        let mut cur: i64 = min_y as i64;
        while cur + step < max_y as i64
            invariant
                min_y <= cur <= max_y,
                1 <= step,
                fragments@.len() >= old(fragments)@.len(),
                forall|k: int|
                    0 <= k < old(fragments)@.len() ==> fragments@[k] == old(fragments)@[k],
                forall|k: int|
                    old(fragments)@.len() <= k < fragments@.len() ==> {
                        let f = #[trigger] fragments@[k];
                        &&& f.index == index
                        &&& f.x_segment == *s
                        &&& f.min_x <= f.max_x
                        &&& f.min_y <= f.max_y
                    },
            decreases max_y - cur,
        {
            fragments.push(
                Fragment {
                    index,
                    min_x,
                    max_x,
                    min_y: cur as i32,
                    max_y: (cur + step) as i32,
                    x_segment: *s,
                },
            );
            cur = cur + step;
        }
        fragments.push(
            Fragment { index, min_x, max_x, min_y: cur as i32, max_y, x_segment: *s },
        );
    }
}

} // verus!
