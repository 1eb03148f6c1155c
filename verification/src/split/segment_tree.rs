//! A complete binary tree over the y-range. Every node owns a strip;
//! a fragment is stored at the highest nodes its y-extent covers, and
//! partial leaf overlaps stay at the leaf, so the stored copies cover
//! the fragment's whole extent.

use vstd::prelude::*;
use crate::line_range::LineRange;
use crate::split::fragment::Fragment;
use crate::split::cross_solver::{LineMark, cross_segments, crossing_clean, pairs_clean};

verus! {

/// One strip of the partition and the fragments filed at it.
#[derive(Debug)]
pub struct TreeNode {
    pub min_y: i64,
    pub max_y: i64,
    pub fragments: Vec<Fragment>,
}

/// The interval tree of the tree splitting strategy.
#[derive(Debug)]
pub struct SegmentTree {
    pub nodes: Vec<TreeNode>,
    pub power: usize,
}

impl SegmentTree {
    /// Every stored fragment carries a valid segment, and every strip
    /// is ordered.
    pub open spec fn wf(self) -> bool {
        forall|n0: int, k: int|
            0 <= n0 < self.nodes@.len() && 0 <= k < self.nodes@[n0].fragments@.len()
                ==> (#[trigger] self.nodes@[n0].fragments@[k]).x_segment.well_formed()
    }

    /// No fragment is stored anywhere.
    pub open spec fn no_fragments(self) -> bool {
        forall|n0: int|
            0 <= n0 < self.nodes@.len() ==> (#[trigger] self.nodes@[n0]).fragments@.len() == 0
    }

    /// Every stored fragment carries the segment of the bag at its
    /// recorded position.
    pub open spec fn stored_tied(self, bag: Seq<crate::segment::Segment>) -> bool {
        forall|n0: int, k: int|
            0 <= n0 < self.nodes@.len() && 0 <= k < self.nodes@[n0].fragments@.len() ==> {
                let f = #[trigger] self.nodes@[n0].fragments@[k];
                &&& (f.index as int) < bag.len()
                &&& f.x_segment == bag[f.index as int].x_segment
            }
    }

    /// Every stored fragment's position is at most `bound`.
    pub open spec fn stored_at_most(self, bound: int) -> bool {
        forall|n0: int, k: int|
            0 <= n0 < self.nodes@.len() && 0 <= k < self.nodes@[n0].fragments@.len() ==> (
            #[trigger] self.nodes@[n0].fragments@[k]).index <= bound
    }

    /// An empty tree of `2^power` leaves over the given range.
    pub fn new(range: LineRange, power: usize) -> (r: SegmentTree)
        requires
            range.min <= range.max,
            power <= 12,
        ensures
            r.wf(),
            r.no_fragments(),
            r.nodes@.len() >= 1,
            r.nodes@[0].min_y == range.min && r.nodes@[0].max_y == range.max,
            forall|n0: int|
                0 <= n0 < r.nodes@.len() ==> {
                    let nd = #[trigger] r.nodes@[n0];
                    range.min <= nd.min_y <= nd.max_y <= range.max
                },
    {
        let mut count: usize = 1;
        let mut level: usize = 0;
        while level < power
            invariant
                level <= power,
                1 <= count <= 0x3fff,
            decreases power - level,
        {
            count = if count <= 0x1fff {
                2 * count + 1
            } else {
                count
            };
            level += 1;
        }

        let mut nodes: Vec<TreeNode> = Vec::new();
        nodes.push(
            TreeNode { min_y: range.min as i64, max_y: range.max as i64, fragments: Vec::new() },
        );
        let mut idx: usize = 1;
        while idx < count
            invariant
                1 <= idx <= count,
                nodes@.len() == idx,
                nodes@[0].min_y == range.min && nodes@[0].max_y == range.max,
                forall|n0: int|
                    0 <= n0 < idx ==> {
                        let nd = #[trigger] nodes@[n0];
                        &&& nd.fragments@.len() == 0
                        &&& range.min <= nd.min_y <= nd.max_y <= range.max
                    },
            decreases count - idx,
        {
            let parent = (idx - 1) / 2;
            let lo = nodes[parent].min_y;
            let hi = nodes[parent].max_y;
            let half = ((hi - lo) as u64) / 2;
            proof {
                assert(half <= hi - lo) by (nonlinear_arith)
                    requires
                        half == (hi - lo) as u64 / 2,
                        0 <= hi - lo,
                ;
            }
            let mid = lo + half as i64;
            let node = if idx % 2 == 1 {
                TreeNode { min_y: lo, max_y: mid, fragments: Vec::new() }
            } else {
                TreeNode { min_y: mid, max_y: hi, fragments: Vec::new() }
            };
            nodes.push(node);
            idx += 1;
        }
        SegmentTree { nodes, power }
    }

    /// File the fragment at the highest nodes whose strip it covers;
    /// a strip it only touches keeps it at the leaf level, so the
    /// stored copies cover its whole extent. Every strip keeps its
    /// bounds and gains at most this one fragment.
    #[verifier::loop_isolation(false)]
    pub fn insert(&mut self, fragment: Fragment)
        requires
            old(self).wf(),
            fragment.x_segment.well_formed(),
        ensures
            final(self).wf(),
            final(self).nodes@.len() == old(self).nodes@.len(),
            forall|n0: int|
                0 <= n0 < final(self).nodes@.len() ==> {
                    let before = old(self).nodes@[n0];
                    let after = #[trigger] final(self).nodes@[n0];
                    &&& after.min_y == before.min_y
                    &&& after.max_y == before.max_y
                    &&& (after.fragments@ == before.fragments@ || after.fragments@
                        == before.fragments@.push(fragment))
                },
    {
        let fy0 = fragment.min_y as i64;
        let fy1 = fragment.max_y as i64;
        let n = self.nodes.len();
        let mut idx: usize = 0;
        while idx < n
            invariant
                self.wf(),
                self.nodes@.len() == n,
                fragment.x_segment.well_formed(),
                forall|n0: int|
                    0 <= n0 < n ==> {
                        let before = old(self).nodes@[n0];
                        let after = #[trigger] self.nodes@[n0];
                        &&& after.min_y == before.min_y
                        &&& after.max_y == before.max_y
                        &&& (after.fragments@ == before.fragments@ || after.fragments@
                            == before.fragments@.push(fragment))
                    },
                forall|n0: int|
                    idx <= n0 < n ==> (#[trigger] self.nodes@[n0]).fragments@ == old(
                        self,
                    ).nodes@[n0].fragments@,
            decreases n - idx,
        {
            let lo = self.nodes[idx].min_y;
            let hi = self.nodes[idx].max_y;
            let touches = fy0 <= hi && lo <= fy1;
            let covered = fy0 <= lo && hi <= fy1;
            let parent_covered = if idx == 0 {
                false
            } else {
                let pp = (idx - 1) / 2;
                fy0 <= self.nodes[pp].min_y && self.nodes[pp].max_y <= fy1
            };
            let is_leaf = idx >= n / 2;
            if touches && (covered || is_leaf) && !parent_covered {
                let node = &mut self.nodes[idx];
                node.fragments.push(fragment);
            }
            idx += 1;
        }
    }

    /// Insert a fragment that carries its bag segment: the tie of every
    /// stored fragment to the bag and the position bound are preserved.
    pub fn insert_tied(
        &mut self,
        fragment: Fragment,
        Ghost(bag): Ghost<Seq<crate::segment::Segment>>,
        Ghost(bound): Ghost<int>,
    )
        requires
            old(self).wf(),
            old(self).stored_tied(bag),
            old(self).stored_at_most(bound),
            fragment.x_segment.well_formed(),
            (fragment.index as int) < bag.len(),
            fragment.x_segment == bag[fragment.index as int].x_segment,
            fragment.index <= bound,
        ensures
            final(self).wf(),
            final(self).stored_tied(bag),
            final(self).stored_at_most(bound),
            final(self).nodes@.len() == old(self).nodes@.len(),
    {
        let ghost t0 = *self;
        self.insert(fragment);
        proof {
            assert forall|n2: int, k2: int|
                0 <= n2 < self.nodes@.len() && 0 <= k2
                    < self.nodes@[n2].fragments@.len() implies {
                let f = #[trigger] self.nodes@[n2].fragments@[k2];
                &&& (f.index as int) < bag.len()
                &&& f.x_segment == bag[f.index as int].x_segment
                &&& f.index <= bound
            } by {
                if self.nodes@[n2].fragments@ == t0.nodes@[n2].fragments@ {
                    assert(t0.nodes@[n2].fragments@[k2] == self.nodes@[n2].fragments@[k2]);
                } else {
                    if k2 < t0.nodes@[n2].fragments@.len() {
                        assert(self.nodes@[n2].fragments@[k2] == t0.nodes@[n2].fragments@[k2]);
                    } else {
                        assert(self.nodes@[n2].fragments@[k2] == fragment);
                    }
                }
            }
        }
    }

    /// The pair test for the stored fragment at `(n0, k)` holds: if the
    /// strip and the boxes touch the probing fragment, the pair is
    /// clean.
    pub open spec fn checked_clean(self, this: Fragment, n0: int, k: int) -> bool {
        let nd = self.nodes@[n0];
        let f = nd.fragments@[k];
        (this.min_y as int <= nd.max_y && nd.min_y <= this.max_y as int && this.min_x <= f.max_x
            && f.min_x <= this.max_x && this.min_y <= f.max_y && f.min_y <= this.max_y)
            ==> crossing_clean(f.x_segment, this.x_segment)
    }

    /// The probe is honestly tied to the bag: its own entry and every
    /// stored one carry their bag segments, stored positions precede the
    /// probe's, and the bag is sound.
    pub open spec fn probe_tied(self, this: Fragment, bag: Seq<crate::segment::Segment>) -> bool {
        &&& self.stored_tied(bag)
        &&& self.stored_at_most(this.index as int)
        &&& (this.index as int) < bag.len()
        &&& this.x_segment == bag[this.index as int].x_segment
        &&& crate::segment::all_well_formed(bag)
    }

    /// Test the fragment against every stored fragment whose strip and
    /// box it touches, pushing the split marks; reports whether any
    /// pushed mark was moved by rounding. No mark comes back only when
    /// the fragment is clean against everything it was tested on; on a
    /// pairwise-clean bag no mark is pushed at all.
    #[verifier::loop_isolation(false)]
    pub fn intersect(
        &self,
        this: &Fragment,
        marks: &mut Vec<LineMark>,
        Ghost(bag): Ghost<Seq<crate::segment::Segment>>,
    ) -> (any_round: bool)
        requires
            self.wf(),
            this.x_segment.well_formed(),
        ensures
            final(marks)@.len() >= old(marks)@.len(),
            forall|k: int| 0 <= k < old(marks)@.len() ==> final(marks)@[k] == old(marks)@[k],
            any_round ==> final(marks)@.len() > old(marks)@.len(),
            final(marks)@.len() == old(marks)@.len() ==> forall|n0: int, k: int|
                0 <= n0 < self.nodes@.len() && 0 <= k < self.nodes@[n0].fragments@.len()
                    ==> #[trigger] self.checked_clean(*this, n0, k),
            self.probe_tied(*this, bag) && pairs_clean(bag) ==> final(marks)@.len() == old(
                marks,
            )@.len(),
    {
        let fy0 = this.min_y as i64;
        let fy1 = this.max_y as i64;
        let mut any_round = false;
        let n = self.nodes.len();
        let mut idx: usize = 0;
        while idx < n
            invariant
                self.wf(),
                self.nodes@.len() == n,
                this.x_segment.well_formed(),
                marks@.len() >= old(marks)@.len(),
                forall|k: int| 0 <= k < old(marks)@.len() ==> marks@[k] == old(marks)@[k],
                any_round ==> marks@.len() > old(marks)@.len(),
                marks@.len() == old(marks)@.len() ==> forall|n0: int, k: int|
                    0 <= n0 < idx && 0 <= k < self.nodes@[n0].fragments@.len()
                        ==> #[trigger] self.checked_clean(*this, n0, k),
                self.probe_tied(*this, bag) && pairs_clean(bag) ==> marks@.len() == old(
                    marks,
                )@.len(),
            decreases n - idx,
        {
            let lo = self.nodes[idx].min_y;
            let hi = self.nodes[idx].max_y;
            if fy0 <= hi && lo <= fy1 {
                let m = self.nodes[idx].fragments.len();
                let mut k: usize = 0;
                while k < m
                    invariant
                        self.wf(),
                        self.nodes@.len() == n,
                        idx < n,
                        self.nodes@[idx as int].fragments@.len() == m,
                        this.x_segment.well_formed(),
                        marks@.len() >= old(marks)@.len(),
                        forall|q: int| 0 <= q < old(marks)@.len() ==> marks@[q] == old(marks)@[q],
                        any_round ==> marks@.len() > old(marks)@.len(),
                        marks@.len() == old(marks)@.len() ==> forall|n0: int, q: int|
                            0 <= n0 < idx && 0 <= q < self.nodes@[n0].fragments@.len()
                                ==> #[trigger] self.checked_clean(*this, n0, q),
                        marks@.len() == old(marks)@.len() ==> forall|q: int|
                            0 <= q < k ==> #[trigger] self.checked_clean(*this, idx as int, q),
                        self.probe_tied(*this, bag) && pairs_clean(bag) ==> marks@.len() == old(
                            marks,
                        )@.len(),
                    decreases m - k,
                {
                    let other = self.nodes[idx].fragments[k];
                    let boxes_touch = this.min_x <= other.max_x && other.min_x <= this.max_x
                        && this.min_y <= other.max_y && other.min_y <= this.max_y;
                    if boxes_touch {
                        proof {
                            if self.probe_tied(*this, bag) && pairs_clean(bag) {
                                if (other.index as int) < this.index as int {
                                    assert(crossing_clean(
                                        (bag[other.index as int]).x_segment,
                                        (bag[this.index as int]).x_segment,
                                    ));
                                } else {
                                    assert(other.index == this.index);
                                    assert((bag[this.index as int]).x_segment.well_formed());
                                    crate::split::cross_solver::lemma_self_clean(
                                        bag[this.index as int].x_segment,
                                    );
                                }
                                assert(crossing_clean(other.x_segment, this.x_segment));
                            }
                        }
                        let rounded = cross_segments(
                            other.index,
                            this.index,
                            other.x_segment,
                            this.x_segment,
                            marks,
                        );
                        any_round = rounded || any_round;
                    }
                    k += 1;
                }
            } else {
                proof {
                    assert forall|q: int|
                        0 <= q < self.nodes@[idx as int].fragments@.len() implies
                        #[trigger] self.checked_clean(*this, idx as int, q) by {}
                }
            }
            idx += 1;
        }
        any_round
    }

    /// Drop every stored fragment; the strip layout stays, every strip
    /// keeping its bounds.
    #[verifier::loop_isolation(false)]
    pub fn clear(&mut self)
        requires
            old(self).wf(),
        ensures
            final(self).wf(),
            final(self).no_fragments(),
            final(self).nodes@.len() == old(self).nodes@.len(),
            forall|n0: int|
                0 <= n0 < final(self).nodes@.len() ==> (
                #[trigger] final(self).nodes@[n0]).fragments@.len() == 0,
            forall|n0: int|
                0 <= n0 < final(self).nodes@.len() ==> {
                    let nd = #[trigger] final(self).nodes@[n0];
                    nd.min_y == old(self).nodes@[n0].min_y && nd.max_y == old(
                        self,
                    ).nodes@[n0].max_y
                },
    {
        let n = self.nodes.len();
        let mut idx: usize = 0;
        while idx < n
            invariant
                self.nodes@.len() == n,
                forall|n0: int|
                    0 <= n0 < idx ==> (#[trigger] self.nodes@[n0]).fragments@.len() == 0,
                forall|n0: int|
                    0 <= n0 < n ==> {
                        let nd = #[trigger] self.nodes@[n0];
                        nd.min_y == old(self).nodes@[n0].min_y && nd.max_y == old(
                            self,
                        ).nodes@[n0].max_y
                    },
            decreases n - idx,
        {
            let node = &mut self.nodes[idx];
            node.fragments.clear();
            idx += 1;
        }
    }
}

} // verus!
