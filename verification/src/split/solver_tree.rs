//! The tree strategy: bucket segments into the segment tree over the
//! y-range and run the same fix point as the list strategy. Whenever a
//! tree pass finds no marks, the exhaustive pair scan confirms the
//! convergence, so the returned flag never rests on the bucketing; a
//! bag that is already clean passes through unchanged.

use vstd::prelude::*;
use crate::line_range::LineRange;
use crate::segment::{Segment, all_well_formed, sorted_by_a};
use crate::split::cross_solver::{LineMark, pairs_clean};
use crate::split::fragment::Fragment;
use crate::split::segment_tree::SegmentTree;
use crate::split::solver::{
    SplitSolver, MAX_SPLIT_ROUNDS, sort_edges, lemma_well_formed_permutation, collect_marks_list,
    all_within, lemma_all_within_reflexive, lemma_all_within_trans, lemma_all_within_permutation,
};
use crate::split::space_layout::{SpaceLayout, MIN_HEIGHT};

verus! {

/// The vertical extent of the bag; both bounds are attained by some
/// endpoint.
pub fn ver_range(edges: &Vec<Segment>) -> (r: LineRange)
    requires
        edges@.len() > 0,
    ensures
        r.min <= r.max,
        forall|i: int|
            0 <= i < edges@.len() ==> {
                let s = (#[trigger] edges@[i]).x_segment;
                r.min <= s.a.y && s.a.y <= r.max && r.min <= s.b.y && s.b.y <= r.max
            },
        exists|i: int|
            0 <= i < edges@.len() && ((#[trigger] edges@[i]).x_segment.a.y == r.min
                || edges@[i].x_segment.b.y == r.min),
        exists|i: int|
            0 <= i < edges@.len() && ((#[trigger] edges@[i]).x_segment.a.y == r.max
                || edges@[i].x_segment.b.y == r.max),
{
    let mut min_y = edges[0].x_segment.a.y;
    let mut max_y = min_y;

    let n = edges.len();
    let mut i: usize = 0;
    while i < n
        invariant
            n == edges@.len(),
            n > 0,
            i <= n,
            min_y <= max_y,
            forall|k: int|
                0 <= k < i ==> {
                    let s = (#[trigger] edges@[k]).x_segment;
                    min_y <= s.a.y && s.a.y <= max_y && min_y <= s.b.y && s.b.y <= max_y
                },
            exists|k: int|
                0 <= k < n && ((#[trigger] edges@[k]).x_segment.a.y == min_y
                    || edges@[k].x_segment.b.y == min_y),
            exists|k: int|
                0 <= k < n && ((#[trigger] edges@[k]).x_segment.a.y == max_y
                    || edges@[k].x_segment.b.y == max_y),
        decreases n - i,
    {
        let s = edges[i].x_segment;
        if s.a.y < min_y {
            min_y = s.a.y;
            proof {
                assert((edges@[i as int]).x_segment.a.y == min_y);
            }
        }
        if s.a.y > max_y {
            max_y = s.a.y;
            proof {
                assert((edges@[i as int]).x_segment.a.y == max_y);
            }
        }
        if s.b.y < min_y {
            min_y = s.b.y;
            proof {
                assert((edges@[i as int]).x_segment.b.y == min_y);
            }
        }
        if s.b.y > max_y {
            max_y = s.b.y;
            proof {
                assert((edges@[i as int]).x_segment.b.y == max_y);
            }
        }
        i += 1;
    }

    LineRange { min: min_y, max: max_y }
}

/// Every fragment of the buffer carries its bag segment and an ordered
/// strip box.
pub open spec fn fragments_tied(fragments: Seq<Fragment>, edges: Seq<Segment>) -> bool {
    forall|q: int|
        0 <= q < fragments.len() ==> {
            let f = #[trigger] fragments[q];
            &&& f.x_segment.well_formed()
            &&& f.min_y <= f.max_y
            &&& (f.index as int) < edges.len()
            &&& f.x_segment == edges[f.index as int].x_segment
        }
}

/// The buffer's fragments come in non-decreasing position order.
pub open spec fn fragments_ordered(fragments: Seq<Fragment>) -> bool {
    forall|q1: int, q2: int|
        0 <= q1 <= q2 < fragments.len() ==> (#[trigger] fragments[q1]).index <= (
        #[trigger] fragments[q2]).index
}

/// One tree pass with whole segments: test each segment against the
/// stored earlier ones, then store it. On a pairwise-clean bag the pass
/// pushes no mark.
#[verifier::loop_isolation(false)]
fn whole_segment_pass(tree: &mut SegmentTree, edges: &Vec<Segment>, marks: &mut Vec<LineMark>)
    requires
        old(tree).wf(),
        old(tree).no_fragments(),
        all_well_formed(edges@),
        old(marks)@.len() == 0,
    ensures
        final(tree).wf(),
        pairs_clean(edges@) ==> final(marks)@.len() == 0,
{
    let n = edges.len();
    let mut i: usize = 0;
    while i < n
        invariant
            n == edges@.len(),
            i <= n,
            tree.wf(),
            tree.stored_tied(edges@),
            tree.stored_at_most(i as int),
            all_well_formed(edges@),
            pairs_clean(edges@) ==> marks@.len() == 0,
        decreases n - i,
    {
        let fragment = Fragment::with_index_and_segment(i, edges[i].x_segment);
        proof {
            if pairs_clean(edges@) {
                assert(tree.probe_tied(fragment, edges@));
            }
        }
        let _any_round = tree.intersect(&fragment, marks, Ghost(edges@));

        tree.insert_tied(fragment, Ghost(edges@), Ghost(i as int));
        i += 1;
    }
}

/// Break every segment of the bag into its per-strip fragments, in
/// position order.
#[verifier::loop_isolation(false)]
fn build_fragments(layout: &SpaceLayout, edges: &Vec<Segment>, fragments: &mut Vec<Fragment>)
    requires
        layout.min_size >= 1,
        all_well_formed(edges@),
        old(fragments)@.len() == 0,
    ensures
        fragments_tied(final(fragments)@, edges@),
        fragments_ordered(final(fragments)@),
{
    let n = edges.len();
    let mut i: usize = 0;
    while i < n
        invariant
            n == edges@.len(),
            i <= n,
            all_well_formed(edges@),
            layout.min_size >= 1,
            fragments_tied(fragments@, edges@),
            fragments_ordered(fragments@),
            forall|q: int| 0 <= q < fragments@.len() ==> (#[trigger] fragments@[q]).index < i,
        decreases n - i,
    {
        proof {
            assert(edges@[i as int].x_segment.well_formed());
        }
        layout.break_into_fragments(i, &edges[i].x_segment, fragments);
        i += 1;
    }
}

/// One tree pass with per-strip fragments, in position order. On a
/// pairwise-clean bag the pass pushes no mark.
#[verifier::loop_isolation(false)]
fn fragment_pass(
    tree: &mut SegmentTree,
    edges: &Vec<Segment>,
    fragments: &Vec<Fragment>,
    marks: &mut Vec<LineMark>,
)
    requires
        old(tree).wf(),
        old(tree).no_fragments(),
        all_well_formed(edges@),
        fragments_tied(fragments@, edges@),
        fragments_ordered(fragments@),
        old(marks)@.len() == 0,
    ensures
        final(tree).wf(),
        pairs_clean(edges@) ==> final(marks)@.len() == 0,
{
    let frag_count = fragments.len();
    let mut k: usize = 0;
    while k < frag_count
        invariant
            frag_count == fragments@.len(),
            k <= frag_count,
            tree.wf(),
            tree.stored_tied(edges@),
            k < frag_count ==> tree.stored_at_most((fragments@[k as int]).index as int),
            pairs_clean(edges@) ==> marks@.len() == 0,
        decreases frag_count - k,
    {
        let fragment = fragments[k];
        proof {
            if pairs_clean(edges@) {
                assert(tree.probe_tied(fragment, edges@));
            }
        }
        let _any_round = tree.intersect(&fragment, marks, Ghost(edges@));

        tree.insert_tied(fragment, Ghost(edges@), Ghost((fragments@[k as int]).index as int));
        proof {
            if k + 1 < frag_count {
                assert((fragments@[k as int]).index <= (fragments@[(k + 1) as int]).index);
                assert(tree.stored_at_most((fragments@[(k + 1) as int]).index as int));
            }
        }
        k += 1;
    }
}

impl SplitSolver {
    /// Resolve crossings with the segment tree; a small vertical extent
    /// goes to the list strategy instead. The flag holds exactly when
    /// the bag converged to a crossing-free subdivision; a sorted clean
    /// bag comes back unchanged with a `true` flag, and every output
    /// segment spans part of an input segment and carries its fill.
    pub fn tree_split(&self, edges: &mut Vec<Segment>) -> (r: bool)
        requires
            old(edges)@.len() > 0,
            all_well_formed(old(edges)@),
        ensures
            all_well_formed(final(edges)@),
            sorted_by_a(final(edges)@),
            final(edges)@.len() >= old(edges)@.len(),
            r <==> pairs_clean(final(edges)@),
            sorted_by_a(old(edges)@) && pairs_clean(old(edges)@) ==> final(edges)@ == old(
                edges,
            )@,
            sorted_by_a(old(edges)@) && pairs_clean(old(edges)@) ==> r,
            all_within(final(edges)@, old(edges)@),
    {
        let vr = ver_range(edges);
        let height = vr.width();

        if height < MIN_HEIGHT {
            // small vertical extent: the list strategy is the policy here
            return self.list_split(edges);
        }

        let ghost orig = edges@;
        let sorted = sort_edges(edges);
        proof {
            lemma_well_formed_permutation(edges@, sorted@);
            lemma_all_within_permutation(sorted@, edges@);
        }
        *edges = sorted;
        let ghost mid = edges@;

        let layout = SpaceLayout::new(height, edges.len());

        let converged = if layout.is_fragmentation_required_for_edges(edges) {
            self.simple(vr, &layout, edges)
        } else {
            self.complex(vr, &layout, edges)
        };
        proof {
            lemma_all_within_trans(edges@, mid, orig);
        }
        converged
    }

    /// Fix point with whole segments as tree fragments. When a pass
    /// finds no marks, the exhaustive scan has the last word on the
    /// returned flag; a clean bag passes through untouched.
    #[verifier::loop_isolation(false)]
    pub fn simple(&self, vr: LineRange, layout: &SpaceLayout, edges: &mut Vec<Segment>) -> (r:
        bool)
        requires
            vr.min <= vr.max,
            layout.power <= 12,
            all_well_formed(old(edges)@),
            sorted_by_a(old(edges)@),
            old(edges)@.len() > 0,
        ensures
            all_well_formed(final(edges)@),
            sorted_by_a(final(edges)@),
            final(edges)@.len() >= old(edges)@.len(),
            r <==> pairs_clean(final(edges)@),
            pairs_clean(old(edges)@) ==> final(edges)@ == old(edges)@,
            pairs_clean(old(edges)@) ==> r,
            all_within(final(edges)@, old(edges)@),
    {
        let ghost n0 = edges@.len();
        let mut tree = SegmentTree::new(vr, layout.power);
        let mut marks: Vec<LineMark> = Vec::new();
        proof {
            lemma_all_within_reflexive(edges@);
        }

        let mut round: usize = 0;
        while round < MAX_SPLIT_ROUNDS
            invariant
                tree.wf(),
                tree.no_fragments(),
                all_well_formed(edges@),
                sorted_by_a(edges@),
                edges@.len() >= n0,
                marks@.len() == 0,
                pairs_clean(old(edges)@) ==> edges@ == old(edges)@,
                all_within(edges@, old(edges)@),
            decreases MAX_SPLIT_ROUNDS - round,
        {
            whole_segment_pass(&mut tree, edges, &mut marks);

            if marks.len() == 0 {
                // the tree pass found nothing: confirm by the pair scan
                let _any_round = collect_marks_list(edges, &mut marks);
                if marks.len() == 0 {
                    return true;
                }
            }
            proof {
                // a clean bag never reaches the splitting step
                if pairs_clean(old(edges)@) {
                    assert(false);
                }
            }

            tree.clear();

            let ghost before = edges@;
            self.apply(&mut marks, edges);
            proof {
                lemma_all_within_trans(edges@, before, old(edges)@);
            }
            round += 1;
        }
        // round cap exhausted: the last scan delivers the verdict
        let _any_round = collect_marks_list(edges, &mut marks);
        marks.len() == 0
    }

    /// Fix point with per-strip fragments; falls back to whole segments
    /// when fragmenting inflates the bag too little to pay off. The
    /// convergence flag is confirmed by the exhaustive scan; a clean
    /// bag passes through untouched.
    #[verifier::loop_isolation(false)]
    pub fn complex(&self, vr: LineRange, layout: &SpaceLayout, edges: &mut Vec<Segment>) -> (r:
        bool)
        requires
            vr.min <= vr.max,
            layout.power <= 12,
            layout.min_size >= 1,
            all_well_formed(old(edges)@),
            sorted_by_a(old(edges)@),
            old(edges)@.len() > 0,
        ensures
            all_well_formed(final(edges)@),
            sorted_by_a(final(edges)@),
            final(edges)@.len() >= old(edges)@.len(),
            r <==> pairs_clean(final(edges)@),
            pairs_clean(old(edges)@) ==> final(edges)@ == old(edges)@,
            pairs_clean(old(edges)@) ==> r,
            all_within(final(edges)@, old(edges)@),
    {
        let ghost n0 = edges@.len();
        let mut tree = SegmentTree::new(vr, layout.power);
        let mut marks: Vec<LineMark> = Vec::new();
        proof {
            lemma_all_within_reflexive(edges@);
        }

        let mut fragments: Vec<Fragment> = Vec::new();

        let mut round: usize = 0;
        while round < MAX_SPLIT_ROUNDS
            invariant
                tree.wf(),
                tree.no_fragments(),
                all_well_formed(edges@),
                sorted_by_a(edges@),
                edges@.len() >= n0,
                marks@.len() == 0,
                pairs_clean(old(edges)@) ==> edges@ == old(edges)@,
                all_within(edges@, old(edges)@),
            decreases MAX_SPLIT_ROUNDS - round,
        {
            fragments.clear();
            build_fragments(layout, edges, &mut fragments);

            if 100u128 * (fragments.len() as u128) <= 110u128 * (edges.len() as u128) {
                // fragmenting gains too little: switch to whole segments
                let ghost cur = edges@;
                let converged = self.simple(vr, layout, edges);
                proof {
                    lemma_all_within_trans(edges@, cur, old(edges)@);
                }
                return converged;
            }

            fragment_pass(&mut tree, edges, &fragments, &mut marks);

            if marks.len() == 0 {
                // the tree pass found nothing: confirm by the pair scan
                let _any_round = collect_marks_list(edges, &mut marks);
                if marks.len() == 0 {
                    return true;
                }
            }
            proof {
                // a clean bag never reaches the splitting step
                if pairs_clean(old(edges)@) {
                    assert(false);
                }
            }

            tree.clear();

            let ghost before = edges@;
            self.apply(&mut marks, edges);
            proof {
                lemma_all_within_trans(edges@, before, old(edges)@);
            }
            round += 1;
        }
        // round cap exhausted: the last scan delivers the verdict
        let _any_round = collect_marks_list(edges, &mut marks);
        marks.len() == 0
    }
}

} // verus!
