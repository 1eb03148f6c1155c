//! The split solver: fix-point resolution of segment crossings, by an
//! all-pairs list scan or the segment tree, chosen by policy.

use vstd::prelude::*;
use crate::geom::{IntPoint, key};
use crate::segment::{Segment, XSegment, all_well_formed, sorted_by_a};
use crate::split::cross_solver::{LineMark, cross_segments, crossing_clean, pairs_clean};

verus! {

/// The splitting strategy a solver applies.
#[derive(Clone, Copy, PartialEq, Eq, Structural, Debug)]
pub enum Strategy {
    List,
    Tree,
    Auto,
}

/// Policy for one boolean evaluation: the strategy and the chunk sizes
/// that steer the automatic choice.
#[derive(Clone, Copy, PartialEq, Eq, Structural, Debug)]
pub struct SplitSolver {
    pub strategy: Strategy,
    pub chunk_start_length: usize,
    pub chunk_list_max_size: usize,
}

/// Cap on fix-point rounds, guarding against pathological
/// non-convergence of rounding-induced re-splits.
pub const MAX_SPLIT_ROUNDS: usize = 10000;

/// Sort a segment bag by the key of the `a` endpoints; the result is a
/// permutation of the input, and an already sorted bag comes back
/// unchanged.
#[verifier::loop_isolation(false)]
pub fn sort_edges(src: &Vec<Segment>) -> (r: Vec<Segment>)
    ensures
        sorted_by_a(r@),
        r@.to_multiset() == src@.to_multiset(),
        r@.len() == src@.len(),
        sorted_by_a(src@) ==> r@ == src@,
{
    let mut out: Vec<Segment> = Vec::new();
    let mut i: usize = 0;
    proof {
        assert(src@.subrange(0, 0) =~= Seq::<Segment>::empty());
        assert(out@.to_multiset() =~= src@.subrange(0, 0).to_multiset());
    }
    while i < src.len()
        invariant
            i <= src@.len(),
            sorted_by_a(out@),
            out@.to_multiset() == src@.subrange(0, i as int).to_multiset(),
            out@.len() == i,
            sorted_by_a(src@) ==> out@ == src@.subrange(0, i as int),
        decreases src@.len() - i,
    {
        let e = src[i];
        let ek = e.x_segment.a.bit_pack();
        let mut j: usize = 0;
        while j < out.len() && out[j].x_segment.a.bit_pack() <= ek
            invariant
                j <= out@.len(),
                forall|k: int| 0 <= k < j ==> key((#[trigger] out@[k]).x_segment.a) <= key(
                    e.x_segment.a,
                ),
            decreases out@.len() - j,
        {
            j += 1;
        }
        proof {
            vstd::seq_lib::to_multiset_insert(out@, j as int, e);
            assert(src@.subrange(0, i as int).push(e) =~= src@.subrange(0, i + 1));
            vstd::seq_lib::to_multiset_build(src@.subrange(0, i as int), e);
        }
        let ghost old_out = out@;
        out.insert(j, e);
        proof {
            assert forall|p: int, q: int| 0 <= p <= q < out@.len() implies key(
                (#[trigger] out@[p]).x_segment.a,
            ) <= key((#[trigger] out@[q]).x_segment.a) by {
                if p < j && q < j {
                } else if p == j || q == j {
                    if q == j && p < j {
                        assert(out@[p] == old_out[p]);
                    }
                    if p == j && q > j {
                        assert(out@[q] == old_out[q - 1]);
                        assert(key(old_out[j as int].x_segment.a) > key(e.x_segment.a));
                    }
                } else if p > j {
                    assert(out@[p] == old_out[p - 1]);
                    assert(out@[q] == old_out[q - 1]);
                } else {
                    assert(out@[p] == old_out[p]);
                    assert(out@[q] == old_out[q - 1]);
                    if q - 1 == j {
                    } else {
                        assert(key(old_out[j as int].x_segment.a) > key(e.x_segment.a));
                    }
                }
            }
            if sorted_by_a(src@) {
                assert(old_out == src@.subrange(0, i as int));
                if j < old_out.len() {
                    assert(old_out[j as int] == src@[j as int]);
                    assert(key((src@[j as int]).x_segment.a) <= key((src@[i as int]).x_segment.a));
                    assert(false);
                }
                assert(out@ =~= src@.subrange(0, i + 1));
            }
        }
        i += 1;
    }
    proof {
        assert(src@.subrange(0, src@.len() as int) =~= src@);
    }
    out
}

/// Validity of the segments survives any permutation of the bag.
pub proof fn lemma_well_formed_permutation(s1: Seq<Segment>, s2: Seq<Segment>)
    requires
        s1.to_multiset() == s2.to_multiset(),
        all_well_formed(s1),
    ensures
        all_well_formed(s2),
{
    broadcast use vstd::seq_lib::group_to_multiset_ensures;

    assert forall|i: int| 0 <= i < s2.len() implies (
    #[trigger] s2[i]).x_segment.well_formed() by {
        assert(s2.contains(s2[i]));
        assert(s1.to_multiset().count(s2[i]) > 0);
        assert(s1.contains(s2[i]));
        let p = choose|p: int| 0 <= p < s1.len() && s1[p] == s2[i];
        assert(s1[p].x_segment.well_formed());
    }
}

/// `p` is one of the cut points that the marks record for the segment
/// at position `i`.
pub open spec fn is_cut_point(p: IntPoint, marks: Seq<LineMark>, i: int) -> bool {
    exists|k: int| 0 <= k < marks.len() && (#[trigger] marks[k]).index == i && marks[k].point == p
}

/// An endpoint a piece of the segment at `i` may have: one of the
/// original's endpoints or one of its recorded cut points.
pub open spec fn piece_end(p: IntPoint, orig: Segment, marks: Seq<LineMark>, i: int) -> bool {
    p == orig.x_segment.a || p == orig.x_segment.b || is_cut_point(p, marks, i)
}

/// `piece` is a part of the segment at position `i`: it carries the same
/// fill and both its endpoints come from the original's endpoints or its
/// recorded cut points.
pub open spec fn piece_of(piece: Segment, orig: Segment, marks: Seq<LineMark>, i: int) -> bool {
    &&& piece.fill == orig.fill
    &&& piece_end(piece.x_segment.a, orig, marks, i)
    &&& piece_end(piece.x_segment.b, orig, marks, i)
}

/// `piece` is a piece of some segment of `from`.
pub open spec fn has_origin(piece: Segment, from: Seq<Segment>, marks: Seq<LineMark>) -> bool {
    exists|i: int| 0 <= i < from.len() && piece_of(piece, from[i], marks, i)
}

/// Every segment of `pieces` is a piece of some segment of `from`.
pub open spec fn all_pieces(pieces: Seq<Segment>, from: Seq<Segment>, marks: Seq<LineMark>) -> bool {
    forall|k: int| 0 <= k < pieces.len() ==> has_origin(#[trigger] pieces[k], from, marks)
}

/// `piece` spans part of `orig` in the point order and carries its fill.
pub open spec fn sub_span_of(piece: Segment, orig: Segment) -> bool {
    &&& piece.fill == orig.fill
    &&& key(orig.x_segment.a) <= key(piece.x_segment.a)
    &&& key(piece.x_segment.b) <= key(orig.x_segment.b)
}

/// `piece` spans part of some segment of `from` and carries its fill.
pub open spec fn within_some(piece: Segment, from: Seq<Segment>) -> bool {
    exists|i: int| 0 <= i < from.len() && sub_span_of(piece, from[i])
}

/// Every segment of `pieces` spans part of some segment of `from`.
pub open spec fn all_within(pieces: Seq<Segment>, from: Seq<Segment>) -> bool {
    forall|k: int| 0 <= k < pieces.len() ==> within_some(#[trigger] pieces[k], from)
}

/// A bag spans itself.
pub proof fn lemma_all_within_reflexive(s: Seq<Segment>)
    ensures
        all_within(s, s),
{
    assert forall|k: int| 0 <= k < s.len() implies within_some(#[trigger] s[k], s) by {
        assert(sub_span_of(s[k], s[k]));
    }
}

/// Spanning chains across an intermediate bag.
pub proof fn lemma_all_within_trans(s3: Seq<Segment>, s2: Seq<Segment>, s1: Seq<Segment>)
    requires
        all_within(s3, s2),
        all_within(s2, s1),
    ensures
        all_within(s3, s1),
{
    assert forall|k: int| 0 <= k < s3.len() implies within_some(#[trigger] s3[k], s1) by {
        assert(within_some(s3[k], s2));
        let i = choose|i: int| 0 <= i < s2.len() && sub_span_of(s3[k], s2[i]);
        assert(within_some(s2[i], s1));
        let j = choose|j: int| 0 <= j < s1.len() && sub_span_of(s2[i], s1[j]);
        assert(sub_span_of(s3[k], s1[j]));
    }
}

/// A permutation spans the bag it permutes.
pub proof fn lemma_all_within_permutation(s2: Seq<Segment>, s1: Seq<Segment>)
    requires
        s2.to_multiset() == s1.to_multiset(),
    ensures
        all_within(s2, s1),
{
    broadcast use vstd::seq_lib::group_to_multiset_ensures;

    assert forall|k: int| 0 <= k < s2.len() implies within_some(#[trigger] s2[k], s1) by {
        assert(s2.contains(s2[k]));
        assert(s1.to_multiset().count(s2[k]) > 0);
        assert(s1.contains(s2[k]));
        let p = choose|p: int| 0 <= p < s1.len() && s1[p] == s2[k];
        assert(sub_span_of(s2[k], s1[p]));
    }
}

/// The segment at `i` is clean against all later segments below `hi`.
pub open spec fn row_clean(edges: Seq<Segment>, i: int, hi: int) -> bool {
    forall|j: int|
        i < j < hi ==> crossing_clean(edges[i].x_segment, (#[trigger] edges[j]).x_segment)
}

/// All rows before `hi` are clean against the whole bag.
pub open spec fn rows_clean(edges: Seq<Segment>, hi: int) -> bool {
    forall|ii: int| 0 <= ii < hi ==> #[trigger] row_clean(edges, ii, edges.len() as int)
}

/// Scan every pair once, pushing split marks; no mark comes back exactly
/// when the bag is pairwise clean.
#[verifier::loop_isolation(false)]
pub(crate) fn collect_marks_list(edges: &Vec<Segment>, marks: &mut Vec<LineMark>) -> (any_round:
    bool)
    requires
        all_well_formed(edges@),
        old(marks)@.len() == 0,
    ensures
        (final(marks)@.len() == 0) <==> pairs_clean(edges@),
        forall|q: int|
            0 <= q < final(marks)@.len() ==> (#[trigger] final(marks)@[q]).index < edges@.len(),
{
    let mut any_round = false;
    let n = edges.len();
    let mut i: usize = 0;
    while i < n
        invariant
            n == edges@.len(),
            i <= n,
            all_well_formed(edges@),
            marks@.len() == 0 ==> rows_clean(edges@, i as int),
            marks@.len() > 0 ==> !pairs_clean(edges@),
            forall|q: int| 0 <= q < marks@.len() ==> (#[trigger] marks@[q]).index < n,
        decreases n - i,
    {
        let mut j = i + 1;
        while j < n
            invariant
                n == edges@.len(),
                i < n,
                i + 1 <= j <= n,
                all_well_formed(edges@),
                marks@.len() == 0 ==> rows_clean(edges@, i as int),
                marks@.len() == 0 ==> row_clean(edges@, i as int, j as int),
                marks@.len() > 0 ==> !pairs_clean(edges@),
                forall|q: int| 0 <= q < marks@.len() ==> (#[trigger] marks@[q]).index < n,
            decreases n - j,
        {
            let ghost len_before = marks@.len();
            let r = cross_segments(i, j, edges[i].x_segment, edges[j].x_segment, marks);
            proof {
                if marks@.len() > len_before {
                    assert(!crossing_clean(
                        (edges@[i as int]).x_segment,
                        (edges@[j as int]).x_segment,
                    ));
                    assert(!pairs_clean(edges@));
                }
            }
            any_round = r || any_round;
            j += 1;
        }
        i += 1;
    }
    proof {
        if marks@.len() == 0 {
            assert forall|ii: int, jj: int| 0 <= ii < jj < edges@.len() implies crossing_clean(
                (#[trigger] edges@[ii]).x_segment,
                (#[trigger] edges@[jj]).x_segment,
            ) by {
                assert(row_clean(edges@, ii, edges@.len() as int));
            }
        }
    }
    any_round
}

impl SplitSolver {
    pub fn new(strategy: Strategy, chunk_start_length: usize, chunk_list_max_size: usize) -> (r:
        SplitSolver)
        ensures
            r == (SplitSolver { strategy, chunk_start_length, chunk_list_max_size }),
    {
        SplitSolver { strategy, chunk_start_length, chunk_list_max_size }
    }

    /// Cut every marked segment at its recorded points, dropping pieces
    /// that would be zero-length, and leave the bag sorted. The marks
    /// are consumed; with no marks the bag is left as it stands.
    #[verifier::loop_isolation(false)]
    pub fn apply(&self, marks: &mut Vec<LineMark>, edges: &mut Vec<Segment>)
        requires
            all_well_formed(old(edges)@),
            sorted_by_a(old(edges)@),
        ensures
            all_well_formed(final(edges)@),
            sorted_by_a(final(edges)@),
            final(edges)@.len() >= old(edges)@.len(),
            final(marks)@.len() == 0,
            old(marks)@.len() == 0 ==> final(edges)@ == old(edges)@,
            all_pieces(final(edges)@, old(edges)@, old(marks)@),
            all_within(final(edges)@, old(edges)@),
    {
        if marks.len() == 0 {
            proof {
                assert forall|k: int| 0 <= k < edges@.len() implies has_origin(
                    #[trigger] edges@[k],
                    edges@,
                    marks@,
                ) by {
                    assert(piece_of(edges@[k], edges@[k], marks@, k));
                }
                lemma_all_within_reflexive(edges@);
            }
            return;
        }
        let mut out: Vec<Segment> = Vec::new();
        let n = edges.len();
        let mut i: usize = 0;
        while i < n
            invariant
                n == edges@.len(),
                i <= n,
                all_well_formed(edges@),
                all_well_formed(out@),
                out@.len() >= i,
                marks@ == old(marks)@,
                all_pieces(out@, edges@, marks@),
                all_within(out@, edges@),
            decreases n - i,
        {
            let seg = edges[i];

            // the edge's cut points, gathered in key order
            let mut pts: Vec<IntPoint> = Vec::new();
            let mut mk: usize = 0;
            while mk < marks.len()
                invariant
                    mk <= marks@.len(),
                    forall|p: int, q: int|
                        0 <= p <= q < pts@.len() ==> key(#[trigger] pts@[p]) <= key(
                            #[trigger] pts@[q],
                        ),
                    forall|q: int|
                        0 <= q < pts@.len() ==> is_cut_point(#[trigger] pts@[q], marks@, i as int),
                decreases marks@.len() - mk,
            {
                let mrk = marks[mk];
                if mrk.index == i {
                    let pk = mrk.point.bit_pack();
                    let mut pos: usize = 0;
                    while pos < pts.len() && pts[pos].bit_pack() <= pk
                        invariant
                            pos <= pts@.len(),
                            forall|q: int| 0 <= q < pos ==> key(#[trigger] pts@[q]) <= key(
                                mrk.point,
                            ),
                        decreases pts@.len() - pos,
                    {
                        pos += 1;
                    }
                    let ghost old_pts = pts@;
                    pts.insert(pos, mrk.point);
                    proof {
                        assert forall|p: int, q: int| 0 <= p <= q < pts@.len() implies key(
                            #[trigger] pts@[p],
                        ) <= key(#[trigger] pts@[q]) by {
                            if p < pos && q < pos {
                            } else if p == pos || q == pos {
                                if q == pos && p < pos {
                                    assert(pts@[p] == old_pts[p]);
                                }
                                if p == pos && q > pos {
                                    assert(pts@[q] == old_pts[q - 1]);
                                    assert(key(old_pts[pos as int]) > key(mrk.point));
                                }
                            } else if p > pos {
                                assert(pts@[p] == old_pts[p - 1]);
                                assert(pts@[q] == old_pts[q - 1]);
                            } else {
                                assert(pts@[p] == old_pts[p]);
                                assert(pts@[q] == old_pts[q - 1]);
                                if q - 1 == pos {
                                } else {
                                    assert(key(old_pts[pos as int]) > key(mrk.point));
                                }
                            }
                        }
                        assert forall|q: int| 0 <= q < pts@.len() implies is_cut_point(
                            #[trigger] pts@[q],
                            marks@,
                            i as int,
                        ) by {
                            if q < pos {
                                assert(pts@[q] == old_pts[q]);
                            } else if q == pos {
                                assert(marks@[mk as int].index == i && marks@[mk as int].point
                                    == mrk.point);
                            } else {
                                assert(pts@[q] == old_pts[q - 1]);
                            }
                        }
                    }
                }
                mk += 1;
            }

            // cut at each point that advances strictly along the segment
            let mut prev = seg.x_segment.a;
            let mut q: usize = 0;
            proof {
                assert(edges@[i as int].x_segment.well_formed());
            }
            while q < pts.len()
                invariant
                    q <= pts@.len(),
                    key(seg.x_segment.a) <= key(prev),
                    key(prev) < key(seg.x_segment.b),
                    piece_end(prev, edges@[i as int], marks@, i as int),
                    all_well_formed(out@),
                    out@.len() >= i,
                    all_pieces(out@, edges@, marks@),
                    all_within(out@, edges@),
                decreases pts@.len() - q,
            {
                let p = pts[q];
                if prev.bit_pack() < p.bit_pack() && p.bit_pack() < seg.x_segment.b.bit_pack() {
                    out.push(
                        Segment { x_segment: XSegment { a: prev, b: p }, fill: seg.fill },
                    );
                    proof {
                        assert(piece_of(
                            out@[out@.len() - 1],
                            edges@[i as int],
                            marks@,
                            i as int,
                        ));
                        assert(has_origin(out@[out@.len() - 1], edges@, marks@));
                        assert(sub_span_of(out@[out@.len() - 1], edges@[i as int]));
                        assert(within_some(out@[out@.len() - 1], edges@));
                    }
                    prev = p;
                }
                q += 1;
            }
            out.push(
                Segment { x_segment: XSegment { a: prev, b: seg.x_segment.b }, fill: seg.fill },
            );
            proof {
                assert(piece_of(out@[out@.len() - 1], edges@[i as int], marks@, i as int));
                assert(has_origin(out@[out@.len() - 1], edges@, marks@));
                assert(sub_span_of(out@[out@.len() - 1], edges@[i as int]));
                assert(within_some(out@[out@.len() - 1], edges@));
            }
            i += 1;
        }

        let sorted = sort_edges(&out);
        proof {
            broadcast use vstd::seq_lib::group_to_multiset_ensures;

            lemma_well_formed_permutation(out@, sorted@);
            assert forall|k: int| 0 <= k < sorted@.len() implies has_origin(
                #[trigger] sorted@[k],
                edges@,
                marks@,
            ) by {
                assert(sorted@.contains(sorted@[k]));
                assert(out@.to_multiset().count(sorted@[k]) > 0);
                assert(out@.contains(sorted@[k]));
                let p2 = choose|p2: int| 0 <= p2 < out@.len() && out@[p2] == sorted@[k];
                assert(has_origin(out@[p2], edges@, marks@));
            }
            lemma_all_within_permutation(sorted@, out@);
            lemma_all_within_trans(sorted@, out@, edges@);
        }
        *edges = sorted;
        marks.clear();
    }

    /// All-pairs fix point: scan, apply, repeat until a scan finds no
    /// mark or the round cap runs out; a last scan then delivers the
    /// verdict. The flag holds exactly when the bag converged: no two
    /// segments properly cross and no endpoint lies interior to another
    /// segment. An already clean sorted bag comes back unchanged.
    #[verifier::loop_isolation(false)]
    pub fn list_split(&self, edges: &mut Vec<Segment>) -> (r: bool)
        requires
            all_well_formed(old(edges)@),
        ensures
            all_well_formed(final(edges)@),
            sorted_by_a(final(edges)@),
            final(edges)@.len() >= old(edges)@.len(),
            r <==> pairs_clean(final(edges)@),
            sorted_by_a(old(edges)@) && pairs_clean(old(edges)@) ==> final(edges)@ == old(
                edges,
            )@,
            sorted_by_a(old(edges)@) && pairs_clean(old(edges)@) ==> r,
            all_within(final(edges)@, old(edges)@),
    {
        let ghost n0 = edges@.len();
        let ghost orig = edges@;
        let sorted = sort_edges(edges);
        proof {
            lemma_well_formed_permutation(edges@, sorted@);
            lemma_all_within_permutation(sorted@, edges@);
        }
        *edges = sorted;

        let mut marks: Vec<LineMark> = Vec::new();
        let mut round: usize = 0;
        while round < MAX_SPLIT_ROUNDS
            invariant
                all_well_formed(edges@),
                sorted_by_a(edges@),
                edges@.len() >= n0,
                marks@.len() == 0,
                sorted_by_a(orig) && pairs_clean(orig) ==> edges@ == orig,
                all_within(edges@, orig),
            decreases MAX_SPLIT_ROUNDS - round,
        {
            let _any_round = collect_marks_list(edges, &mut marks);
            if marks.len() == 0 {
                return true;
            }
            let ghost before = edges@;
            self.apply(&mut marks, edges);
            proof {
                lemma_all_within_trans(edges@, before, orig);
            }
            round += 1;
        }
        // round cap exhausted: the last scan delivers the verdict
        let _any_round = collect_marks_list(edges, &mut marks);
        marks.len() == 0
    }

    /// Split with the policy's strategy; the automatic choice takes the
    /// list for small bags and the tree otherwise. The flag holds
    /// exactly when the bag converged to a crossing-free subdivision.
    pub fn split(&self, edges: &mut Vec<Segment>) -> (r: bool)
        requires
            all_well_formed(old(edges)@),
        ensures
            all_well_formed(final(edges)@),
            sorted_by_a(final(edges)@),
            final(edges)@.len() >= old(edges)@.len(),
            r <==> pairs_clean(final(edges)@),
            sorted_by_a(old(edges)@) && pairs_clean(old(edges)@) ==> final(edges)@ == old(
                edges,
            )@,
            sorted_by_a(old(edges)@) && pairs_clean(old(edges)@) ==> r,
            all_within(final(edges)@, old(edges)@),
    {
        if edges.len() == 0 {
            proof {
                lemma_all_within_reflexive(edges@);
            }
            return true;
        }
        match self.strategy {
            Strategy::List => self.list_split(edges),
            Strategy::Tree => self.tree_split(edges),
            Strategy::Auto => {
                if edges.len() <= self.chunk_list_max_size {
                    self.list_split(edges)
                } else {
                    self.tree_split(edges)
                }
            },
        }
    }
}

} // verus!
