//! The overlay graph: links between nodes, where a node gathers every
//! segment endpoint that falls on one geometric point.
//!
//! The builder walks the segment bag's `a` endpoints in their given
//! order, merged with the `b` endpoints in sorted key order; each
//! distinct point yields one node listing every incident link.

use vstd::prelude::*;
use crate::geom::{
    IntPoint, IndexPoint, key, lemma_key_order, lemma_key_range, closer_in_rotation, area_two,
    triangle_is_clockwise, subtract, vec_between,
};
use crate::segment::{Segment, all_well_formed, sorted_by_a};
use crate::index::EMPTY_INDEX;
use crate::layout::overlay_node::OverlayNode;
use crate::layout::overlay_link::{OverlayLink, other_point, point_at};

verus! {

/// A segment's `b` endpoint together with the segment's position.
#[derive(Clone, Copy, PartialEq, Eq, Structural, Debug)]
struct End {
    seg_index: usize,
    bit_pack: u64,
    point: IntPoint,
}

spec fn ends_sorted(s: Seq<End>) -> bool {
    forall|i: int, j: int|
        0 <= i <= j < s.len() ==> (#[trigger] s[i]).bit_pack <= (#[trigger] s[j]).bit_pack
}

/// Insertion sort of the end list by packed key; the result is a
/// permutation of the input.
fn sort_ends(src: &Vec<End>) -> (r: Vec<End>)
    ensures
        ends_sorted(r@),
        r@.to_multiset() == src@.to_multiset(),
        r@.len() == src@.len(),
{
    let mut out: Vec<End> = Vec::new();
    let mut i: usize = 0;
    proof {
        assert(src@.subrange(0, 0) =~= Seq::<End>::empty());
        assert(out@.to_multiset() =~= src@.subrange(0, 0).to_multiset());
    }
    while i < src.len()
        invariant
            i <= src@.len(),
            ends_sorted(out@),
            out@.to_multiset() == src@.subrange(0, i as int).to_multiset(),
            out@.len() == i,
        decreases src@.len() - i,
    {
        let e = src[i];
        let mut j: usize = 0;
        while j < out.len() && out[j].bit_pack <= e.bit_pack
            invariant
                j <= out@.len(),
                forall|k: int| 0 <= k < j ==> (#[trigger] out@[k]).bit_pack <= e.bit_pack,
            decreases out@.len() - j,
        {
            j += 1;
        }
        proof {
            vstd::seq_lib::to_multiset_insert(out@, j as int, e);
            assert(src@.subrange(0, i as int).push(e) =~= src@.subrange(0, i + 1));
            vstd::seq_lib::to_multiset_build(src@.subrange(0, i as int), e);
        }
        let ghost old_out = out@;
        out.insert(j, e);
        proof {
            assert forall|p: int, q: int| 0 <= p <= q < out@.len() implies (#[trigger] out@[p]).bit_pack
                <= (#[trigger] out@[q]).bit_pack by {
                if p < j && q < j {
                } else if p == j || q == j {
                    if q == j && p < j {
                        assert(out@[p] == old_out[p]);
                    }
                    if p == j && q > j {
                        assert(out@[q] == old_out[q - 1]);
                        assert(old_out[j as int].bit_pack > e.bit_pack);
                    }
                } else if p > j {
                    assert(out@[p] == old_out[p - 1]);
                    assert(out@[q] == old_out[q - 1]);
                } else {
                    assert(out@[p] == old_out[p]);
                    assert(out@[q] == old_out[q - 1]);
                    if q - 1 == j {
                    } else {
                        assert(old_out[j as int].bit_pack > e.bit_pack);
                    }
                }
            }
        }
        i += 1;
    }
    proof {
        assert(src@.subrange(0, src@.len() as int) =~= src@);
    }
    out
}

/// Position of the first link in a node's list that is neither visited
/// nor ignored, or -1 when every link is spent.
pub open spec fn first_candidate(
    indices: Seq<usize>,
    visited: Seq<bool>,
    ignore: int,
    k: int,
) -> int
    decreases indices.len() - k,
{
    if k < 0 || k >= indices.len() {
        -1
    } else if indices[k] as int != ignore && !visited[indices[k] as int] {
        k
    } else {
        first_candidate(indices, visited, ignore, k + 1)
    }
}

/// One fold step of the nearest-in-rotation search: among the remaining
/// admissible links, keep the one whose outgoing vector is reached first
/// when rotating from the incoming vector in the chosen direction.
pub open spec fn nearest_from(
    links: Seq<OverlayLink>,
    indices: Seq<usize>,
    visited: Seq<bool>,
    target: IndexPoint,
    center: IndexPoint,
    ignore: int,
    in_clockwise: bool,
    k: int,
    min_index: int,
) -> int
    decreases indices.len() - k,
{
    if k < 0 || k >= indices.len() {
        min_index
    } else {
        let j = indices[k] as int;
        let next = if !visited[j] && j != ignore {
            let v0 = vec_between(target.point, center.point);
            let vj = vec_between(other_point(links[j], center), center.point);
            let vmin = vec_between(other_point(links[min_index], center), center.point);
            if closer_in_rotation(v0, vj, vmin) == in_clockwise {
                j
            } else {
                min_index
            }
        } else {
            min_index
        };
        nearest_from(links, indices, visited, target, center, ignore, in_clockwise, k + 1, next)
    }
}

/// The link chosen when the contour walk leaves `center`: the first
/// admissible link refined by the rotation comparison over the rest.
pub open spec fn spec_find_nearest(
    links: Seq<OverlayLink>,
    indices: Seq<usize>,
    visited: Seq<bool>,
    target: IndexPoint,
    center: IndexPoint,
    ignore: int,
    in_clockwise: bool,
) -> int {
    let p = first_candidate(indices, visited, ignore, 0);
    if p == -1 {
        EMPTY_INDEX as int
    } else {
        nearest_from(
            links,
            indices,
            visited,
            target,
            center,
            ignore,
            in_clockwise,
            p + 1,
            indices[p] as int,
        )
    }
}

/// One fold step of the first-link search: among the unvisited links of
/// a node, keep the one whose far endpoint is most clockwise around the
/// shared near endpoint.
pub open spec fn first_link_from(
    links: Seq<OverlayLink>,
    indices: Seq<usize>,
    visited: Seq<bool>,
    k: int,
    j: int,
) -> int
    decreases indices.len() - k,
{
    if k < 0 || k >= indices.len() {
        j
    } else {
        let i = indices[k] as int;
        let j2 = if !visited[i] {
            if j == EMPTY_INDEX as int {
                i
            } else if area_two(links[j].a.point, links[i].b.point, links[j].b.point) < 0 {
                i
            } else {
                j
            }
        } else {
            j
        };
        first_link_from(links, indices, visited, k + 1, j2)
    }
}

/// Shapes compiled into a node/link graph on which boolean operations
/// are evaluated: nodes gather the links meeting at one point, links
/// carry the fill tags of the split segments they came from.
pub struct OverlayGraph {
    pub nodes: Vec<OverlayNode>,
    pub links: Vec<OverlayLink>,
}

/// Length of the run of consecutive segments from `index` on whose `a`
/// endpoint packs to `point`.
fn size_segments(segments: &Vec<Segment>, point: u64, index: usize) -> (r: usize)
    requires
        index <= segments@.len(),
    ensures
        index + r <= segments@.len(),
        forall|m: int|
            index <= m < index + r ==> key((#[trigger] segments@[m]).x_segment.a) == point,
        index + r < segments@.len() ==> key(segments@[index + r].x_segment.a) != point,
{
    let mut i = index;
    while i < segments.len() && segments[i].x_segment.a.bit_pack() == point
        invariant
            index <= i <= segments@.len(),
            forall|m: int|
                index <= m < i ==> key((#[trigger] segments@[m]).x_segment.a) == point,
        decreases segments@.len() - i,
    {
        i += 1;
    }
    i - index
}

/// Length of the run of consecutive end entries from `index` on that
/// pack to `point`.
fn size_ends(ends: &Vec<End>, point: u64, index: usize) -> (r: usize)
    requires
        index <= ends@.len(),
    ensures
        index + r <= ends@.len(),
        forall|m: int| index <= m < index + r ==> (#[trigger] ends@[m]).bit_pack == point,
        index + r < ends@.len() ==> ends@[index + r].bit_pack != point,
{
    let mut i = index;
    while i < ends.len() && ends[i].bit_pack == point
        invariant
            index <= i <= ends@.len(),
            forall|m: int| index <= m < i ==> (#[trigger] ends@[m]).bit_pack == point,
        decreases ends@.len() - i,
    {
        i += 1;
    }
    i - index
}

/// Positions of a strictly key-increasing point sequence are fixed by
/// their points.
proof fn lemma_same_point_same_position(node_pts: Seq<IntPoint>, n1: int, n2: int)
    requires
        0 <= n1 < node_pts.len(),
        0 <= n2 < node_pts.len(),
        forall|m1: int, m2: int|
            0 <= m1 < m2 < node_pts.len() ==> key(#[trigger] node_pts[m1]) < key(
                #[trigger] node_pts[m2],
            ),
        node_pts[n1] == node_pts[n2],
    ensures
        n1 == n2,
{
    if n1 < n2 {
        assert(key(node_pts[n1]) < key(node_pts[n2]));
    }
    if n2 < n1 {
        assert(key(node_pts[n2]) < key(node_pts[n1]));
    }
}

/// The end entry that the segment at position `i` contributes.
spec fn end_of(segments: Seq<Segment>, i: int) -> End {
    End {
        seg_index: i as usize,
        bit_pack: key(segments[i].x_segment.b) as u64,
        point: segments[i].x_segment.b,
    }
}

/// Facts tying the sorted end list back to the segment bag: every entry
/// describes the `b` endpoint of the segment it indexes, and every
/// segment is described by at most one entry.
spec fn ends_facts(ends: Seq<End>, segments: Seq<Segment>) -> bool {
    &&& ends.len() == segments.len()
    &&& forall|k: int|
        0 <= k < ends.len() ==> {
            let e = #[trigger] ends[k];
            &&& (e.seg_index as int) < segments.len()
            &&& e.bit_pack == key(segments[e.seg_index as int].x_segment.b)
            &&& e.point == segments[e.seg_index as int].x_segment.b
        }
    &&& forall|k1: int, k2: int|
        0 <= k1 < k2 < ends.len() ==> (#[trigger] ends[k1]).seg_index != (
        #[trigger] ends[k2]).seg_index
}

impl OverlayGraph {
    /// The point at which a node gathers its links: the matching
    /// endpoint of the first listed link.
    pub open spec fn node_point(self, n0: int) -> IntPoint {
        point_at(self.links@[self.nodes@[n0].indices@[0] as int], n0)
    }

    /// Structural soundness: every link is listed at both of the nodes
    /// it references, and every listed link references the node back.
    pub open spec fn wf(self) -> bool {
        &&& forall|i: int|
            0 <= i < self.links@.len() ==> {
                let l = #[trigger] self.links@[i];
                &&& l.a.index < self.nodes@.len()
                &&& l.b.index < self.nodes@.len()
                &&& self.nodes@[l.a.index as int].indices@.contains(i as usize)
                &&& self.nodes@[l.b.index as int].indices@.contains(i as usize)
            }
        &&& forall|n0: int, k0: int|
            0 <= n0 < self.nodes@.len() && 0 <= k0 < self.nodes@[n0].indices@.len() ==> {
                let j = #[trigger] self.nodes@[n0].indices@[k0];
                &&& (j as int) < self.links@.len()
                &&& (self.links@[j as int].a.index == n0 || self.links@[j as int].b.index == n0)
            }
    }

    /// Build the graph from a bag of classified segments: one link per
    /// segment, one node per distinct endpoint, each node listing every
    /// link that starts or ends on its point.
    #[verifier::loop_isolation(false)]
    #[verifier::rlimit(100)]
    pub fn new(segments: Vec<Segment>) -> (r: Self)
        requires
            all_well_formed(segments@),
            sorted_by_a(segments@),
        ensures
            r.wf(),
            r.links@.len() == segments@.len(),
            forall|i: int|
                0 <= i < segments@.len() ==> {
                    let l = #[trigger] r.links@[i];
                    &&& l.fill == segments@[i].fill
                    &&& l.a.point == segments@[i].x_segment.a
                    &&& l.b.point == segments@[i].x_segment.b
                    &&& l.a.index != l.b.index
                },
            // all links listed at one node meet at one shared point
            forall|n0: int, k0: int, k1: int|
                0 <= n0 < r.nodes@.len() && 0 <= k0 < r.nodes@[n0].indices@.len() && 0 <= k1
                    < r.nodes@[n0].indices@.len() ==> point_at(
                    r.links@[(#[trigger] r.nodes@[n0].indices@[k0]) as int],
                    n0,
                ) == point_at(r.links@[(#[trigger] r.nodes@[n0].indices@[k1]) as int], n0),
            // point merging is complete: equal endpoint points share a node
            forall|i: int, j: int|
                0 <= i < segments@.len() && 0 <= j < segments@.len() ==> {
                    let li = #[trigger] r.links@[i];
                    let lj = #[trigger] r.links@[j];
                    &&& (li.a.point == lj.a.point ==> li.a.index == lj.a.index)
                    &&& (li.a.point == lj.b.point ==> li.a.index == lj.b.index)
                    &&& (li.b.point == lj.b.point ==> li.b.index == lj.b.index)
                },
            segments@.len() == 0 ==> r.nodes@.len() == 0,
            // every node gathers at least one link, and the nodes come
            // in strictly increasing point order
            forall|n0: int|
                0 <= n0 < r.nodes@.len() ==> (#[trigger] r.nodes@[n0]).indices@.len() >= 1,
            forall|n0: int, n1: int|
                0 <= n0 < n1 < r.nodes@.len() ==> key(#[trigger] r.node_point(n0)) < key(
                    #[trigger] r.node_point(n1),
                ),
    {
        let n = segments.len();

        if n == 0 {
            return Self { nodes: Vec::new(), links: Vec::new() };
        }

        let mut end_bs_raw: Vec<End> = Vec::with_capacity(n);
        let mut si: usize = 0;
        while si < n
            invariant
                si <= n,
                end_bs_raw@.len() == si,
                forall|k: int|
                    0 <= k < si ==> {
                        let e = #[trigger] end_bs_raw@[k];
                        &&& e.seg_index == k
                        &&& e.bit_pack == key(segments@[k].x_segment.b)
                        &&& e.point == segments@[k].x_segment.b
                    },
            decreases n - si,
        {
            end_bs_raw.push(
                End {
                    seg_index: si,
                    bit_pack: segments[si].x_segment.b.bit_pack(),
                    point: segments[si].x_segment.b,
                },
            );
            si += 1;
        }

        let end_bs = sort_ends(&end_bs_raw);

        proof {
            broadcast use vstd::seq_lib::group_to_multiset_ensures;

            assert(end_bs_raw@.no_duplicates()) by {
                assert forall|p: int, q: int|
                    0 <= p < end_bs_raw@.len() && 0 <= q < end_bs_raw@.len() && p != q implies
                    end_bs_raw@[p] != end_bs_raw@[q] by {
                    assert(end_bs_raw@[p].seg_index == p);
                    assert(end_bs_raw@[q].seg_index == q);
                }
            }
            end_bs_raw@.lemma_multiset_has_no_duplicates();
            end_bs@.lemma_multiset_has_no_duplicates_conv();
            assert forall|k: int| 0 <= k < end_bs@.len() implies {
                let e = #[trigger] end_bs@[k];
                &&& (e.seg_index as int) < n
                &&& e.bit_pack == key(segments@[e.seg_index as int].x_segment.b)
                &&& e.point == segments@[e.seg_index as int].x_segment.b
            } by {
                let e = end_bs@[k];
                assert(end_bs@.contains(e));
                assert(end_bs_raw@.to_multiset().count(e) > 0);
                assert(end_bs_raw@.contains(e));
                let p = choose|p: int| 0 <= p < end_bs_raw@.len() && end_bs_raw@[p] == e;
                assert(end_bs_raw@[p].seg_index == p);
            }
            assert(ends_facts(end_bs@, segments@)) by {
                assert forall|k1: int, k2: int| 0 <= k1 < k2 < end_bs@.len() implies (
                #[trigger] end_bs@[k1]).seg_index != (#[trigger] end_bs@[k2]).seg_index by {
                    if end_bs@[k1].seg_index == end_bs@[k2].seg_index {
                        assert(end_bs@[k1] == end_bs@[k2]);
                        assert(end_bs@.no_duplicates());
                    }
                }
            }
            // every segment owns an entry in the end list
            assert forall|i: int| 0 <= i < n implies #[trigger] end_bs@.contains(
                end_of(segments@, i),
            ) by {
                lemma_key_range(segments@[i].x_segment.b);
                assert(end_bs_raw@[i] == end_of(segments@, i));
                assert(end_bs_raw@.contains(end_of(segments@, i)));
                assert(end_bs@.to_multiset().count(end_of(segments@, i)) > 0);
            }
        }

        let empty_ip = IndexPoint::new(EMPTY_INDEX, IntPoint::new(0, 0));
        let mut links: Vec<OverlayLink> = Vec::with_capacity(n);
        let mut li: usize = 0;
        while li < n
            invariant
                li <= n,
                links@.len() == li,
                forall|i: int|
                    0 <= i < li ==> {
                        let l = #[trigger] links@[i];
                        &&& l.fill == segments@[i].fill
                        &&& l.a.index == EMPTY_INDEX
                        &&& l.b.index == EMPTY_INDEX
                    },
            decreases n - li,
        {
            links.push(OverlayLink::new(empty_ip, empty_ip, segments[li].fill));
            li += 1;
        }

        let mut nodes: Vec<OverlayNode> = Vec::new();
        let ghost mut node_pts: Seq<IntPoint> = Seq::empty();

        let mut ai: usize = 0;
        let mut bi: usize = 0;
        let mut a: u64 = segments[0].x_segment.a.bit_pack();
        let mut b: u64 = end_bs[0].bit_pack;

        while ai < n || bi < n
            invariant
                ai <= n,
                bi <= n,
                ai < n ==> a == key(segments@[ai as int].x_segment.a),
                bi < n ==> b == end_bs@[bi as int].bit_pack,
                bi == n ==> b == end_bs@[n - 1].bit_pack,
                ai < n ==> forall|m: int|
                    0 <= m < node_pts.len() ==> key(#[trigger] node_pts[m]) < a,
                bi < n ==> forall|m: int|
                    0 <= m < node_pts.len() ==> key(#[trigger] node_pts[m]) < b,
                forall|m1: int, m2: int|
                    0 <= m1 < m2 < node_pts.len() ==> key(#[trigger] node_pts[m1]) < key(
                        #[trigger] node_pts[m2],
                    ),
                forall|n0: int|
                    0 <= n0 < nodes@.len() ==> (#[trigger] nodes@[n0]).indices@.len() >= 1,
                links@.len() == n,
                node_pts.len() == nodes@.len(),
                forall|i: int| 0 <= i < n ==> (#[trigger] links@[i]).fill == segments@[i].fill,
                forall|i: int|
                    0 <= i < ai ==> {
                        let l = #[trigger] links@[i];
                        &&& (l.a.index as int) < nodes@.len()
                        &&& l.a.point == segments@[i].x_segment.a
                        &&& node_pts[l.a.index as int] == segments@[i].x_segment.a
                        &&& nodes@[l.a.index as int].indices@.contains(i as usize)
                    },
                forall|i: int| ai <= i < n ==> (#[trigger] links@[i]).a.index == EMPTY_INDEX,
                forall|k: int|
                    0 <= k < bi ==> {
                        let e = #[trigger] end_bs@[k];
                        let l = links@[e.seg_index as int];
                        &&& (l.b.index as int) < nodes@.len()
                        &&& l.b.point == segments@[e.seg_index as int].x_segment.b
                        &&& node_pts[l.b.index as int] == segments@[e.seg_index as int].x_segment.b
                        &&& nodes@[l.b.index as int].indices@.contains(e.seg_index)
                    },
                forall|k: int|
                    bi <= k < n ==> links@[(#[trigger] end_bs@[k]).seg_index as int].b.index
                        == EMPTY_INDEX,
                forall|n0: int, k0: int|
                    0 <= n0 < nodes@.len() && 0 <= k0 < nodes@[n0].indices@.len() ==> {
                        let j = #[trigger] nodes@[n0].indices@[k0] as int;
                        &&& j < n
                        &&& ((links@[j].a.index == n0 && links@[j].a.point == node_pts[n0]) || (
                        links@[j].b.index == n0 && links@[j].b.point == node_pts[n0]))
                    },
            decreases 2 * n - ai - bi,
        {
            let m = nodes.len();
            let ghost ai0 = ai as int;
            let ghost bi0 = bi as int;
            let ghost a0 = a;
            let ghost b0 = b;

            if a == b {
                let p = if ai < n {
                    segments[ai].x_segment.a
                } else {
                    end_bs[bi].point
                };
                let ip = IndexPoint::new(m, p);
                assert(a == key(p));

                let cnt_a = size_segments(&segments, a, ai);
                let cnt_b = size_ends(&end_bs, b, bi);
                let mut indices: Vec<usize> = Vec::with_capacity(cnt_a);
                indices.reserve(cnt_b);

                while ai < n && segments[ai].x_segment.a.bit_pack() == a
                    invariant
                        ai0 <= ai <= n,
                        indices@.len() >= ai - ai0,
                        links@.len() == n,
                        forall|i: int|
                            0 <= i < n ==> (#[trigger] links@[i]).fill == segments@[i].fill,
                        forall|i: int|
                            0 <= i < ai0 ==> {
                                let l = #[trigger] links@[i];
                                &&& (l.a.index as int) < nodes@.len()
                                &&& l.a.point == segments@[i].x_segment.a
                                &&& node_pts[l.a.index as int] == segments@[i].x_segment.a
                                &&& nodes@[l.a.index as int].indices@.contains(i as usize)
                            },
                        forall|i: int|
                            ai0 <= i < ai ==> {
                                let l = #[trigger] links@[i];
                                &&& l.a.index == m
                                &&& l.a.point == p
                                &&& segments@[i].x_segment.a == p
                                &&& indices@.contains(i as usize)
                            },
                        forall|i: int| ai <= i < n ==> (#[trigger] links@[i]).a.index
                            == EMPTY_INDEX,
                        forall|k: int|
                            0 <= k < bi ==> {
                                let e = #[trigger] end_bs@[k];
                                let l = links@[e.seg_index as int];
                                &&& (l.b.index as int) < nodes@.len()
                                &&& l.b.point == segments@[e.seg_index as int].x_segment.b
                                &&& node_pts[l.b.index as int] == segments@[e.seg_index
                                    as int].x_segment.b
                                &&& nodes@[l.b.index as int].indices@.contains(e.seg_index)
                            },
                        forall|k: int|
                            bi <= k < n ==> links@[(#[trigger] end_bs@[k]).seg_index
                                as int].b.index == EMPTY_INDEX,
                        forall|n0: int, k0: int|
                            0 <= n0 < nodes@.len() && 0 <= k0 < nodes@[n0].indices@.len() ==> {
                                let j = #[trigger] nodes@[n0].indices@[k0] as int;
                                &&& j < n
                                &&& ((links@[j].a.index == n0 && links@[j].a.point == node_pts[n0])
                                    || (links@[j].b.index == n0 && links@[j].b.point
                                    == node_pts[n0]))
                            },
                        forall|k0: int|
                            0 <= k0 < indices@.len() ==> {
                                let j = #[trigger] indices@[k0] as int;
                                &&& 0 <= j < n
                                &&& ((links@[j].a.index == m && links@[j].a.point == p) || (
                                links@[j].b.index == m && links@[j].b.point == p))
                            },
                    decreases n - ai,
                {
                    proof {
                        lemma_key_order(segments@[ai as int].x_segment.a, p);
                    }
                    let ghost old_links = links@;
                    let lk = links[ai];
                    links[ai] = OverlayLink { a: ip, b: lk.b, fill: lk.fill };
                    proof {
                        assert forall|i: int| 0 <= i < n implies (#[trigger] links@[i]).b
                            == old_links[i].b by {
                            if i == ai as int {
                            }
                        }
                    }
                    let ghost old_ind = indices@;
                    indices.push(ai);
                    proof {
                        assert(indices@[old_ind.len() as int] == ai);
                        assert forall|x: usize| old_ind.contains(x) implies #[trigger] indices@.contains(
                            x,
                        ) by {
                            let q = choose|q: int| 0 <= q < old_ind.len() && old_ind[q] == x;
                            assert(indices@[q] == x);
                        }
                    }
                    ai += 1;
                    proof {
                        assert forall|i: int| ai0 <= i < ai implies {
                            let l = #[trigger] links@[i];
                            &&& l.a.index == m
                            &&& l.a.point == p
                            &&& segments@[i].x_segment.a == p
                            &&& indices@.contains(i as usize)
                        } by {
                            if i < ai - 1 {
                                assert(old_links[i].a.index == m);
                                assert(old_ind.contains(i as usize));
                            } else {
                                assert(indices@[old_ind.len() as int] == ai - 1);
                            }
                        }
                    }
                }
                assert(ai0 < n ==> ai > ai0);
                if ai < n {
                    a = segments[ai].x_segment.a.bit_pack();
                }

                while bi < n && end_bs[bi].bit_pack == b
                    invariant
                        bi0 <= bi <= n,
                        indices@.len() >= ai - ai0 + bi - bi0,
                        forall|k: int| bi0 <= k < bi ==> (#[trigger] end_bs@[k]).bit_pack == b,
                        links@.len() == n,
                        forall|i: int|
                            0 <= i < n ==> (#[trigger] links@[i]).fill == segments@[i].fill,
                        forall|i: int|
                            0 <= i < ai0 ==> {
                                let l = #[trigger] links@[i];
                                &&& (l.a.index as int) < nodes@.len()
                                &&& l.a.point == segments@[i].x_segment.a
                                &&& node_pts[l.a.index as int] == segments@[i].x_segment.a
                                &&& nodes@[l.a.index as int].indices@.contains(i as usize)
                            },
                        forall|i: int|
                            ai0 <= i < ai ==> {
                                let l = #[trigger] links@[i];
                                &&& l.a.index == m
                                &&& l.a.point == p
                                &&& segments@[i].x_segment.a == p
                                &&& indices@.contains(i as usize)
                            },
                        forall|i: int| ai <= i < n ==> (#[trigger] links@[i]).a.index
                            == EMPTY_INDEX,
                        forall|k: int|
                            0 <= k < bi0 ==> {
                                let e = #[trigger] end_bs@[k];
                                let l = links@[e.seg_index as int];
                                &&& (l.b.index as int) < nodes@.len()
                                &&& l.b.point == segments@[e.seg_index as int].x_segment.b
                                &&& node_pts[l.b.index as int] == segments@[e.seg_index
                                    as int].x_segment.b
                                &&& nodes@[l.b.index as int].indices@.contains(e.seg_index)
                            },
                        forall|k: int|
                            bi0 <= k < bi ==> {
                                let e = #[trigger] end_bs@[k];
                                let l = links@[e.seg_index as int];
                                &&& l.b.index == m
                                &&& l.b.point == p
                                &&& segments@[e.seg_index as int].x_segment.b == p
                                &&& indices@.contains(e.seg_index)
                            },
                        forall|k: int|
                            bi <= k < n ==> links@[(#[trigger] end_bs@[k]).seg_index
                                as int].b.index == EMPTY_INDEX,
                        forall|n0: int, k0: int|
                            0 <= n0 < nodes@.len() && 0 <= k0 < nodes@[n0].indices@.len() ==> {
                                let j = #[trigger] nodes@[n0].indices@[k0] as int;
                                &&& j < n
                                &&& ((links@[j].a.index == n0 && links@[j].a.point == node_pts[n0])
                                    || (links@[j].b.index == n0 && links@[j].b.point
                                    == node_pts[n0]))
                            },
                        forall|k0: int|
                            0 <= k0 < indices@.len() ==> {
                                let j = #[trigger] indices@[k0] as int;
                                &&& 0 <= j < n
                                &&& ((links@[j].a.index == m && links@[j].a.point == p) || (
                                links@[j].b.index == m && links@[j].b.point == p))
                            },
                    decreases n - bi,
                {
                    let e = end_bs[bi];
                    proof {
                        lemma_key_order(e.point, p);
                    }
                    let ghost old_links = links@;
                    let lk = links[e.seg_index];
                    links[e.seg_index] = OverlayLink { a: lk.a, b: ip, fill: lk.fill };
                    proof {
                        assert forall|i: int| 0 <= i < n implies (#[trigger] links@[i]).a
                            == old_links[i].a by {
                            if i == e.seg_index as int {
                            }
                        }
                    }
                    let ghost old_ind = indices@;
                    indices.push(e.seg_index);
                    proof {
                        assert(indices@[old_ind.len() as int] == e.seg_index);
                        assert forall|x: usize| old_ind.contains(x) implies #[trigger] indices@.contains(
                            x,
                        ) by {
                            let q = choose|q: int| 0 <= q < old_ind.len() && old_ind[q] == x;
                            assert(indices@[q] == x);
                        }
                    }
                    bi += 1;
                    proof {
                        assert forall|i: int| ai0 <= i < ai implies {
                            let l = #[trigger] links@[i];
                            &&& l.a.index == m
                            &&& l.a.point == p
                            &&& segments@[i].x_segment.a == p
                            &&& indices@.contains(i as usize)
                        } by {
                            assert(old_links[i].a.index == m);
                            assert(old_ind.contains(i as usize));
                        }
                        assert forall|k: int| bi0 <= k < bi implies {
                            let e2 = #[trigger] end_bs@[k];
                            let l = links@[e2.seg_index as int];
                            &&& l.b.index == m
                            &&& l.b.point == p
                            &&& segments@[e2.seg_index as int].x_segment.b == p
                            &&& indices@.contains(e2.seg_index)
                        } by {
                            if k < bi - 1 {
                                assert(end_bs@[k].seg_index != end_bs@[bi - 1].seg_index);
                                assert(old_links[end_bs@[k].seg_index as int].b.index == m);
                                assert(old_ind.contains(end_bs@[k].seg_index));
                            } else {
                                assert(indices@[old_ind.len() as int] == end_bs@[k].seg_index);
                            }
                        }
                    }
                }
                assert(bi0 < n ==> bi > bi0);
                if bi < n {
                    b = end_bs[bi].bit_pack;
                }

                nodes.push(OverlayNode { indices });
                proof {
                    node_pts = node_pts.push(p);
                    assert(key(p) == a0);
                    if ai < n {
                        assert(key(segments@[ai0].x_segment.a) <= key(
                            segments@[ai as int].x_segment.a,
                        ));
                    }
                    if bi < n {
                        assert(end_bs@[bi0].bit_pack <= end_bs@[bi as int].bit_pack);
                    }
                }
            } else if ai < n && a < b {
                let p = segments[ai].x_segment.a;
                let ip = IndexPoint::new(m, p);
                assert(a == key(p));

                let cnt_a = size_segments(&segments, a, ai);
                let mut indices: Vec<usize> = Vec::with_capacity(cnt_a);

                while ai < n && segments[ai].x_segment.a.bit_pack() == a
                    invariant
                        ai0 <= ai <= n,
                        indices@.len() >= ai - ai0,
                        links@.len() == n,
                        forall|i: int|
                            0 <= i < n ==> (#[trigger] links@[i]).fill == segments@[i].fill,
                        forall|i: int|
                            0 <= i < ai0 ==> {
                                let l = #[trigger] links@[i];
                                &&& (l.a.index as int) < nodes@.len()
                                &&& l.a.point == segments@[i].x_segment.a
                                &&& node_pts[l.a.index as int] == segments@[i].x_segment.a
                                &&& nodes@[l.a.index as int].indices@.contains(i as usize)
                            },
                        forall|i: int|
                            ai0 <= i < ai ==> {
                                let l = #[trigger] links@[i];
                                &&& l.a.index == m
                                &&& l.a.point == p
                                &&& segments@[i].x_segment.a == p
                                &&& indices@.contains(i as usize)
                            },
                        forall|i: int| ai <= i < n ==> (#[trigger] links@[i]).a.index
                            == EMPTY_INDEX,
                        forall|k: int|
                            0 <= k < bi ==> {
                                let e = #[trigger] end_bs@[k];
                                let l = links@[e.seg_index as int];
                                &&& (l.b.index as int) < nodes@.len()
                                &&& l.b.point == segments@[e.seg_index as int].x_segment.b
                                &&& node_pts[l.b.index as int] == segments@[e.seg_index
                                    as int].x_segment.b
                                &&& nodes@[l.b.index as int].indices@.contains(e.seg_index)
                            },
                        forall|k: int|
                            bi <= k < n ==> links@[(#[trigger] end_bs@[k]).seg_index
                                as int].b.index == EMPTY_INDEX,
                        forall|n0: int, k0: int|
                            0 <= n0 < nodes@.len() && 0 <= k0 < nodes@[n0].indices@.len() ==> {
                                let j = #[trigger] nodes@[n0].indices@[k0] as int;
                                &&& j < n
                                &&& ((links@[j].a.index == n0 && links@[j].a.point == node_pts[n0])
                                    || (links@[j].b.index == n0 && links@[j].b.point
                                    == node_pts[n0]))
                            },
                        forall|k0: int|
                            0 <= k0 < indices@.len() ==> {
                                let j = #[trigger] indices@[k0] as int;
                                &&& 0 <= j < n
                                &&& ((links@[j].a.index == m && links@[j].a.point == p) || (
                                links@[j].b.index == m && links@[j].b.point == p))
                            },
                    decreases n - ai,
                {
                    proof {
                        lemma_key_order(segments@[ai as int].x_segment.a, p);
                    }
                    let ghost old_links = links@;
                    let lk = links[ai];
                    links[ai] = OverlayLink { a: ip, b: lk.b, fill: lk.fill };
                    proof {
                        assert forall|i: int| 0 <= i < n implies (#[trigger] links@[i]).b
                            == old_links[i].b by {
                            if i == ai as int {
                            }
                        }
                    }
                    let ghost old_ind = indices@;
                    indices.push(ai);
                    proof {
                        assert(indices@[old_ind.len() as int] == ai);
                        assert forall|x: usize| old_ind.contains(x) implies #[trigger] indices@.contains(
                            x,
                        ) by {
                            let q = choose|q: int| 0 <= q < old_ind.len() && old_ind[q] == x;
                            assert(indices@[q] == x);
                        }
                    }
                    ai += 1;
                    proof {
                        assert forall|i: int| ai0 <= i < ai implies {
                            let l = #[trigger] links@[i];
                            &&& l.a.index == m
                            &&& l.a.point == p
                            &&& segments@[i].x_segment.a == p
                            &&& indices@.contains(i as usize)
                        } by {
                            if i < ai - 1 {
                                assert(old_links[i].a.index == m);
                                assert(old_ind.contains(i as usize));
                            } else {
                                assert(indices@[old_ind.len() as int] == ai - 1);
                            }
                        }
                    }
                }
                assert(ai > ai0);
                if ai < n {
                    a = segments[ai].x_segment.a.bit_pack();
                }

                nodes.push(OverlayNode { indices });
                proof {
                    node_pts = node_pts.push(p);
                    assert(key(p) == a0);
                    if ai < n {
                        assert(key(segments@[ai0].x_segment.a) <= key(
                            segments@[ai as int].x_segment.a,
                        ));
                    }
                }
            } else {
                proof {
                    if bi >= n {
                        // impossible: the `b` cursor already passed the
                        // largest end key, yet some `a` key exceeds it
                        assert(end_bs@.contains(end_of(segments@, ai as int)));
                        let k = choose|k: int|
                            0 <= k < end_bs@.len() && end_bs@[k] == end_of(segments@, ai as int);
                        lemma_key_range(segments@[ai as int].x_segment.b);
                        assert(end_bs@[k].bit_pack <= end_bs@[n - 1].bit_pack);
                        assert(false);
                    }
                }
                let p = end_bs[bi].point;
                let ip = IndexPoint::new(m, p);

                let cnt_b = size_ends(&end_bs, b, bi);
                let mut indices: Vec<usize> = Vec::with_capacity(cnt_b);

                while bi < n && end_bs[bi].bit_pack == b
                    invariant
                        bi0 <= bi <= n,
                        indices@.len() >= bi - bi0,
                        forall|k: int| bi0 <= k < bi ==> (#[trigger] end_bs@[k]).bit_pack == b,
                        links@.len() == n,
                        forall|i: int|
                            0 <= i < n ==> (#[trigger] links@[i]).fill == segments@[i].fill,
                        forall|i: int|
                            0 <= i < ai ==> {
                                let l = #[trigger] links@[i];
                                &&& (l.a.index as int) < nodes@.len()
                                &&& l.a.point == segments@[i].x_segment.a
                                &&& node_pts[l.a.index as int] == segments@[i].x_segment.a
                                &&& nodes@[l.a.index as int].indices@.contains(i as usize)
                            },
                        forall|i: int| ai <= i < n ==> (#[trigger] links@[i]).a.index
                            == EMPTY_INDEX,
                        forall|k: int|
                            0 <= k < bi0 ==> {
                                let e = #[trigger] end_bs@[k];
                                let l = links@[e.seg_index as int];
                                &&& (l.b.index as int) < nodes@.len()
                                &&& l.b.point == segments@[e.seg_index as int].x_segment.b
                                &&& node_pts[l.b.index as int] == segments@[e.seg_index
                                    as int].x_segment.b
                                &&& nodes@[l.b.index as int].indices@.contains(e.seg_index)
                            },
                        forall|k: int|
                            bi0 <= k < bi ==> {
                                let e = #[trigger] end_bs@[k];
                                let l = links@[e.seg_index as int];
                                &&& l.b.index == m
                                &&& l.b.point == p
                                &&& segments@[e.seg_index as int].x_segment.b == p
                                &&& indices@.contains(e.seg_index)
                            },
                        forall|k: int|
                            bi <= k < n ==> links@[(#[trigger] end_bs@[k]).seg_index
                                as int].b.index == EMPTY_INDEX,
                        forall|n0: int, k0: int|
                            0 <= n0 < nodes@.len() && 0 <= k0 < nodes@[n0].indices@.len() ==> {
                                let j = #[trigger] nodes@[n0].indices@[k0] as int;
                                &&& j < n
                                &&& ((links@[j].a.index == n0 && links@[j].a.point == node_pts[n0])
                                    || (links@[j].b.index == n0 && links@[j].b.point
                                    == node_pts[n0]))
                            },
                        forall|k0: int|
                            0 <= k0 < indices@.len() ==> {
                                let j = #[trigger] indices@[k0] as int;
                                &&& 0 <= j < n
                                &&& ((links@[j].a.index == m && links@[j].a.point == p) || (
                                links@[j].b.index == m && links@[j].b.point == p))
                            },
                    decreases n - bi,
                {
                    let e = end_bs[bi];
                    proof {
                        lemma_key_order(e.point, p);
                    }
                    let ghost old_links = links@;
                    let lk = links[e.seg_index];
                    links[e.seg_index] = OverlayLink { a: lk.a, b: ip, fill: lk.fill };
                    proof {
                        assert forall|i: int| 0 <= i < n implies (#[trigger] links@[i]).a
                            == old_links[i].a by {
                            if i == e.seg_index as int {
                            }
                        }
                    }
                    let ghost old_ind = indices@;
                    indices.push(e.seg_index);
                    proof {
                        assert(indices@[old_ind.len() as int] == e.seg_index);
                        assert forall|x: usize| old_ind.contains(x) implies #[trigger] indices@.contains(
                            x,
                        ) by {
                            let q = choose|q: int| 0 <= q < old_ind.len() && old_ind[q] == x;
                            assert(indices@[q] == x);
                        }
                    }
                    bi += 1;
                    proof {
                        assert forall|i: int| ai0 <= i < ai implies {
                            let l = #[trigger] links@[i];
                            &&& l.a.index == m
                            &&& l.a.point == p
                            &&& segments@[i].x_segment.a == p
                            &&& indices@.contains(i as usize)
                        } by {
                            assert(old_links[i].a.index == m);
                            assert(old_ind.contains(i as usize));
                        }
                        assert forall|k: int| bi0 <= k < bi implies {
                            let e2 = #[trigger] end_bs@[k];
                            let l = links@[e2.seg_index as int];
                            &&& l.b.index == m
                            &&& l.b.point == p
                            &&& segments@[e2.seg_index as int].x_segment.b == p
                            &&& indices@.contains(e2.seg_index)
                        } by {
                            if k < bi - 1 {
                                assert(end_bs@[k].seg_index != end_bs@[bi - 1].seg_index);
                                assert(old_links[end_bs@[k].seg_index as int].b.index == m);
                                assert(old_ind.contains(end_bs@[k].seg_index));
                            } else {
                                assert(indices@[old_ind.len() as int] == end_bs@[k].seg_index);
                            }
                        }
                    }
                }
                assert(bi > bi0);
                if bi < n {
                    b = end_bs[bi].bit_pack;
                }

                nodes.push(OverlayNode { indices });
                proof {
                    node_pts = node_pts.push(p);
                    assert(key(p) == b0);
                    if bi < n {
                        assert(end_bs@[bi0].bit_pack <= end_bs@[bi as int].bit_pack);
                    }
                }
            }
        }

        let r = Self { nodes, links };
        proof {
            assert forall|i: int| 0 <= i < segments@.len() implies {
                let l = #[trigger] r.links@[i];
                &&& l.fill == segments@[i].fill
                &&& l.a.point == segments@[i].x_segment.a
                &&& l.b.point == segments@[i].x_segment.b
                &&& l.a.index != l.b.index
                &&& (l.a.index as int) < r.nodes@.len()
                &&& (l.b.index as int) < r.nodes@.len()
                &&& r.nodes@[l.a.index as int].indices@.contains(i as usize)
                &&& r.nodes@[l.b.index as int].indices@.contains(i as usize)
            } by {
                assert(end_bs@.contains(end_of(segments@, i)));
                let k = choose|k: int|
                    0 <= k < end_bs@.len() && end_bs@[k] == end_of(segments@, i);
                assert(end_bs@[k].seg_index == i);
                let l = r.links@[i];
                if l.a.index == l.b.index {
                    assert(node_pts[l.a.index as int] == segments@[i].x_segment.a);
                    assert(node_pts[l.b.index as int] == segments@[i].x_segment.b);
                    assert(segments@[i].x_segment.well_formed());
                }
            }
            assert forall|n0: int, k0: int, k1: int|
                0 <= n0 < r.nodes@.len() && 0 <= k0 < r.nodes@[n0].indices@.len() && 0 <= k1
                    < r.nodes@[n0].indices@.len() implies point_at(
                r.links@[(#[trigger] r.nodes@[n0].indices@[k0]) as int],
                n0,
            ) == point_at(r.links@[(#[trigger] r.nodes@[n0].indices@[k1]) as int], n0) by {
                let j0 = r.nodes@[n0].indices@[k0] as int;
                let j1 = r.nodes@[n0].indices@[k1] as int;
                assert(r.links@[j0].a.index != r.links@[j0].b.index);
                assert(r.links@[j1].a.index != r.links@[j1].b.index);
                assert(point_at(r.links@[j0], n0) == node_pts[n0]);
                assert(point_at(r.links@[j1], n0) == node_pts[n0]);
            }
            assert forall|i: int, j: int|
                0 <= i < segments@.len() && 0 <= j < segments@.len() implies {
                let li = #[trigger] r.links@[i];
                let lj = #[trigger] r.links@[j];
                &&& (li.a.point == lj.a.point ==> li.a.index == lj.a.index)
                &&& (li.a.point == lj.b.point ==> li.a.index == lj.b.index)
                &&& (li.b.point == lj.b.point ==> li.b.index == lj.b.index)
            } by {
                assert(end_bs@.contains(end_of(segments@, i)));
                let ki = choose|k: int|
                    0 <= k < end_bs@.len() && end_bs@[k] == end_of(segments@, i);
                assert(end_bs@[ki].seg_index == i);
                assert(end_bs@.contains(end_of(segments@, j)));
                let kj = choose|k: int|
                    0 <= k < end_bs@.len() && end_bs@[k] == end_of(segments@, j);
                assert(end_bs@[kj].seg_index == j);
                let li = r.links@[i];
                let lj = r.links@[j];
                assert(node_pts[li.a.index as int] == li.a.point);
                assert(node_pts[li.b.index as int] == li.b.point);
                assert(node_pts[lj.a.index as int] == lj.a.point);
                assert(node_pts[lj.b.index as int] == lj.b.point);
                if li.a.point == lj.a.point {
                    lemma_same_point_same_position(node_pts, li.a.index as int, lj.a.index as int);
                }
                if li.a.point == lj.b.point {
                    lemma_same_point_same_position(node_pts, li.a.index as int, lj.b.index as int);
                }
                if li.b.point == lj.b.point {
                    lemma_same_point_same_position(node_pts, li.b.index as int, lj.b.index as int);
                }
            }
            assert forall|n0: int| 0 <= n0 < r.nodes@.len() implies r.node_point(n0)
                == node_pts[n0] by {
                let j = r.nodes@[n0].indices@[0] as int;
                assert(r.links@[j].a.index != r.links@[j].b.index);
            }
            assert forall|n0: int, n1: int| 0 <= n0 < n1 < r.nodes@.len() implies key(
                #[trigger] r.node_point(n0),
            ) < key(#[trigger] r.node_point(n1)) by {
                assert(key(node_pts[n0]) < key(node_pts[n1]));
            }
        }
        r
    }

    /// The graph's links, one per classified segment.
    pub fn links(&self) -> (r: &Vec<OverlayLink>)
        ensures
            r == &self.links,
    {
        &self.links
    }

    /// The graph's nodes.
    pub fn nodes(&self) -> (r: &Vec<OverlayNode>)
        ensures
            r == &self.nodes,
    {
        &self.nodes
    }

    /// Among the links at `center`, skipping `ignore` and the visited
    /// ones, the link whose outgoing vector is closest in rotation to
    /// the vector towards `target`, rotating in the chosen direction.
    pub fn find_nearest_link_to(
        &self,
        target: IndexPoint,
        center: IndexPoint,
        ignore: usize,
        in_clockwise: bool,
        visited: &Vec<bool>,
    ) -> (r: usize)
        requires
            self.wf(),
            center.index < self.nodes@.len(),
            visited@.len() == self.links@.len(),
        ensures
            r as int == spec_find_nearest(
                self.links@,
                self.nodes@[center.index as int].indices@,
                visited@,
                target,
                center,
                ignore as int,
                in_clockwise,
            ),
    {
        let node = &self.nodes[center.index];
        let ghost indices = self.nodes@[center.index as int].indices@;

        let mut pos: usize = 0;
        while pos < node.indices.len() && (node.indices[pos] == ignore || visited[node.indices[pos]])
            invariant
                self.wf(),
                center.index < self.nodes@.len(),
                visited@.len() == self.links@.len(),
                node == &self.nodes@[center.index as int],
                indices == node.indices@,
                pos <= indices.len(),
                first_candidate(indices, visited@, ignore as int, 0) == first_candidate(
                    indices,
                    visited@,
                    ignore as int,
                    pos as int,
                ),
            decreases indices.len() - pos,
        {
            pos += 1;
        }
        if pos >= node.indices.len() {
            return EMPTY_INDEX;
        }
        let ghost p0 = pos as int;
        proof {
            assert(first_candidate(indices, visited@, ignore as int, p0) == p0);
        }

        let mut min_index = node.indices[pos];
        let mut min_vec = subtract(self.links[min_index].other(center).point, center.point);
        let v0 = subtract(target.point, center.point);  // base vector

        // compare min_vec with the rest of the vectors
        let mut i = pos + 1;
        while i < node.indices.len()
            invariant
                self.wf(),
                center.index < self.nodes@.len(),
                visited@.len() == self.links@.len(),
                node == &self.nodes@[center.index as int],
                indices == node.indices@,
                p0 + 1 <= i <= indices.len(),
                (min_index as int) < self.links@.len(),
                crate::geom::vec_in_range(min_vec),
                crate::geom::vec_in_range(v0),
                min_vec == vec_between(other_point(self.links@[min_index as int], center), center.point),
                v0 == vec_between(target.point, center.point),
                nearest_from(
                    self.links@,
                    indices,
                    visited@,
                    target,
                    center,
                    ignore as int,
                    in_clockwise,
                    i as int,
                    min_index as int,
                ) == nearest_from(
                    self.links@,
                    indices,
                    visited@,
                    target,
                    center,
                    ignore as int,
                    in_clockwise,
                    p0 + 1,
                    indices[p0] as int,
                ),
            decreases indices.len() - i,
        {
            let j = node.indices[i];
            if !visited[j] && ignore != j {
                let vj = subtract(self.links[j].other(center).point, center.point);

                if v0.is_closer_in_rotation_to(vj, min_vec) == in_clockwise {
                    min_vec = vj;
                    min_index = j;
                }
            }
            i += 1;
        }

        min_index
    }

    /// Among the unvisited links at the node, the one whose far endpoint
    /// lies most clockwise; the seed for a contour walk.
    pub fn find_first_link(&self, node_index: usize, visited: &Vec<bool>) -> (r: usize)
        requires
            self.wf(),
            node_index < self.nodes@.len(),
            visited@.len() == self.links@.len(),
        ensures
            r as int == first_link_from(
                self.links@,
                self.nodes@[node_index as int].indices@,
                visited@,
                0,
                EMPTY_INDEX as int,
            ),
    {
        let node = &self.nodes[node_index];
        let ghost indices = self.nodes@[node_index as int].indices@;
        let mut j: usize = EMPTY_INDEX;
        let mut k: usize = 0;
        while k < node.indices.len()
            invariant
                self.wf(),
                node_index < self.nodes@.len(),
                visited@.len() == self.links@.len(),
                node == &self.nodes@[node_index as int],
                indices == node.indices@,
                k <= indices.len(),
                j == EMPTY_INDEX || (j as int) < self.links@.len(),
                first_link_from(self.links@, indices, visited@, k as int, j as int)
                    == first_link_from(self.links@, indices, visited@, 0, EMPTY_INDEX as int),
            decreases indices.len() - k,
        {
            let i = node.indices[k];
            if !visited[i] {
                if j == EMPTY_INDEX {
                    j = i;
                } else {
                    let a = self.links[j].a.point;
                    let bj = self.links[j].b.point;
                    let bi = self.links[i].b.point;

                    if triangle_is_clockwise(a, bi, bj) {
                        j = i;
                    }
                }
            }
            k += 1;
        }

        j
    }

    /// The walking direction for a boundary link: clockwise exactly when
    /// the link's direct orientation and the filled side agree.
    pub fn is_clockwise(a: IntPoint, b: IntPoint, is_top_inside: bool) -> (r: bool)
        ensures
            r == ((key(a) < key(b)) == is_top_inside),
    {
        let is_direct = a.bit_pack() < b.bit_pack();
        Self::xnor(is_direct, is_top_inside)
    }

    /// Both or neither.
    pub fn xnor(a: bool, b: bool) -> (r: bool)
        ensures
            r == (a == b),
    {
        (a && b) || !(a || b)
    }
}

} // verus!
