//! Pairwise segment intersection: sign tests classify the configuration
//! of two segments, and a proper crossing yields a parametric
//! intersection point rounded to the integer grid.

use vstd::prelude::*;
use vstd::arithmetic::div_mod::{lemma_div_is_ordered, lemma_fundamental_div_mod_converse};
use vstd::arithmetic::mul::lemma_mul_inequality;
use crate::geom::{IntPoint, key, area_two, area_value, lemma_area_two_bounds};
use crate::segment::XSegment;

verus! {

/// A recorded split: the segment at `index` is to be cut at `point`.
#[derive(Clone, Copy, PartialEq, Eq, Structural, Debug)]
pub struct LineMark {
    pub index: usize,
    pub point: IntPoint,
}

/// `p` lies strictly between `a` and `b` in the point order.
pub open spec fn key_between(a: IntPoint, p: IntPoint, b: IntPoint) -> bool {
    key(a) < key(p) && key(p) < key(b)
}

/// `p` lies in the axis-aligned bounding box of the segment.
pub open spec fn in_box(p: IntPoint, s: XSegment) -> bool {
    &&& (s.a.x <= p.x <= s.b.x) || (s.b.x <= p.x <= s.a.x)
    &&& (s.a.y <= p.y <= s.b.y) || (s.b.y <= p.y <= s.a.y)
}

/// The pair yields no split mark: the segments lie strictly apart, touch
/// only at shared endpoints, or are collinear with no endpoint interior
/// to the other.
pub open spec fn crossing_clean(s1: XSegment, s2: XSegment) -> bool {
    let c_a2 = area_two(s1.a, s1.b, s2.a);
    let c_b2 = area_two(s1.a, s1.b, s2.b);
    let c_a1 = area_two(s2.a, s2.b, s1.a);
    let c_b1 = area_two(s2.a, s2.b, s1.b);
    if (c_a2 > 0 && c_b2 > 0) || (c_a2 < 0 && c_b2 < 0) {
        true
    } else if (c_a1 > 0 && c_b1 > 0) || (c_a1 < 0 && c_b1 < 0) {
        true
    } else if c_a2 == 0 && c_b2 == 0 {
        &&& !key_between(s1.a, s2.a, s1.b)
        &&& !key_between(s1.a, s2.b, s1.b)
        &&& !key_between(s2.a, s1.a, s2.b)
        &&& !key_between(s2.a, s1.b, s2.b)
    } else if c_a2 == 0 {
        !key_between(s1.a, s2.a, s1.b)
    } else if c_b2 == 0 {
        !key_between(s1.a, s2.b, s1.b)
    } else if c_a1 == 0 {
        !key_between(s2.a, s1.a, s2.b)
    } else if c_b1 == 0 {
        !key_between(s2.a, s1.b, s2.b)
    } else {
        false
    }
}

/// No segment of the bag holds a split mark against any other.
pub open spec fn pairs_clean(edges: Seq<crate::segment::Segment>) -> bool {
    forall|i: int, j: int|
        0 <= i < j < edges.len() ==> crossing_clean(
            (#[trigger] edges[i]).x_segment,
            (#[trigger] edges[j]).x_segment,
        )
}

/// Both endpoint pairs strictly straddle the other segment's line: the
/// segments cross at an interior point of each.
pub open spec fn properly_cross(s1: XSegment, s2: XSegment) -> bool {
    let c_a2 = area_two(s1.a, s1.b, s2.a);
    let c_b2 = area_two(s1.a, s1.b, s2.b);
    let c_a1 = area_two(s2.a, s2.b, s1.a);
    let c_b1 = area_two(s2.a, s2.b, s1.b);
    ((c_a2 > 0 && c_b2 < 0) || (c_a2 < 0 && c_b2 > 0)) && ((c_a1 > 0 && c_b1 < 0) || (c_a1 < 0
        && c_b1 > 0))
}

/// A segment yields no split mark against itself.
pub proof fn lemma_self_clean(s: XSegment)
    requires
        s.well_formed(),
    ensures
        crossing_clean(s, s),
{
    assert(area_two(s.a, s.b, s.a) == 0) by (nonlinear_arith);
    assert(area_two(s.a, s.b, s.b) == 0) by (nonlinear_arith);
}

/// A pair that yields no split mark never properly crosses.
pub proof fn lemma_clean_pair_never_crosses(s1: XSegment, s2: XSegment)
    requires
        crossing_clean(s1, s2),
    ensures
        !properly_cross(s1, s2),
{
}

/// After the splitter converges, no two segments of the bag properly
/// cross: every remaining intersection is at shared endpoints.
pub proof fn lemma_split_bag_never_crosses(edges: Seq<crate::segment::Segment>)
    requires
        pairs_clean(edges),
    ensures
        forall|i: int, j: int|
            0 <= i < j < edges.len() ==> !properly_cross(
                (#[trigger] edges[i]).x_segment,
                (#[trigger] edges[j]).x_segment,
            ),
{
    assert forall|i: int, j: int| 0 <= i < j < edges.len() implies !properly_cross(
        (#[trigger] edges[i]).x_segment,
        (#[trigger] edges[j]).x_segment,
    ) by {
        lemma_clean_pair_never_crosses(edges[i].x_segment, edges[j].x_segment);
    }
}

fn between(a: IntPoint, p: IntPoint, b: IntPoint) -> (r: bool)
    ensures
        r == key_between(a, p, b),
{
    a.bit_pack() < p.bit_pack() && p.bit_pack() < b.bit_pack()
}

/// Round n / d to the nearest integer, halves upward.
fn round_div(n: u128, d: u128) -> (r: u128)
    requires
        0 < d,
        n < 0x1_0000_0000_0000_0000_0000_0000_0000,
        d < 0x1_0000_0000_0000_0000_0000_0000_0000,
    ensures
        r == (2 * n + d) / (2 * d),
{
    (2 * n + d) / (2 * d)
}

/// The offset `delta` scaled by the ratio num / den and rounded; the
/// result keeps the sign of `delta` and never exceeds it in magnitude.
fn interp(num: i128, den: i128, delta: i64) -> (res: (i64, bool))
    requires
        0 < num < den,
        den < 0x8_0000_0000_0000_0000_0,
        -0x1_0000_0000 <= delta <= 0x1_0000_0000,
    ensures
        delta >= 0 ==> 0 <= res.0 <= delta,
        delta < 0 ==> delta <= res.0 <= 0,
        res.1 == (((num as int) * (if delta >= 0 {
            delta as int
        } else {
            -(delta as int)
        })) % (den as int) != 0),
{
    let mag: u128 = if delta >= 0 {
        delta as u128
    } else {
        (-(delta as i128)) as u128
    };
    proof {
        assert((num as int) * (mag as int) < 0x1_0000_0000_0000_0000_0000_0000_0000)
            by (nonlinear_arith)
            requires
                0 <= num < 0x8_0000_0000_0000_0000_0,
                0 <= mag <= 0x1_0000_0000,
        ;
        lemma_mul_inequality(num as int, den as int, mag as int);
        assert((den as int) * (mag as int) < 0x1_0000_0000_0000_0000_0000_0000_0000)
            by (nonlinear_arith)
            requires
                0 <= den < 0x8_0000_0000_0000_0000_0,
                0 <= mag <= 0x1_0000_0000,
        ;
    }
    let nd: u128 = (num as u128) * mag;
    let q = round_div(nd, den as u128);
    let rem = nd % (den as u128);
    proof {
        let d = den as int;
        let m = mag as int;
        let cap = 2 * (d * m) + d;
        assert(2 * (d * m) + d == m * (2 * d) + d) by (nonlinear_arith);
        assert(nd as int == (num as int) * (mag as int));
        assert(2 * (nd as int) + d <= cap);
        lemma_div_is_ordered(2 * (nd as int) + d, cap, 2 * d);
        lemma_fundamental_div_mod_converse(cap, 2 * d, m, d);
        assert(q <= mag);
    }
    if delta >= 0 {
        (q as i64, rem != 0)
    } else {
        (-(q as i64), rem != 0)
    }
}

/// The rounded intersection point of two properly crossing segments;
/// the flag reports whether rounding moved it off the exact rational
/// crossing. The point stays inside both segments' bounding box on each
/// axis of the first segment.
fn cross_point(s1: XSegment, s2: XSegment) -> (res: (IntPoint, bool))
    requires
        ({
            let c_a1 = area_two(s2.a, s2.b, s1.a);
            let c_b1 = area_two(s2.a, s2.b, s1.b);
            (c_a1 > 0 && c_b1 < 0) || (c_a1 < 0 && c_b1 > 0)
        }),
    ensures
        (s1.a.x <= res.0.x <= s1.b.x) || (s1.b.x <= res.0.x <= s1.a.x),
        (s1.a.y <= res.0.y <= s1.b.y) || (s1.b.y <= res.0.y <= s1.a.y),
{
    let c_a1 = area_value(s2.a, s2.b, s1.a);
    let c_b1 = area_value(s2.a, s2.b, s1.b);
    proof {
        lemma_area_two_bounds(s2.a, s2.b, s1.a);
        lemma_area_two_bounds(s2.a, s2.b, s1.b);
    }
    let mut num: i128 = c_a1;
    let mut den: i128 = c_a1 - c_b1;
    if den < 0 {
        num = -num;
        den = -den;
    }

    let dx: i64 = s1.b.x as i64 - s1.a.x as i64;
    let dy: i64 = s1.b.y as i64 - s1.a.y as i64;

    let (off_x, round_x) = interp(num, den, dx);
    let (off_y, round_y) = interp(num, den, dy);

    let x = (s1.a.x as i64 + off_x) as i32;
    let y = (s1.a.y as i64 + off_y) as i32;

    (IntPoint::new(x, y), round_x || round_y)
}

/// Classify the pair (s1, s2) and push the split marks it requires:
/// both halves of a proper crossing, or the segment whose interior an
/// endpoint of the other touches. Returns whether a pushed mark was
/// moved by rounding. No mark is pushed exactly when the pair is clean.
pub fn cross_segments(
    i: usize,
    j: usize,
    s1: XSegment,
    s2: XSegment,
    marks: &mut Vec<LineMark>,
) -> (any_round: bool)
    requires
        s1.well_formed(),
        s2.well_formed(),
    ensures
        final(marks)@.len() >= old(marks)@.len(),
        forall|k: int| 0 <= k < old(marks)@.len() ==> final(marks)@[k] == old(marks)@[k],
        forall|k: int|
            old(marks)@.len() <= k < final(marks)@.len() ==> (#[trigger] final(marks)@[k]).index
                == i || final(marks)@[k].index == j,
        (final(marks)@.len() == old(marks)@.len()) <==> crossing_clean(s1, s2),
        any_round ==> final(marks)@.len() > old(marks)@.len(),
        forall|k: int|
            old(marks)@.len() <= k < final(marks)@.len() ==> {
                let p = (#[trigger] final(marks)@[k]).point;
                in_box(p, s1) || p == s2.a || p == s2.b
            },
{
    let c_a2 = area_value(s1.a, s1.b, s2.a);
    let c_b2 = area_value(s1.a, s1.b, s2.b);
    if (c_a2 > 0 && c_b2 > 0) || (c_a2 < 0 && c_b2 < 0) {
        return false;
    }
    let c_a1 = area_value(s2.a, s2.b, s1.a);
    let c_b1 = area_value(s2.a, s2.b, s1.b);
    if (c_a1 > 0 && c_b1 > 0) || (c_a1 < 0 && c_b1 < 0) {
        return false;
    }

    if c_a2 == 0 && c_b2 == 0 {
        // collinear: each endpoint interior to the other segment splits it
        if between(s1.a, s2.a, s1.b) {
            marks.push(LineMark { index: i, point: s2.a });
        }
        if between(s1.a, s2.b, s1.b) {
            marks.push(LineMark { index: i, point: s2.b });
        }
        if between(s2.a, s1.a, s2.b) {
            marks.push(LineMark { index: j, point: s1.a });
        }
        if between(s2.a, s1.b, s2.b) {
            marks.push(LineMark { index: j, point: s1.b });
        }
        return false;
    }
    if c_a2 == 0 {
        if between(s1.a, s2.a, s1.b) {
            marks.push(LineMark { index: i, point: s2.a });
        }
        return false;
    }
    if c_b2 == 0 {
        if between(s1.a, s2.b, s1.b) {
            marks.push(LineMark { index: i, point: s2.b });
        }
        return false;
    }
    if c_a1 == 0 {
        if between(s2.a, s1.a, s2.b) {
            marks.push(LineMark { index: j, point: s1.a });
        }
        return false;
    }
    if c_b1 == 0 {
        if between(s2.a, s1.b, s2.b) {
            marks.push(LineMark { index: j, point: s1.b });
        }
        return false;
    }

    // proper crossing: both endpoint pairs strictly straddle
    let (p, rounded) = cross_point(s1, s2);
    if (p.x == s1.a.x && p.y == s1.a.y) || (p.x == s1.b.x && p.y == s1.b.y) {
        // rounding moved the crossing onto an endpoint of s1
        marks.push(LineMark { index: j, point: p });
    } else if (p.x == s2.a.x && p.y == s2.a.y) || (p.x == s2.b.x && p.y == s2.b.y) {
        marks.push(LineMark { index: i, point: p });
    } else {
        marks.push(LineMark { index: i, point: p });
        marks.push(LineMark { index: j, point: p });
    }
    rounded
}

} // verus!
