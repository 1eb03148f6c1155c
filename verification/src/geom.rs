//! Geometric primitives: grid points, their packed sort key, vectors,
//! cross products and the triangle orientation test.
//!
//! All coordinates are 32-bit integers; every derived quantity
//! (differences, cross products) is computed in wider integers, so none
//! of the arithmetic here can overflow.

use vstd::prelude::*;

verus! {

/// A point on the integer grid.
#[derive(Clone, Copy, PartialEq, Eq, Structural, Debug)]
pub struct IntPoint {
    pub x: i32,
    pub y: i32,
}

/// The total order on points: compare `y` first, then `x`, realised as a
/// single integer so that one comparison decides the order.
pub open spec fn key(p: IntPoint) -> int {
    (p.y + 0x8000_0000) * 0x1_0000_0000 + (p.x + 0x8000_0000)
}

impl IntPoint {
    pub fn new(x: i32, y: i32) -> (r: IntPoint)
        ensures
            r == (IntPoint { x, y }),
    {
        IntPoint { x, y }
    }

    /// The packed sort key of the point: a 64-bit value whose integer
    /// order is the lexicographic order on (y, x).
    pub fn bit_pack(self) -> (r: u64)
        ensures
            r == key(self),
    {
        let yy = (self.y as i64 + 0x8000_0000) as u64;
        let xx = (self.x as i64 + 0x8000_0000) as u64;
        yy * 0x1_0000_0000 + xx
    }
}

/// The key realises the lexicographic (y, x) order and is injective.
pub proof fn lemma_key_order(p: IntPoint, q: IntPoint)
    ensures
        key(p) < key(q) <==> (p.y < q.y || (p.y == q.y && p.x < q.x)),
        key(p) == key(q) <==> p == q,
{
    assert(key(p) == key(q) <==> p == q) by {
        if key(p) == key(q) {
            assert((p.y - q.y) * 0x1_0000_0000 == q.x - p.x);
            assert(-0x1_0000_0000 < q.x - p.x < 0x1_0000_0000);
            if p.y != q.y {
                if p.y < q.y {
                    assert((p.y - q.y) * 0x1_0000_0000 <= -0x1_0000_0000);
                } else {
                    assert((p.y - q.y) * 0x1_0000_0000 >= 0x1_0000_0000);
                }
            }
            assert(p.y == q.y && p.x == q.x);
        }
    }
    assert(key(p) < key(q) <==> (p.y < q.y || (p.y == q.y && p.x < q.x))) by {
        if p.y < q.y {
            assert((p.y + 0x8000_0000) * 0x1_0000_0000 + 0x1_0000_0000 <= (q.y + 0x8000_0000)
                * 0x1_0000_0000);
        }
        if q.y < p.y {
            assert((q.y + 0x8000_0000) * 0x1_0000_0000 + 0x1_0000_0000 <= (p.y + 0x8000_0000)
                * 0x1_0000_0000);
        }
    }
}

/// The packed key always fits in 64 unsigned bits.
pub proof fn lemma_key_range(p: IntPoint)
    ensures
        0 <= key(p) < 0x1_0000_0000_0000_0000,
{
    assert((p.y + 0x8000_0000) * 0x1_0000_0000 <= 0xffff_ffff * 0x1_0000_0000);
    assert((p.y + 0x8000_0000) * 0x1_0000_0000 >= 0);
}

/// An integer vector, typically the difference of two points; its
/// components always fit well inside 33 bits.
#[derive(Clone, Copy, PartialEq, Eq, Structural, Debug)]
pub struct IntVec {
    pub x: i64,
    pub y: i64,
}

/// Bound on vector components that every difference of two points meets.
pub open spec fn vec_in_range(v: IntVec) -> bool {
    -0x1_0000_0000 <= v.x <= 0x1_0000_0000 && -0x1_0000_0000 <= v.y <= 0x1_0000_0000
}

/// Cross product of two vectors; its sign gives their relative rotation.
pub open spec fn cross(a: IntVec, b: IntVec) -> int {
    a.x * b.y - a.y * b.x
}

/// The vector from `b` to `a`.
pub fn subtract(a: IntPoint, b: IntPoint) -> (r: IntVec)
    ensures
        r.x == a.x - b.x,
        r.y == a.y - b.y,
        r == vec_between(a, b),
        vec_in_range(r),
{
    IntVec { x: a.x as i64 - b.x as i64, y: a.y as i64 - b.y as i64 }
}

pub fn cross_product(a: IntVec, b: IntVec) -> (r: i128)
    requires
        vec_in_range(a),
        vec_in_range(b),
    ensures
        r == cross(a, b),
{
    proof {
        lemma_mul_in_range(a.x as int, b.y as int);
        lemma_mul_in_range(a.y as int, b.x as int);
    }
    (a.x as i128) * (b.y as i128) - (a.y as i128) * (b.x as i128)
}

/// Product of two 33-bit quantities stays within 66 bits.
proof fn lemma_mul_in_range(x: int, y: int)
    requires
        -0x1_0000_0000 <= x <= 0x1_0000_0000,
        -0x1_0000_0000 <= y <= 0x1_0000_0000,
    ensures
        -0x1_0000_0000_0000_0000_0 <= x * y <= 0x1_0000_0000_0000_0000_0,
{
    assert(-0x1_0000_0000_0000_0000_0 <= x * y <= 0x1_0000_0000_0000_0000_0) by (nonlinear_arith)
        requires
            -0x1_0000_0000 <= x <= 0x1_0000_0000,
            -0x1_0000_0000 <= y <= 0x1_0000_0000,
    ;
}

/// The vector leading from `c` to `p`.
pub open spec fn vec_between(p: IntPoint, c: IntPoint) -> IntVec {
    IntVec { x: (p.x - c.x) as i64, y: (p.y - c.y) as i64 }
}

/// Which of the candidate vectors `a` and `b` is reached first when
/// rotating clockwise away from the reference vector `v`: true for `a`.
pub open spec fn closer_in_rotation(v: IntVec, a: IntVec, b: IntVec) -> bool {
    let cross_a = cross(v, a);
    let cross_b = cross(v, b);
    if cross_a == 0 || cross_b == 0 {
        if cross_a == 0 {
            cross_b > 0
        } else {
            cross_a < 0
        }
    } else if !((cross_a > 0 && cross_b > 0) || (cross_a < 0 && cross_b < 0)) {
        cross_a < 0
    } else {
        cross(a, b) < 0
    }
}

impl IntVec {
    /// Rotation comparison between two candidate directions seen from
    /// `self`; collinear candidates are ordered by the other's side.
    pub fn is_closer_in_rotation_to(self, a: IntVec, b: IntVec) -> (r: bool)
        requires
            vec_in_range(self),
            vec_in_range(a),
            vec_in_range(b),
        ensures
            r == closer_in_rotation(self, a, b),
    {
        let cross_a = cross_product(self, a);
        let cross_b = cross_product(self, b);

        if cross_a == 0 || cross_b == 0 {
            // one candidate is collinear with the reference: the side of
            // the other candidate decides
            return if cross_a == 0 {
                cross_b > 0
            } else {
                cross_a < 0
            };
        }
        let same_side = (cross_a > 0 && cross_b > 0) || (cross_a < 0 && cross_b < 0);

        if !same_side {
            return cross_a < 0;
        }
        let cross_ab = cross_product(a, b);

        cross_ab < 0
    }
}

/// Twice the signed area of the triangle (a, b, c); positive when the
/// three points wind counter-clockwise.
pub open spec fn area_two(a: IntPoint, b: IntPoint, c: IntPoint) -> int {
    (b.x - a.x) * (c.y - a.y) - (b.y - a.y) * (c.x - a.x)
}

/// Twice the signed triangle area as a machine integer.
pub fn area_value(a: IntPoint, b: IntPoint, c: IntPoint) -> (r: i128)
    ensures
        r == area_two(a, b, c),
{
    let v1 = subtract(b, a);
    let v2 = subtract(c, a);
    cross_product(v1, v2)
}

/// The signed triangle area of grid points fits well within 67 bits.
pub proof fn lemma_area_two_bounds(a: IntPoint, b: IntPoint, c: IntPoint)
    ensures
        -0x4_0000_0000_0000_0000_0 < area_two(a, b, c) < 0x4_0000_0000_0000_0000_0,
{
    assert(-0x4_0000_0000_0000_0000_0 < (b.x - a.x) * (c.y - a.y) - (b.y - a.y) * (c.x - a.x)
        < 0x4_0000_0000_0000_0000_0) by (nonlinear_arith)
        requires
            -0x1_0000_0000 <= b.x - a.x <= 0x1_0000_0000,
            -0x1_0000_0000 <= c.y - a.y <= 0x1_0000_0000,
            -0x1_0000_0000 <= b.y - a.y <= 0x1_0000_0000,
            -0x1_0000_0000 <= c.x - a.x <= 0x1_0000_0000,
    ;
}

/// Orientation test: do the points a, b, c wind clockwise?
pub fn triangle_is_clockwise(a: IntPoint, b: IntPoint, c: IntPoint) -> (r: bool)
    ensures
        r == (area_two(a, b, c) < 0),
{
    let v1 = subtract(b, a);
    let v2 = subtract(c, a);
    cross_product(v1, v2) < 0
}

/// A point tagged with the index of the graph node it belongs to.
#[derive(Clone, Copy, PartialEq, Eq, Structural, Debug)]
pub struct IndexPoint {
    pub index: usize,
    pub point: IntPoint,
}

impl IndexPoint {
    pub fn new(index: usize, point: IntPoint) -> (r: IndexPoint)
        ensures
            r == (IndexPoint { index, point }),
    {
        IndexPoint { index, point }
    }
}

} // verus!
