//! Integer geometry kernel: cross-product direction test and the two
//! segment-intersection predicates (loose and strict).

use vstd::prelude::*;
use crate::Point;

verus! {

/// Largest magnitude a walk vertex coordinate may have.  The kernel's 64-bit
/// arithmetic is overflow-free for points within this bound.
pub const MAX_VERTEX: i64 = 0x2000_0000;

pub open spec fn pt_in_range(p: Point<i64>) -> bool {
    -MAX_VERTEX <= p.x <= MAX_VERTEX && -MAX_VERTEX <= p.y <= MAX_VERTEX
}

/// Signed area test: positive when `k` lies to one side of the oriented line
/// through `i` and `j`, negative on the other, zero when collinear.
pub open spec fn spec_direction(i: (int, int), j: (int, int), k: (int, int)) -> int {
    (k.0 - i.0) * (j.1 - i.1) - (j.0 - i.0) * (k.1 - i.1)
}

/// `k` lies within the axis-aligned bounding box of the segment `(i, j)`.
pub open spec fn spec_on_segment(i: (int, int), j: (int, int), k: (int, int)) -> bool {
    &&& (if i.0 <= j.0 { i.0 } else { j.0 }) <= k.0
    &&& k.0 <= (if i.0 >= j.0 { i.0 } else { j.0 })
    &&& (if i.1 <= j.1 { i.1 } else { j.1 }) <= k.1
    &&& k.1 <= (if i.1 >= j.1 { i.1 } else { j.1 })
}

/// The loose intersection test: the two signed cross-product pairs straddle.
/// It misses collinear overlaps and endpoint touches; it is the fast filter
/// used while sampling.
pub open spec fn spec_loose_intersect(p0: (int, int), p1: (int, int), p2: (int, int), p3: (int, int)) -> bool {
    let d1 = spec_direction(p2, p3, p0);
    let d2 = spec_direction(p2, p3, p1);
    let d3 = spec_direction(p0, p1, p2);
    let d4 = spec_direction(p0, p1, p3);
    ((d1 < 0) != (d2 < 0)) && ((d3 < 0) != (d4 < 0))
}

/// The strict intersection test: a proper crossing, or an endpoint lying on
/// the other segment.  True exactly when the two closed segments share a
/// point.
pub open spec fn spec_strict_intersect(p0: (int, int), p1: (int, int), p2: (int, int), p3: (int, int)) -> bool {
    let d1 = spec_direction(p2, p3, p0);
    let d2 = spec_direction(p2, p3, p1);
    let d3 = spec_direction(p0, p1, p2);
    let d4 = spec_direction(p0, p1, p3);
    ||| ((d1 > 0 && d2 < 0) || (d1 < 0 && d2 > 0)) && ((d3 > 0 && d4 < 0) || (d3 < 0 && d4 > 0))
    ||| d1 == 0 && spec_on_segment(p2, p3, p0)
    ||| d2 == 0 && spec_on_segment(p2, p3, p1)
    ||| d3 == 0 && spec_on_segment(p0, p1, p2)
    ||| d4 == 0 && spec_on_segment(p0, p1, p3)
}

/// Either flavour, chosen by the `strict` flag.
pub open spec fn spec_segments_intersect(
    p0: (int, int),
    p1: (int, int),
    p2: (int, int),
    p3: (int, int),
    strict: bool,
) -> bool {
    if strict {
        spec_strict_intersect(p0, p1, p2, p3)
    } else {
        spec_loose_intersect(p0, p1, p2, p3)
    }
}

pub fn direction(i: Point<i64>, j: Point<i64>, k: Point<i64>) -> (r: i64)
    requires
        pt_in_range(i),
        pt_in_range(j),
        pt_in_range(k),
    ensures
        r == spec_direction(i@, j@, k@),
{
    let a = k.x - i.x;
    let b = j.y - i.y;
    let c = j.x - i.x;
    let d = k.y - i.y;
    proof {
        assert(-0x1000_0000_0000_0000 <= a * b <= 0x1000_0000_0000_0000) by (nonlinear_arith)
            requires
                -0x4000_0000 <= a <= 0x4000_0000,
                -0x4000_0000 <= b <= 0x4000_0000,
        ;
        assert(-0x1000_0000_0000_0000 <= c * d <= 0x1000_0000_0000_0000) by (nonlinear_arith)
            requires
                -0x4000_0000 <= c <= 0x4000_0000,
                -0x4000_0000 <= d <= 0x4000_0000,
        ;
    }
    a * b - c * d
}

pub fn on_segment(i: Point<i64>, j: Point<i64>, k: Point<i64>) -> (r: bool)
    ensures
        r == spec_on_segment(i@, j@, k@),
{
    let lo_x = if i.x <= j.x { i.x } else { j.x };
    let hi_x = if i.x >= j.x { i.x } else { j.x };
    let lo_y = if i.y <= j.y { i.y } else { j.y };
    let hi_y = if i.y >= j.y { i.y } else { j.y };
    lo_x <= k.x && k.x <= hi_x && lo_y <= k.y && k.y <= hi_y
}

/// Decide whether the segments `(p[0], p[1])` and `(p[2], p[3])` intersect,
/// with the predicate flavour chosen by `strict`.
pub fn segments_intersect(p: [Point<i64>; 4], strict: bool) -> (r: bool)
    requires
        forall|i: int| 0 <= i < 4 ==> pt_in_range(#[trigger] p@[i]),
    ensures
        r == spec_segments_intersect(p@[0]@, p@[1]@, p@[2]@, p@[3]@, strict),
{
    let p0 = p[0];
    let p1 = p[1];
    let p2 = p[2];
    let p3 = p[3];
    let d1 = direction(p2, p3, p0);
    let d2 = direction(p2, p3, p1);
    let d3 = direction(p0, p1, p2);
    let d4 = direction(p0, p1, p3);
    if strict {
        if ((d1 > 0 && d2 < 0) || (d1 < 0 && d2 > 0)) && ((d3 > 0 && d4 < 0) || (d3 < 0 && d4 > 0)) {
            true
        } else if d1 == 0 && on_segment(p2, p3, p0) {
            true
        } else if d2 == 0 && on_segment(p2, p3, p1) {
            true
        } else if d3 == 0 && on_segment(p0, p1, p2) {
            true
        } else if d4 == 0 && on_segment(p0, p1, p3) {
            true
        } else {
            false
        }
    } else {
        let r = ((d1 ^ d2) & (d3 ^ d4)) < 0;
        proof {
            assert(((d1 ^ d2) & (d3 ^ d4)) < 0 <==> (((d1 < 0) != (d2 < 0)) && ((d3 < 0) != (d4
                < 0)))) by (bit_vector);
        }
        r
    }
}

/// Core geometric fact behind the loose-implies-strict law: a point `u`
/// (relative to an endpoint) that lies on the line of a segment `w` and whose
/// cross products with a straddling segment are suitably ordered lies within
/// the bounding box of `w`.
proof fn lemma_on_line_between(ux: int, uy: int, wx: int, wy: int, vx: int, vy: int)
    requires
        ux * wy == uy * wx,
        ({
            let s = ux * vy - uy * vx;
            let t = wx * vy - wy * vx;
            (t > 0 && 0 <= s <= t) || (t < 0 && t <= s <= 0)
        }),
    ensures
        (if 0 <= wx { 0 } else { wx }) <= ux <= (if 0 >= wx { 0 } else { wx }),
        (if 0 <= wy { 0 } else { wy }) <= uy <= (if 0 >= wy { 0 } else { wy }),
{
    let s = ux * vy - uy * vx;
    let t = wx * vy - wy * vx;
    assert(s * wx == ux * t && s * wy == uy * t) by (nonlinear_arith)
        requires
            ux * wy == uy * wx,
            s == ux * vy - uy * vx,
            t == wx * vy - wy * vx,
    ;
    if t > 0 {
        lemma_between_scaled(ux, wx, s, t);
        lemma_between_scaled(uy, wy, s, t);
    } else {
        assert((-s) * wx == ux * (-t) && (-s) * wy == uy * (-t)) by (nonlinear_arith)
            requires
                s * wx == ux * t,
                s * wy == uy * t,
        ;
        lemma_between_scaled(ux, wx, -s, -t);
        lemma_between_scaled(uy, wy, -s, -t);
    }
}

/// If `u * t == s * w` with `0 <= s <= t` and `t > 0`, then `u` lies between
/// `0` and `w`.
proof fn lemma_between_scaled(u: int, w: int, s: int, t: int)
    requires
        s * w == u * t,
        t > 0,
        0 <= s <= t,
    ensures
        (if 0 <= w { 0 } else { w }) <= u <= (if 0 >= w { 0 } else { w }),
{
    if w >= 0 {
        assert(u * t >= 0 && u * t <= t * w) by (nonlinear_arith)
            requires
                s * w == u * t,
                t > 0,
                0 <= s <= t,
                w >= 0,
        ;
        assert(u >= 0 && u <= w) by (nonlinear_arith)
            requires
                u * t >= 0,
                u * t <= t * w,
                t > 0,
        ;
    } else {
        assert(u * t <= 0 && u * t >= t * w) by (nonlinear_arith)
            requires
                s * w == u * t,
                t > 0,
                0 <= s <= t,
                w < 0,
        ;
        assert(u <= 0 && u >= w) by (nonlinear_arith)
            requires
                u * t <= 0,
                u * t >= t * w,
                t > 0,
        ;
    }
}

/// For every four points, a loose intersection is also a strict one: the
/// loose predicate accepts a subset of what the strict predicate accepts.
pub proof fn lemma_loose_implies_strict(p0: (int, int), p1: (int, int), p2: (int, int), p3: (int, int))
    ensures
        spec_loose_intersect(p0, p1, p2, p3) ==> spec_strict_intersect(p0, p1, p2, p3),
{
    if spec_loose_intersect(p0, p1, p2, p3) {
        let d1 = spec_direction(p2, p3, p0);
        let d2 = spec_direction(p2, p3, p1);
        let d3 = spec_direction(p0, p1, p2);
        let d4 = spec_direction(p0, p1, p3);
        if d1 != 0 && d2 != 0 && d3 != 0 && d4 != 0 {
            // Both pairs straddle properly.
        } else if d1 == 0 {
            // p0 lies on the line through p2 and p3.
            let ux = p0.0 - p2.0;
            let uy = p0.1 - p2.1;
            let wx = p3.0 - p2.0;
            let wy = p3.1 - p2.1;
            let vx = p1.0 - p0.0;
            let vy = p1.1 - p0.1;
            let s = ux * vy - uy * vx;
            let t = wx * vy - wy * vx;
            assert(ux * wy == uy * wx) by (nonlinear_arith)
                requires
                    (p0.0 - p2.0) * (p3.1 - p2.1) - (p3.0 - p2.0) * (p0.1 - p2.1) == 0,
                    ux == p0.0 - p2.0,
                    uy == p0.1 - p2.1,
                    wx == p3.0 - p2.0,
                    wy == p3.1 - p2.1,
            ;
            assert(d3 == -s && d4 == t - s) by (nonlinear_arith)
                requires
                    d3 == (p2.0 - p0.0) * (p1.1 - p0.1) - (p1.0 - p0.0) * (p2.1 - p0.1),
                    d4 == (p3.0 - p0.0) * (p1.1 - p0.1) - (p1.0 - p0.0) * (p3.1 - p0.1),
                    ux == p0.0 - p2.0,
                    uy == p0.1 - p2.1,
                    wx == p3.0 - p2.0,
                    wy == p3.1 - p2.1,
                    vx == p1.0 - p0.0,
                    vy == p1.1 - p0.1,
                    s == ux * vy - uy * vx,
                    t == wx * vy - wy * vx,
            ;
            lemma_on_line_between(ux, uy, wx, wy, vx, vy);
        } else if d2 == 0 {
            // p1 lies on the line through p2 and p3.
            let ux = p1.0 - p2.0;
            let uy = p1.1 - p2.1;
            let wx = p3.0 - p2.0;
            let wy = p3.1 - p2.1;
            let vx = p0.0 - p1.0;
            let vy = p0.1 - p1.1;
            let s = ux * vy - uy * vx;
            let t = wx * vy - wy * vx;
            assert(ux * wy == uy * wx) by (nonlinear_arith)
                requires
                    (p1.0 - p2.0) * (p3.1 - p2.1) - (p3.0 - p2.0) * (p1.1 - p2.1) == 0,
                    ux == p1.0 - p2.0,
                    uy == p1.1 - p2.1,
                    wx == p3.0 - p2.0,
                    wy == p3.1 - p2.1,
            ;
            assert(d3 == s && d4 == s - t) by (nonlinear_arith)
                requires
                    d3 == (p2.0 - p0.0) * (p1.1 - p0.1) - (p1.0 - p0.0) * (p2.1 - p0.1),
                    d4 == (p3.0 - p0.0) * (p1.1 - p0.1) - (p1.0 - p0.0) * (p3.1 - p0.1),
                    ux == p1.0 - p2.0,
                    uy == p1.1 - p2.1,
                    wx == p3.0 - p2.0,
                    wy == p3.1 - p2.1,
                    vx == p0.0 - p1.0,
                    vy == p0.1 - p1.1,
                    s == ux * vy - uy * vx,
                    t == wx * vy - wy * vx,
            ;
            lemma_on_line_between(ux, uy, wx, wy, vx, vy);
        } else if d3 == 0 {
            // p2 lies on the line through p0 and p1.
            let ux = p2.0 - p0.0;
            let uy = p2.1 - p0.1;
            let wx = p1.0 - p0.0;
            let wy = p1.1 - p0.1;
            let vx = p3.0 - p2.0;
            let vy = p3.1 - p2.1;
            let s = ux * vy - uy * vx;
            let t = wx * vy - wy * vx;
            assert(ux * wy == uy * wx) by (nonlinear_arith)
                requires
                    (p2.0 - p0.0) * (p1.1 - p0.1) - (p1.0 - p0.0) * (p2.1 - p0.1) == 0,
                    ux == p2.0 - p0.0,
                    uy == p2.1 - p0.1,
                    wx == p1.0 - p0.0,
                    wy == p1.1 - p0.1,
            ;
            assert(d1 == -s && d2 == t - s) by (nonlinear_arith)
                requires
                    d1 == (p0.0 - p2.0) * (p3.1 - p2.1) - (p3.0 - p2.0) * (p0.1 - p2.1),
                    d2 == (p1.0 - p2.0) * (p3.1 - p2.1) - (p3.0 - p2.0) * (p1.1 - p2.1),
                    ux == p2.0 - p0.0,
                    uy == p2.1 - p0.1,
                    wx == p1.0 - p0.0,
                    wy == p1.1 - p0.1,
                    vx == p3.0 - p2.0,
                    vy == p3.1 - p2.1,
                    s == ux * vy - uy * vx,
                    t == wx * vy - wy * vx,
            ;
            lemma_on_line_between(ux, uy, wx, wy, vx, vy);
        } else {
            // d4 == 0: p3 lies on the line through p0 and p1.
            let ux = p3.0 - p0.0;
            let uy = p3.1 - p0.1;
            let wx = p1.0 - p0.0;
            let wy = p1.1 - p0.1;
            let vx = p2.0 - p3.0;
            let vy = p2.1 - p3.1;
            let s = ux * vy - uy * vx;
            let t = wx * vy - wy * vx;
            assert(ux * wy == uy * wx) by (nonlinear_arith)
                requires
                    (p3.0 - p0.0) * (p1.1 - p0.1) - (p1.0 - p0.0) * (p3.1 - p0.1) == 0,
                    ux == p3.0 - p0.0,
                    uy == p3.1 - p0.1,
                    wx == p1.0 - p0.0,
                    wy == p1.1 - p0.1,
            ;
            assert(d1 == s && d2 == s - t) by (nonlinear_arith)
                requires
                    d1 == (p0.0 - p2.0) * (p3.1 - p2.1) - (p3.0 - p2.0) * (p0.1 - p2.1),
                    d2 == (p1.0 - p2.0) * (p3.1 - p2.1) - (p3.0 - p2.0) * (p1.1 - p2.1),
                    ux == p3.0 - p0.0,
                    uy == p3.1 - p0.1,
                    wx == p1.0 - p0.0,
                    wy == p1.1 - p0.1,
                    vx == p2.0 - p3.0,
                    vy == p2.1 - p3.1,
                    s == ux * vy - uy * vx,
                    t == wx * vy - wy * vx,
            ;
            lemma_on_line_between(ux, uy, wx, wy, vx, vy);
        }
    }
}

/// Negating all x coordinates (a mirror image) negates every direction test
/// and so leaves the strict intersection predicate unchanged.
pub proof fn lemma_intersect_flip_x(p0: (int, int), p1: (int, int), p2: (int, int), p3: (int, int))
    ensures
        spec_strict_intersect(
            (-p0.0, p0.1),
            (-p1.0, p1.1),
            (-p2.0, p2.1),
            (-p3.0, p3.1),
        ) == spec_strict_intersect(p0, p1, p2, p3),
{
    lemma_direction_flip_x(p2, p3, p0);
    lemma_direction_flip_x(p2, p3, p1);
    lemma_direction_flip_x(p0, p1, p2);
    lemma_direction_flip_x(p0, p1, p3);
    assert(spec_on_segment((-p2.0, p2.1), (-p3.0, p3.1), (-p0.0, p0.1)) == spec_on_segment(
        p2,
        p3,
        p0,
    ));
    assert(spec_on_segment((-p2.0, p2.1), (-p3.0, p3.1), (-p1.0, p1.1)) == spec_on_segment(
        p2,
        p3,
        p1,
    ));
    assert(spec_on_segment((-p0.0, p0.1), (-p1.0, p1.1), (-p2.0, p2.1)) == spec_on_segment(
        p0,
        p1,
        p2,
    ));
    assert(spec_on_segment((-p0.0, p0.1), (-p1.0, p1.1), (-p3.0, p3.1)) == spec_on_segment(
        p0,
        p1,
        p3,
    ));
}

/// Negating all y coordinates likewise negates every direction test and
/// leaves the strict intersection predicate unchanged.
pub proof fn lemma_intersect_flip_y(p0: (int, int), p1: (int, int), p2: (int, int), p3: (int, int))
    ensures
        spec_strict_intersect(
            (p0.0, -p0.1),
            (p1.0, -p1.1),
            (p2.0, -p2.1),
            (p3.0, -p3.1),
        ) == spec_strict_intersect(p0, p1, p2, p3),
{
    lemma_direction_flip_y(p2, p3, p0);
    lemma_direction_flip_y(p2, p3, p1);
    lemma_direction_flip_y(p0, p1, p2);
    lemma_direction_flip_y(p0, p1, p3);
    assert(spec_on_segment((p2.0, -p2.1), (p3.0, -p3.1), (p0.0, -p0.1)) == spec_on_segment(
        p2,
        p3,
        p0,
    ));
    assert(spec_on_segment((p2.0, -p2.1), (p3.0, -p3.1), (p1.0, -p1.1)) == spec_on_segment(
        p2,
        p3,
        p1,
    ));
    assert(spec_on_segment((p0.0, -p0.1), (p1.0, -p1.1), (p2.0, -p2.1)) == spec_on_segment(
        p0,
        p1,
        p2,
    ));
    assert(spec_on_segment((p0.0, -p0.1), (p1.0, -p1.1), (p3.0, -p3.1)) == spec_on_segment(
        p0,
        p1,
        p3,
    ));
}

proof fn lemma_direction_flip_x(i: (int, int), j: (int, int), k: (int, int))
    ensures
        spec_direction((-i.0, i.1), (-j.0, j.1), (-k.0, k.1)) == -spec_direction(i, j, k),
{
    assert((-k.0 - (-i.0)) * (j.1 - i.1) - (-j.0 - (-i.0)) * (k.1 - i.1) == -((k.0 - i.0) * (j.1
        - i.1) - (j.0 - i.0) * (k.1 - i.1))) by (nonlinear_arith);
}

proof fn lemma_direction_flip_y(i: (int, int), j: (int, int), k: (int, int))
    ensures
        spec_direction((i.0, -i.1), (j.0, -j.1), (k.0, -k.1)) == -spec_direction(i, j, k),
{
    assert((k.0 - i.0) * (-j.1 - (-i.1)) - (j.0 - i.0) * (-k.1 - (-i.1)) == -((k.0 - i.0) * (j.1
        - i.1) - (j.0 - i.0) * (k.1 - i.1))) by (nonlinear_arith);
}

} // verus!
