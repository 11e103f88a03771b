//! Intersection predicates for segments and half-lines, decided by exact
//! orientation tests.

use crate::geometry::{cross, cross_product, Coordinate, Line};
use vstd::prelude::*;

verus! {

/// `c` and `d` lie strictly on the same side of the line through `a` and `b`.
pub open spec fn strictly_same_side(a: Coordinate, b: Coordinate, c: Coordinate, d: Coordinate) -> bool {
    ||| (cross(a, b, c) > 0 && cross(a, b, d) > 0)
    ||| (cross(a, b, c) < 0 && cross(a, b, d) < 0)
}

/// `c` and `d` lie strictly on opposite sides of the line through `a` and `b`.
pub open spec fn strictly_opposite_sides(
    a: Coordinate,
    b: Coordinate,
    c: Coordinate,
    d: Coordinate,
) -> bool {
    ||| (cross(a, b, c) > 0 && cross(a, b, d) < 0)
    ||| (cross(a, b, c) < 0 && cross(a, b, d) > 0)
}

/// The lesser of two numbers.
pub open spec fn min(a: int, b: int) -> int {
    if a <= b {
        a
    } else {
        b
    }
}

/// The greater of two numbers.
pub open spec fn max(a: int, b: int) -> int {
    if a >= b {
        a
    } else {
        b
    }
}

/// The bounding boxes of the two segments share a point.
pub open spec fn bounding_boxes_meet(p: Line, q: Line) -> bool {
    &&& max(min(p.start.x as int, p.end.x as int), min(q.start.x as int, q.end.x as int)) <= min(
        max(p.start.x as int, p.end.x as int),
        max(q.start.x as int, q.end.x as int),
    )
    &&& max(min(p.start.y as int, p.end.y as int), min(q.start.y as int, q.end.y as int)) <= min(
        max(p.start.y as int, p.end.y as int),
        max(q.start.y as int, q.end.y as int),
    )
}

/// The closed segments `p` and `q` share at least one point: they cross,
/// touch, or overlap.
pub open spec fn lines_intersect(p: Line, q: Line) -> bool {
    &&& bounding_boxes_meet(p, q)
    &&& !strictly_same_side(p.start, p.end, q.start, q.end)
    &&& !strictly_same_side(q.start, q.end, p.start, p.end)
}

/// The segments cross in a single point that is interior to both.
pub open spec fn lines_intersect_properly(p: Line, q: Line) -> bool {
    &&& strictly_opposite_sides(p.start, p.end, q.start, q.end)
    &&& strictly_opposite_sides(q.start, q.end, p.start, p.end)
}

/// The half-line from `origin` through `through` crosses the segment `edge`
/// in a point interior to the segment and different from `origin`.
pub open spec fn ray_intersects_properly(origin: Coordinate, through: Coordinate, edge: Line) -> bool {
    let side_start = cross(origin, through, edge.start);
    let side_end = cross(origin, through, edge.end);
    let side_origin = cross(edge.start, edge.end, origin);
    ||| (side_start > 0 && side_end < 0 && side_origin < 0)
    ||| (side_start < 0 && side_end > 0 && side_origin > 0)
}

fn min_i32(a: i32, b: i32) -> (r: i32)
    ensures
        r == min(a as int, b as int),
{
    if a <= b {
        a
    } else {
        b
    }
}

fn max_i32(a: i32, b: i32) -> (r: i32)
    ensures
        r == max(a as int, b as int),
{
    if a >= b {
        a
    } else {
        b
    }
}

fn boxes_meet(p: Line, q: Line) -> (r: bool)
    ensures
        r == bounding_boxes_meet(p, q),
{
    max_i32(min_i32(p.start.x, p.end.x), min_i32(q.start.x, q.end.x)) <= min_i32(
        max_i32(p.start.x, p.end.x),
        max_i32(q.start.x, q.end.x),
    ) && max_i32(min_i32(p.start.y, p.end.y), min_i32(q.start.y, q.end.y)) <= min_i32(
        max_i32(p.start.y, p.end.y),
        max_i32(q.start.y, q.end.y),
    )
}

/// Whether the closed segments share a point.
pub fn line_intersection(p: Line, q: Line) -> (r: bool)
    ensures
        r == lines_intersect(p, q),
{
    if !boxes_meet(p, q) {
        return false;
    }
    let p_q1 = cross_product(p.start, p.end, q.start);
    let p_q2 = cross_product(p.start, p.end, q.end);
    if (p_q1 > 0 && p_q2 > 0) || (p_q1 < 0 && p_q2 < 0) {
        return false;
    }
    let q_p1 = cross_product(q.start, q.end, p.start);
    let q_p2 = cross_product(q.start, q.end, p.end);
    !((q_p1 > 0 && q_p2 > 0) || (q_p1 < 0 && q_p2 < 0))
}

/// Whether the segments cross in a point interior to both.
pub fn proper_line_intersection(p: Line, q: Line) -> (r: bool)
    ensures
        r == lines_intersect_properly(p, q),
{
    let p_q1 = cross_product(p.start, p.end, q.start);
    let p_q2 = cross_product(p.start, p.end, q.end);
    if !((p_q1 > 0 && p_q2 < 0) || (p_q1 < 0 && p_q2 > 0)) {
        return false;
    }
    let q_p1 = cross_product(q.start, q.end, p.start);
    let q_p2 = cross_product(q.start, q.end, p.end);
    (q_p1 > 0 && q_p2 < 0) || (q_p1 < 0 && q_p2 > 0)
}

/// Whether the half-line that starts at `rho.start` and runs through
/// `rho.end` properly crosses `edge`.
pub fn get_proper_ray_line_intersection(rho: Line, edge: &Line) -> (r: bool)
    ensures
        r == ray_intersects_properly(rho.start, rho.end, *edge),
{
    let side_start = cross_product(rho.start, rho.end, edge.start);
    let side_end = cross_product(rho.start, rho.end, edge.end);
    if side_start > 0 && side_end < 0 {
        cross_product(edge.start, edge.end, rho.start) < 0
    } else if side_start < 0 && side_end > 0 {
        cross_product(edge.start, edge.end, rho.start) > 0
    } else {
        false
    }
}

/// A proper crossing does not depend on the direction either segment is
/// written in, nor on which segment is named first.
pub proof fn lemma_proper_intersection_symmetric(p: Line, q: Line)
    ensures
        lines_intersect_properly(p, q) == lines_intersect_properly(q, p),
        lines_intersect_properly(p, q) == lines_intersect_properly(
            p,
            Line { start: q.end, end: q.start },
        ),
        lines_intersect_properly(p, q) == lines_intersect_properly(
            Line { start: p.end, end: p.start },
            q,
        ),
{
    assert(cross(q.end, q.start, p.start) == -cross(q.start, q.end, p.start)) by (nonlinear_arith);
    assert(cross(q.end, q.start, p.end) == -cross(q.start, q.end, p.end)) by (nonlinear_arith);
    assert(cross(p.end, p.start, q.start) == -cross(p.start, p.end, q.start)) by (nonlinear_arith);
    assert(cross(p.end, p.start, q.end) == -cross(p.start, p.end, q.end)) by (nonlinear_arith);
}

/// Two segments that share an end never cross properly.
pub proof fn lemma_no_proper_intersection_at_shared_endpoint(edge: Line, p: Coordinate, w: Coordinate)
    requires
        edge.start == w || edge.end == w,
    ensures
        !lines_intersect_properly(edge, Line { start: p, end: w }),
        !lines_intersect_properly(edge, Line { start: w, end: p }),
{
    assert(cross(edge.start, edge.end, edge.start) == 0) by (nonlinear_arith);
    assert(cross(edge.start, edge.end, edge.end) == 0) by (nonlinear_arith);
}

} // verus!
