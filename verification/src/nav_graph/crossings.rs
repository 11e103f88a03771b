//! Half-lines from a point and the segments they cross: what the order of
//! directions in a sweep says of the sides on which points lie.

use crate::coord_ext::turns_before;
use crate::geometry::{cross, Coordinate, Line};
use crate::intersection::{
    bounding_boxes_meet, lines_intersect, lines_intersect_properly, ray_intersects_properly,
    strictly_opposite_sides,
};
use vstd::prelude::*;

verus! {

/// The cross product of two plane vectors.
pub open spec fn cross_of(ux: int, uy: int, vx: int, vy: int) -> int {
    ux * vy - uy * vx
}

/// The half-line in the direction `w` passes strictly between the
/// directions `a` and `b`, on the side where they are less than a half turn
/// apart.
pub open spec fn passes_between(wx: int, wy: int, ax: int, ay: int, bx: int, by: int) -> bool {
    ||| (cross_of(wx, wy, ax, ay) > 0 && cross_of(wx, wy, bx, by) < 0 && cross_of(ax, ay, bx, by) < 0)
    ||| (cross_of(wx, wy, ax, ay) < 0 && cross_of(wx, wy, bx, by) > 0 && cross_of(ax, ay, bx, by) > 0)
}

/// For three plane vectors, the cross products of the pairs, each weighted
/// with the height of the third, cancel.
pub proof fn lemma_cross_products_cancel(ux: int, uy: int, vx: int, vy: int, wx: int, wy: int)
    ensures
        cross_of(ux, uy, vx, vy) * wy + cross_of(vx, vy, wx, wy) * uy + cross_of(wx, wy, ux, uy) * vy
            == 0,
        cross_of(ux, uy, vx, vy) == -cross_of(vx, vy, ux, uy),
{
    assert((ux * vy - uy * vx) * wy + (vx * wy - vy * wx) * uy + (wx * uy - wy * ux) * vy == 0)
        by (nonlinear_arith);
    assert(ux * vy - uy * vx == -(vx * uy - vy * ux)) by (nonlinear_arith);
}

/// The sign of a product of two numbers.
pub proof fn lemma_product_sign(a: int, b: int)
    ensures
        (a > 0 && b > 0) || (a < 0 && b < 0) ==> a * b > 0,
        (a > 0 && b < 0) || (a < 0 && b > 0) ==> a * b < 0,
        a == 0 || b == 0 ==> a * b == 0,
{
    assert((a > 0 && b > 0) || (a < 0 && b < 0) ==> a * b > 0) by (nonlinear_arith);
    assert((a > 0 && b < 0) || (a < 0 && b > 0) ==> a * b < 0) by (nonlinear_arith);
    assert(a == 0 || b == 0 ==> a * b == 0) by (nonlinear_arith);
}

/// The signs of the three weighted cross products of three vectors.
proof fn lemma_weighted_signs(ux: int, uy: int, vx: int, vy: int, wx: int, wy: int)
    ensures
        cross_of(ux, uy, vx, vy) * wy + cross_of(vx, vy, wx, wy) * uy + cross_of(wx, wy, ux, uy) * vy
            == 0,
        cross_of(ux, uy, vx, vy) == -cross_of(vx, vy, ux, uy),
        cross_of(vx, vy, wx, wy) == -cross_of(wx, wy, vx, vy),
        cross_of(wx, wy, ux, uy) == -cross_of(ux, uy, wx, wy),
        (cross_of(ux, uy, vx, vy) > 0 && wy > 0) || (cross_of(ux, uy, vx, vy) < 0 && wy < 0)
            ==> cross_of(ux, uy, vx, vy) * wy > 0,
        (cross_of(ux, uy, vx, vy) > 0 && wy < 0) || (cross_of(ux, uy, vx, vy) < 0 && wy > 0)
            ==> cross_of(ux, uy, vx, vy) * wy < 0,
        cross_of(ux, uy, vx, vy) == 0 || wy == 0 ==> cross_of(ux, uy, vx, vy) * wy == 0,
        (cross_of(vx, vy, wx, wy) > 0 && uy > 0) || (cross_of(vx, vy, wx, wy) < 0 && uy < 0)
            ==> cross_of(vx, vy, wx, wy) * uy > 0,
        (cross_of(vx, vy, wx, wy) > 0 && uy < 0) || (cross_of(vx, vy, wx, wy) < 0 && uy > 0)
            ==> cross_of(vx, vy, wx, wy) * uy < 0,
        cross_of(vx, vy, wx, wy) == 0 || uy == 0 ==> cross_of(vx, vy, wx, wy) * uy == 0,
        (cross_of(wx, wy, ux, uy) > 0 && vy > 0) || (cross_of(wx, wy, ux, uy) < 0 && vy < 0)
            ==> cross_of(wx, wy, ux, uy) * vy > 0,
        (cross_of(wx, wy, ux, uy) > 0 && vy < 0) || (cross_of(wx, wy, ux, uy) < 0 && vy > 0)
            ==> cross_of(wx, wy, ux, uy) * vy < 0,
        cross_of(wx, wy, ux, uy) == 0 || vy == 0 ==> cross_of(wx, wy, ux, uy) * vy == 0,
{
    lemma_cross_products_cancel(ux, uy, vx, vy, wx, wy);
    lemma_cross_products_cancel(vx, vy, wx, wy, ux, uy);
    lemma_cross_products_cancel(wx, wy, ux, uy, vx, vy);
    lemma_product_sign(cross_of(ux, uy, vx, vy), wy);
    lemma_product_sign(cross_of(vx, vy, wx, wy), uy);
    lemma_product_sign(cross_of(wx, wy, ux, uy), vy);
}

/// A half-line that passes between two directions, one of which comes
/// before it in the sweep and the other after it, finds the later one
/// counter-clockwise of the earlier one.
pub proof fn lemma_between_one_passed(xx: int, xy: int, wx: int, wy: int, yx: int, yy: int)
    requires
        turns_before(xx, xy, wx, wy),
        turns_before(wx, wy, yx, yy),
        passes_between(wx, wy, xx, xy, yx, yy),
    ensures
        cross_of(xx, xy, yx, yy) > 0,
{
    lemma_weighted_signs(xx, xy, wx, wy, yx, yy);
}

/// A half-line that passes between two directions that both come before it
/// in the sweep finds the earlier one counter-clockwise of the later one.
pub proof fn lemma_between_both_passed(yx: int, yy: int, xx: int, xy: int, wx: int, wy: int)
    requires
        turns_before(yx, yy, xx, xy),
        turns_before(xx, xy, wx, wy),
        passes_between(wx, wy, xx, xy, yx, yy),
    ensures
        cross_of(xx, xy, yx, yy) > 0,
{
    lemma_weighted_signs(yx, yy, xx, xy, wx, wy);
}

/// A half-line that passes between two directions that both come after it
/// in the sweep passes between them wherever it stood earlier in the sweep.
pub proof fn lemma_between_none_passed(
    zx: int,
    zy: int,
    wx: int,
    wy: int,
    ax: int,
    ay: int,
    bx: int,
    by: int,
)
    requires
        turns_before(zx, zy, wx, wy),
        turns_before(wx, wy, ax, ay),
        turns_before(wx, wy, bx, by),
        passes_between(wx, wy, ax, ay, bx, by),
    ensures
        passes_between(zx, zy, ax, ay, bx, by),
{
    lemma_weighted_signs(wx, wy, ax, ay, bx, by);
    lemma_weighted_signs(zx, zy, wx, wy, ax, ay);
    lemma_weighted_signs(zx, zy, wx, wy, bx, by);
    lemma_weighted_signs(zx, zy, ax, ay, bx, by);
}

/// The half-line from `p` through `w` passes strictly between the
/// directions from `p` to `a` and to `b`, on the side where they are less
/// than a half turn apart.
pub open spec fn passes_between_points(p: Coordinate, w: Coordinate, a: Coordinate, b: Coordinate) -> bool {
    passes_between(w.x - p.x, w.y - p.y, a.x - p.x, a.y - p.y, b.x - p.x, b.y - p.y)
}

/// The direction from `p` to `x` comes before the direction from `p` to `y`
/// in the sweep.
pub open spec fn direction_turns_before(p: Coordinate, x: Coordinate, y: Coordinate) -> bool {
    turns_before(x.x - p.x, x.y - p.y, y.x - p.x, y.y - p.y)
}

/// The cross product of the differences `v - u` and `t - u` of three
/// vectors, in cross products of the vectors themselves.
proof fn lemma_cross_of_differences(
    dx: int,
    dy: int,
    ex: int,
    ey: int,
    ux: int,
    uy: int,
    vx: int,
    vy: int,
    tx: int,
    ty: int,
)
    requires
        dx == vx - ux,
        dy == vy - uy,
        ex == tx - ux,
        ey == ty - uy,
    ensures
        dx * ey - dy * ex == (ux * vy - uy * vx) + (tx * uy - ty * ux) - (tx * vy - ty * vx),
{
    assert(dx * ey == vx * ty - vx * uy - ux * ty + ux * uy) by (nonlinear_arith)
        requires
            dx == vx - ux,
            ey == ty - uy,
    ;
    assert(dy * ex == vy * tx - vy * ux - uy * tx + uy * ux) by (nonlinear_arith)
        requires
            dy == vy - uy,
            ex == tx - ux,
    ;
    assert(vx * ty == ty * vx && vx * uy == uy * vx && ux * ty == ty * ux && vy * tx == tx * vy
        && vy * ux == ux * vy && uy * tx == tx * uy && ux * uy == uy * ux) by (nonlinear_arith);
}

/// The orientation tests around `p`, written with the vectors from `p`.
pub proof fn lemma_cross_around(p: Coordinate, w: Coordinate, a: Coordinate, b: Coordinate)
    ensures
        cross(p, w, a) == cross_of(w.x - p.x, w.y - p.y, a.x - p.x, a.y - p.y),
        cross(a, b, p) == cross_of(a.x - p.x, a.y - p.y, b.x - p.x, b.y - p.y),
        cross(a, b, w) == cross_of(a.x - p.x, a.y - p.y, b.x - p.x, b.y - p.y) + cross_of(
            w.x - p.x,
            w.y - p.y,
            a.x - p.x,
            a.y - p.y,
        ) - cross_of(w.x - p.x, w.y - p.y, b.x - p.x, b.y - p.y),
        cross_of(a.x - p.x, a.y - p.y, b.x - p.x, b.y - p.y) == -cross_of(
            b.x - p.x,
            b.y - p.y,
            a.x - p.x,
            a.y - p.y,
        ),
{
    let (tx, ty) = (w.x - p.x, w.y - p.y);
    let (ux, uy) = (a.x - p.x, a.y - p.y);
    let (vx, vy) = (b.x - p.x, b.y - p.y);
    lemma_cross_of_differences(b.x - a.x, b.y - a.y, p.x - a.x, p.y - a.y, ux, uy, vx, vy, 0, 0);
    lemma_cross_of_differences(b.x - a.x, b.y - a.y, w.x - a.x, w.y - a.y, ux, uy, vx, vy, tx, ty);
    assert(0 * uy - 0 * ux == 0 && 0 * vy - 0 * vx == 0) by (nonlinear_arith);
    assert(ux * vy - uy * vx == -(vx * uy - vy * ux)) by (nonlinear_arith);
}

/// A half-line passes between the ends of an edge exactly where it
/// properly crosses the edge, whichever way the edge runs.
pub proof fn lemma_passing_is_crossing(p: Coordinate, w: Coordinate, a: Coordinate, b: Coordinate)
    ensures
        passes_between_points(p, w, a, b) == ray_intersects_properly(
            p,
            w,
            Line { start: a, end: b },
        ),
        passes_between_points(p, w, a, b) == passes_between_points(p, w, b, a),
{
    lemma_cross_around(p, w, a, b);
    lemma_cross_around(p, w, b, a);
}

/// For three plane vectors, the cross products of the pairs, each weighted
/// with the breadth of the third, cancel.
proof fn lemma_cross_products_cancel_across(ux: int, uy: int, vx: int, vy: int, wx: int, wy: int)
    ensures
        cross_of(ux, uy, vx, vy) * wx + cross_of(vx, vy, wx, wy) * ux + cross_of(wx, wy, ux, uy) * vx
            == 0,
{
    assert((ux * vy - uy * vx) * wx + (vx * wy - vy * wx) * ux + (wx * uy - wy * ux) * vx == 0)
        by (nonlinear_arith);
}

/// Where a weighted mean of `a` and `b` is a weighted mean of zero and `w`,
/// the one pair does not lie wholly below the other.
proof fn lemma_no_gap(fa: int, fb: int, gp: int, a: int, b: int, w: int)
    requires
        fa > 0,
        fb < 0,
        gp < 0,
        fa - fb + gp > 0,
        fa * b + (-fb) * a == (-gp) * w,
    ensures
        !(a < 0 && a < w && b < 0 && b < w),
        !(a > 0 && a > w && b > 0 && b > w),
{
    let weight = fa - fb;
    if a < 0 && a < w && b < 0 && b < w {
        let low = if a < b {
            b
        } else {
            a
        };
        let high = if 0 < w {
            0
        } else {
            w
        };
        assert(fa * b <= fa * low) by (nonlinear_arith)
            requires
                fa > 0,
                b <= low,
        ;
        assert((-fb) * a <= (-fb) * low) by (nonlinear_arith)
            requires
                fb < 0,
                a <= low,
        ;
        assert(fa * low + (-fb) * low == weight * low) by (nonlinear_arith)
            requires
                weight == fa - fb,
        ;
        assert((-gp) * w >= (-gp) * high) by (nonlinear_arith)
            requires
                gp < 0,
                w >= high,
        ;
        assert(weight * low < (-gp) * high) by (nonlinear_arith)
            requires
                weight > 0,
                weight > -gp,
                -gp > 0,
                low < high,
                high <= 0,
        ;
    }
    if a > 0 && a > w && b > 0 && b > w {
        let low = if a < b {
            a
        } else {
            b
        };
        let high = if 0 < w {
            w
        } else {
            0
        };
        assert(fa * b >= fa * low) by (nonlinear_arith)
            requires
                fa > 0,
                b >= low,
        ;
        assert((-fb) * a >= (-fb) * low) by (nonlinear_arith)
            requires
                fb < 0,
                a >= low,
        ;
        assert(fa * low + (-fb) * low == weight * low) by (nonlinear_arith)
            requires
                weight == fa - fb,
        ;
        assert((-gp) * w <= (-gp) * high) by (nonlinear_arith)
            requires
                gp < 0,
                w <= high,
        ;
        assert(weight * low > (-gp) * high) by (nonlinear_arith)
            requires
                weight > 0,
                weight > -gp,
                -gp > 0,
                low > high,
                high >= 0,
        ;
    }
}

/// Two segments of which the first runs from the left of the second to its
/// right, and that cross properly, share the point in which they cross:
/// their bounding boxes meet.
proof fn lemma_crossing_boxes_meet(a: Coordinate, b: Coordinate, p: Coordinate, w: Coordinate)
    requires
        cross(p, w, a) > 0,
        cross(p, w, b) < 0,
        strictly_opposite_sides(a, b, p, w),
    ensures
        bounding_boxes_meet(Line { start: a, end: b }, Line { start: p, end: w }),
{
    let (tx, ty) = (w.x - p.x, w.y - p.y);
    let (ux, uy) = (a.x - p.x, a.y - p.y);
    let (vx, vy) = (b.x - p.x, b.y - p.y);
    lemma_cross_around(p, w, a, b);
    lemma_cross_around(p, w, b, a);
    let fa = cross_of(tx, ty, ux, uy);
    let fb = cross_of(tx, ty, vx, vy);
    let gp = cross_of(ux, uy, vx, vy);
    assert(fa == cross(p, w, a) && fb == cross(p, w, b));
    assert(gp == cross(a, b, p) && cross(a, b, w) == gp + fa - fb);
    lemma_cross_products_cancel_across(ux, uy, vx, vy, tx, ty);
    lemma_cross_products_cancel(ux, uy, vx, vy, tx, ty);
    lemma_cross_products_cancel(vx, vy, tx, ty, ux, uy);
    let back = cross_of(vx, vy, tx, ty);
    assert(back == -fb);
    assert(back * ux == (-fb) * ux);
    assert(back * uy == (-fb) * uy);
    assert(gp * tx == -((-gp) * tx)) by (nonlinear_arith);
    assert(gp * ty == -((-gp) * ty)) by (nonlinear_arith);
    lemma_no_gap(fa, fb, gp, ux, vx, tx);
    lemma_no_gap(fa, fb, gp, uy, vy, ty);
}

/// An edge that crosses a sight line properly meets it, and the half-line
/// along the sight line passes between the ends of the edge.
pub proof fn lemma_proper_crossing(p: Coordinate, w: Coordinate, a: Coordinate, b: Coordinate)
    requires
        lines_intersect_properly(Line { start: a, end: b }, Line { start: p, end: w }),
    ensures
        lines_intersect(Line { start: a, end: b }, Line { start: p, end: w }),
        passes_between_points(p, w, a, b),
{
    lemma_cross_around(p, w, a, b);
    lemma_cross_around(p, w, b, a);
    if cross(p, w, a) > 0 {
        lemma_crossing_boxes_meet(a, b, p, w);
    } else {
        lemma_crossing_boxes_meet(b, a, p, w);
    }
}

} // verus!
