//! Directions, angles and distances between coordinates, all exact.
//!
//! An angle is kept as the direction vector that makes it; a pseudo-angle as
//! the fraction it stands for. Comparisons cross-multiply, so no rounding
//! enters any ordering decision. Distances are whole units, rounded up or
//! down as the caller asks.

use crate::geometry::{lemma_mul_bound, Coordinate};
use core::cmp::Ordering;
use vstd::prelude::*;

verus! {

/// Largest value either component of a difference of two coordinates takes.
pub const MAX_DELTA: i64 = 0xFFFF_FFFF;

/// Upper bound on the distance between any two coordinates, in units.
pub const MAX_DISTANCE: u64 = 0x2_0000_0000;

/// The counter-clockwise angle that the vector `(dx, dy)` makes with the
/// positive x axis, in `[0, full turn)`. The vector is never zero.
#[derive(Clone, Copy, Debug, PartialEq, Eq, Structural)]
pub struct Angle {
    pub dx: i64,
    pub dy: i64,
}

/// The fraction `num / den`, with `den > 0`: a number in `[-2, 2]` that grows
/// with the angle of a vector measured in `(-half turn, half turn]`, or `3`
/// for the zero vector, which has no direction.
#[derive(Clone, Copy, Debug, PartialEq, Eq, Structural)]
pub struct Pseudoangle {
    pub num: i64,
    pub den: i64,
}

/// The absolute value of `v`.
pub open spec fn abs(v: int) -> int {
    if v < 0 {
        -v
    } else {
        v
    }
}

impl Angle {
    /// The vector is not zero, and is the difference of two coordinates.
    pub open spec fn wf(self) -> bool {
        &&& -MAX_DELTA <= self.dx <= MAX_DELTA
        &&& -MAX_DELTA <= self.dy <= MAX_DELTA
        &&& (self.dx != 0 || self.dy != 0)
    }

    /// `0` for angles in `[0, half turn)`, `1` for `[half turn, full turn)`.
    pub open spec fn half(self) -> int {
        if self.dy > 0 || (self.dy == 0 && self.dx > 0) {
            0
        } else {
            1
        }
    }

    /// `self`'s angle is strictly smaller than `other`'s.
    pub open spec fn lt(self, other: Angle) -> bool {
        ||| self.half() < other.half()
        ||| (self.half() == other.half() && self.dx * other.dy - self.dy * other.dx > 0)
    }

    /// `self`'s angle is at most `other`'s.
    pub open spec fn le(self, other: Angle) -> bool {
        !other.lt(self)
    }

    /// `other`'s angle exceeds `self`'s by more than a half turn.
    pub open spec fn more_than_half_turn_below(self, other: Angle) -> bool {
        &&& self.half() == 0
        &&& other.half() == 1
        &&& self.dx * other.dy - self.dy * other.dx < 0
    }

    fn upper_half(&self) -> (r: bool)
        ensures
            r == (self.half() == 0),
    {
        self.dy > 0 || (self.dy == 0 && self.dx > 0)
    }

    /// Whether this angle is strictly smaller than `other`.
    pub fn is_less_than(&self, other: &Angle) -> (r: bool)
        requires
            self.wf(),
            other.wf(),
        ensures
            r == self.lt(*other),
    {
        let a = self.upper_half();
        let b = other.upper_half();
        if a != b {
            a
        } else {
            proof {
                lemma_mul_bound(self.dx as int, other.dy as int, MAX_DELTA as int);
                lemma_mul_bound(self.dy as int, other.dx as int, MAX_DELTA as int);
            }
            (self.dx as i128) * (other.dy as i128) - (self.dy as i128) * (other.dx as i128) > 0
        }
    }

    /// Whether `other`'s angle exceeds this one by more than a half turn.
    pub fn is_more_than_half_turn_below(&self, other: &Angle) -> (r: bool)
        requires
            self.wf(),
            other.wf(),
        ensures
            r == self.more_than_half_turn_below(*other),
    {
        if self.upper_half() && !other.upper_half() {
            proof {
                lemma_mul_bound(self.dx as int, other.dy as int, MAX_DELTA as int);
                lemma_mul_bound(self.dy as int, other.dx as int, MAX_DELTA as int);
            }
            (self.dx as i128) * (other.dy as i128) - (self.dy as i128) * (other.dx as i128) < 0
        } else {
            false
        }
    }
}

/// The direction from `from` to `to`; coincident points give the direction of
/// the positive x axis, the angle zero.
pub open spec fn angle_between_points(from: Coordinate, to: Coordinate) -> Angle {
    if from == to {
        Angle { dx: 1, dy: 0 }
    } else {
        Angle { dx: (to.x - from.x) as i64, dy: (to.y - from.y) as i64 }
    }
}

/// The angle that the direction to another point makes with the x axis.
pub trait AngleTo {
    spec fn angle_to_spec(&self, other: &Self) -> Angle;

    /// The angle of the vector from `self` to `other`.
    fn angle_to(&self, other: &Self) -> (a: Angle)
        ensures
            a == self.angle_to_spec(other),
            a.wf(),
    ;
}

impl AngleTo for Coordinate {
    open spec fn angle_to_spec(&self, other: &Self) -> Angle {
        angle_between_points(*self, *other)
    }

    fn angle_to(&self, other: &Self) -> (a: Angle) {
        if self.x == other.x && self.y == other.y {
            Angle { dx: 1, dy: 0 }
        } else {
            Angle { dx: other.x as i64 - self.x as i64, dy: other.y as i64 - self.y as i64 }
        }
    }
}

/// `angle` lies on the counter-clockwise arc from `low` to `high`, both ends
/// included. When `low` is not below `high` the arc wraps through zero.
pub open spec fn angle_is_between_spec(angle: Angle, low: Angle, high: Angle) -> bool {
    if low.lt(high) {
        low.le(angle) && angle.le(high)
    } else {
        low.le(angle) || angle.le(high)
    }
}

/// Check whether `angle` is between `low` and `high` (counter-clockwise).
pub fn angle_is_between(angle: Angle, low: Angle, high: Angle) -> (r: bool)
    requires
        angle.wf(),
        low.wf(),
        high.wf(),
    ensures
        r == angle_is_between_spec(angle, low, high),
{
    let low_le_angle = !angle.is_less_than(&low);
    let angle_le_high = !high.is_less_than(&angle);
    if low.is_less_than(&high) {
        low_le_angle && angle_le_high
    } else {
        low_le_angle || angle_le_high
    }
}

impl Pseudoangle {
    /// The denominator is positive, and both parts are within what the
    /// difference of two coordinates gives.
    pub open spec fn wf(self) -> bool {
        &&& 0 < self.den <= 2 * MAX_DELTA
        &&& -4 * MAX_DELTA <= self.num <= 4 * MAX_DELTA
    }

    /// The fraction of `self` is strictly smaller than that of `other`.
    pub open spec fn lt(self, other: Pseudoangle) -> bool {
        self.num * other.den < other.num * self.den
    }

    /// The two fractions are equal.
    pub open spec fn same(self, other: Pseudoangle) -> bool {
        self.num * other.den == other.num * self.den
    }
}

/// The pseudo-angle of the vector `(dx, dy)`: `1 - dx / (|dx| + |dy|)`,
/// negated when `dy` is negative; `3` for the zero vector.
pub open spec fn pseudoangle_of(dx: int, dy: int) -> Pseudoangle {
    if dx == 0 && dy == 0 {
        Pseudoangle { num: 3, den: 1 }
    } else if dy < 0 {
        Pseudoangle { num: (dx - (abs(dx) + abs(dy))) as i64, den: (abs(dx) + abs(dy)) as i64 }
    } else {
        Pseudoangle { num: ((abs(dx) + abs(dy)) - dx) as i64, den: (abs(dx) + abs(dy)) as i64 }
    }
}

/// The pseudo-angle of the direction to another point: cheap to compute, and
/// ordered as the angle is.
pub trait PseudoangleTo {
    spec fn pseudoangle_to_spec(&self, other: &Self) -> Pseudoangle;

    /// A number from the range `[-2, 2]` which is monotonic in the angle the
    /// vector from `self` to `other` makes against the x axis, with the jump
    /// at the negative x axis. Useful for sorting.
    fn pseudoangle_to(&self, other: &Self) -> (p: Pseudoangle)
        ensures
            p == self.pseudoangle_to_spec(other),
            p.wf(),
    ;
}

impl PseudoangleTo for Coordinate {
    open spec fn pseudoangle_to_spec(&self, other: &Self) -> Pseudoangle {
        pseudoangle_of(other.x - self.x, other.y - self.y)
    }

    fn pseudoangle_to(&self, other: &Self) -> (p: Pseudoangle) {
        let dx: i64 = other.x as i64 - self.x as i64;
        let dy: i64 = other.y as i64 - self.y as i64;
        if dx == 0 && dy == 0 {
            return Pseudoangle { num: 3, den: 1 };
        }
        let ax: i64 = if dx < 0 {
            -dx
        } else {
            dx
        };
        let ay: i64 = if dy < 0 {
            -dy
        } else {
            dy
        };
        let den: i64 = ax + ay;
        if dy < 0 {
            Pseudoangle { num: dx - den, den }
        } else {
            Pseudoangle { num: den - dx, den }
        }
    }
}

/// How the pseudo-angles of `a` and `b`, both seen from `relative_to`,
/// compare.
pub open spec fn cmp_angle_spec(relative_to: Coordinate, a: Coordinate, b: Coordinate) -> Ordering {
    let pa = relative_to.pseudoangle_to_spec(&a);
    let pb = relative_to.pseudoangle_to_spec(&b);
    if pa.lt(pb) {
        Ordering::Less
    } else if pb.lt(pa) {
        Ordering::Greater
    } else {
        Ordering::Equal
    }
}

fn pseudoangle_less(a: Pseudoangle, b: Pseudoangle) -> (r: bool)
    requires
        a.wf(),
        b.wf(),
    ensures
        r == a.lt(b),
{
    proof {
        lemma_mul_bound(a.num as int, b.den as int, 0x4_0000_0000);
        lemma_mul_bound(b.num as int, a.den as int, 0x4_0000_0000);
    }
    (a.num as i128) * (b.den as i128) < (b.num as i128) * (a.den as i128)
}

/// Compares `a` and `b` by the pseudo-angle of their directions from
/// `relative_to`.
pub fn cmp_angle(relative_to: &Coordinate, a: &Coordinate, b: &Coordinate) -> (o: Ordering)
    ensures
        o == cmp_angle_spec(*relative_to, *a, *b),
{
    let pa = relative_to.pseudoangle_to(a);
    let pb = relative_to.pseudoangle_to(b);
    if pseudoangle_less(pa, pb) {
        Ordering::Less
    } else if pseudoangle_less(pb, pa) {
        Ordering::Greater
    } else {
        Ordering::Equal
    }
}

/// The square of the distance between `a` and `b`.
pub open spec fn distance_squared(a: Coordinate, b: Coordinate) -> int {
    (b.x - a.x) * (b.x - a.x) + (b.y - a.y) * (b.y - a.y)
}

/// The squared distance does not depend on the direction it is measured in.
pub proof fn lemma_distance_squared_symmetric(a: Coordinate, b: Coordinate)
    ensures
        distance_squared(a, b) == distance_squared(b, a),
{
    assert(distance_squared(a, b) == distance_squared(b, a)) by (nonlinear_arith)
        requires
            distance_squared(a, b) == (b.x - a.x) * (b.x - a.x) + (b.y - a.y) * (b.y - a.y),
            distance_squared(b, a) == (a.x - b.x) * (a.x - b.x) + (a.y - b.y) * (a.y - b.y),
    ;
}

/// The distance does not depend on the direction it is measured in.
pub proof fn lemma_distance_symmetric(a: Coordinate, b: Coordinate)
    ensures
        euclidean_distance_spec(a, b) == euclidean_distance_spec(b, a),
        euclidean_distance_floor_spec(a, b) == euclidean_distance_floor_spec(b, a),
{
    lemma_distance_squared_symmetric(a, b);
}

/// A rounded distance is never negative, and the two roundings bracket the
/// true distance.
pub proof fn lemma_distance_bounds(a: Coordinate, b: Coordinate)
    ensures
        0 <= euclidean_distance_floor_spec(a, b) <= euclidean_distance_spec(a, b) <= MAX_DISTANCE,
        is_ceil_sqrt(euclidean_distance_spec(a, b), distance_squared(a, b)),
        is_floor_sqrt(euclidean_distance_floor_spec(a, b), distance_squared(a, b)),
{
    let n = distance_squared(a, b);
    lemma_distance_squared_bound(a, b);
    lemma_sqrt_exists(n);
    let f = floor_sqrt(n);
    let c = ceil_sqrt(n);
    if c < f {
        lemma_square_monotonic(c, f);
        lemma_square_monotonic(c + 1, f);
        assert((c + 1) * (c + 1) > c * c) by (nonlinear_arith)
            requires
                c >= 0,
        ;
        if c * c == n {
        }
    }
    if c > MAX_DISTANCE {
        lemma_square_monotonic(MAX_DISTANCE as int, c - 1);
        assert(0x2_0000_0000int * 0x2_0000_0000int > 2 * (0xFFFF_FFFFint * 0xFFFF_FFFFint));
    }
}

/// Every non-negative number has both rounded square roots.
pub proof fn lemma_sqrt_exists(n: int)
    requires
        n >= 0,
    ensures
        is_floor_sqrt(floor_sqrt(n), n),
        is_ceil_sqrt(ceil_sqrt(n), n),
{
    assert((n + 1) * (n + 1) > n) by (nonlinear_arith)
        requires
            n >= 0,
    ;
    lemma_floor_sqrt_below(n, n + 1);
    let r = choose|r: int| is_floor_sqrt(r, n);
    if r * r == n {
        if r >= 1 {
            assert((r - 1) * (r - 1) < r * r) by (nonlinear_arith)
                requires
                    r >= 1,
            ;
        }
        assert(is_ceil_sqrt(r, n));
    } else {
        assert(is_ceil_sqrt(r + 1, n));
    }
}

/// Below any `hi` whose square exceeds `n` lies a rounded-down root of `n`.
proof fn lemma_floor_sqrt_below(n: int, hi: int)
    requires
        n >= 0,
        hi >= 1,
        hi * hi > n,
    ensures
        exists|r: int| is_floor_sqrt(r, n),
    decreases hi,
{
    let r = hi - 1;
    if r * r <= n {
        assert(is_floor_sqrt(r, n));
    } else {
        assert(r >= 1) by (nonlinear_arith)
            requires
                r * r > n,
                n >= 0,
                r >= 0,
        ;
        lemma_floor_sqrt_below(n, r);
    }
}

/// `r` is the square root of `n` rounded down.
pub open spec fn is_floor_sqrt(r: int, n: int) -> bool {
    0 <= r && r * r <= n < (r + 1) * (r + 1)
}

/// `r` is the square root of `n` rounded up.
pub open spec fn is_ceil_sqrt(r: int, n: int) -> bool {
    0 <= r && n <= r * r && (r == 0 || (r - 1) * (r - 1) < n)
}

/// The square root of `n` rounded down to a whole number.
pub open spec fn floor_sqrt(n: int) -> int {
    choose|r: int| is_floor_sqrt(r, n)
}

/// The square root of `n` rounded up to a whole number.
pub open spec fn ceil_sqrt(n: int) -> int {
    choose|r: int| is_ceil_sqrt(r, n)
}

/// The distance between `a` and `b` in whole units, rounded up.
pub open spec fn euclidean_distance_spec(a: Coordinate, b: Coordinate) -> int {
    ceil_sqrt(distance_squared(a, b))
}

/// The distance between `a` and `b` in whole units, rounded down.
pub open spec fn euclidean_distance_floor_spec(a: Coordinate, b: Coordinate) -> int {
    floor_sqrt(distance_squared(a, b))
}

/// Squares grow with their non-negative base.
pub proof fn lemma_square_monotonic(a: int, b: int)
    requires
        0 <= a <= b,
    ensures
        a * a <= b * b,
{
    assert(a * a <= b * b) by (nonlinear_arith)
        requires
            0 <= a <= b,
    ;
}

/// There is at most one rounded-down square root.
pub proof fn lemma_floor_sqrt_unique(r: int, n: int)
    requires
        is_floor_sqrt(r, n),
    ensures
        floor_sqrt(n) == r,
{
    let s = floor_sqrt(n);
    assert(is_floor_sqrt(s, n));
    if s < r {
        lemma_square_monotonic(s + 1, r);
    }
    if r < s {
        lemma_square_monotonic(r + 1, s);
    }
}

/// There is at most one rounded-up square root.
pub proof fn lemma_ceil_sqrt_unique(r: int, n: int)
    requires
        is_ceil_sqrt(r, n),
    ensures
        ceil_sqrt(n) == r,
{
    let s = ceil_sqrt(n);
    assert(is_ceil_sqrt(s, n));
    if s < r {
        lemma_square_monotonic(s, r - 1);
    }
    if r < s {
        lemma_square_monotonic(r, s - 1);
    }
}

/// The squared distance of two coordinates stays below `2^65`.
pub proof fn lemma_distance_squared_bound(a: Coordinate, b: Coordinate)
    ensures
        0 <= distance_squared(a, b) <= 2 * (MAX_DELTA * MAX_DELTA),
{
    let dx = b.x - a.x;
    let dy = b.y - a.y;
    lemma_mul_bound(dx, dx, MAX_DELTA as int);
    lemma_mul_bound(dy, dy, MAX_DELTA as int);
    assert(dx * dx >= 0) by (nonlinear_arith);
    assert(dy * dy >= 0) by (nonlinear_arith);
}

/// Square root of `n` rounded down, by bisection.
fn integer_sqrt(n: u128) -> (r: u64)
    requires
        n <= 2 * (MAX_DELTA * MAX_DELTA),
    ensures
        is_floor_sqrt(r as int, n as int),
        r < MAX_DISTANCE,
{
    let mut lo: u64 = 0;
    let mut hi: u64 = MAX_DISTANCE;
    assert(0x2_0000_0000u64 * 0x2_0000_0000u64 > 2 * (0xFFFF_FFFFi64 * 0xFFFF_FFFFi64));
    while hi - lo > 1
        invariant
            lo < hi <= MAX_DISTANCE,
            lo * lo <= n < hi * hi,
        decreases hi - lo,
    {
        let mid: u64 = lo + (hi - lo) / 2;
        proof {
            lemma_mul_bound(mid as int, mid as int, MAX_DISTANCE as int);
        }
        if (mid as u128) * (mid as u128) <= n {
            lo = mid;
        } else {
            hi = mid;
        }
    }
    lo
}

impl Coordinate {
    /// The exact square of the distance to `other`.
    pub fn distance_squared(&self, other: &Coordinate) -> (d: u128)
        ensures
            d == distance_squared(*self, *other),
            d <= 2 * (MAX_DELTA * MAX_DELTA),
    {
        let dx: i128 = other.x as i128 - self.x as i128;
        let dy: i128 = other.y as i128 - self.y as i128;
        proof {
            lemma_distance_squared_bound(*self, *other);
            lemma_mul_bound(dx as int, dx as int, MAX_DELTA as int);
            lemma_mul_bound(dy as int, dy as int, MAX_DELTA as int);
            assert(dx * dx >= 0) by (nonlinear_arith);
            assert(dy * dy >= 0) by (nonlinear_arith);
        }
        (dx * dx + dy * dy) as u128
    }

    /// The distance to `other` in whole units, rounded up: the least `d` with
    /// `d * d` at least the squared distance.
    pub fn euclidean_distance(&self, other: &Coordinate) -> (d: u64)
        ensures
            d == euclidean_distance_spec(*self, *other),
            is_ceil_sqrt(d as int, distance_squared(*self, *other)),
            d <= MAX_DISTANCE,
    {
        let n = self.distance_squared(other);
        let r = integer_sqrt(n);
        let d: u64 = if (r as u128) * (r as u128) == n {
            r
        } else {
            r + 1
        };
        proof {
            if r >= 1 {
                assert((r - 1) * (r - 1) < r * r) by (nonlinear_arith)
                    requires
                        r >= 1,
                ;
            }
            lemma_ceil_sqrt_unique(d as int, n as int);
        }
        d
    }

    /// The distance to `other` in whole units, rounded down.
    pub fn euclidean_distance_floor(&self, other: &Coordinate) -> (d: u64)
        ensures
            d == euclidean_distance_floor_spec(*self, *other),
            is_floor_sqrt(d as int, distance_squared(*self, *other)),
            d < MAX_DISTANCE,
    {
        let n = self.distance_squared(other);
        let r = integer_sqrt(n);
        proof {
            lemma_floor_sqrt_unique(r as int, n as int);
        }
        r
    }
}

/// How the distances of `a` and `b` from `relative_to` compare.
pub open spec fn cmp_distance_spec(relative_to: Coordinate, a: Coordinate, b: Coordinate) -> Ordering {
    let da = distance_squared(relative_to, a);
    let db = distance_squared(relative_to, b);
    if da < db {
        Ordering::Less
    } else if da > db {
        Ordering::Greater
    } else {
        Ordering::Equal
    }
}

/// Compares `a` and `b` by their distance from `relative_to`.
pub fn cmp_distance(relative_to: &Coordinate, a: &Coordinate, b: &Coordinate) -> (o: Ordering)
    ensures
        o == cmp_distance_spec(*relative_to, *a, *b),
{
    let da = relative_to.distance_squared(a);
    let db = relative_to.distance_squared(b);
    if da < db {
        Ordering::Less
    } else if da > db {
        Ordering::Greater
    } else {
        Ordering::Equal
    }
}

/// `a` comes strictly before `b` in the sweep around `relative_to`: its
/// pseudo-angle is smaller, or the pseudo-angles are equal and `a` is nearer.
pub open spec fn sweep_before(relative_to: Coordinate, a: Coordinate, b: Coordinate) -> bool {
    ||| cmp_angle_spec(relative_to, a, b) is Less
    ||| (cmp_angle_spec(relative_to, a, b) is Equal && cmp_distance_spec(relative_to, a, b) is Less)
}

/// Whether `a` comes strictly before `b` in the sweep around `relative_to`.
pub fn sweeps_before(relative_to: &Coordinate, a: &Coordinate, b: &Coordinate) -> (r: bool)
    ensures
        r == sweep_before(*relative_to, *a, *b),
{
    match cmp_angle(relative_to, a, b) {
        Ordering::Less => true,
        Ordering::Greater => false,
        Ordering::Equal => match cmp_distance(relative_to, a, b) {
            Ordering::Less => true,
            _ => false,
        },
    }
}

/// A point is at distance zero from itself.
pub proof fn lemma_distance_to_self(a: Coordinate)
    ensures
        euclidean_distance_spec(a, a) == 0,
        euclidean_distance_floor_spec(a, a) == 0,
{
    assert(distance_squared(a, a) == 0);
    lemma_floor_sqrt_unique(0, 0);
    lemma_ceil_sqrt_unique(0, 0);
}

/// The square of the inner product of two vectors is at most the product of
/// their squared lengths.
pub proof fn lemma_cauchy_schwarz(ux: int, uy: int, vx: int, vy: int)
    ensures
        (ux * vx + uy * vy) * (ux * vx + uy * vy) <= (ux * ux + uy * uy) * (vx * vx + vy * vy),
{
    let a1 = ux * vx;
    let a2 = uy * vy;
    let b1 = ux * vy;
    let b2 = uy * vx;
    let x = ux * ux;
    let y = uy * uy;
    let z = vx * vx;
    let w = vy * vy;
    assert(x * z == a1 * a1) by (nonlinear_arith)
        requires
            x == ux * ux,
            z == vx * vx,
            a1 == ux * vx,
    ;
    assert(x * w == b1 * b1) by (nonlinear_arith)
        requires
            x == ux * ux,
            w == vy * vy,
            b1 == ux * vy,
    ;
    assert(y * z == b2 * b2) by (nonlinear_arith)
        requires
            y == uy * uy,
            z == vx * vx,
            b2 == uy * vx,
    ;
    assert(y * w == a2 * a2) by (nonlinear_arith)
        requires
            y == uy * uy,
            w == vy * vy,
            a2 == uy * vy,
    ;
    assert(a1 * a2 == b1 * b2) by (nonlinear_arith)
        requires
            a1 == ux * vx,
            a2 == uy * vy,
            b1 == ux * vy,
            b2 == uy * vx,
    ;
    assert((x + y) * (z + w) == x * z + x * w + y * z + y * w) by (nonlinear_arith);
    assert((a1 + a2) * (a1 + a2) == a1 * a1 + 2 * (a1 * a2) + a2 * a2) by (nonlinear_arith);
    assert((b1 - b2) * (b1 - b2) == b1 * b1 - 2 * (b1 * b2) + b2 * b2) by (nonlinear_arith);
    assert((b1 - b2) * (b1 - b2) >= 0) by (nonlinear_arith);
}

/// The way from `a` straight to `t`, rounded down, is no longer than the way
/// from `a` to `b`, rounded up, and on from `b` to `t`, rounded down.
pub proof fn lemma_triangle(a: Coordinate, b: Coordinate, t: Coordinate)
    ensures
        euclidean_distance_floor_spec(a, t) <= euclidean_distance_spec(a, b)
            + euclidean_distance_floor_spec(b, t),
{
    lemma_distance_bounds(a, b);
    lemma_distance_bounds(b, t);
    lemma_distance_bounds(a, t);
    let ux = b.x - a.x;
    let uy = b.y - a.y;
    let vx = t.x - b.x;
    let vy = t.y - b.y;
    let big_a = ux * ux + uy * uy;
    let big_b = vx * vx + vy * vy;
    let big_c = (t.x - a.x) * (t.x - a.x) + (t.y - a.y) * (t.y - a.y);
    let d = ux * vx + uy * vy;
    let p = euclidean_distance_spec(a, b);
    let q = euclidean_distance_floor_spec(b, t);
    let r = euclidean_distance_floor_spec(a, t);
    assert(big_a == distance_squared(a, b));
    assert(big_b == distance_squared(b, t));
    assert(big_c == distance_squared(a, t));
    assert(big_c == big_a + 2 * d + big_b) by (nonlinear_arith)
        requires
            big_a == ux * ux + uy * uy,
            big_b == vx * vx + vy * vy,
            big_c == (ux + vx) * (ux + vx) + (uy + vy) * (uy + vy),
            d == ux * vx + uy * vy,
    ;
    lemma_cauchy_schwarz(ux, uy, vx, vy);
    let s = p * (q + 1);
    assert(big_a * big_b <= s * s) by (nonlinear_arith)
        requires
            0 <= big_a <= p * p,
            0 <= big_b <= (q + 1) * (q + 1),
            s == p * (q + 1),
    {
        assert(big_a * big_b <= (p * p) * big_b);
        assert((p * p) * big_b <= (p * p) * ((q + 1) * (q + 1)));
        assert((p * p) * ((q + 1) * (q + 1)) == s * s);
    }
    assert(s >= 0) by (nonlinear_arith)
        requires
            s == p * (q + 1),
            p >= 0,
            q >= 0,
    ;
    assert(d <= s) by (nonlinear_arith)
        requires
            d * d <= s * s,
            s >= 0,
    ;
    assert(big_c < (p + q + 1) * (p + q + 1)) by (nonlinear_arith)
        requires
            big_c == big_a + 2 * d + big_b,
            big_a <= p * p,
            big_b < (q + 1) * (q + 1),
            d <= s,
            s == p * (q + 1),
    ;
    if r > p + q {
        lemma_square_monotonic(p + q + 1, r);
    }
}

/// The angle of the vector `u`, measured in `(-half turn, half turn]` as the
/// arc tangent of `uy / ux` is, is smaller than that of `v`. Neither vector
/// is zero.
///
/// Vectors that point below the x axis come before those that do not; of
/// two vectors on the same side, the one comes first from which the other
/// lies counter-clockwise, and the positive x axis comes before the negative
/// one.
pub open spec fn turns_before(ux: int, uy: int, vx: int, vy: int) -> bool {
    ||| (uy < 0 && vy >= 0)
    ||| ((uy < 0) == (vy < 0) && ux * vy - uy * vx > 0)
    ||| (uy == 0 && vy == 0 && ux > 0 && vx < 0)
}

/// The pseudo-angle orders vectors as their angle does: it is strictly
/// monotonic in the angle measured in `(-half turn, half turn]`.
pub proof fn lemma_pseudoangle_monotonic(ux: int, uy: int, vx: int, vy: int)
    requires
        -MAX_DELTA <= ux <= MAX_DELTA,
        -MAX_DELTA <= uy <= MAX_DELTA,
        -MAX_DELTA <= vx <= MAX_DELTA,
        -MAX_DELTA <= vy <= MAX_DELTA,
        ux != 0 || uy != 0,
        vx != 0 || vy != 0,
    ensures
        pseudoangle_of(ux, uy).lt(pseudoangle_of(vx, vy)) <==> turns_before(ux, uy, vx, vy),
{
    let pu = pseudoangle_of(ux, uy);
    let pv = pseudoangle_of(vx, vy);
    let du = abs(ux) + abs(uy);
    let dv = abs(vx) + abs(vy);
    assert(pu.den == du && pv.den == dv);
    assert(du > 0 && dv > 0);
    let cross = ux * vy - uy * vx;
    let same = ux * abs(vx) - vx * abs(ux);
    lemma_sign_products(ux, vx);
    if uy >= 0 && vy >= 0 {
        assert(pu.num == du - ux && pv.num == dv - vx);
        // pu < pv  <=>  ux * dv > vx * du
        assert(pu.num * pv.den - pv.num * pu.den == vx * du - ux * dv) by (nonlinear_arith)
            requires
                pu.num == du - ux,
                pv.num == dv - vx,
                pu.den == du,
                pv.den == dv,
        ;
        assert(ux * dv - vx * du == same + cross) by (nonlinear_arith)
            requires
                du == abs(ux) + uy,
                dv == abs(vx) + vy,
                cross == ux * vy - uy * vx,
                same == ux * abs(vx) - vx * abs(ux),
        ;
        assert(pu.lt(pv) <==> same + cross > 0);
        if (ux >= 0) == (vx >= 0) {
            assert(same == 0);
            assert(!(uy == 0 && vy == 0 && ux > 0 && vx < 0));
            assert(pu.lt(pv) <==> turns_before(ux, uy, vx, vy));
        } else if ux >= 0 {
            assert(same >= 0 && cross >= 0 && (same + cross == 0 ==> uy == 0 && vy == 0) && (uy == 0
                && vy == 0 ==> cross == 0 && same > 0)) by (nonlinear_arith)
                requires
                    ux >= 0,
                    vx < 0,
                    uy >= 0,
                    vy >= 0,
                    ux != 0 || uy != 0,
                    cross == ux * vy - uy * vx,
                    same == ux * abs(vx) - vx * abs(ux),
                    abs(vx) == -vx,
                    abs(ux) == ux,
            ;
            assert(cross == 0 ==> uy == 0 && vy == 0) by (nonlinear_arith)
                requires
                    ux >= 0,
                    vx < 0,
                    uy >= 0,
                    vy >= 0,
                    ux != 0 || uy != 0,
                    cross == ux * vy - uy * vx,
            ;
            assert(pu.lt(pv) <==> turns_before(ux, uy, vx, vy));
        } else {
            assert(same <= 0 && cross <= 0) by (nonlinear_arith)
                requires
                    ux < 0,
                    vx >= 0,
                    uy >= 0,
                    vy >= 0,
                    cross == ux * vy - uy * vx,
                    same == ux * abs(vx) - vx * abs(ux),
                    abs(vx) == vx,
                    abs(ux) == -ux,
            ;
            assert(pu.lt(pv) <==> turns_before(ux, uy, vx, vy));
        }
    } else if uy < 0 && vy < 0 {
        assert(pu.num == ux - du && pv.num == vx - dv);
        // pu < pv  <=>  ux * dv < vx * du
        assert(pu.num * pv.den - pv.num * pu.den == ux * dv - vx * du) by (nonlinear_arith)
            requires
                pu.num == ux - du,
                pv.num == vx - dv,
                pu.den == du,
                pv.den == dv,
        ;
        assert(ux * dv - vx * du == same - cross) by (nonlinear_arith)
            requires
                du == abs(ux) - uy,
                dv == abs(vx) - vy,
                cross == ux * vy - uy * vx,
                same == ux * abs(vx) - vx * abs(ux),
        ;
        assert(pu.lt(pv) <==> same - cross < 0);
        if (ux >= 0) == (vx >= 0) {
            assert(same == 0);
            assert(pu.lt(pv) <==> turns_before(ux, uy, vx, vy));
        } else if ux >= 0 {
            assert(same >= 0 && cross < 0) by (nonlinear_arith)
                requires
                    ux >= 0,
                    vx < 0,
                    uy < 0,
                    vy < 0,
                    cross == ux * vy - uy * vx,
                    same == ux * abs(vx) - vx * abs(ux),
                    abs(vx) == -vx,
                    abs(ux) == ux,
            ;
            assert(pu.lt(pv) <==> turns_before(ux, uy, vx, vy));
        } else {
            assert(same <= 0 && cross > 0) by (nonlinear_arith)
                requires
                    ux < 0,
                    vx >= 0,
                    uy < 0,
                    vy < 0,
                    cross == ux * vy - uy * vx,
                    same == ux * abs(vx) - vx * abs(ux),
                    abs(vx) == vx,
                    abs(ux) == -ux,
            ;
            assert(pu.lt(pv) <==> turns_before(ux, uy, vx, vy));
        }
    } else if uy < 0 {
        assert(pu.num == ux - du && pv.num == dv - vx);
        assert(pu.num < 0 && pv.num >= 0);
        assert(pu.num * pv.den < 0 && pv.num * pu.den >= 0) by (nonlinear_arith)
            requires
                pu.num < 0,
                pv.num >= 0,
                pu.den > 0,
                pv.den > 0,
        ;
        assert(pu.lt(pv) <==> turns_before(ux, uy, vx, vy));
    } else {
        assert(pu.num == du - ux && pv.num == vx - dv);
        assert(pu.num >= 0 && pv.num < 0);
        assert(pu.num * pv.den >= 0 && pv.num * pu.den < 0) by (nonlinear_arith)
            requires
                pu.num >= 0,
                pv.num < 0,
                pu.den > 0,
                pv.den > 0,
        ;
        assert(pu.lt(pv) <==> turns_before(ux, uy, vx, vy));
    }
}

/// For two numbers of the same sign, `a * |b|` and `b * |a|` are equal.
proof fn lemma_sign_products(a: int, b: int)
    ensures
        (a >= 0) == (b >= 0) ==> a * abs(b) - b * abs(a) == 0,
{
    if a >= 0 && b >= 0 {
        assert(a * b - b * a == 0) by (nonlinear_arith);
    } else if a < 0 && b < 0 {
        assert(a * (-b) - b * (-a) == 0) by (nonlinear_arith);
    }
}

/// `a` does not come after `b` in the sweep around `relative_to`.
pub open spec fn sweep_not_after(relative_to: Coordinate, a: Coordinate, b: Coordinate) -> bool {
    !sweep_before(relative_to, b, a)
}

/// Fractions with positive denominators compare transitively.
pub proof fn lemma_pseudoangle_order_transitive(a: Pseudoangle, b: Pseudoangle, c: Pseudoangle)
    requires
        a.den > 0,
        b.den > 0,
        c.den > 0,
        !b.lt(a),
        !c.lt(b),
    ensures
        !c.lt(a),
        c.lt(b) || b.lt(a) || (a.lt(b) || b.lt(c) ==> a.lt(c)),
{
    let (an, ad, bn, bd, cn, cd) = (
        a.num as int,
        a.den as int,
        b.num as int,
        b.den as int,
        c.num as int,
        c.den as int,
    );
    assert(an * bd <= bn * ad);
    assert(bn * cd <= cn * bd);
    assert((an * bd) * cd <= (bn * ad) * cd) by (nonlinear_arith)
        requires
            an * bd <= bn * ad,
            cd > 0,
    ;
    assert((bn * cd) * ad <= (cn * bd) * ad) by (nonlinear_arith)
        requires
            bn * cd <= cn * bd,
            ad > 0,
    ;
    assert((an * bd) * cd == (an * cd) * bd) by (nonlinear_arith);
    assert((bn * ad) * cd == (bn * cd) * ad) by (nonlinear_arith);
    assert((cn * bd) * ad == (cn * ad) * bd) by (nonlinear_arith);
    assert(an * cd <= cn * ad) by (nonlinear_arith)
        requires
            (an * cd) * bd <= (cn * ad) * bd,
            bd > 0,
    ;
    if an * bd < bn * ad {
        assert((an * bd) * cd < (bn * ad) * cd) by (nonlinear_arith)
            requires
                an * bd < bn * ad,
                cd > 0,
        ;
        assert(an * cd < cn * ad) by (nonlinear_arith)
            requires
                (an * cd) * bd < (cn * ad) * bd,
                bd > 0,
        ;
    }
    if bn * cd < cn * bd {
        assert((bn * cd) * ad < (cn * bd) * ad) by (nonlinear_arith)
            requires
                bn * cd < cn * bd,
                ad > 0,
        ;
        assert(an * cd < cn * ad) by (nonlinear_arith)
            requires
                (an * cd) * bd < (cn * ad) * bd,
                bd > 0,
        ;
    }
}

/// The sweep order is an order: no two points come before each other, and
/// what does not come after a point that does not come after a third does not
/// come after the third.
pub proof fn lemma_sweep_order(relative_to: Coordinate, a: Coordinate, b: Coordinate, c: Coordinate)
    ensures
        !(sweep_before(relative_to, a, b) && sweep_before(relative_to, b, a)),
        sweep_not_after(relative_to, a, b) && sweep_not_after(relative_to, b, c) ==> sweep_not_after(
            relative_to,
            a,
            c,
        ),
{
    let pa = relative_to.pseudoangle_to_spec(&a);
    let pb = relative_to.pseudoangle_to_spec(&b);
    let pc = relative_to.pseudoangle_to_spec(&c);
    lemma_pseudoangle_wf(relative_to, a);
    lemma_pseudoangle_wf(relative_to, b);
    lemma_pseudoangle_wf(relative_to, c);
    if sweep_not_after(relative_to, a, b) && sweep_not_after(relative_to, b, c) {
        lemma_pseudoangle_order_transitive(pa, pb, pc);
        if !pa.lt(pc) {
            // all three make the same angle
            lemma_pseudoangle_order_transitive(pc, pa, pb);
            lemma_pseudoangle_order_transitive(pb, pc, pa);
        }
    }
}

/// The pseudo-angle between two coordinates is a fraction with a positive
/// denominator.
pub proof fn lemma_pseudoangle_wf(from: Coordinate, to: Coordinate)
    ensures
        from.pseudoangle_to_spec(&to).wf(),
{
}

} // verus!
