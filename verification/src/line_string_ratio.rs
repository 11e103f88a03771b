//! The point a given distance along a line string.

use crate::coord_ext::{euclidean_distance_spec, lemma_distance_bounds, MAX_DISTANCE};
use crate::geometry::{lemma_mul_bound, Coordinate};
use vstd::arithmetic::div_mod::{lemma_fundamental_div_mod, lemma_fundamental_div_mod_converse};
use vstd::prelude::*;

verus! {

/// The summed length of the first `k` segments of the line string.
pub open spec fn polyline_length(points: Seq<Coordinate>, k: int) -> int
    decreases k,
{
    if k <= 0 {
        0
    } else {
        polyline_length(points, k - 1) + euclidean_distance_spec(points[k - 1], points[k])
    }
}

/// The value that lies `t` parts of `len` on the way from `from` to `to`,
/// rounded down.
pub open spec fn interpolated(from: int, to: int, t: int, len: int) -> int {
    from + ((to - from) * t) / len
}

/// The point `t` units along the segment from `a` to `b`, whose length is
/// `len`; `a` itself for a segment without length.
pub open spec fn point_along(a: Coordinate, b: Coordinate, t: int, len: int) -> Coordinate {
    if len == 0 {
        a
    } else {
        Coordinate {
            x: interpolated(a.x as int, b.x as int, t, len) as i32,
            y: interpolated(a.y as int, b.y as int, t, len) as i32,
        }
    }
}

/// Segment `i` is the first whose end lies at least `length` along the line
/// string.
pub open spec fn is_reaching_segment(points: Seq<Coordinate>, length: int, i: int) -> bool {
    &&& 0 <= i < points.len() - 1
    &&& polyline_length(points, i + 1) >= length
    &&& forall|j: int| 1 <= j <= i ==> #[trigger] polyline_length(points, j) < length
}

/// The point `length` units along the line string, when the line string is
/// that long: in the first segment that reaches so far, by interpolation.
pub open spec fn point_at_length(points: Seq<Coordinate>, length: int) -> Coordinate {
    let i = choose|i: int| is_reaching_segment(points, length, i);
    point_along(
        points[i],
        points[i + 1],
        length - polyline_length(points, i),
        euclidean_distance_spec(points[i], points[i + 1]),
    )
}

/// Only one segment is the first to reach a length.
pub proof fn lemma_reaching_segment_unique(points: Seq<Coordinate>, length: int, i: int, j: int)
    requires
        is_reaching_segment(points, length, i),
        is_reaching_segment(points, length, j),
    ensures
        i == j,
{
    if i < j {
        assert(polyline_length(points, i + 1) < length);
    }
    if j < i {
        assert(polyline_length(points, j + 1) < length);
    }
}

/// An interpolated value lies between the two it is taken from.
pub proof fn lemma_interpolated_between(from: int, to: int, t: int, len: int)
    requires
        0 <= t <= len,
        len > 0,
    ensures
        from <= to ==> from <= interpolated(from, to, t, len) <= to,
        to <= from ==> to <= interpolated(from, to, t, len) <= from,
{
    let d = to - from;
    let q = (d * t) / len;
    lemma_fundamental_div_mod(d * t, len);
    if d >= 0 {
        assert(0 <= d * t <= d * len) by (nonlinear_arith)
            requires
                d >= 0,
                0 <= t <= len,
        ;
        assert(0 <= q <= d) by (nonlinear_arith)
            requires
                0 <= d * t <= d * len,
                d * t == len * q + (d * t) % len,
                0 <= (d * t) % len < len,
                len > 0,
        ;
    } else {
        assert(d * len <= d * t <= 0) by (nonlinear_arith)
            requires
                d < 0,
                0 <= t <= len,
        ;
        assert(d <= q <= 0) by (nonlinear_arith)
            requires
                d * len <= d * t <= 0,
                d * t == len * q + (d * t) % len,
                0 <= (d * t) % len < len,
                len > 0,
        ;
    }
}

/// Division rounding down, for a positive divisor.
fn floor_div(a: i128, b: i128) -> (q: i128)
    requires
        b > 0,
        -0x4_0000_0000_0000_0000 <= a <= 0x4_0000_0000_0000_0000,
        b <= 0x4_0000_0000,
    ensures
        q == a / b,
{
    if a >= 0 {
        a / b
    } else {
        let m: i128 = (-a + b - 1) / b;
        proof {
            // -a + b - 1 == b * m + r with 0 <= r < b, so a == b * (-m) + (b - 1 - r)
            let x: int = -a + b - 1;
            let r: int = x % (b as int);
            lemma_fundamental_div_mod(x, b as int);
            assert(a == (-m) * b + (b - 1 - r)) by (nonlinear_arith)
                requires
                    -a + b - 1 == b * m + r,
            ;
            lemma_fundamental_div_mod_converse(a as int, b as int, -m, b - 1 - r);
        }
        -m
    }
}

fn interpolate(from: i32, to: i32, t: u64, len: u64) -> (v: i32)
    requires
        0 < len <= MAX_DISTANCE,
        t <= len,
    ensures
        v == interpolated(from as int, to as int, t as int, len as int),
{
    let d: i128 = to as i128 - from as i128;
    proof {
        lemma_mul_bound(d as int, t as int, 0x2_0000_0000);
        lemma_interpolated_between(from as int, to as int, t as int, len as int);
    }
    let q = floor_div(d * (t as i128), len as i128);
    (from as i128 + q) as i32
}

/// The point that lies `length` units along the line string: in the first
/// segment whose end is that far along, as far beyond the segment's start as
/// remains of `length`, by linear interpolation. `None` when the line string
/// has no segment or is shorter than `length`.
pub fn line_string_point_at_length(line_string: &Vec<Coordinate>, length: u64) -> (r: Option<Coordinate>)
    ensures
        match r {
            None => line_string@.len() < 2 || polyline_length(line_string@, line_string@.len() - 1)
                < length,
            Some(c) => c == point_at_length(line_string@, length as int) && exists|i: int|
                #![trigger polyline_length(line_string@, i)]
                is_reaching_segment(line_string@, length as int, i) && c == point_along(
                    line_string@[i],
                    line_string@[i + 1],
                    length - polyline_length(line_string@, i),
                    euclidean_distance_spec(line_string@[i], line_string@[i + 1]),
                ),
        },
{
    if line_string.len() < 2 {
        return None;
    }
    let n: usize = line_string.len() - 1;
    let mut accumulated_length: u64 = 0;
    let mut i: usize = 0;
    while i < n
        invariant
            n == line_string@.len() - 1,
            i <= n,
            accumulated_length == polyline_length(line_string@, i as int),
            accumulated_length < length || (i == 0 && length == 0),
            forall|j: int| 1 <= j <= i ==> #[trigger] polyline_length(line_string@, j) < length,
        decreases n - i,
    {
        let start = line_string[i];
        let end = line_string[i + 1];
        let line_length = start.euclidean_distance(&end);
        proof {
            lemma_distance_bounds(start, end);
        }
        if line_length >= length - accumulated_length {
            let point_distance_along_line = length - accumulated_length;
            proof {
                assert(is_reaching_segment(line_string@, length as int, i as int));
                let chosen = choose|k: int| is_reaching_segment(line_string@, length as int, k);
                lemma_reaching_segment_unique(line_string@, length as int, i as int, chosen);
            }
            if line_length == 0 {
                return Some(start);
            }
            return Some(
                Coordinate {
                    x: interpolate(start.x, end.x, point_distance_along_line, line_length),
                    y: interpolate(start.y, end.y, point_distance_along_line, line_length),
                },
            );
        }
        accumulated_length = accumulated_length + line_length;
        i += 1;
    }
    None
}

} // verus!
