#![allow(non_snake_case)]

use planner::coord_ext::{
    angle_is_between, cmp_angle, cmp_distance, sweeps_before, Angle, AngleTo, PseudoangleTo,
};
use planner::geometry::Coordinate;
use std::cmp::Ordering;
use std::f64::consts::{FRAC_PI_2, FRAC_PI_4, PI, TAU};

/// A coordinate given in metres.
fn coordinate(x: f64, y: f64) -> Coordinate {
    Coordinate { x: (x * 100.0).round() as i32, y: (y * 100.0).round() as i32 }
}

/// The angle in radians, in `[0, TAU)`, of the direction an `Angle` holds.
fn radians(angle: Angle) -> f64 {
    let diff = (angle.dy as f64).atan2(angle.dx as f64);
    if diff < 0.0 {
        diff + TAU
    } else {
        diff
    }
}

/// The angle that `radians` stands for, as a direction.
fn angle(radians: f64) -> Angle {
    let origin = Coordinate { x: 0, y: 0 };
    origin.angle_to(&Coordinate {
        x: (radians.cos() * 1e6).round() as i32,
        y: (radians.sin() * 1e6).round() as i32,
    })
}

fn assert_close(a: f64, b: f64, epsilon: f64) {
    assert!((a - b).abs() <= epsilon, "{} is not within {} of {}", a, epsilon, b);
}

#[test]
fn angle_to___first_quadrant() {
    let a = coordinate(0.0, 0.0);
    let b = coordinate(5.0, 5.0);
    assert_close(radians(a.angle_to(&b)), FRAC_PI_4, 0.05);
}

#[test]
fn angle_to___third_quadrant() {
    let a = coordinate(0.0, 0.0);
    let b = coordinate(-5.0, -5.0);
    assert_close(radians(a.angle_to(&b)), PI + FRAC_PI_4, 0.05);
}

#[test]
fn angle_is_between__normal() {
    assert!(angle_is_between(angle(FRAC_PI_2), angle(0.0), angle(PI)));
}

#[test]
fn angle_is_between__wrap() {
    assert!(angle_is_between(angle(FRAC_PI_2), angle(PI + FRAC_PI_2), angle(PI)));
}

#[test]
fn angle_is_between_rejects_what_lies_outside() {
    assert!(!angle_is_between(angle(PI + FRAC_PI_4), angle(0.0), angle(PI)));
    assert!(!angle_is_between(angle(PI + FRAC_PI_4), angle(PI + FRAC_PI_2), angle(PI)));
    // both ends belong to the arc
    assert!(angle_is_between(angle(0.0), angle(0.0), angle(PI)));
    assert!(angle_is_between(angle(PI), angle(0.0), angle(PI)));
}

#[test]
fn angle_to_a_coincident_point_is_zero() {
    let a = coordinate(3.0, 4.0);
    assert_eq!(a.angle_to(&a), Angle { dx: 1, dy: 0 });
    assert_eq!(radians(a.angle_to(&a)), 0.0);
}

#[test]
fn angles_compare_by_direction_not_by_length() {
    let origin = coordinate(0.0, 0.0);
    let near = origin.angle_to(&coordinate(1.0, 1.0));
    let far = origin.angle_to(&coordinate(7.0, 7.0));
    assert!(!near.is_less_than(&far));
    assert!(!far.is_less_than(&near));
    let steeper = origin.angle_to(&coordinate(1.0, 2.0));
    assert!(near.is_less_than(&steeper));
    // more than a half turn apart
    let down = origin.angle_to(&coordinate(1.0, -1.0));
    assert!(near.is_more_than_half_turn_below(&down));
    assert!(!down.is_more_than_half_turn_below(&near));
}

#[test]
fn pseudoangle_values() {
    let origin = coordinate(0.0, 0.0);
    let value = |to: Coordinate| {
        let p = origin.pseudoangle_to(&to);
        p.num as f64 / p.den as f64
    };
    assert_eq!(value(coordinate(1.0, 0.0)), 0.0);
    assert_eq!(value(coordinate(1.0, 1.0)), 0.5);
    assert_eq!(value(coordinate(0.0, 1.0)), 1.0);
    assert_eq!(value(coordinate(-1.0, 1.0)), 1.5);
    assert_eq!(value(coordinate(-1.0, 0.0)), 2.0);
    assert_eq!(value(coordinate(-1.0, -1.0)), -1.5);
    assert_eq!(value(coordinate(0.0, -1.0)), -1.0);
    assert_eq!(value(coordinate(1.0, -1.0)), -0.5);
    // no direction: beyond every direction
    assert_eq!(value(origin), 3.0);
}

/// A small generator of numbers that look random and are the same on every
/// run.
fn next(state: &mut u64) -> u64 {
    *state = state.wrapping_mul(6364136223846793005).wrapping_add(1442695040888963407);
    *state >> 33
}

fn direction(state: &mut u64) -> (i32, i32) {
    loop {
        let dx = (next(state) % 2001) as i32 - 1000;
        let dy = (next(state) % 2001) as i32 - 1000;
        if dx != 0 || dy != 0 {
            return (dx, dy);
        }
    }
}

#[test]
fn pseudo_angle_monotonicity() {
    let origin = Coordinate { x: 0, y: 0 };
    let mut state = 7;
    for _ in 0..10_000 {
        let (ax, ay) = direction(&mut state);
        let (bx, by) = direction(&mut state);
        let a = Coordinate { x: ax, y: ay };
        let b = Coordinate { x: bx, y: by };
        // the pseudo-angle jumps where the arc tangent does
        let by_angle = (ay as f64).atan2(ax as f64).partial_cmp(&(by as f64).atan2(bx as f64));
        assert_eq!(Some(cmp_angle(&origin, &a, &b)), by_angle, "{:?} {:?}", a, b);
        // and directions compare as the angles they make, counted from the x axis all round
        let from_x_axis = radians(origin.angle_to(&a)).partial_cmp(&radians(origin.angle_to(&b)));
        let less = origin.angle_to(&a).is_less_than(&origin.angle_to(&b));
        assert_eq!(less, from_x_axis == Some(Ordering::Less), "{:?} {:?}", a, b);
    }
}

#[test]
fn distances_round_as_documented() {
    let origin = coordinate(0.0, 0.0);
    // 3-4-5
    assert_eq!(origin.euclidean_distance(&coordinate(3.0, 4.0)), 500);
    assert_eq!(origin.euclidean_distance_floor(&coordinate(3.0, 4.0)), 500);
    assert_eq!(origin.distance_squared(&coordinate(3.0, 4.0)), 250_000);
    // the diagonal of a square of 5 m: 707.1 units
    assert_eq!(origin.euclidean_distance(&coordinate(5.0, 5.0)), 708);
    assert_eq!(origin.euclidean_distance_floor(&coordinate(5.0, 5.0)), 707);
    assert_eq!(origin.euclidean_distance(&origin), 0);
    assert_eq!(origin.euclidean_distance_floor(&origin), 0);
    // the two farthest points there are
    let low = Coordinate { x: i32::MIN, y: i32::MIN };
    let high = Coordinate { x: i32::MAX, y: i32::MAX };
    assert_eq!(low.euclidean_distance_floor(&high), 6_074_000_998);
    assert_eq!(low.euclidean_distance(&high), 6_074_000_999);
    assert_eq!(high.euclidean_distance(&low), 6_074_000_999);
}

#[test]
fn comparisons_around_a_point() {
    let p = coordinate(1.0, 1.0);
    let east = coordinate(5.0, 1.0);
    let far_east = coordinate(9.0, 1.0);
    let north = coordinate(1.0, 3.0);
    let south = coordinate(1.0, -3.0);
    assert_eq!(cmp_angle(&p, &east, &north), Ordering::Less);
    assert_eq!(cmp_angle(&p, &north, &east), Ordering::Greater);
    assert_eq!(cmp_angle(&p, &east, &far_east), Ordering::Equal);
    assert_eq!(cmp_angle(&p, &south, &east), Ordering::Less);
    assert_eq!(cmp_distance(&p, &east, &far_east), Ordering::Less);
    assert_eq!(cmp_distance(&p, &far_east, &east), Ordering::Greater);
    assert_eq!(cmp_distance(&p, &north, &coordinate(3.0, 1.0)), Ordering::Equal);
    // the sweep takes the angle first, then the distance
    assert!(sweeps_before(&p, &east, &far_east));
    assert!(!sweeps_before(&p, &far_east, &east));
    assert!(sweeps_before(&p, &far_east, &north));
    assert!(!sweeps_before(&p, &east, &east));
}
