#![allow(non_snake_case)]

use planner::geometry::{Coordinate, MultiPolygon, Polygon};
use planner::modulo::ModuloSignedExt;
use planner::mpi::{
    intersects_polygon_locally, is_locally_concave, Mpi, MpiCoordsIterable, Neighbors,
    NeighborsGetter,
};

/// A coordinate given in metres.
fn coordinate(x: f64, y: f64) -> Coordinate {
    Coordinate { x: (x * 100.0).round() as i32, y: (y * 100.0).round() as i32 }
}

fn mpi(polygon_index: usize, ring_index: usize, coord_index: usize) -> Mpi {
    Mpi { polygon_index, ring_index, coord_index }
}

#[test]
fn is_locally_concave__concave() {
    let multi_polygon = MultiPolygon(vec![Polygon::new(
        vec![
            coordinate(0.0, 0.0),
            coordinate(5.0, 0.0),
            coordinate(2.0, 2.0), // concave
            coordinate(0.0, 5.0),
            coordinate(0.0, 0.0),
        ],
        vec![],
    )]);
    let mpi = Mpi { polygon_index: 0, ring_index: 0, coord_index: 2 };
    assert_eq!(is_locally_concave(&mpi, &multi_polygon), true);
}

#[test]
fn is_locally_concave__convex() {
    let multi_polygon = MultiPolygon(vec![Polygon::new(
        vec![
            coordinate(0.0, 0.0),
            coordinate(5.0, 0.0),
            coordinate(5.0, 5.0), // convex
            coordinate(0.0, 5.0),
            coordinate(0.0, 0.0),
        ],
        vec![],
    )]);
    let mpi = Mpi { polygon_index: 0, ring_index: 0, coord_index: 2 };
    assert_eq!(is_locally_concave(&mpi, &multi_polygon), false);
}

#[test]
fn is_locally_concave__straight() {
    let multi_polygon = MultiPolygon(vec![Polygon::new(
        vec![
            coordinate(0.0, 0.0),
            coordinate(5.0, 0.0),
            coordinate(2.5, 2.5), // straight
            coordinate(0.0, 5.0),
            coordinate(0.0, 0.0),
        ],
        vec![],
    )]);
    let mpi = Mpi { polygon_index: 0, ring_index: 0, coord_index: 2 };
    assert_eq!(is_locally_concave(&mpi, &multi_polygon), false);
}

fn two_polygons() -> MultiPolygon {
    MultiPolygon(vec![
        Polygon::new(
            vec![
                coordinate(0.0, 0.0),
                coordinate(20.0, 0.0),
                coordinate(20.0, 20.0),
                coordinate(0.0, 20.0),
                coordinate(0.0, 0.0),
            ],
            vec![vec![
                coordinate(8.0, 8.0),
                coordinate(8.0, 12.0),
                coordinate(12.0, 12.0),
                coordinate(8.0, 8.0),
            ]],
        ),
        Polygon::new(
            vec![
                coordinate(30.0, 0.0),
                coordinate(40.0, 0.0),
                coordinate(35.0, 10.0),
                coordinate(30.0, 0.0),
            ],
            vec![],
        ),
    ])
}

#[test]
fn neighbors_wrap_around_the_ring() {
    let multi_polygon = two_polygons();
    assert_eq!(
        mpi(0, 0, 0).neighbors(&multi_polygon),
        Neighbors { left: mpi(0, 0, 1), right: mpi(0, 0, 3) }
    );
    assert_eq!(
        mpi(0, 0, 3).neighbors(&multi_polygon),
        Neighbors { left: mpi(0, 0, 0), right: mpi(0, 0, 2) }
    );
    assert_eq!(
        mpi(0, 1, 1).neighbors(&multi_polygon),
        Neighbors { left: mpi(0, 1, 2), right: mpi(0, 1, 0) }
    );
    assert_eq!(
        mpi(1, 0, 2).neighbors(&multi_polygon),
        Neighbors { left: mpi(1, 0, 0), right: mpi(1, 0, 1) }
    );
    assert_eq!(Neighbors::new(mpi(0, 0, 1), mpi(0, 0, 3)).into(), [mpi(0, 0, 1), mpi(0, 0, 3)]);
}

#[test]
fn index_names_the_vertex() {
    let multi_polygon = two_polygons();
    assert_eq!(multi_polygon.index(&mpi(0, 0, 2)), coordinate(20.0, 20.0));
    assert_eq!(multi_polygon.index(&mpi(0, 1, 1)), coordinate(8.0, 12.0));
    assert_eq!(multi_polygon.index(&mpi(1, 0, 2)), coordinate(35.0, 10.0));
    assert!(mpi(1, 0, 2).is_valid_for(&multi_polygon));
    // the closing coordinate has no index
    assert!(!mpi(1, 0, 3).is_valid_for(&multi_polygon));
    assert!(!mpi(1, 1, 0).is_valid_for(&multi_polygon));
    assert!(!mpi(2, 0, 0).is_valid_for(&multi_polygon));
}

#[test]
fn iteration_skips_the_closing_coordinates() {
    let multi_polygon = two_polygons();
    let expected = vec![
        mpi(0, 0, 0),
        mpi(0, 0, 1),
        mpi(0, 0, 2),
        mpi(0, 0, 3),
        mpi(0, 1, 0),
        mpi(0, 1, 1),
        mpi(0, 1, 2),
        mpi(1, 0, 0),
        mpi(1, 0, 1),
        mpi(1, 0, 2),
    ];
    assert_eq!(multi_polygon.indexed_coords_iter().collect(), expected);

    let mut iter = multi_polygon.indexed_coords_iter();
    let mut walked = Vec::new();
    while let Some(next) = iter.next() {
        walked.push(next);
    }
    assert_eq!(walked, expected);
    assert_eq!(iter.next(), None);

    let empty = MultiPolygon(vec![]);
    assert_eq!(empty.indexed_coords_iter().collect(), vec![]);
    assert_eq!(empty.indexed_coords_iter().next(), None);
    // rings without a vertex are passed over
    let hollow = MultiPolygon(vec![
        Polygon::new(vec![], vec![vec![coordinate(1.0, 1.0)]]),
        Polygon::new(vec![coordinate(0.0, 0.0), coordinate(1.0, 0.0), coordinate(0.0, 0.0)], vec![]),
    ]);
    assert_eq!(hollow.indexed_coords_iter().collect(), vec![mpi(1, 0, 0), mpi(1, 0, 1)]);
    let mut iter = hollow.indexed_coords_iter();
    assert_eq!(iter.next(), Some(mpi(1, 0, 0)));
    assert_eq!(iter.next(), Some(mpi(1, 0, 1)));
    assert_eq!(iter.next(), None);
}

#[test]
fn a_ray_into_the_polygon_intersects_it_locally() {
    let multi_polygon = two_polygons();
    let corner = mpi(0, 0, 0);
    // into the square
    assert!(intersects_polygon_locally(&corner, coordinate(10.0, 10.0), &multi_polygon));
    assert!(intersects_polygon_locally(&corner, coordinate(20.0, 20.0), &multi_polygon));
    // away from it
    assert!(!intersects_polygon_locally(&corner, coordinate(-5.0, -5.0), &multi_polygon));
    assert!(!intersects_polygon_locally(&corner, coordinate(-5.0, 5.0), &multi_polygon));
    // along its sides
    assert!(!intersects_polygon_locally(&corner, coordinate(20.0, 0.0), &multi_polygon));
    assert!(!intersects_polygon_locally(&corner, coordinate(0.0, 20.0), &multi_polygon));
    // at a vertex of the hole, the hole is the free side
    let hole_corner = mpi(0, 1, 0);
    assert!(!intersects_polygon_locally(&hole_corner, coordinate(9.0, 10.0), &multi_polygon));
    assert!(intersects_polygon_locally(&hole_corner, coordinate(0.0, 0.0), &multi_polygon));
}

#[test]
fn modulo_is_never_negative() {
    assert_eq!(7i64.modulo(5), 2);
    assert_eq!((-1i64).modulo(5), 4);
    assert_eq!((-5i64).modulo(5), 0);
    assert_eq!((-6i64).modulo(5), 4);
    assert_eq!(0i64.modulo(5), 0);
    assert_eq!(i64::MIN.modulo(i64::MAX), i64::MAX - 1);
    assert_eq!((-1i64).modulo(i64::MAX), i64::MAX - 1);
    assert_eq!((-3i8).modulo(127), 124);
    assert_eq!(i8::MIN.modulo(3), 1);
    assert_eq!((-7i16).modulo(4), 1);
    assert_eq!((-7i32).modulo(4), 1);
    assert_eq!(7usize.modulo(4), 3);
    assert_eq!((3i64 - 4).modulo(4), 3);
}

#[test]
fn a_walk_that_has_ended_stays_ended() {
    let multi_polygon = two_polygons();
    let mut iter = multi_polygon.indexed_coords_iter();
    let mut count = 0;
    while iter.next().is_some() {
        count += 1;
    }
    assert_eq!(count, 10);
    for _ in 0..5 {
        assert_eq!(iter.next(), None);
    }
    // a ring without vertices at the end
    let trailing = MultiPolygon(vec![
        Polygon::new(vec![coordinate(0.0, 0.0), coordinate(1.0, 0.0), coordinate(0.0, 0.0)], vec![]),
        Polygon::new(vec![], vec![]),
    ]);
    let mut iter = trailing.indexed_coords_iter();
    assert_eq!(iter.next(), Some(mpi(0, 0, 0)));
    assert_eq!(iter.next(), Some(mpi(0, 0, 1)));
    assert_eq!(iter.next(), None);
    assert_eq!(iter.next(), None);
    assert_eq!(iter.next(), None);
}
