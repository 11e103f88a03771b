use planner::geometry::{orient2d, Coordinate, Orientation};

/// Not a test of our code alone, but a sanity check of the orientation
/// convention.
#[test]
#[allow(non_snake_case)]
fn orient2d__cw() {
    let result = orient2d(
        Coordinate { x: 0, y: 0 },
        Coordinate { x: 500, y: 0 },
        Coordinate { x: 500, y: -500 },
    );
    assert_eq!(result, Orientation::Clockwise)
}

#[test]
#[allow(non_snake_case)]
fn orient2d__ccw() {
    let result = orient2d(
        Coordinate { x: 0, y: 0 },
        Coordinate { x: 500, y: 0 },
        Coordinate { x: 500, y: 500 },
    );
    assert_eq!(result, Orientation::CounterClockwise)
}

use planner::geometry::{
    drop_repeated_points, Line, MultiPolygon, Polygon, CONTAINS_COORDINATE_LIMIT,
};
use planner::intersection::{
    get_proper_ray_line_intersection, line_intersection, proper_line_intersection,
};

fn c(x: i32, y: i32) -> Coordinate {
    Coordinate { x, y }
}

#[test]
fn orient2d_collinear_and_extreme() {
    assert_eq!(orient2d(c(0, 0), c(5, 5), c(9, 9)), Orientation::Collinear);
    assert_eq!(orient2d(c(0, 0), c(0, 0), c(9, 9)), Orientation::Collinear);
    // products that do not fit in 64 bits
    let low = i32::MIN;
    let high = i32::MAX;
    assert_eq!(orient2d(c(low, low), c(high, low), c(high, high)), Orientation::CounterClockwise);
    assert_eq!(orient2d(c(low, low), c(high, high), c(high, low)), Orientation::Clockwise);
    assert_eq!(orient2d(c(low, low), c(0, 1), c(high, high)), Orientation::Clockwise);
    assert_eq!(orient2d(c(low, low), c(1, 0), c(high, high)), Orientation::CounterClockwise);
    assert_eq!(orient2d(c(low, low), c(-1, -1), c(high, high)), Orientation::Collinear);
}

#[test]
fn a_line_contains_its_interior_only() {
    let line = Line::new(c(0, 0), c(10, 10));
    assert!(line.contains(c(5, 5)));
    assert!(!line.contains(c(0, 0)));
    assert!(!line.contains(c(10, 10)));
    assert!(!line.contains(c(11, 11)));
    assert!(!line.contains(c(5, 6)));
    assert!(line.intersects_coordinate(c(0, 0)));
    assert!(line.intersects_coordinate(c(10, 10)));
    assert!(!line.intersects_coordinate(c(-1, -1)));
    // a line without length contains its one point
    let point = Line::new(c(3, 3), c(3, 3));
    assert!(point.contains(c(3, 3)));
    assert!(!point.contains(c(3, 4)));
}

#[test]
fn segments_intersect() {
    let a = Line::new(c(0, 0), c(10, 10));
    // crossing
    let b = Line::new(c(0, 10), c(10, 0));
    assert!(line_intersection(a, b));
    assert!(proper_line_intersection(a, b));
    assert!(proper_line_intersection(b, a));
    // touching at an end
    let t = Line::new(c(10, 10), c(20, 0));
    assert!(line_intersection(a, t));
    assert!(!proper_line_intersection(a, t));
    // an end on the interior of the other
    let s = Line::new(c(5, 5), c(5, 20));
    assert!(line_intersection(a, s));
    assert!(!proper_line_intersection(a, s));
    // overlapping on one line
    let o = Line::new(c(5, 5), c(15, 15));
    assert!(line_intersection(a, o));
    assert!(!proper_line_intersection(a, o));
    // on one line, apart
    let apart = Line::new(c(11, 11), c(15, 15));
    assert!(!line_intersection(a, apart));
    // parallel
    let p = Line::new(c(0, 1), c(10, 11));
    assert!(!line_intersection(a, p));
    // the lines cross, the segments do not
    let miss = Line::new(c(20, 0), c(12, 9));
    assert!(!line_intersection(a, miss));
    assert!(!proper_line_intersection(a, miss));
}

#[test]
fn a_ray_crosses_what_lies_ahead() {
    let rho = Line::new(c(0, 0), c(1, 0));
    assert!(get_proper_ray_line_intersection(rho, &Line::new(c(5, -1), c(5, 1))));
    assert!(get_proper_ray_line_intersection(rho, &Line::new(c(5, 1), c(5, -1))));
    // far beyond the point the ray is drawn through
    assert!(get_proper_ray_line_intersection(rho, &Line::new(c(500, -1), c(700, 1))));
    // behind the origin
    assert!(!get_proper_ray_line_intersection(rho, &Line::new(c(-5, -1), c(-5, 1))));
    // touching with an end
    assert!(!get_proper_ray_line_intersection(rho, &Line::new(c(5, 0), c(5, 1))));
    // through the origin
    assert!(!get_proper_ray_line_intersection(rho, &Line::new(c(0, -1), c(0, 1))));
    // along the ray
    assert!(!get_proper_ray_line_intersection(rho, &Line::new(c(2, 0), c(4, 0))));
    // a ray without direction crosses nothing
    assert!(!get_proper_ray_line_intersection(
        Line::new(c(0, 0), c(0, 0)),
        &Line::new(c(5, -1), c(5, 1))
    ));
}

fn square_with_hole() -> Polygon {
    Polygon::new(
        vec![c(0, 0), c(20, 0), c(20, 20), c(0, 20), c(0, 0)],
        vec![vec![c(8, 8), c(8, 12), c(12, 12), c(12, 8), c(8, 8)]],
    )
}

#[test]
fn a_multi_polygon_contains_what_is_strictly_inside() {
    let one = MultiPolygon::new(vec![square_with_hole()]);
    assert!(one.contains(c(4, 4)));
    assert!(!one.contains(c(10, 10)), "in the hole");
    assert!(!one.contains(c(8, 10)), "on the boundary of the hole");
    assert!(!one.contains(c(0, 10)), "on the boundary");
    assert!(!one.contains(c(0, 0)), "on a corner");
    assert!(!one.contains(c(30, 10)));
    // a ray through a corner
    assert!(!one.contains(c(-5, 20)));
    assert!(!one.contains(c(-5, 0)));
    let multi_polygon = MultiPolygon::new(vec![
        square_with_hole(),
        Polygon::new(vec![c(30, 0), c(40, 0), c(35, 10), c(30, 0)], vec![]),
    ]);
    assert!(multi_polygon.contains(c(4, 4)));
    assert!(multi_polygon.contains(c(35, 5)));
    assert!(!multi_polygon.contains(c(10, 10)));
    assert!(!multi_polygon.contains(c(25, 5)));
    assert!(!MultiPolygon::new(vec![]).contains(c(0, 0)));
}

#[test]
fn a_ray_through_the_tip_of_a_diamond() {
    let diamond = MultiPolygon::new(vec![Polygon::new(
        vec![c(0, 0), c(5, -5), c(10, 0), c(5, 5), c(0, 0)],
        vec![],
    )]);
    assert!(!diamond.contains(c(-3, 0)));
    assert!(diamond.contains(c(3, 0)));
    assert!(!diamond.contains(c(-3, 5)));
    assert!(!diamond.contains(c(-3, -5)));
}

#[test]
fn containment_near_the_bound_on_coordinates() {
    let far = CONTAINS_COORDINATE_LIMIT - 1;
    let wide = MultiPolygon::new(vec![Polygon::new(
        vec![c(-far, -far), c(far, -far), c(far, far), c(-far, far), c(-far, -far)],
        vec![],
    )]);
    assert!(wide.contains(c(0, 0)));
    assert!(wide.contains(c(far - 1, 1 - far)));
    assert!(!wide.contains(c(far, 0)));
}

#[test]
fn repeated_points_are_dropped() {
    let ring = vec![c(0, 0), c(0, 0), c(5, 0), c(5, 5), c(5, 5), c(5, 5), c(0, 0), c(5, 0), c(5, 0)];
    assert_eq!(drop_repeated_points(&ring), vec![c(0, 0), c(5, 0), c(5, 5), c(0, 0), c(5, 0)]);
    assert_eq!(drop_repeated_points(&vec![]), vec![]);
    assert_eq!(drop_repeated_points(&vec![c(1, 2)]), vec![c(1, 2)]);
    assert_eq!(drop_repeated_points(&vec![c(1, 2), c(1, 2)]), vec![c(1, 2)]);
}

#[test]
fn lines_follow_the_rings() {
    let multi_polygon = MultiPolygon::new(vec![
        Polygon::new(
            vec![c(0, 0), c(20, 0), c(0, 20), c(0, 0)],
            vec![vec![c(2, 2), c(2, 4), c(4, 2), c(2, 2)]],
        ),
        Polygon::new(vec![c(30, 0), c(40, 0), c(35, 10), c(30, 0)], vec![]),
    ]);
    assert_eq!(
        multi_polygon.lines(),
        vec![
            Line::new(c(0, 0), c(20, 0)),
            Line::new(c(20, 0), c(0, 20)),
            Line::new(c(0, 20), c(0, 0)),
            Line::new(c(2, 2), c(2, 4)),
            Line::new(c(2, 4), c(4, 2)),
            Line::new(c(4, 2), c(2, 2)),
            Line::new(c(30, 0), c(40, 0)),
            Line::new(c(40, 0), c(35, 10)),
            Line::new(c(35, 10), c(30, 0)),
        ]
    );
}
