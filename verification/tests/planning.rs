use planner::geometry::{Coordinate, MultiPolygon, Polygon};
use planner::line_string_ratio::line_string_point_at_length;
use planner::mpi::Mpi;
use planner::nav_graph::planning::{
    plan_path_or_recharge, possible_recharge_points, sort_by_key, Leg, PlannerError, RechargePoint,
};
use planner::nav_graph::{
    add_coord_to_nav_graph, create_nav_graph, Features, NavGraph, NodeData,
    VisibilityOptimizationMode,
};
use planner::winding::{ensure_sfa_winding, ring_with_winding, WindingOrder};

fn c(x: i32, y: i32) -> Coordinate {
    Coordinate { x, y }
}

#[test]
fn point_at_length_interpolates() {
    let line = vec![c(0, 0), c(300, 400), c(300, 1000)];
    assert_eq!(line_string_point_at_length(&line, 0), Some(c(0, 0)));
    assert_eq!(line_string_point_at_length(&line, 250), Some(c(150, 200)));
    assert_eq!(line_string_point_at_length(&line, 500), Some(c(300, 400)));
    assert_eq!(line_string_point_at_length(&line, 501), Some(c(300, 401)));
    assert_eq!(line_string_point_at_length(&line, 1100), Some(c(300, 1000)));
    assert_eq!(line_string_point_at_length(&line, 1101), None);
    // rounded down, towards the start of the segment or not
    assert_eq!(line_string_point_at_length(&line, 1), Some(c(0, 0)));
    assert_eq!(line_string_point_at_length(&line, 2), Some(c(1, 1)));
    let back = vec![c(0, 0), c(-300, -400)];
    assert_eq!(line_string_point_at_length(&back, 1), Some(c(-1, -1)));
    assert_eq!(line_string_point_at_length(&back, 250), Some(c(-150, -200)));
    assert_eq!(line_string_point_at_length(&back, 500), Some(c(-300, -400)));
}

#[test]
fn point_at_length_of_short_lines() {
    assert_eq!(line_string_point_at_length(&vec![], 0), None);
    assert_eq!(line_string_point_at_length(&vec![c(5, 5)], 0), None);
    // a segment without length
    assert_eq!(line_string_point_at_length(&vec![c(5, 5), c(5, 5)], 0), Some(c(5, 5)));
    assert_eq!(line_string_point_at_length(&vec![c(5, 5), c(5, 5)], 1), None);
    assert_eq!(
        line_string_point_at_length(&vec![c(5, 5), c(5, 5), c(5, 15)], 4),
        Some(c(5, 9))
    );
    // segment lengths are rounded up: the diagonal counts 142 units
    let diagonal = vec![c(0, 0), c(100, 100), c(200, 100)];
    assert_eq!(line_string_point_at_length(&diagonal, 142), Some(c(100, 100)));
    assert_eq!(line_string_point_at_length(&diagonal, 71), Some(c(50, 50)));
    assert_eq!(line_string_point_at_length(&diagonal, 143), Some(c(101, 100)));
    assert_eq!(line_string_point_at_length(&diagonal, 242), Some(c(200, 100)));
    assert_eq!(line_string_point_at_length(&diagonal, 243), None);
    // the longest segment there is
    let longest = vec![c(i32::MIN, i32::MIN), c(i32::MAX, i32::MAX)];
    assert_eq!(line_string_point_at_length(&longest, 6_074_000_999), Some(c(i32::MAX, i32::MAX)));
    assert_eq!(line_string_point_at_length(&longest, 0), Some(c(i32::MIN, i32::MIN)));
    assert_eq!(line_string_point_at_length(&longest, u64::MAX), None);
}

fn point(key: u128, coord_index: usize) -> RechargePoint {
    RechargePoint {
        mpi: Mpi { polygon_index: 0, ring_index: 0, coord_index },
        coord: c(0, 0),
        key,
    }
}

#[test]
fn candidates_are_sorted_stably() {
    let mut points = vec![point(5, 0), point(3, 1), point(5, 2), point(0, 3), point(3, 4)];
    sort_by_key(&mut points);
    assert_eq!(points, vec![point(0, 3), point(3, 1), point(3, 4), point(5, 0), point(5, 2)]);
    let mut none: Vec<RechargePoint> = vec![];
    sort_by_key(&mut none);
    assert_eq!(none, vec![]);
}

fn triangle(x: i32, y: i32) -> Polygon {
    Polygon::new(vec![c(x, y), c(x + 500, y), c(x, y + 500), c(x, y)], vec![])
}

/// Recharge polygons every 40 m along the x axis, and a start and an end.
fn chain(last: i32) -> (NavGraph, usize, usize) {
    let waters: Vec<Polygon> = (1..=4).map(|k| triangle(k * 4000, 200)).collect();
    let features = Features::new(MultiPolygon::new(vec![]), MultiPolygon::new(waters)).unwrap();
    let mode = VisibilityOptimizationMode::Sweep;
    let mut graph = create_nav_graph(features, mode);
    let (_, start) = add_coord_to_nav_graph(c(0, 0), &mut graph, mode);
    let (_, end) = add_coord_to_nav_graph(c(last, 0), &mut graph, mode);
    (graph, start, end)
}

#[test]
fn candidates_are_the_vertices_in_range() {
    let (graph, _, _) = chain(20_000);
    let points = possible_recharge_points(&graph, c(0, 0), 4600, c(4600, 0));
    let found: Vec<(usize, usize, u128)> = points
        .iter()
        .map(|p| {
            assert_eq!(p.coord, graph.features.waters.index(&p.mpi));
            (p.mpi.polygon_index, p.mpi.coord_index, p.key)
        })
        .collect();
    // the vertices of the first polygon, nearest to the point headed for first;
    // the third vertex is 40.6 m from the start
    assert_eq!(
        found,
        vec![
            (0, 1, 100 * 100 + 200 * 200),
            (0, 0, 600 * 600 + 200 * 200),
            (0, 2, 600 * 600 + 700 * 700),
        ]
    );
    assert_eq!(possible_recharge_points(&graph, c(0, 0), 4000, c(4600, 0)), vec![]);
}

fn check_legs(graph: &NavGraph, start: usize, end: usize, legs: &[Leg], first: u64, later: u64) {
    let mut leg_start = start;
    for (i, leg) in legs.iter().enumerate() {
        assert_eq!(leg.path[0], (leg_start, 0));
        for step in leg.path.windows(2) {
            let length = graph.neighbors(step[0].0).iter().find(|(b, _)| *b == step[1].0).unwrap().1;
            assert_eq!(step[0].1 + length, step[1].1);
        }
        let (last, cost) = *leg.path.last().unwrap();
        if i + 1 < legs.len() {
            assert!(matches!(graph.node_weight(last), Some(NodeData::PartOfWater(_))));
            assert!(cost <= first);
            assert_ne!(last, leg_start);
        } else {
            assert_eq!(last, end);
            assert!(cost <= if i == 0 { first } else { later });
            assert_eq!(leg.last_reachable, graph.node_coord(end));
        }
        leg_start = last;
    }
}

#[test]
fn legs_are_contiguous() {
    let (graph, start, end) = chain(20_000);
    let legs = plan_path_or_recharge(&graph, 4600, 4600, start, end).unwrap();
    assert_eq!(legs.len(), 5);
    check_legs(&graph, start, end, &legs, 4600, 4600);
    // every leg but the last heads for the point at the end of its range
    assert_eq!(legs[0].last_reachable, c(4600, 0));
    for leg in &legs[..4] {
        let from = graph.node_coord(leg.path[0].0);
        assert_eq!(from.euclidean_distance(&leg.last_reachable), 4600);
    }
}

#[test]
fn the_range_after_a_recharge_counts_from_the_second_leg_on() {
    let (graph, start, end) = chain(20_000);
    // the first water is out of the initial range
    assert_eq!(
        plan_path_or_recharge(&graph, 3000, 4600, start, end).unwrap_err(),
        PlannerError::NoPathToWater
    );
    // after the first recharge the next water is out of range, and the
    // planner finds only the polygon it is at
    assert_eq!(
        plan_path_or_recharge(&graph, 4600, 3000, start, end).unwrap_err(),
        PlannerError::LoopDetected
    );
    // a longer range after the recharge takes fewer legs
    let legs = plan_path_or_recharge(&graph, 4600, 9000, start, end).unwrap();
    check_legs(&graph, start, end, &legs, 4600, 9000);
    assert!(legs.len() < 5);
    // the end within reach
    let legs = plan_path_or_recharge(&graph, 20_000, 0, start, end).unwrap();
    assert_eq!(legs.len(), 1);
    assert_eq!(legs[0].path, vec![(start, 0), (end, 20_000)]);
    // start and end the same
    let legs = plan_path_or_recharge(&graph, 0, 0, start, start).unwrap();
    assert_eq!(legs.len(), 1);
    assert_eq!(legs[0].path, vec![(start, 0)]);
}

#[test]
fn errors_have_names() {
    assert_eq!(PlannerError::NoPathToEnd.name(), "NoPathToEnd");
    assert_eq!(PlannerError::NoPathToWater.name(), "NoPathToWater");
    assert_eq!(PlannerError::LoopDetected.name(), "LoopDetected");
}

#[test]
fn winding_is_put_right() {
    let counter_clockwise = vec![c(0, 0), c(20, 0), c(20, 20), c(0, 20), c(0, 0)];
    let clockwise: Vec<Coordinate> = counter_clockwise.iter().rev().copied().collect();
    let hole_counter_clockwise = vec![c(8, 8), c(12, 8), c(12, 12), c(8, 12), c(8, 8)];
    let hole_clockwise: Vec<Coordinate> = hole_counter_clockwise.iter().rev().copied().collect();
    let flat = vec![c(0, 0), c(5, 0), c(9, 0), c(0, 0)];
    let mut multi_polygon = MultiPolygon::new(vec![
        Polygon::new(clockwise.clone(), vec![hole_counter_clockwise.clone(), hole_clockwise.clone()]),
        Polygon::new(counter_clockwise.clone(), vec![]),
        Polygon::new(flat.clone(), vec![]),
    ]);
    assert!(multi_polygon.is_in_winding_range());
    ensure_sfa_winding(&mut multi_polygon);
    assert_eq!(multi_polygon.0.len(), 3);
    assert_eq!(multi_polygon.0[0].exterior, counter_clockwise);
    assert_eq!(multi_polygon.0[0].interiors, vec![hole_clockwise.clone(), hole_clockwise.clone()]);
    assert_eq!(multi_polygon.0[1].exterior, counter_clockwise);
    // a ring without a winding order stays as it is
    assert_eq!(multi_polygon.0[2].exterior, flat);
    // done once, done
    ensure_sfa_winding(&mut multi_polygon);
    assert_eq!(multi_polygon.0[0].exterior, counter_clockwise);
    assert_eq!(multi_polygon.0[0].interiors, vec![hole_clockwise.clone(), hole_clockwise]);
}

#[test]
fn a_ring_is_turned_when_found_the_wrong_way_round() {
    let ring = vec![c(0, 0), c(20, 0), c(20, 20), c(0, 0)];
    let turned = vec![c(0, 0), c(20, 20), c(20, 0), c(0, 0)];
    assert_eq!(ring_with_winding(&ring, Some(WindingOrder::Clockwise), true), turned);
    assert_eq!(ring_with_winding(&ring, Some(WindingOrder::CounterClockwise), true), ring);
    assert_eq!(ring_with_winding(&ring, Some(WindingOrder::Clockwise), false), ring);
    assert_eq!(ring_with_winding(&ring, Some(WindingOrder::CounterClockwise), false), turned);
    assert_eq!(ring_with_winding(&ring, None, true), ring);
    assert_eq!(ring_with_winding(&ring, None, false), ring);
    assert_eq!(ring_with_winding(&vec![], Some(WindingOrder::Clockwise), true), vec![]);
}

#[test]
fn the_winding_range() {
    let limit = 1 << 30;
    let inside = MultiPolygon::new(vec![Polygon::new(
        vec![c(limit - 1, 1 - limit), c(0, 0), c(1, 1), c(limit - 1, 1 - limit)],
        vec![],
    )]);
    assert!(inside.is_in_winding_range());
    for far in [c(limit, 0), c(-limit, 0), c(0, limit), c(0, -limit)] {
        let outside = MultiPolygon::new(vec![Polygon::new(
            vec![c(0, 0), c(5, 0), c(5, 5), c(0, 0)],
            vec![vec![c(1, 1), far, c(2, 1), c(1, 1)]],
        )]);
        assert!(!outside.is_in_winding_range());
    }
}

#[test]
fn a_recharge_leg_ends_on_the_vertex_nearest_by_cost_and_estimate() {
    let water = Polygon::new(
        vec![c(2000, -1000), c(2500, -1000), c(2500, -500), c(2000, -500), c(2000, -1000)],
        vec![],
    );
    let features =
        Features::new(MultiPolygon::new(vec![]), MultiPolygon::new(vec![water])).unwrap();
    for mode in [
        VisibilityOptimizationMode::Naive,
        VisibilityOptimizationMode::Sweep,
        VisibilityOptimizationMode::OptimizedSweep,
    ] {
        let mut graph = create_nav_graph(features.clone(), mode);
        let (_, start) = add_coord_to_nav_graph(c(0, 0), &mut graph, mode);
        let (_, end) = add_coord_to_nav_graph(c(10_000, 0), &mut graph, mode);
        let legs = plan_path_or_recharge(&graph, 3000, 8000, start, end).unwrap();
        assert_eq!(legs.len(), 2);
        check_legs(&graph, start, end, &legs, 3000, 8000);
        assert_eq!(legs[0].last_reachable, c(3000, 0));
        assert_eq!(legs[0].path.len(), 2);
        let (vertex, cost) = legs[0].path[1];
        assert_eq!(graph.node_coord(vertex), c(2500, -500));
        assert_eq!(cost, 2550);
        assert_eq!(legs[1].path, vec![(vertex, 0), (end, 7517)]);
        assert_eq!(legs[1].last_reachable, c(10_000, 0));
    }
}
