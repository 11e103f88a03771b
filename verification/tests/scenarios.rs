use planner::geometry::{Coordinate, MultiPolygon, Polygon};
use planner::nav_graph::planning::{plan_path_or_recharge, PlannerError};
use planner::nav_graph::{
    add_coord_to_nav_graph, calculate_shortest_path, create_nav_graph, Features, NavGraph, NodeData,
    VisibilityOptimizationMode,
};
use planner::winding::ensure_sfa_winding;

/// A coordinate given in metres.
fn metres(x: f64, y: f64) -> Coordinate {
    Coordinate { x: (x * 100.0).round() as i32, y: (y * 100.0).round() as i32 }
}

fn ring(points: &[(f64, f64)]) -> Vec<Coordinate> {
    points.iter().map(|(x, y)| metres(*x, *y)).collect()
}

fn square_obstacle() -> MultiPolygon {
    MultiPolygon::new(vec![Polygon::new(
        ring(&[(0.0, 0.0), (10.0, 0.0), (10.0, 10.0), (0.0, 10.0), (0.0, 0.0)]),
        vec![],
    )])
}

fn water_square() -> MultiPolygon {
    MultiPolygon::new(vec![Polygon::new(
        ring(&[(50.0, -5.0), (55.0, -5.0), (55.0, 0.0), (50.0, 0.0), (50.0, -5.0)]),
        vec![],
    )])
}

fn handle_at(graph: &NavGraph, at: Coordinate) -> usize {
    (0..graph.node_count())
        .find(|i| graph.features.coord(&graph.node_weight(*i).unwrap()) == at)
        .unwrap()
}

const MODES: [VisibilityOptimizationMode; 3] = [
    VisibilityOptimizationMode::Naive,
    VisibilityOptimizationMode::Sweep,
    VisibilityOptimizationMode::OptimizedSweep,
];

#[test]
fn single_convex_obstacle() {
    for mode in MODES {
        let features = Features::new(square_obstacle(), MultiPolygon::new(vec![])).unwrap();
        let mut graph = create_nav_graph(features, mode);
        assert_eq!(graph.node_count(), 4);
        let (_, start) = add_coord_to_nav_graph(metres(-5.0, 5.0), &mut graph, mode);
        let (_, end) = add_coord_to_nav_graph(metres(15.0, 5.0), &mut graph, mode);
        assert_eq!(graph.node_count(), 6);

        let sw = handle_at(&graph, metres(0.0, 0.0));
        let se = handle_at(&graph, metres(10.0, 0.0));
        let ne = handle_at(&graph, metres(10.0, 10.0));
        let nw = handle_at(&graph, metres(0.0, 10.0));
        assert!(graph.contains_edge(start, sw), "{:?}", mode);
        assert!(graph.contains_edge(start, nw), "{:?}", mode);
        assert!(graph.contains_edge(se, end), "{:?}", mode);
        assert!(graph.contains_edge(ne, end), "{:?}", mode);
        // the sides of the obstacle can be flown along
        assert!(graph.contains_edge(sw, se), "{:?}", mode);
        assert!(graph.contains_edge(nw, ne), "{:?}", mode);
        // but not its diagonals, nor the line through it
        assert!(!graph.contains_edge(sw, ne), "{:?}", mode);
        assert!(!graph.contains_edge(se, nw), "{:?}", mode);
        assert!(!graph.contains_edge(start, end), "{:?}", mode);
        assert!(!graph.contains_edge(start, se), "{:?}", mode);

        let (cost, path) = calculate_shortest_path(&graph, start, end).unwrap();
        // 7.08 m to a near corner, 10 m along the side, 7.08 m to the end
        assert_eq!(cost.length, 708 + 1000 + 708);
        assert!(path == vec![start, sw, se, end] || path == vec![start, nw, ne, end]);
    }
}

#[test]
fn obstacle_with_a_hole() {
    for mode in MODES {
        let mut obstacles = MultiPolygon::new(vec![Polygon::new(
            ring(&[(0.0, 0.0), (20.0, 0.0), (20.0, 20.0), (0.0, 20.0), (0.0, 0.0)]),
            vec![ring(&[(8.0, 8.0), (12.0, 8.0), (12.0, 12.0), (8.0, 12.0), (8.0, 8.0)])],
        )]);
        assert!(obstacles.is_in_winding_range());
        ensure_sfa_winding(&mut obstacles);
        let features = Features::new(obstacles, MultiPolygon::new(vec![])).unwrap();
        let mut graph = create_nav_graph(features, mode);
        // the vertices of the hole lie on the boundary and stay
        assert_eq!(graph.node_count(), 8);
        let (_, start) = add_coord_to_nav_graph(metres(10.0, 10.0), &mut graph, mode);
        let (_, end) = add_coord_to_nav_graph(metres(30.0, 10.0), &mut graph, mode);
        assert!(calculate_shortest_path(&graph, start, end).is_none(), "{:?}", mode);
        let planned = plan_path_or_recharge(&graph, 100_000, 100_000, start, end);
        assert_eq!(planned.unwrap_err(), PlannerError::NoPathToEnd, "{:?}", mode);
    }
}

fn recharge_graph(mode: VisibilityOptimizationMode) -> (NavGraph, usize, usize) {
    let features = Features::new(MultiPolygon::new(vec![]), water_square()).unwrap();
    let mut graph = create_nav_graph(features, mode);
    assert_eq!(graph.node_count(), 4);
    let (_, start) = add_coord_to_nav_graph(metres(0.0, 0.0), &mut graph, mode);
    let (_, end) = add_coord_to_nav_graph(metres(100.0, 0.0), &mut graph, mode);
    (graph, start, end)
}

#[test]
fn recharge_required() {
    for mode in MODES {
        let (graph, start, end) = recharge_graph(mode);
        let legs = plan_path_or_recharge(&graph, 6000, 6000, start, end).unwrap();
        assert_eq!(legs.len(), 2);

        // the first leg heads for the point 60 m along the straight line
        assert_eq!(legs[0].last_reachable, metres(60.0, 0.0));
        let first = &legs[0].path;
        assert_eq!(first[0], (start, 0));
        let (water, cost) = *first.last().unwrap();
        assert!(matches!(graph.node_weight(water), Some(NodeData::PartOfWater(_))));
        assert!(cost <= 6000);

        // the second leg starts where the first ended and reaches the end
        let second = &legs[1].path;
        assert_eq!(second[0], (water, 0));
        assert_eq!(second.last().unwrap().0, end);
        assert!(second.last().unwrap().1 <= 6000);
        assert_eq!(legs[1].last_reachable, metres(100.0, 0.0));
    }
}

#[test]
fn loop_detection() {
    for mode in MODES {
        let (graph, start, end) = recharge_graph(mode);
        let planned = plan_path_or_recharge(&graph, 6000, 1000, start, end);
        assert_eq!(planned.unwrap_err(), PlannerError::LoopDetected, "{:?}", mode);
    }
}

#[test]
fn end_within_reach_is_one_leg() {
    let (graph, start, end) = recharge_graph(VisibilityOptimizationMode::Sweep);
    let legs = plan_path_or_recharge(&graph, 10_000, 0, start, end).unwrap();
    assert_eq!(legs.len(), 1);
    assert_eq!(legs[0].path, vec![(start, 0), (end, 10_000)]);
    assert_eq!(legs[0].last_reachable, metres(100.0, 0.0));
}

#[test]
fn no_water_in_range() {
    let (graph, start, end) = recharge_graph(VisibilityOptimizationMode::Sweep);
    let planned = plan_path_or_recharge(&graph, 4000, 4000, start, end);
    assert_eq!(planned.unwrap_err(), PlannerError::NoPathToWater);
}
