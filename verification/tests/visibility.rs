use planner::geometry::{Coordinate, Line, MultiPolygon, Polygon};
use planner::mpi::Mpi;
use planner::nav_graph::visibility::{
    is_visible_from, sort_for_sweep, update_possible_obstacle_edges, visible_vertices, WPrevInfo,
};
use planner::nav_graph::{
    add_coord_to_nav_graph, calculate_shortest_path, create_nav_graph, Features, NavGraph, NodeData,
    VisibilityOptimizationMode,
};

fn c(x: i32, y: i32) -> Coordinate {
    Coordinate { x, y }
}

fn obstacle(polygon_index: usize, coord_index: usize) -> NodeData {
    NodeData::PartOfObstacle(Mpi { polygon_index, ring_index: 0, coord_index })
}

/// Two squares of side 1000 side by side, 1000 apart, the right one 200
/// higher, and three points: to the left, to the right and in between.
fn two_squares() -> Features {
    let square = |x: i32, y: i32| {
        Polygon::new(
            vec![c(x, y), c(x + 1000, y), c(x + 1000, y + 1000), c(x, y + 1000), c(x, y)],
            vec![],
        )
    };
    let mut features = Features::new(
        MultiPolygon::new(vec![square(0, 0), square(2000, 200)]),
        MultiPolygon::new(vec![]),
    )
    .unwrap();
    features.arbitrary.push(c(-1000, 500));
    features.arbitrary.push(c(4000, 500));
    features.arbitrary.push(c(1500, 500));
    features
}

const MODES: [VisibilityOptimizationMode; 3] = [
    VisibilityOptimizationMode::Naive,
    VisibilityOptimizationMode::Sweep,
    VisibilityOptimizationMode::OptimizedSweep,
];

fn sorted(mut nodes: Vec<NodeData>) -> Vec<NodeData> {
    nodes.sort();
    nodes
}

#[test]
fn visible_from_a_point_between_the_squares() {
    for mode in MODES {
        let features = two_squares();
        let mut ws = features.iter();
        let p = NodeData::Arbitrary(2);
        let visible = visible_vertices(&p, &mut ws, &features, mode);
        // the facing sides of both squares, and nothing behind them
        assert_eq!(
            sorted(visible),
            sorted(vec![obstacle(0, 1), obstacle(0, 2), obstacle(1, 0), obstacle(1, 3)]),
            "{:?}",
            mode
        );
    }
}

#[test]
fn visible_from_a_corner() {
    for mode in MODES {
        let features = two_squares();
        let mut ws = features.iter();
        // the lower right corner of the left square
        let p = obstacle(0, 1);
        let visible = visible_vertices(&p, &mut ws, &features, mode);
        // its neighbors along the sides, the facing side of the other
        // square and the corner below it, and the point in between
        assert_eq!(
            sorted(visible),
            sorted(vec![
                obstacle(0, 0),
                obstacle(0, 2),
                obstacle(1, 0),
                obstacle(1, 1),
                obstacle(1, 3),
                NodeData::Arbitrary(2),
            ]),
            "{:?}",
            mode
        );
    }
}

#[test]
fn the_sweep_sorts_its_candidates() {
    let features = two_squares();
    let p = NodeData::Arbitrary(2);
    let mut ws = features.iter();
    let before = ws.clone();
    visible_vertices(&p, &mut ws, &features, VisibilityOptimizationMode::Naive);
    assert_eq!(ws, before, "the candidates stay as they are without a sweep");
    visible_vertices(&p, &mut ws, &features, VisibilityOptimizationMode::Sweep);
    let mut again = before.clone();
    sort_for_sweep(&mut again, c(1500, 500), &features);
    assert_eq!(ws, again);
    assert_eq!(
        ws,
        vec![
            // below the x axis through p, from the negative x axis on
            obstacle(0, 0),
            obstacle(0, 1),
            obstacle(1, 0),
            obstacle(1, 1),
            // on the positive x axis
            NodeData::Arbitrary(1),
            // above
            obstacle(1, 2),
            obstacle(1, 3),
            obstacle(0, 2),
            obstacle(0, 3),
            // on the negative x axis
            NodeData::Arbitrary(0),
            // p itself, which has no direction
            NodeData::Arbitrary(2),
        ]
    );
}

#[test]
fn the_sort_is_stable_and_takes_the_nearer_first() {
    let mut features = Features::new(MultiPolygon::new(vec![]), MultiPolygon::new(vec![])).unwrap();
    for point in [c(30, 30), c(10, 10), c(20, 20), c(10, 10), c(-5, 0), c(10, 10)] {
        features.arbitrary.push(point);
    }
    let mut ws = features.iter();
    sort_for_sweep(&mut ws, c(0, 0), &features);
    let order: Vec<usize> = ws
        .iter()
        .map(|node| match node {
            NodeData::Arbitrary(k) => *k,
            _ => unreachable!(),
        })
        .collect();
    assert_eq!(order, vec![1, 3, 5, 2, 0, 4]);
}

#[test]
fn the_visibility_test() {
    let features = two_squares();
    let edges = features.obstacles.lines();
    let naive = VisibilityOptimizationMode::Naive;
    let sweep = VisibilityOptimizationMode::Sweep;
    let west = NodeData::Arbitrary(0);
    let east = NodeData::Arbitrary(1);
    let middle = NodeData::Arbitrary(2);
    // straight through both squares
    assert!(!is_visible_from(&west, None, &east, &edges, &features, naive));
    assert!(!is_visible_from(&west, None, &east, &edges, &features, sweep));
    // to the near corners
    assert!(is_visible_from(&west, None, &obstacle(0, 0), &edges, &features, naive));
    assert!(is_visible_from(&west, None, &obstacle(0, 3), &edges, &features, naive));
    // to a far corner of the same square: through the square
    assert!(!is_visible_from(&west, None, &obstacle(0, 1), &edges, &features, naive));
    // along a side
    assert!(is_visible_from(&obstacle(0, 0), None, &obstacle(0, 1), &edges, &features, naive));
    // across the square
    assert!(!is_visible_from(&obstacle(0, 0), None, &obstacle(0, 2), &edges, &features, naive));
    // with no edge in the way the sweep sees what the previous candidate does not hide
    let none: Vec<Line> = vec![];
    assert!(is_visible_from(&west, None, &east, &none, &features, sweep));
    let hidden = WPrevInfo::new(middle, false);
    assert!(!is_visible_from(&west, Some(&hidden), &east, &none, &features, sweep));
    let seen = WPrevInfo::new(middle, true);
    assert!(is_visible_from(&west, Some(&seen), &east, &none, &features, sweep));
    // a previous candidate off the line of sight says nothing
    let off = WPrevInfo::new(obstacle(0, 0), false);
    assert!(is_visible_from(&west, Some(&off), &east, &none, &features, sweep));
    // behind a visible candidate only the stretch beyond it is tested
    let beyond = vec![Line::new(c(2000, 200), c(2000, 1200))];
    assert!(!is_visible_from(&west, Some(&seen), &east, &beyond, &features, sweep));
    let before = vec![Line::new(c(1000, 0), c(1000, 1000))];
    assert!(is_visible_from(&west, Some(&seen), &east, &before, &features, sweep));
    assert!(!is_visible_from(&west, None, &east, &before, &features, sweep));
}

#[test]
fn the_active_edges_follow_the_sweep() {
    let features = two_squares();
    // at the lower right corner of the left square
    let w = Mpi { polygon_index: 0, ring_index: 0, coord_index: 1 };
    let up = Line::new(c(1000, 0), c(1000, 1000));
    let along = Line::new(c(0, 0), c(1000, 0));
    // seen from the lower right, the side from the right neighbor lies
    // counter-clockwise of the line of sight, the side to the left neighbor
    // clockwise
    let p = c(2000, -1000);
    let mut edges = vec![up];
    update_possible_obstacle_edges(p, &w, &features.obstacles, &mut edges);
    assert_eq!(edges, vec![along]);
    // a second pass changes nothing
    update_possible_obstacle_edges(p, &w, &features.obstacles, &mut edges);
    assert_eq!(edges, vec![along]);
    // removal moves the last edge into the gap
    let other = Line::new(c(7, 7), c(8, 8));
    let far = Line::new(c(9, 9), c(8, 8));
    let mut edges = vec![up, other, far];
    update_possible_obstacle_edges(p, &w, &features.obstacles, &mut edges);
    assert_eq!(edges, vec![far, other, along]);
    // seen from below, both sides lie counter-clockwise
    let mut edges = vec![];
    update_possible_obstacle_edges(c(500, -500), &w, &features.obstacles, &mut edges);
    assert_eq!(edges, vec![up, along]);
    // seen from the right, both lie clockwise
    update_possible_obstacle_edges(c(1500, 500), &w, &features.obstacles, &mut edges);
    assert_eq!(edges, vec![]);
}

/// A small generator of numbers that look random and are the same on every
/// run.
fn next(state: &mut u64) -> u64 {
    *state = state.wrapping_mul(6364136223846793005).wrapping_add(1442695040888963407);
    *state >> 33
}

/// A polygon of `n` vertices that winds counter-clockwise around the origin,
/// every vertex in a sector of its own.
fn star_shaped_polygon(n: usize, state: &mut u64) -> Vec<Coordinate> {
    let mut ring = Vec::new();
    for k in 0..n {
        let sector = std::f64::consts::TAU / n as f64;
        let angle = sector * (k as f64 + 0.1 + 0.8 * (next(state) % 1000) as f64 / 1000.0);
        let radius = 20_000.0 + (next(state) % 30_000) as f64;
        ring.push(c((radius * angle.cos()).round() as i32, (radius * angle.sin()).round() as i32));
    }
    ring.push(ring[0]);
    ring
}

fn point_outside(state: &mut u64) -> Coordinate {
    let angle = std::f64::consts::TAU * (next(state) % 100_000) as f64 / 100_000.0;
    let radius = 60_000.0 + (next(state) % 40_000) as f64;
    c((radius * angle.cos()).round() as i32, (radius * angle.sin()).round() as i32)
}

fn edges_of(graph: &NavGraph) -> Vec<(usize, usize, u64)> {
    let mut edges = Vec::new();
    for a in 0..graph.node_count() {
        for (b, length) in graph.neighbors(a) {
            if a < b {
                edges.push((a, b, length));
            }
        }
    }
    edges.sort();
    edges
}

#[test]
fn naive_vs_sweep_equivalence() {
    let mut state = 2024;
    for _ in 0..5 {
        let ring = star_shaped_polygon(20, &mut state);
        let points: Vec<(Coordinate, Coordinate)> =
            (0..10).map(|_| (point_outside(&mut state), point_outside(&mut state))).collect();
        let mut costs = Vec::new();
        let mut graphs = Vec::new();
        for mode in MODES {
            let obstacles = MultiPolygon::new(vec![Polygon::new(ring.clone(), vec![])]);
            let features = Features::new(obstacles, MultiPolygon::new(vec![])).unwrap();
            let mut graph = create_nav_graph(features, mode);
            assert_eq!(graph.node_count(), 20);
            graphs.push(edges_of(&graph));
            let mut found = Vec::new();
            for (from, to) in &points {
                let (_, start) = add_coord_to_nav_graph(*from, &mut graph, mode);
                let (_, end) = add_coord_to_nav_graph(*to, &mut graph, mode);
                let (cost, _) = calculate_shortest_path(&graph, start, end).unwrap();
                found.push(cost.length);
            }
            costs.push(found);
        }
        assert_eq!(graphs[0], graphs[1], "naive and sweep");
        assert_eq!(graphs[0], graphs[2], "naive and optimized sweep");
        assert_eq!(costs[0], costs[1], "naive and sweep");
        assert_eq!(costs[0], costs[2], "naive and optimized sweep");
    }
}

#[test]
fn visibility_is_symmetric() {
    let mut state = 99;
    let ring = star_shaped_polygon(12, &mut state);
    let obstacles = MultiPolygon::new(vec![Polygon::new(ring, vec![])]);
    let mut features = Features::new(obstacles, MultiPolygon::new(vec![])).unwrap();
    for _ in 0..6 {
        features.arbitrary.push(point_outside(&mut state));
    }
    let nodes = features.iter();
    let naive = VisibilityOptimizationMode::Naive;
    for a in &nodes {
        let from_a = visible_vertices(a, &mut nodes.clone(), &features, naive);
        for b in &nodes {
            let from_b = visible_vertices(b, &mut nodes.clone(), &features, naive);
            assert_eq!(from_a.contains(b), from_b.contains(a), "{:?} {:?}", a, b);
        }
    }
}

#[test]
fn nodes_at_the_same_point_see_each_other() {
    for mode in MODES {
        // a recharge vertex on an obstacle vertex, and a query point close by
        // inside the obstacle
        let obstacles = MultiPolygon::new(vec![Polygon::new(
            vec![c(0, 0), c(1000, 0), c(1000, 1000), c(0, 1000), c(0, 0)],
            vec![],
        )]);
        let waters = MultiPolygon::new(vec![Polygon::new(
            vec![c(1000, 1000), c(2000, 1000), c(2000, 2000), c(1000, 1000)],
            vec![],
        )]);
        let mut features = Features::new(obstacles, waters).unwrap();
        // 29 units from the corner
        features.arbitrary.push(c(980, 980));
        // 57 units from the corner
        features.arbitrary.push(c(960, 960));
        let water = NodeData::PartOfWater(Mpi { polygon_index: 0, ring_index: 0, coord_index: 0 });
        let close = NodeData::Arbitrary(0);
        let farther = NodeData::Arbitrary(1);
        let corner = obstacle(0, 2);
        let visible = visible_vertices(&water, &mut features.iter(), &features, mode);
        assert!(visible.contains(&corner), "{:?}", mode);
        assert!(visible.contains(&close), "{:?}", mode);
        let visible = visible_vertices(&close, &mut features.iter(), &features, mode);
        assert!(visible.contains(&corner), "{:?}", mode);
        assert!(visible.contains(&water), "{:?}", mode);
        assert!(visible.contains(&farther), "{:?}", mode);
        // beyond the same-point distance the obstacle is in the way
        let visible = visible_vertices(&farther, &mut features.iter(), &features, mode);
        assert!(visible.contains(&close), "{:?}", mode);
        assert!(!visible.contains(&corner), "{:?}", mode);
        if mode != VisibilityOptimizationMode::OptimizedSweep {
            let visible = visible_vertices(&corner, &mut features.iter(), &features, mode);
            assert!(visible.contains(&close), "{:?}", mode);
            assert!(visible.contains(&water), "{:?}", mode);
            assert!(!visible.contains(&farther), "{:?}", mode);
        }
    }
}
