use planner::geometry::{Coordinate, MultiPolygon, Polygon};
use planner::nav_graph::bounded_astar::{
    bounded_astar, GoalTest, Heuristic, IsGoalResult, MinScored, MinScoredQueue, ScoredPathTracker,
};
use planner::nav_graph::goals::{EuclideanTo, NoEstimate, ReachNode, ReachWater};
use planner::nav_graph::node_index::NodeIndexMap;
use planner::nav_graph::{
    add_coord_to_nav_graph, calculate_shortest_path, create_nav_graph, Edge, Features, NavGraph,
    NodeData, VisibilityOptimizationMode,
};

fn c(x: i32, y: i32) -> Coordinate {
    Coordinate { x, y }
}

/// A small generator of numbers that look random and are the same on every
/// run.
fn next(state: &mut u64) -> u64 {
    *state = state.wrapping_mul(6364136223846793005).wrapping_add(1442695040888963407);
    *state >> 33
}

/// A field of square obstacles and two recharge polygons, with query points
/// strewn over it.
fn field(state: &mut u64) -> NavGraph {
    let mut obstacles = Vec::new();
    for row in 0..3 {
        for column in 0..3 {
            let x = column * 3000 + (next(state) % 700) as i32;
            let y = row * 3000 + (next(state) % 700) as i32;
            let side = 900 + (next(state) % 900) as i32;
            obstacles.push(Polygon::new(
                vec![c(x, y), c(x + side, y), c(x + side, y + side), c(x, y + side), c(x, y)],
                vec![],
            ));
        }
    }
    let waters = vec![
        Polygon::new(vec![c(2000, 2200), c(2500, 2300), c(2300, 2700), c(2000, 2200)], vec![]),
        Polygon::new(vec![c(5100, 5200), c(5600, 5300), c(5400, 5800), c(5100, 5200)], vec![]),
    ];
    let features = Features::new(MultiPolygon::new(obstacles), MultiPolygon::new(waters)).unwrap();
    let mode = VisibilityOptimizationMode::Naive;
    let mut graph = create_nav_graph(features, mode);
    for _ in 0..12 {
        let point = c((next(state) % 9000) as i32 - 500, (next(state) % 9000) as i32 - 500);
        add_coord_to_nav_graph(point, &mut graph, mode);
    }
    graph
}

fn dijkstra(graph: &NavGraph, start: usize) -> Vec<Option<u64>> {
    let costs = petgraph::algo::dijkstra(
        &graph.graph,
        petgraph::graph::NodeIndex::new(start),
        None,
        |edge| edge.weight().length,
    );
    (0..graph.node_count()).map(|i| costs.get(&petgraph::graph::NodeIndex::new(i)).copied()).collect()
}

fn check_path(graph: &NavGraph, start: usize, path: &[(usize, u64)]) {
    assert_eq!(path[0], (start, 0));
    for step in path.windows(2) {
        let length = graph.neighbors(step[0].0).iter().find(|(b, _)| *b == step[1].0).unwrap().1;
        assert_eq!(step[0].1 + length, step[1].1);
    }
}

#[test]
fn bounded_astar_finds_what_dijkstra_finds() {
    let mut state = 5;
    for _ in 0..3 {
        let graph = field(&mut state);
        for start in (0..graph.node_count()).step_by(5) {
            let least = dijkstra(&graph, start);
            for end in 0..graph.node_count() {
                let goal = ReachNode { end };
                let heuristic = EuclideanTo { nav_graph: &graph, target: graph.node_coord(end) };
                let (found, tracker) = bounded_astar(&graph, start, &goal, &heuristic);
                match found {
                    None => assert_eq!(least[end], None),
                    Some((cost, path)) => {
                        assert_eq!(Some(cost), least[end]);
                        assert_eq!(*path.last().unwrap(), (end, cost));
                        check_path(&graph, start, &path);
                        assert_eq!(tracker.reconstruct_path_to(end), path);
                    }
                }
                // without an estimate the search finds the same cost
                let (plain, _) = bounded_astar(&graph, start, &goal, &NoEstimate);
                assert_eq!(plain.map(|(cost, _)| cost), least[end]);
                // the library's other search agrees
                let other = calculate_shortest_path(&graph, start, end);
                assert_eq!(other.map(|(cost, _)| cost.length), least[end]);
            }
        }
    }
}

#[test]
fn reaching_a_recharge_polygon() {
    let mut state = 11;
    let graph = field(&mut state);
    let start = graph.node_count() - 1;
    let least = dijkstra(&graph, start);
    for polygon_index in 0..2 {
        let vertices: Vec<usize> = (0..graph.node_count())
            .filter(|i| match graph.node_weight(*i) {
                Some(planner::nav_graph::NodeData::PartOfWater(mpi)) => {
                    mpi.polygon_index == polygon_index
                }
                _ => false,
            })
            .collect();
        assert_eq!(vertices.len(), 3);
        let nearest = vertices.iter().map(|v| least[*v].unwrap()).min().unwrap();
        let goal = ReachWater { nav_graph: &graph, polygon_index, max_distance: nearest };
        let (found, _) = bounded_astar(&graph, start, &goal, &NoEstimate);
        let (cost, path) = found.unwrap();
        assert_eq!(cost, nearest);
        assert!(vertices.contains(&path.last().unwrap().0));
        let goal = ReachWater { nav_graph: &graph, polygon_index, max_distance: nearest + 1 };
        assert_eq!(bounded_astar(&graph, start, &goal, &NoEstimate).0.unwrap().0, nearest);
        // the budget cuts the search off
        let goal = ReachWater { nav_graph: &graph, polygon_index, max_distance: nearest - 1 };
        assert!(bounded_astar(&graph, start, &goal, &NoEstimate).0.is_none());
        // with an estimate towards one vertex of the polygon a vertex is still found in range
        let target = graph.node_coord(vertices[2]);
        let farthest = vertices.iter().map(|v| least[*v].unwrap()).max().unwrap();
        let goal = ReachWater { nav_graph: &graph, polygon_index, max_distance: farthest };
        let heuristic = EuclideanTo { nav_graph: &graph, target };
        let (cost, path) = bounded_astar(&graph, start, &goal, &heuristic).0.unwrap();
        assert!(cost <= farthest);
        assert!(vertices.contains(&path.last().unwrap().0));
        check_path(&graph, start, &path);
    }
    // no polygon of that index
    let goal = ReachWater { nav_graph: &graph, polygon_index: 2, max_distance: u64::MAX };
    assert!(bounded_astar(&graph, start, &goal, &NoEstimate).0.is_none());
}

#[test]
fn the_goal_tests_answer() {
    let mut state = 11;
    let graph = field(&mut state);
    let goal = ReachNode { end: 4 };
    assert_eq!(goal.is_goal(4, u64::MAX), IsGoalResult::Goal);
    assert_eq!(goal.is_goal(5, 0), IsGoalResult::NotGoal);
    assert!(goal.reaches(4));
    assert!(!goal.reaches(5));
    let water = (0..graph.node_count())
        .find(|i| matches!(graph.node_weight(*i), Some(planner::nav_graph::NodeData::PartOfWater(_))))
        .unwrap();
    let goal = ReachWater { nav_graph: &graph, polygon_index: 0, max_distance: 100 };
    assert_eq!(goal.is_goal(water, 100), IsGoalResult::Goal);
    assert_eq!(goal.is_goal(water, 101), IsGoalResult::MaximumExtend);
    assert_eq!(goal.is_goal(0, 100), IsGoalResult::NotGoal);
    assert_eq!(goal.is_goal(0, 101), IsGoalResult::MaximumExtend);
    let other = ReachWater { nav_graph: &graph, polygon_index: 1, max_distance: 100 };
    assert_eq!(other.is_goal(water, 100), IsGoalResult::NotGoal);
    let heuristic = EuclideanTo { nav_graph: &graph, target: c(0, 0) };
    let at = graph.node_coord(water);
    assert_eq!(heuristic.estimate_cost(water), at.euclidean_distance_floor(&c(0, 0)));
}

#[test]
fn the_queue_hands_out_the_lowest_score() {
    let mut queue = MinScoredQueue::new();
    assert_eq!(queue.pop(), None);
    for (score, node) in [(5, 0), (3, 1), (9, 2), (3, 3), (0, 4), (7, 5)] {
        queue.push(MinScored(score, node));
    }
    assert_eq!(queue.len(), 6);
    let mut scores = Vec::new();
    let mut nodes = Vec::new();
    while let Some(MinScored(score, node)) = queue.pop() {
        scores.push(score);
        nodes.push(node);
    }
    assert_eq!(scores, vec![0, 3, 3, 5, 7, 9]);
    nodes.sort();
    assert_eq!(nodes, vec![0, 1, 2, 3, 4, 5]);
    assert_eq!(queue.len(), 0);
}

#[test]
fn a_tracker_without_records() {
    let tracker = ScoredPathTracker::new(3);
    assert_eq!(tracker.reconstruct_path_to(2), vec![(2, 0)]);
    assert_eq!(tracker.came_from, vec![None, None, None]);
}

#[test]
fn a_search_that_starts_on_a_target_ends_there() {
    let mut state = 11;
    let graph = field(&mut state);
    for start in 0..graph.node_count() {
        let (found, tracker) = bounded_astar(&graph, start, &ReachNode { end: start }, &NoEstimate);
        assert_eq!(found, Some((0, vec![(start, 0)])));
        assert_eq!(tracker.came_from[start], None);
        if let Some(planner::nav_graph::NodeData::PartOfWater(mpi)) = graph.node_weight(start) {
            let goal =
                ReachWater { nav_graph: &graph, polygon_index: mpi.polygon_index, max_distance: 0 };
            let target = graph.node_coord(start);
            let heuristic = EuclideanTo { nav_graph: &graph, target };
            let (found, tracker) = bounded_astar(&graph, start, &goal, &heuristic);
            assert_eq!(found, Some((0, vec![(start, 0)])));
            assert_eq!(tracker.came_from[start], None);
        }
    }
}

#[test]
fn the_recorded_cost_is_the_length_of_the_path() {
    let mut state = 23;
    let graph = field(&mut state);
    let start = graph.node_count() - 1;
    for polygon_index in 0..2 {
        for target in 0..graph.node_count() {
            let goal = ReachWater { nav_graph: &graph, polygon_index, max_distance: u64::MAX };
            let heuristic = EuclideanTo { nav_graph: &graph, target: graph.node_coord(target) };
            if let (Some((cost, path)), _) = bounded_astar(&graph, start, &goal, &heuristic) {
                check_path(&graph, start, &path);
                assert_eq!(path.last().unwrap().1, cost);
                // no vertex of the polygon has a lower sum of cost and estimate
                let least = dijkstra(&graph, start);
                let end = path.last().unwrap().0;
                let sum = cost + heuristic.estimate_cost(end);
                for v in 0..graph.node_count() {
                    if goal.is_goal(v, 0) == IsGoalResult::Goal {
                        if let Some(g) = least[v] {
                            assert!(sum <= g + heuristic.estimate_cost(v));
                        }
                    }
                }
            }
        }
    }
}

/// A graph whose edges carry the given lengths, whatever its nodes stand for.
fn weighted(nodes: usize, edges: &[(usize, usize, u64)]) -> NavGraph {
    let mut graph = petgraph::Graph::<NodeData, Edge, petgraph::Undirected, usize>::default();
    for i in 0..nodes {
        graph.add_node(NodeData::Arbitrary(i));
    }
    for (a, b, length) in edges {
        graph.add_edge((*a).into(), (*b).into(), Edge { length: *length });
    }
    let features = Features::new(MultiPolygon::new(vec![]), MultiPolygon::new(vec![])).unwrap();
    NavGraph { graph, node_data_index_map: NodeIndexMap::new(), features }
}

#[test]
fn edges_may_carry_any_length() {
    // the long side of the triangle is longer than the two short ones together
    let graph = weighted(3, &[(0, 1, 1), (1, 2, 1), (0, 2, 3)]);
    let (found, tracker) = bounded_astar(&graph, 0, &ReachNode { end: 2 }, &NoEstimate);
    assert_eq!(found, Some((2, vec![(0, 0), (1, 1), (2, 2)])));
    assert_eq!(tracker.came_from, vec![None, Some((0, 1)), Some((1, 2))]);
    assert_eq!(tracker.reconstruct_path_to(1), vec![(0, 0), (1, 1)]);
    // edges without length
    let graph = weighted(4, &[(0, 1, 0), (1, 2, 0), (0, 2, 1), (2, 3, 0x2_0000_0000)]);
    let (found, _) = bounded_astar(&graph, 0, &ReachNode { end: 3 }, &NoEstimate);
    assert_eq!(found, Some((0x2_0000_0000, vec![(0, 0), (1, 0), (2, 0), (3, 0x2_0000_0000)])));
    // two edges between one pair of nodes, and an edge from a node to itself
    let graph = weighted(3, &[(0, 1, 5), (0, 0, 1), (0, 1, 2), (1, 1, 0), (1, 2, 4), (2, 1, 3)]);
    let (found, tracker) = bounded_astar(&graph, 0, &ReachNode { end: 2 }, &NoEstimate);
    assert_eq!(found, Some((5, vec![(0, 0), (1, 2), (2, 5)])));
    assert_eq!(tracker.came_from, vec![None, Some((0, 2)), Some((1, 5))]);
    let mut around = graph.neighbors(1);
    around.sort();
    assert_eq!(around, vec![(0, 2), (0, 5), (1, 0), (2, 3), (2, 4)]);
    assert!(graph.contains_edge(1, 1));
    assert!(!graph.contains_edge(2, 2));
    // a node that no edge leads to
    let graph = weighted(3, &[(0, 1, 5)]);
    let (found, tracker) = bounded_astar(&graph, 0, &ReachNode { end: 2 }, &NoEstimate);
    assert_eq!(found, None);
    assert_eq!(tracker.came_from, vec![None, Some((0, 5)), None]);
}
