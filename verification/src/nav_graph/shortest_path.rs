//! The shortest path between two nodes of the visibility graph.

use super::create::add_coord_to_nav_graph;
use super::goals::{
    lemma_straight_distance_admissible, lemma_straight_distance_usable, EuclideanTo, ReachNode,
};
use super::graph_store;
use super::graph_types::{lemma_edge_length_is_distance, Edge, NavGraph, MAX_NODES};
use super::paths::lemma_subpath;
use super::visibility::VisibilityOptimizationMode;
use crate::geometry::Coordinate;
use vstd::prelude::*;

verus! {

/// `found` is what a search for the shortest path from `start` to `end`
/// owes: nothing exactly when no path leads from the one to the other;
/// otherwise a path between the two with its cost, and no path between them
/// costs less.
pub open spec fn is_shortest_path(
    graph: NavGraph,
    start: int,
    end: int,
    found: Option<(Edge, Vec<usize>)>,
) -> bool {
    match found {
        None => !graph.reachable(start, end),
        Some((cost, path)) => {
            let nodes = path@.map_values(|n: usize| n as int);
            &&& graph.connects(nodes, start, end)
            &&& graph.path_cost(nodes) == cost.length
            &&& forall|p: Seq<int>| #[trigger]
                graph.connects(p, start, end) ==> cost.length <= graph.path_cost(p)
        },
    }
}

/// The two graphs stand over the same features, have the same nodes, and
/// join the same pairs of them.
pub open spec fn same_edges(first: NavGraph, second: NavGraph) -> bool {
    &&& first.features == second.features
    &&& first.nodes() == second.nodes()
    &&& forall|a: int, b: int| #[trigger] first.has_edge(a, b) == second.has_edge(a, b)
}

/// Two graphs with the same edges have the same paths, at the same costs.
pub proof fn lemma_same_edges_same_paths(first: NavGraph, second: NavGraph, path: Seq<int>)
    requires
        first.wf(),
        second.wf(),
        same_edges(first, second),
    ensures
        first.is_path(path) == second.is_path(path),
        first.is_path(path) ==> first.path_cost(path) == second.path_cost(path),
    decreases path.len(),
{
    if first.is_path(path) {
        assert forall|i: int| 0 <= i < path.len() - 1 implies second.has_edge(
            path[i],
            #[trigger] path[i + 1],
        ) by {
            assert(first.has_edge(path[i], path[i + 1]));
        }
    }
    if second.is_path(path) {
        assert forall|i: int| 0 <= i < path.len() - 1 implies first.has_edge(
            path[i],
            #[trigger] path[i + 1],
        ) by {
            assert(second.has_edge(path[i], path[i + 1]));
        }
    }
    if first.is_path(path) && path.len() > 1 {
        let head = path.drop_last();
        lemma_subpath(first, path, 0, path.len() - 1);
        assert(head =~= path.subrange(0, path.len() - 1));
        lemma_same_edges_same_paths(first, second, head);
        let a = path[path.len() - 2];
        let b = path[path.len() - 1];
        assert(first.has_edge(a, path[path.len() - 2 + 1]));
        lemma_edge_length_is_distance(first, a, b);
        lemma_edge_length_is_distance(second, a, b);
    }
}

/// Where two graphs with the same edges are searched for the shortest path
/// between the same two nodes, both searches find nothing, or both find a
/// path, and the two paths cost the same.
pub proof fn lemma_same_edges_same_shortest_cost(
    first: NavGraph,
    second: NavGraph,
    start: int,
    end: int,
    found_first: Option<(Edge, Vec<usize>)>,
    found_second: Option<(Edge, Vec<usize>)>,
)
    requires
        first.wf(),
        second.wf(),
        same_edges(first, second),
        is_shortest_path(first, start, end, found_first),
        is_shortest_path(second, start, end, found_second),
    ensures
        match (found_first, found_second) {
            (Some((cost_first, _)), Some((cost_second, _))) => cost_first.length
                == cost_second.length,
            (None, None) => true,
            _ => false,
        },
{
    match found_first {
        Some((_, path)) => {
            let nodes = path@.map_values(|n: usize| n as int);
            lemma_same_edges_same_paths(first, second, nodes);
            assert(second.connects(nodes, start, end));
        },
        None => {},
    }
    match found_second {
        Some((_, path)) => {
            let nodes = path@.map_values(|n: usize| n as int);
            lemma_same_edges_same_paths(first, second, nodes);
            assert(first.connects(nodes, start, end));
        },
        None => {},
    }
}

/// Adds the two coordinates to the graph as query points and finds the
/// shortest path from the first to the second.
pub fn calculate_shortest_path_between_coords(
    nav_graph: &mut NavGraph,
    start_coord: Coordinate,
    end_coord: Coordinate,
    visibility_optimization_mode: VisibilityOptimizationMode,
) -> (found: Option<(Edge, Vec<usize>)>)
    requires
        old(nav_graph).wf(),
        old(nav_graph).nodes().len() + 2 <= MAX_NODES,
        old(nav_graph).features.arbitrary@.len() + 2 <= usize::MAX,
    ensures
        final(nav_graph).wf(),
        final(nav_graph).nodes().len() == old(nav_graph).nodes().len() + 2,
        final(nav_graph).coord_of(old(nav_graph).nodes().len() as int) == start_coord,
        final(nav_graph).coord_of(old(nav_graph).nodes().len() as int + 1) == end_coord,
        is_shortest_path(
            *final(nav_graph),
            old(nav_graph).nodes().len() as int,
            old(nav_graph).nodes().len() as int + 1,
            found,
        ),
{
    let (_, start_index) = add_coord_to_nav_graph(
        start_coord,
        nav_graph,
        visibility_optimization_mode,
    );
    let ghost middle = *nav_graph;
    let (_, end_index) = add_coord_to_nav_graph(end_coord, nav_graph, visibility_optimization_mode);
    proof {
        assert(nav_graph.nodes()[start_index as int] == middle.nodes()[start_index as int]);
        assert(nav_graph.features.coord_spec(nav_graph.nodes()[start_index as int])
            == middle.features.coord_spec(middle.nodes()[start_index as int]));
    }
    return calculate_shortest_path(nav_graph, start_index, end_index);
}

/// Finds the shortest path from `start_index` to `end_index`, guided by the
/// straight distance to the end.
pub fn calculate_shortest_path(nav_graph: &NavGraph, start_index: usize, end_index: usize) -> (found:
    Option<(Edge, Vec<usize>)>)
    requires
        nav_graph.wf(),
        start_index < nav_graph.nodes().len(),
        end_index < nav_graph.nodes().len(),
    ensures
        is_shortest_path(*nav_graph, start_index as int, end_index as int, found),
{
    let end_coord = nav_graph.node_coord(end_index);
    let goal = ReachNode { end: end_index };
    let heuristic = EuclideanTo { nav_graph, target: end_coord };
    proof {
        lemma_straight_distance_usable(*nav_graph, heuristic);
        lemma_straight_distance_admissible(*nav_graph, goal, heuristic);
    }
    match graph_store::astar(nav_graph, start_index, &goal, &heuristic) {
        None => None,
        Some((cost, path)) => {
            proof {
                let nodes = path@.map_values(|n: usize| n as int);
                assert(nav_graph.connects(nodes, start_index as int, end_index as int));
            }
            Some((Edge::new(cost), path))
        },
    }
}

} // verus!
