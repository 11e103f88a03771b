//! The goal tests and the cost estimate that the searches on a visibility
//! graph use.

use super::bounded_astar::{
    admissible, consistent, heuristic_fits, GoalTest, Heuristic, IsGoalResult,
};
use super::graph_types::{lemma_edge_length_is_distance, NavGraph, NodeData};
use crate::coord_ext::{euclidean_distance_floor_spec, lemma_distance_bounds, lemma_triangle};
use crate::geometry::Coordinate;
use vstd::prelude::*;

verus! {

/// The search ends at the node `end`, however far it is.
#[derive(Clone, Copy, Debug)]
pub struct ReachNode {
    pub end: usize,
}

impl ReachNode {
    /// Whether `node` is the node looked for.
    pub fn reaches(&self, node: usize) -> (r: bool)
        ensures
            r == (node == self.end),
    {
        node == self.end
    }
}

impl GoalTest for ReachNode {
    open spec fn is_target(&self, node: int) -> bool {
        node == self.end
    }

    open spec fn budget(&self) -> Option<u64> {
        None
    }

    open spec fn covers(&self, node: int) -> bool {
        true
    }

    fn is_goal(&self, node: usize, cost: u64) -> (r: IsGoalResult) {
        if node == self.end {
            IsGoalResult::Goal
        } else {
            IsGoalResult::NotGoal
        }
    }
}

/// The search ends at any vertex of the recharge polygon `polygon_index`
/// that is reached at a cost of no more than `max_distance`; nodes farther
/// than that are dead ends.
pub struct ReachWater<'a> {
    pub nav_graph: &'a NavGraph,
    pub polygon_index: usize,
    pub max_distance: u64,
}

/// `node` is a vertex of the recharge polygon `polygon_index`.
pub open spec fn is_water_of(node: NodeData, polygon_index: usize) -> bool {
    node is PartOfWater && node->PartOfWater_0.polygon_index == polygon_index
}

impl<'a> GoalTest for ReachWater<'a> {
    open spec fn is_target(&self, node: int) -> bool {
        0 <= node < self.nav_graph.nodes().len() && is_water_of(
            self.nav_graph.nodes()[node],
            self.polygon_index,
        )
    }

    open spec fn budget(&self) -> Option<u64> {
        Some(self.max_distance)
    }

    open spec fn covers(&self, node: int) -> bool {
        0 <= node < self.nav_graph.nodes().len()
    }

    fn is_goal(&self, node: usize, cost: u64) -> (r: IsGoalResult) {
        if cost > self.max_distance {
            return IsGoalResult::MaximumExtend;
        }
        if let Some(NodeData::PartOfWater(n_mpi)) = self.nav_graph.node_weight(node) {
            if n_mpi.polygon_index == self.polygon_index {
                return IsGoalResult::Goal;
            }
        }
        return IsGoalResult::NotGoal;
    }
}

/// The straight distance from a node to `target`, in whole units rounded
/// down, as the estimate of what remains.
pub struct EuclideanTo<'a> {
    pub nav_graph: &'a NavGraph,
    pub target: Coordinate,
}

impl<'a> Heuristic for EuclideanTo<'a> {
    open spec fn estimate(&self, node: int) -> int {
        euclidean_distance_floor_spec(self.nav_graph.coord_of(node), self.target)
    }

    open spec fn covers(&self, node: int) -> bool {
        self.nav_graph.wf() && 0 <= node < self.nav_graph.nodes().len()
    }

    fn estimate_cost(&self, node: usize) -> (h: u64) {
        self.nav_graph.node_coord(node).euclidean_distance_floor(&self.target)
    }
}

/// No estimate of what remains: with it the search spreads evenly, as
/// Dijkstra's does.
#[derive(Clone, Copy, Debug)]
pub struct NoEstimate;

impl Heuristic for NoEstimate {
    open spec fn estimate(&self, node: int) -> int {
        0
    }

    open spec fn covers(&self, node: int) -> bool {
        true
    }

    fn estimate_cost(&self, node: usize) -> (h: u64) {
        0
    }
}

/// To estimate nothing is admissible for every goal, and usable on every
/// graph.
pub proof fn lemma_no_estimate_admissible<G: GoalTest>(graph: NavGraph, goal: G)
    ensures
        admissible(graph, goal, NoEstimate),
        super::bounded_astar::heuristic_usable(graph, NoEstimate),
{
    assert forall|path: Seq<int>| #[trigger]
        graph.is_path(path) && goal.is_target(path[path.len() - 1]) implies NoEstimate.estimate(
        path[0],
    ) <= graph.path_cost(path) by {
        crate::nav_graph::paths::lemma_path_cost_nonnegative(graph, path);
    }
    assert forall|x: int| 0 <= x < graph.nodes().len() implies heuristic_fits(NoEstimate, x) by {}
}

/// Along any path the straight distance to `target` shrinks by no more than
/// the path costs.
pub proof fn lemma_straight_distance_along_path(graph: NavGraph, target: Coordinate, path: Seq<int>)
    requires
        graph.wf(),
        graph.is_path(path),
    ensures
        euclidean_distance_floor_spec(graph.coord_of(path[0]), target) <= graph.path_cost(path)
            + euclidean_distance_floor_spec(graph.coord_of(path[path.len() - 1]), target),
    decreases path.len(),
{
    if path.len() > 1 {
        let head = path.drop_last();
        crate::nav_graph::paths::lemma_subpath(graph, path, 0, path.len() - 1);
        assert(head =~= path.subrange(0, path.len() - 1));
        lemma_straight_distance_along_path(graph, target, head);
        assert(graph.has_edge(path[path.len() - 2], path[path.len() - 2 + 1]));
        lemma_edge_length_is_distance(graph, path[path.len() - 2], path[path.len() - 1]);
        lemma_triangle(
            graph.coord_of(path[path.len() - 2]),
            graph.coord_of(path[path.len() - 1]),
            target,
        );
    }
}

/// The straight distance to a node never exceeds the cost of a path to it.
pub proof fn lemma_straight_distance_admissible(graph: NavGraph, goal: ReachNode, heuristic: EuclideanTo)
    requires
        graph.wf(),
        *heuristic.nav_graph == graph,
        goal.end < graph.nodes().len(),
        heuristic.target == graph.coord_of(goal.end as int),
    ensures
        admissible(graph, goal, heuristic),
{
    assert forall|path: Seq<int>| #[trigger]
        graph.is_path(path) && goal.is_target(path[path.len() - 1]) implies heuristic.estimate(
        path[0],
    ) <= graph.path_cost(path) by {
        lemma_straight_distance_along_path(graph, heuristic.target, path);
        crate::coord_ext::lemma_distance_to_self(heuristic.target);
    }
}

/// Where every edge carries the distance of its ends, the straight distance
/// to any point falls along an edge by no more than the edge is long.
pub proof fn lemma_straight_distance_consistent(graph: NavGraph, heuristic: EuclideanTo)
    requires
        graph.wf(),
        *heuristic.nav_graph == graph,
    ensures
        consistent(graph, heuristic),
{
    assert forall|x: int, y: int|
        0 <= x < graph.nodes().len() && 0 <= y < graph.nodes().len() && #[trigger] graph.has_edge(
            x,
            y,
        ) implies heuristic.estimate(x) <= graph.edge_length(x, y) + heuristic.estimate(y) by {
        lemma_edge_length_is_distance(graph, x, y);
        lemma_triangle(graph.coord_of(x), graph.coord_of(y), heuristic.target);
    }
}

/// The estimate can be asked for every node of its graph and stays within
/// the greatest distance there is.
pub proof fn lemma_straight_distance_usable(graph: NavGraph, heuristic: EuclideanTo)
    requires
        graph.wf(),
        *heuristic.nav_graph == graph,
    ensures
        super::bounded_astar::heuristic_usable(graph, heuristic),
{
    assert forall|x: int| 0 <= x < graph.nodes().len() implies heuristic_fits(heuristic, x) by {
        lemma_distance_bounds(graph.coord_of(x), heuristic.target);
    }
}

} // verus!
