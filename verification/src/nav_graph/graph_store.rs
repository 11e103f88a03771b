//! The graph storage: an undirected `petgraph` graph whose nodes carry their
//! identity and whose edges carry their length.
//!
//! Verus does not look inside the graph. What it holds is named by two
//! uninterpreted functions, and the few operations used on it are wrapped
//! with contracts over those names.

use super::bounded_astar::{admissible, heuristic_usable, Heuristic};
use super::goals::{EuclideanTo, ReachNode};
use super::graph_types::{Edge, NavGraph, NodeData};
use petgraph::graph::{Graph, NodeIndex};
use petgraph::Undirected;
use vstd::prelude::*;

verus! {

/// `petgraph::graph::Graph`, taken as a type whose values Verus cannot look
/// into.
#[verifier::external_type_specification]
#[verifier::external_body]
#[verifier::reject_recursive_types(N)]
#[verifier::reject_recursive_types(E)]
#[verifier::reject_recursive_types(Ty)]
#[verifier::reject_recursive_types(Ix)]
pub struct ExGraph<N, E, Ty, Ix>(Graph<N, E, Ty, Ix>);

/// `petgraph::Undirected`, the marker of graphs whose edges have no
/// direction.
#[verifier::external_type_specification]
#[verifier::external_body]
pub struct ExUndirected(Undirected);

/// The identities of the graph's nodes, in the order the nodes were added.
/// A node's handle is its position here.
pub uninterp spec fn graph_nodes(g: Graph<NodeData, Edge, Undirected, usize>) -> Seq<NodeData>;

/// The graph's edges in the order they were added, each as its two end nodes
/// and its length.
pub uninterp spec fn graph_edges(g: Graph<NodeData, Edge, Undirected, usize>) -> Seq<(int, int, u64)>;

/// The stored edge `e` joins `a` and `b`, in either direction.
pub open spec fn joins(e: (int, int, u64), a: int, b: int) -> bool {
    (e.0 == a && e.1 == b) || (e.0 == b && e.1 == a)
}

/// The stored edge `e` has `a` as one of its ends.
pub open spec fn touches(e: (int, int, u64), a: int) -> bool {
    e.0 == a || e.1 == a
}

/// The end of `e` that is not `a`; `a` itself for a loop.
pub open spec fn far_end(e: (int, int, u64), a: int) -> int {
    if e.0 == a {
        e.1
    } else {
        e.0
    }
}

/// `Graph::with_capacity`: a graph without nodes or edges.
#[verifier::external_body]
pub(crate) fn new_undirected() -> (g: Graph<NodeData, Edge, Undirected, usize>)
    ensures
        graph_nodes(g).len() == 0,
        graph_edges(g).len() == 0,
{
    Graph::with_capacity(0, 0)
}

/// `Graph::node_count`: the number of nodes.
#[verifier::external_body]
pub(crate) fn node_count(g: &Graph<NodeData, Edge, Undirected, usize>) -> (n: usize)
    ensures
        n == graph_nodes(*g).len(),
{
    g.node_count()
}

/// `Graph::add_node`: appends a node and returns its handle, the number of
/// nodes there were before. Edges are untouched. With `usize` handles the
/// call has no capacity limit of its own.
#[verifier::external_body]
pub(crate) fn add_node(g: &mut Graph<NodeData, Edge, Undirected, usize>, weight: NodeData) -> (handle: usize)
    ensures
        graph_nodes(*final(g)) == graph_nodes(*old(g)).push(weight),
        graph_edges(*final(g)) == graph_edges(*old(g)),
        handle == graph_nodes(*old(g)).len(),
{
    g.add_node(weight).index()
}

/// `Graph::node_weight`: the identity stored at `handle`, or `None` when the
/// graph has no such node.
#[verifier::external_body]
pub(crate) fn node_weight(g: &Graph<NodeData, Edge, Undirected, usize>, handle: usize) -> (w: Option<NodeData>)
    ensures
        w == if handle < graph_nodes(*g).len() {
            Some(graph_nodes(*g)[handle as int])
        } else {
            None
        },
{
    g.node_weight(NodeIndex::new(handle)).copied()
}

/// `Graph::update_edge` on two existing nodes: when some stored edge joins
/// them, the length of one such edge is overwritten; otherwise the edge is
/// appended. Nodes are untouched.
#[verifier::external_body]
pub(crate) fn update_edge(g: &mut Graph<NodeData, Edge, Undirected, usize>, a: usize, b: usize, length: u64)
    requires
        a < graph_nodes(*old(g)).len(),
        b < graph_nodes(*old(g)).len(),
    ensures
        graph_nodes(*final(g)) == graph_nodes(*old(g)),
        ({
            let before = graph_edges(*old(g));
            let after = graph_edges(*final(g));
            ||| exists|i: int|
                0 <= i < before.len() && joins(#[trigger] before[i], a as int, b as int) && after
                    == before.update(i, (before[i].0, before[i].1, length))
            ||| ((forall|i: int|
                0 <= i < before.len() ==> !joins(#[trigger] before[i], a as int, b as int))
                && after == before.push((a as int, b as int, length)))
        }),
{
    g.update_edge(NodeIndex::new(a), NodeIndex::new(b), Edge { length });
}

/// `Graph::edges` on an existing node, collected: one entry, the far end
/// and the length, for every stored edge that has `a` as an end, and no
/// other entry.
#[verifier::external_body]
pub(crate) fn edges_of(g: &Graph<NodeData, Edge, Undirected, usize>, a: usize) -> (out: Vec<(usize, u64)>)
    requires
        a < graph_nodes(*g).len(),
    ensures
        forall|k: int|
            0 <= k < out@.len() ==> exists|i: int|
                0 <= i < graph_edges(*g).len() && joins(
                    #[trigger] graph_edges(*g)[i],
                    a as int,
                    (#[trigger] out@[k]).0 as int,
                ) && graph_edges(*g)[i].2 == out@[k].1,
        forall|i: int|
            0 <= i < graph_edges(*g).len() && touches(#[trigger] graph_edges(*g)[i], a as int)
                ==> exists|k: int|
                0 <= k < out@.len() && (#[trigger] out@[k]).0 == far_end(
                    graph_edges(*g)[i],
                    a as int,
                ) && out@[k].1 == graph_edges(*g)[i].2,
{
    g.edges(NodeIndex::new(a))
        .map(|e| (petgraph::visit::EdgeRef::target(&e).index(), e.weight().length))
        .collect()
}

/// `petgraph::algo::astar` from `start` to the node that `goal` names, over
/// the edge lengths, with `heuristic` as the estimate.
///
/// What is claimed of it: a result is a path of the graph from `start` to the
/// goal together with a cost that is at least the summed length of the
/// path's edges; when the estimate is admissible, no path from `start` to the
/// goal costs less than the reported cost; and no result means that no path
/// leads from `start` to the goal. The graph's size limit keeps every sum the
/// search forms within the cost type.
#[verifier::external_body]
pub(crate) fn astar(nav_graph: &NavGraph, start: usize, goal: &ReachNode, heuristic: &EuclideanTo) -> (found:
    Option<(u64, Vec<usize>)>)
    requires
        nav_graph.wf(),
        start < nav_graph.nodes().len(),
        heuristic_usable(*nav_graph, *heuristic),
    ensures
        match found {
            Some((cost, path)) => {
                let nodes = path@.map_values(|n: usize| n as int);
                &&& nav_graph.connects(nodes, start as int, goal.end as int)
                &&& nav_graph.path_cost(nodes) <= cost
                &&& admissible(*nav_graph, *goal, *heuristic) ==> forall|p: Seq<int>| #[trigger]
                    nav_graph.connects(p, start as int, goal.end as int) ==> cost
                        <= nav_graph.path_cost(p)
            },
            None => !nav_graph.reachable(start as int, goal.end as int),
        },
{
    petgraph::algo::astar(
        &nav_graph.graph,
        NodeIndex::new(start),
        |n| goal.reaches(n.index()),
        |e| e.weight().length,
        |n| heuristic.estimate_cost(n.index()),
    ).map(|(cost, path)| (cost, path.into_iter().map(|n| n.index()).collect()))
}

} // verus!
