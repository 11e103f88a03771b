//! Paths through the visibility graph and what they cost.

use super::graph_types::NavGraph;
use vstd::prelude::*;

verus! {

impl NavGraph {
    /// `path` is a walk through the graph: handles of nodes, each joined to
    /// the next by an edge.
    pub open spec fn is_path(self, path: Seq<int>) -> bool {
        &&& path.len() >= 1
        &&& forall|i: int| 0 <= i < path.len() ==> 0 <= #[trigger] path[i] < self.nodes().len()
        &&& forall|i: int| 0 <= i < path.len() - 1 ==> self.has_edge(path[i], #[trigger] path[i + 1])
    }

    /// The summed length of the edges along `path`.
    pub open spec fn path_cost(self, path: Seq<int>) -> int
        decreases path.len(),
    {
        if path.len() <= 1 {
            0
        } else {
            self.path_cost(path.drop_last()) + self.edge_length(
                path[path.len() - 2],
                path[path.len() - 1],
            )
        }
    }

    /// `path` leads from `from` to `to`.
    pub open spec fn connects(self, path: Seq<int>, from: int, to: int) -> bool {
        self.is_path(path) && path[0] == from && path[path.len() - 1] == to
    }

    /// Some path leads from `from` to `to`.
    pub open spec fn reachable(self, from: int, to: int) -> bool {
        exists|path: Seq<int>| self.connects(path, from, to)
    }
}

/// No edge has a negative length, so no path has a negative cost.
pub proof fn lemma_path_cost_nonnegative(graph: NavGraph, path: Seq<int>)
    ensures
        graph.path_cost(path) >= 0,
    decreases path.len(),
{
    if path.len() > 1 {
        lemma_path_cost_nonnegative(graph, path.drop_last());
    }
}

/// The cost of a path is the cost of its first `k + 1` nodes plus the cost
/// of the rest, when the rest starts at node `k`.
pub proof fn lemma_path_cost_split(graph: NavGraph, path: Seq<int>, k: int)
    requires
        0 <= k < path.len(),
    ensures
        graph.path_cost(path) == graph.path_cost(path.take(k + 1)) + graph.path_cost(path.skip(k)),
    decreases path.len(),
{
    if k == path.len() - 1 {
        assert(path.take(k + 1) =~= path);
        assert(path.skip(k).len() == 1);
    } else {
        lemma_path_cost_split(graph, path.drop_last(), k);
        assert(path.drop_last().take(k + 1) =~= path.take(k + 1));
        assert(path.skip(k).drop_last() =~= path.drop_last().skip(k));
        let rest = path.skip(k);
        assert(rest[rest.len() - 2] == path[path.len() - 2]);
        assert(rest[rest.len() - 1] == path[path.len() - 1]);
    }
}

/// Every stretch of a path is a path.
pub proof fn lemma_subpath(graph: NavGraph, path: Seq<int>, from: int, to: int)
    requires
        graph.is_path(path),
        0 <= from < to <= path.len(),
    ensures
        graph.is_path(path.subrange(from, to)),
{
    let part = path.subrange(from, to);
    assert forall|i: int| 0 <= i < part.len() - 1 implies graph.has_edge(
        part[i],
        #[trigger] part[i + 1],
    ) by {
        assert(graph.has_edge(path[from + i], path[from + i + 1]));
    }
}

/// An edge joins its ends in both directions.
pub proof fn lemma_has_edge_symmetric(graph: NavGraph, a: int, b: int)
    ensures
        graph.has_edge(a, b) == graph.has_edge(b, a),
{
    if graph.has_edge(a, b) {
        let i = choose|i: int|
            0 <= i < graph.edge_list().len() && super::graph_store::joins(
                #[trigger] graph.edge_list()[i],
                a,
                b,
            );
        assert(super::graph_store::joins(graph.edge_list()[i], b, a));
    }
    if graph.has_edge(b, a) {
        let i = choose|i: int|
            0 <= i < graph.edge_list().len() && super::graph_store::joins(
                #[trigger] graph.edge_list()[i],
                b,
                a,
            );
        assert(super::graph_store::joins(graph.edge_list()[i], a, b));
    }
}

/// A path walked backwards is a path.
pub proof fn lemma_path_reversed(graph: NavGraph, path: Seq<int>)
    requires
        graph.is_path(path),
    ensures
        graph.is_path(path.reverse()),
        path.reverse()[0] == path[path.len() - 1],
        path.reverse()[path.len() - 1] == path[0],
{
    let back = path.reverse();
    assert forall|i: int| 0 <= i < back.len() - 1 implies graph.has_edge(
        back[i],
        #[trigger] back[i + 1],
    ) by {
        let k = path.len() - 1 - i;
        assert(back[i] == path[k]);
        assert(back[i + 1] == path[k - 1]);
        assert(graph.has_edge(path[k - 1], path[k - 1 + 1]));
        lemma_has_edge_symmetric(graph, path[k - 1], path[k]);
    }
}

/// Two paths that meet make one path.
pub proof fn lemma_paths_joined(graph: NavGraph, first: Seq<int>, second: Seq<int>)
    requires
        graph.is_path(first),
        graph.is_path(second),
        first[first.len() - 1] == second[0],
    ensures
        graph.is_path(first + second.skip(1)),
        (first + second.skip(1))[0] == first[0],
        (first + second.skip(1))[first.len() + second.len() - 2] == second[second.len() - 1],
{
    let whole = first + second.skip(1);
    assert forall|i: int| 0 <= i < whole.len() - 1 implies graph.has_edge(
        whole[i],
        #[trigger] whole[i + 1],
    ) by {
        if i + 1 < first.len() {
            assert(graph.has_edge(first[i], first[i + 1]));
        } else {
            let k = i + 1 - first.len();
            assert(whole[i + 1] == second[k + 1]);
            assert(whole[i] == second[k]);
            assert(graph.has_edge(second[k], second[k + 1]));
        }
    }
}

/// From a node that `start` reaches, exactly the nodes are reached that
/// `start` reaches.
pub proof fn lemma_reachable_from_reached(graph: NavGraph, start: int, via: int, end: int)
    requires
        graph.reachable(start, via),
    ensures
        graph.reachable(start, end) == graph.reachable(via, end),
{
    let there = choose|path: Seq<int>| graph.connects(path, start, via);
    if graph.reachable(start, end) {
        let on = choose|path: Seq<int>| graph.connects(path, start, end);
        lemma_path_reversed(graph, there);
        lemma_paths_joined(graph, there.reverse(), on);
        assert(graph.connects(there.reverse() + on.skip(1), via, end));
    }
    if graph.reachable(via, end) {
        let on = choose|path: Seq<int>| graph.connects(path, via, end);
        lemma_paths_joined(graph, there, on);
        assert(graph.connects(there + on.skip(1), start, end));
    }
}

/// A node reaches itself.
pub proof fn lemma_reachable_self(graph: NavGraph, node: int)
    requires
        0 <= node < graph.nodes().len(),
    ensures
        graph.reachable(node, node),
{
    assert(graph.connects(seq![node], node, node));
}

} // verus!
