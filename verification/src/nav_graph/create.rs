//! Building the visibility graph, and adding query points to it.

use super::graph_store;
use super::graph_store::joins;
use super::graph_types::{lemma_all_nodes, Features, NavGraph, NodeData, MAX_NODES};
use super::node_index::{lemma_matches_extended, lemma_matches_nothing, NodeIndexMap};
use super::visibility::{
    all_valid, is_same_location, lemma_same_location_is_visible, lemma_sweep_sorted_contains,
    lemma_visible_vertices_within, ordered_for_sweep, visible_vertices, visible_vertices_spec,
    VisibilityOptimizationMode,
};
use crate::coord_ext::{euclidean_distance_spec, lemma_distance_bounds, lemma_distance_symmetric};
use crate::geometry::{contained_in, Coordinate};
use vstd::pervasive::unreached;
use vstd::prelude::*;

verus! {

/// The edge lists of a graph before and after `length` was written to the
/// edge between `a` and `b`: an edge that joined them has the new length, or
/// none did and the edge was appended.
pub open spec fn edge_written(
    before: Seq<(int, int, u64)>,
    after: Seq<(int, int, u64)>,
    a: int,
    b: int,
    length: u64,
) -> bool {
    ||| exists|i: int|
        0 <= i < before.len() && joins(#[trigger] before[i], a, b) && after == before.update(
            i,
            (before[i].0, before[i].1, length),
        )
    ||| ((forall|i: int| 0 <= i < before.len() ==> !joins(#[trigger] before[i], a, b)) && after
        == before.push((a, b, length)))
}

/// Writing the distance of two nodes to the edge between them keeps the
/// graph consistent, and joins exactly one more pair than before, if any.
pub proof fn lemma_edge_written(before: NavGraph, after: NavGraph, a: int, b: int, length: u64)
    requires
        before.wf(),
        after.nodes() == before.nodes(),
        after.features == before.features,
        after.node_data_index_map == before.node_data_index_map,
        0 <= a < before.nodes().len(),
        0 <= b < before.nodes().len(),
        a != b,
        length == euclidean_distance_spec(before.coord_of(a), before.coord_of(b)),
        edge_written(before.edge_list(), after.edge_list(), a, b, length),
    ensures
        after.wf(),
        forall|x: int, y: int| #[trigger]
            after.has_edge(x, y) <==> before.has_edge(x, y) || joins((a, b, length), x, y),
{
    let old_list = before.edge_list();
    let new_list = after.edge_list();
    lemma_distance_symmetric(before.coord_of(a), before.coord_of(b));
    lemma_distance_bounds(before.coord_of(a), before.coord_of(b));
    assert forall|k: int| 0 <= k < new_list.len() implies after.edge_wf(#[trigger] new_list[k])
        && after.edge_fits(new_list[k]) by {
        if k < old_list.len() {
            assert(before.edge_wf(old_list[k]));
            assert(before.edge_fits(old_list[k]));
        }
    }
    assert forall|k: int, l: int|
        0 <= k < new_list.len() && 0 <= l < new_list.len() && k != l implies !joins(
        #[trigger] new_list[k],
        (#[trigger] new_list[l]).0,
        new_list[l].1,
    ) by {
        if k < old_list.len() && l < old_list.len() {
            assert(!joins(old_list[k], old_list[l].0, old_list[l].1));
        } else if k < old_list.len() {
            assert(!joins(old_list[k], a, b));
        } else if l < old_list.len() {
            assert(!joins(old_list[l], a, b));
        }
    }
    assert forall|x: int, y: int| #[trigger]
        after.has_edge(x, y) <==> before.has_edge(x, y) || joins((a, b, length), x, y) by {
        if after.has_edge(x, y) {
            let k = choose|k: int| 0 <= k < new_list.len() && joins(#[trigger] new_list[k], x, y);
            if k < old_list.len() {
                assert(joins(old_list[k], x, y));
            }
        }
        if before.has_edge(x, y) {
            let k = choose|k: int| 0 <= k < old_list.len() && joins(#[trigger] old_list[k], x, y);
            assert(joins(new_list[k], x, y));
        }
        if joins((a, b, length), x, y) {
            if new_list.len() == old_list.len() {
                let i = choose|i: int|
                    0 <= i < old_list.len() && joins(#[trigger] old_list[i], a, b) && new_list
                        == old_list.update(i, (old_list[i].0, old_list[i].1, length));
                assert(joins(new_list[i], x, y));
            } else {
                assert(joins(new_list[old_list.len() as int], x, y));
            }
        }
    }
}

/// The graph `after` has the edges of `before` and, besides, an edge from
/// the node `p` to every node of `visible`.
pub open spec fn edges_added(before: NavGraph, after: NavGraph, p: int, visible: Seq<NodeData>) -> bool {
    forall|x: int, y: int|
        0 <= x < before.nodes().len() && 0 <= y < before.nodes().len() ==> (#[trigger] after.has_edge(
            x,
            y,
        ) <==> before.has_edge(x, y) || (x == p && visible.contains(before.nodes()[y])) || (y == p
            && visible.contains(before.nodes()[x])))
}

/// Finds what is visible from `p` among `ws` and writes an edge from `p` to
/// each node found, with the distance between the two as its length.
pub fn add_visible_edges(
    p: &NodeData,
    ws: &mut Vec<NodeData>,
    nav_graph: &mut NavGraph,
    optimization_mode: VisibilityOptimizationMode,
) -> (p_index: usize)
    requires
        old(nav_graph).wf(),
        old(nav_graph).nodes().contains(*p),
        forall|i: int|
            0 <= i < old(ws)@.len() ==> old(nav_graph).nodes().contains(#[trigger] old(ws)@[i]),
    ensures
        final(nav_graph).wf(),
        final(nav_graph).nodes() == old(nav_graph).nodes(),
        final(nav_graph).features == old(nav_graph).features,
        p_index < old(nav_graph).nodes().len(),
        old(nav_graph).nodes()[p_index as int] == *p,
        final(ws)@ == ordered_for_sweep(
            old(ws)@,
            old(nav_graph).features.coord_spec(*p),
            old(nav_graph).features,
            optimization_mode,
        ),
        edges_added(
            *old(nav_graph),
            *final(nav_graph),
            p_index as int,
            visible_vertices_spec(*p, final(ws)@, old(nav_graph).features, optimization_mode),
        ),
{
    let p_index: usize = match nav_graph.node_index(p) {
        Some(i) => i,
        None => unreached(),
    };
    proof {
        assert forall|i: int| 0 <= i < ws@.len() implies nav_graph.features.node_valid(
            #[trigger] ws@[i],
        ) by {
            let j = choose|j: int|
                0 <= j < nav_graph.nodes().len() && nav_graph.nodes()[j] == ws@[i];
        }
    }
    let p_coord = nav_graph.features.coord(p);
    let ws_visible = visible_vertices(p, ws, &nav_graph.features, optimization_mode);
    let ghost nodes = nav_graph.nodes();
    let ghost features = nav_graph.features;
    let n = nav_graph.node_count();
    let mut m: usize = 0;
    proof {
        assert(ws_visible@.take(0) =~= Seq::<NodeData>::empty());
        assert forall|i: int| 0 <= i < ws_visible@.len() implies nodes.contains(
            #[trigger] ws_visible@[i],
        ) && ws_visible@[i] != *p by {
            let x = ws_visible@[i];
            assert(ws_visible@.contains(x));
            lemma_visible_vertices_within(*p, ws@, features, optimization_mode, x);
            lemma_sweep_sorted_contains(old(ws)@, p_coord, features, x);
            let j = choose|j: int| 0 <= j < old(ws)@.len() && old(ws)@[j] == x;
            assert(nodes.contains(old(ws)@[j]));
        }
    }
    while m < ws_visible.len()
        invariant
            m <= ws_visible@.len(),
            nav_graph.wf(),
            old(nav_graph).wf(),
            nav_graph.nodes() == nodes,
            nav_graph.features == features,
            old(nav_graph).nodes() == nodes,
            old(nav_graph).features == features,
            n == nodes.len(),
            p_index < n,
            nodes[p_index as int] == *p,
            p_coord == features.coord_spec(*p),
            forall|i: int|
                0 <= i < ws_visible@.len() ==> nodes.contains(#[trigger] ws_visible@[i])
                    && ws_visible@[i] != *p,
            edges_added(*old(nav_graph), *nav_graph, p_index as int, ws_visible@.take(m as int)),
        decreases ws_visible@.len() - m,
    {
        let w_visible = ws_visible[m];
        let w_index: usize = match nav_graph.node_index(&w_visible) {
            Some(i) => i,
            None => unreached(),
        };
        let w_visible_coord = nav_graph.features.coord(&w_visible);
        let weight = p_coord.euclidean_distance(&w_visible_coord);
        let ghost before = *nav_graph;
        graph_store::update_edge(&mut nav_graph.graph, p_index, w_index, weight);
        proof {
            lemma_edge_written(before, *nav_graph, p_index as int, w_index as int, weight);
            let earlier = ws_visible@.take(m as int);
            let now = ws_visible@.take(m + 1);
            assert(now =~= earlier.push(w_visible));
            assert forall|x: int, y: int| 0 <= x < n && 0 <= y < n implies (
            #[trigger] nav_graph.has_edge(x, y) <==> old(nav_graph).has_edge(x, y) || (x
                == p_index && now.contains(nodes[y])) || (y == p_index && now.contains(
                nodes[x],
            ))) by {
                assert(before.has_edge(x, y) <==> old(nav_graph).has_edge(x, y) || (x == p_index
                    && earlier.contains(nodes[y])) || (y == p_index && earlier.contains(
                    nodes[x],
                )));
                assert forall|z: int| 0 <= z < n implies (now.contains(nodes[z])
                    <==> earlier.contains(nodes[z]) || z == w_index) by {
                    if now.contains(nodes[z]) {
                        let i = choose|i: int| 0 <= i < now.len() && now[i] == nodes[z];
                        if i < earlier.len() {
                            assert(earlier[i] == nodes[z]);
                        }
                    }
                    if earlier.contains(nodes[z]) {
                        let i = choose|i: int| 0 <= i < earlier.len() && earlier[i] == nodes[z];
                        assert(now[i] == nodes[z]);
                    }
                    if z == w_index {
                        assert(now[m as int] == nodes[z]);
                    }
                }
            }
        }
        m += 1;
    }
    assert(ws_visible@.take(m as int) =~= ws_visible@);
    p_index
}

/// The nodes that `geo` does not find contained in the obstacles.
pub open spec fn lies_outside_obstacles(features: Features) -> spec_fn(NodeData) -> bool {
    |node: NodeData| !contained_in(features.obstacles.rings(), features.coord_spec(node))
}

/// The nodes a graph is built on: all nodes of the features, in enumeration
/// order, but those strictly inside an obstacle. A node on an obstacle's
/// boundary stays.
pub open spec fn retained_nodes(features: Features) -> Seq<NodeData> {
    features.all_nodes().filter(lies_outside_obstacles(features))
}

/// The nodes of `nodes` found visible from its node `k`.
pub open spec fn seen_from(
    features: Features,
    nodes: Seq<NodeData>,
    optimization_mode: VisibilityOptimizationMode,
    k: int,
) -> Seq<NodeData> {
    visible_vertices_spec(
        nodes[k],
        ordered_for_sweep(nodes, features.coord_spec(nodes[k]), features, optimization_mode),
        features,
        optimization_mode,
    )
}

/// Node `b` of `nodes` was found visible from its node `a`.
pub open spec fn sees(
    features: Features,
    nodes: Seq<NodeData>,
    optimization_mode: VisibilityOptimizationMode,
    a: int,
    b: int,
) -> bool {
    seen_from(features, nodes, optimization_mode, a).contains(nodes[b])
}

/// The graph joins two of its nodes exactly if one of them was found
/// visible from the other in the given mode.
pub open spec fn is_joined_by_sight(graph: NavGraph, optimization_mode: VisibilityOptimizationMode) -> bool {
    forall|a: int, b: int|
        0 <= a < graph.nodes().len() && 0 <= b < graph.nodes().len() ==> (#[trigger] graph.has_edge(
            a,
            b,
        ) <==> sees(graph.features, graph.nodes(), optimization_mode, a, b) || sees(
            graph.features,
            graph.nodes(),
            optimization_mode,
            b,
            a,
        ))
}

/// Keeping some entries of a sequence without repetitions repeats nothing.
pub proof fn lemma_filter_no_duplicates(s: Seq<NodeData>, pred: spec_fn(NodeData) -> bool)
    requires
        s.no_duplicates(),
    ensures
        s.filter(pred).no_duplicates(),
    decreases s.len(),
{
    reveal(Seq::filter);
    broadcast use Seq::lemma_filter_contains_rev;

    if s.len() > 0 {
        lemma_filter_no_duplicates(s.drop_last(), pred);
        let head = s.drop_last().filter(pred);
        if pred(s.last()) {
            if head.contains(s.last()) {
                assert(s.drop_last().contains(s.last()));
                let i = choose|i: int| 0 <= i < s.drop_last().len() && s.drop_last()[i] == s.last();
                assert(s[i] == s[s.len() - 1]);
            }
            assert forall|i: int, j: int|
                0 <= i < head.push(s.last()).len() && 0 <= j < head.push(s.last()).len() && i
                    != j implies head.push(s.last())[i] != head.push(s.last())[j] by {
                if i < head.len() && j < head.len() {
                } else if i < head.len() {
                    assert(head.contains(head[i]));
                } else {
                    assert(head.contains(head[j]));
                }
            }
        }
    }
}

/// The retained nodes are nodes of the features, each once.
pub proof fn lemma_retained_nodes(features: Features)
    ensures
        retained_nodes(features).no_duplicates(),
        retained_nodes(features).len() <= features.all_nodes().len(),
        all_valid(retained_nodes(features), features),
        forall|node: NodeData|
            retained_nodes(features).contains(node) <==> features.node_valid(node) && !contained_in(
                features.obstacles.rings(),
                features.coord_spec(node),
            ),
{
    lemma_all_nodes(features);
    let all = features.all_nodes();
    let kept = retained_nodes(features);
    lemma_filter_no_duplicates(all, lies_outside_obstacles(features));
    all.lemma_filter_len(lies_outside_obstacles(features));
    assert forall|i: int| 0 <= i < kept.len() implies features.node_valid(#[trigger] kept[i]) by {
        assert(kept.contains(kept[i]));
        all.lemma_filter_contains_rev(lies_outside_obstacles(features), kept[i]);
        let j = choose|j: int| 0 <= j < all.len() && all[j] == kept[i];
    }
    assert forall|node: NodeData|
        kept.contains(node) <==> features.node_valid(node) && !contained_in(
            features.obstacles.rings(),
            features.coord_spec(node),
        ) by {
        if kept.contains(node) {
            let i = choose|i: int| 0 <= i < kept.len() && kept[i] == node;
            all.lemma_filter_pred(lies_outside_obstacles(features), i);
            assert(lies_outside_obstacles(features)(kept[i]));
        }
        if features.node_valid(node) && !contained_in(
            features.obstacles.rings(),
            features.coord_spec(node),
        ) {
            let j = choose|j: int| 0 <= j < all.len() && all[j] == node;
            all.lemma_filter_contains(lies_outside_obstacles(features), j);
        }
    }
}

/// Builds the visibility graph of `features` on the nodes `nodes`.
///
/// The nodes of the graph are `nodes`, in their order. Two nodes are joined
/// exactly when one was found visible from the other, and every edge carries
/// the distance between its ends.
pub fn nav_graph_of_nodes(
    features: Features,
    nodes: Vec<NodeData>,
    optimization_mode: VisibilityOptimizationMode,
) -> (nav_graph: NavGraph)
    requires
        features.wf(),
        nodes@.len() <= MAX_NODES,
        nodes@.no_duplicates(),
        all_valid(nodes@, features),
    ensures
        nav_graph.wf(),
        nav_graph.features == features,
        nav_graph.nodes() == nodes@,
        is_joined_by_sight(nav_graph, optimization_mode),
{
    let mut graph = graph_store::new_undirected();
    let mut node_data_index_map = NodeIndexMap::new();
    proof {
        assert(nodes@.take(0) =~= Seq::<NodeData>::empty());
        assert(graph_store::graph_nodes(graph) =~= nodes@.take(0));
        lemma_matches_nothing(node_data_index_map);
    }
    let mut i: usize = 0;
    while i < nodes.len()
        invariant
            i <= nodes@.len(),
            nodes@.len() <= MAX_NODES,
            nodes@.no_duplicates(),
            graph_store::graph_nodes(graph) == nodes@.take(i as int),
            graph_store::graph_edges(graph).len() == 0,
            node_data_index_map.matches(nodes@.take(i as int)),
        decreases nodes@.len() - i,
    {
        let node_data = nodes[i];
        let ghost before = nodes@.take(i as int);
        let ghost map_before = node_data_index_map;
        proof {
            if before.contains(node_data) {
                let j = choose|j: int| 0 <= j < before.len() && before[j] == node_data;
                assert(nodes@[j] == nodes@[i as int]);
            }
        }
        let handle = graph_store::add_node(&mut graph, node_data);
        node_data_index_map.insert(node_data, handle);
        proof {
            lemma_matches_extended(map_before, node_data_index_map, before, node_data);
            assert(nodes@.take(i + 1) =~= before.push(node_data));
        }
        i += 1;
    }
    assert(nodes@.take(i as int) =~= nodes@);

    let mut nav_graph = NavGraph { graph, node_data_index_map, features };
    let n = nav_graph.node_count();
    assert(nav_graph.wf()) by {
        assert forall|j: int| 0 <= j < nodes@.len() implies features.node_valid(
            #[trigger] nodes@[j],
        ) by {}
    }
    let mut k: usize = 0;
    while k < n
        invariant
            k <= n,
            n == nodes@.len(),
            nodes@.no_duplicates(),
            nav_graph.wf(),
            nav_graph.features == features,
            nav_graph.nodes() == nodes@,
            forall|a: int, b: int|
                0 <= a < n && 0 <= b < n ==> (#[trigger] nav_graph.has_edge(a, b) <==> (a < k
                    && sees(features, nodes@, optimization_mode, a, b)) || (b < k && sees(
                    features,
                    nodes@,
                    optimization_mode,
                    b,
                    a,
                ))),
        decreases n - k,
    {
        let vertex = nodes[k];
        let mut candidates = graph_vertices(&nav_graph);
        let ghost before = nav_graph;
        proof {
            assert(nodes@.contains(nodes@[k as int]));
            assert forall|j: int| 0 <= j < candidates@.len() implies nodes@.contains(
                #[trigger] candidates@[j],
            ) by {}
        }
        add_visible_edges(&vertex, &mut candidates, &mut nav_graph, optimization_mode);
        proof {
            assert forall|a: int, b: int| 0 <= a < n && 0 <= b < n implies (
            #[trigger] nav_graph.has_edge(a, b) <==> (a < k + 1 && sees(
                features,
                nodes@,
                optimization_mode,
                a,
                b,
            )) || (b < k + 1 && sees(features, nodes@, optimization_mode, b, a))) by {
                assert(before.has_edge(a, b) <==> (a < k && sees(
                    features,
                    nodes@,
                    optimization_mode,
                    a,
                    b,
                )) || (b < k && sees(features, nodes@, optimization_mode, b, a)));
            }
        }
        k += 1;
    }
    nav_graph
}

/// Builds the visibility graph of `features`.
///
/// The nodes are the retained nodes, in enumeration order: every node of the
/// features that does not lie strictly inside an obstacle. Two nodes are
/// joined exactly when one was found visible from the other, and every edge
/// carries the distance between its ends.
pub fn create_nav_graph(features: Features, optimization_mode: VisibilityOptimizationMode) -> (nav_graph:
    NavGraph)
    requires
        features.wf(),
        features.in_contains_range(),
        features.all_nodes().len() <= MAX_NODES,
    ensures
        nav_graph.wf(),
        nav_graph.features == features,
        nav_graph.nodes() == retained_nodes(features),
        is_joined_by_sight(nav_graph, optimization_mode),
{
    let all = features.iter();
    let mut vertices: Vec<NodeData> = Vec::new();
    proof {
        lemma_all_nodes(features);
        lemma_retained_nodes(features);
        reveal(Seq::filter);
        assert(all@.take(0) =~= Seq::<NodeData>::empty());
    }
    let mut i: usize = 0;
    while i < all.len()
        invariant
            i <= all@.len(),
            features.wf(),
            features.in_contains_range(),
            all@ == features.all_nodes(),
            all_valid(all@, features),
            vertices@ == all@.take(i as int).filter(lies_outside_obstacles(features)),
        decreases all@.len() - i,
    {
        proof {
            reveal(Seq::filter);
            assert(all@.take(i + 1).drop_last() =~= all@.take(i as int));
        }
        let node_data = all[i];
        // Do not consider points within obstacles for the graph
        let lies_within_obstacle = features.obstacles.contains(features.coord(&node_data));
        if !lies_within_obstacle {
            vertices.push(node_data);
        }
        i += 1;
    }
    assert(all@.take(i as int) =~= all@);
    nav_graph_of_nodes(features, vertices, optimization_mode)
}

/// The nodes of the graph, in handle order.
fn graph_vertices(nav_graph: &NavGraph) -> (vertices: Vec<NodeData>)
    ensures
        vertices@ == nav_graph.nodes(),
{
    let n = nav_graph.node_count();
    let mut vertices: Vec<NodeData> = Vec::new();
    let mut i: usize = 0;
    while i < n
        invariant
            i <= n,
            n == nav_graph.nodes().len(),
            vertices@ == nav_graph.nodes().take(i as int),
        decreases n - i,
    {
        match nav_graph.node_weight(i) {
            Some(node_data) => {
                vertices.push(node_data);
            },
            None => unreached(),
        }
        assert(vertices@ =~= nav_graph.nodes().take(i + 1));
        i += 1;
    }
    assert(nav_graph.nodes().take(n as int) =~= nav_graph.nodes());
    vertices
}

/// Adds `coord` to the graph as a new query point and joins it to every node
/// visible from it. Returns the identity and the handle of the new node.
///
/// Nodes and edges that were there stay as they are; query points are never
/// tested against obstacles, so the point is added wherever it lies.
pub fn add_coord_to_nav_graph(
    coord: Coordinate,
    nav_graph: &mut NavGraph,
    optimization_mode: VisibilityOptimizationMode,
) -> (added: (NodeData, usize))
    requires
        old(nav_graph).wf(),
        old(nav_graph).nodes().len() < MAX_NODES,
        old(nav_graph).features.arbitrary@.len() < usize::MAX,
    ensures
        final(nav_graph).wf(),
        final(nav_graph).features.obstacles == old(nav_graph).features.obstacles,
        final(nav_graph).features.waters == old(nav_graph).features.waters,
        final(nav_graph).features.arbitrary@ == old(nav_graph).features.arbitrary@.push(coord),
        added.0 == NodeData::Arbitrary(old(nav_graph).features.arbitrary@.len() as usize),
        added.1 == old(nav_graph).nodes().len(),
        final(nav_graph).nodes() == old(nav_graph).nodes().push(added.0),
        final(nav_graph).coord_of(added.1 as int) == coord,
        forall|a: int, b: int|
            0 <= a < old(nav_graph).nodes().len() && 0 <= b < old(nav_graph).nodes().len() ==> (
            #[trigger] final(nav_graph).has_edge(a, b) <==> old(nav_graph).has_edge(a, b)),
        forall|b: int|
            0 <= b < old(nav_graph).nodes().len() ==> (#[trigger] final(nav_graph).has_edge(
                added.1 as int,
                b,
            ) <==> visible_vertices_spec(
                added.0,
                ordered_for_sweep(
                    old(nav_graph).nodes(),
                    coord,
                    final(nav_graph).features,
                    optimization_mode,
                ),
                final(nav_graph).features,
                optimization_mode,
            ).contains(old(nav_graph).nodes()[b])),
        forall|b: int|
            0 <= b < old(nav_graph).nodes().len() && is_same_location(
                coord,
                old(nav_graph).coord_of(b),
            ) ==> #[trigger] final(nav_graph).has_edge(added.1 as int, b),
{
    let mut vertices = graph_vertices(nav_graph);
    let ghost before = *nav_graph;

    nav_graph.features.arbitrary.push(coord);
    let p: NodeData = NodeData::Arbitrary(nav_graph.features.arbitrary.len() - 1);
    let p_index = graph_store::add_node(&mut nav_graph.graph, p);
    nav_graph.node_data_index_map.insert(p, p_index);
    proof {
        assert(!before.nodes().contains(p)) by {
            if before.nodes().contains(p) {
                let i = choose|i: int| 0 <= i < before.nodes().len() && before.nodes()[i] == p;
                assert(before.features.node_valid(before.nodes()[i]));
            }
        }
        lemma_matches_extended(
            before.node_data_index_map,
            nav_graph.node_data_index_map,
            before.nodes(),
            p,
        );
        let n = before.nodes().len() as int;
        assert forall|i: int| 0 <= i < n implies nav_graph.features.node_valid(
            #[trigger] before.nodes()[i],
        ) && nav_graph.features.coord_spec(before.nodes()[i]) == before.features.coord_spec(
            before.nodes()[i],
        ) && before.nodes()[i] != p by {
            assert(before.features.node_valid(before.nodes()[i]));
        }
        let nodes = nav_graph.nodes();
        assert(nodes == before.nodes().push(p));
        assert(nav_graph.edge_list() == before.edge_list());
        assert(nav_graph.features.obstacles == before.features.obstacles);
        assert(nav_graph.features.waters == before.features.waters);
        assert(nav_graph.features.node_valid(p));
        assert forall|i: int| 0 <= i < nodes.len() implies nav_graph.features.node_valid(
            #[trigger] nodes[i],
        ) by {
            if i < n {
                assert(nodes[i] == before.nodes()[i]);
            }
        }
        assert forall|i: int, j: int|
            0 <= i < nodes.len() && 0 <= j < nodes.len() && i != j implies #[trigger] nodes[i]
            != #[trigger] nodes[j] by {
            if i < n {
                assert(nodes[i] == before.nodes()[i]);
            }
            if j < n {
                assert(nodes[j] == before.nodes()[j]);
            }
        }
        assert forall|k: int| 0 <= k < nav_graph.edge_list().len() implies nav_graph.edge_wf(
            #[trigger] nav_graph.edge_list()[k],
        ) by {
            let e = before.edge_list()[k];
            assert(before.edge_wf(e));
            assert(nodes[e.0] == before.nodes()[e.0]);
            assert(nodes[e.1] == before.nodes()[e.1]);
        }
        assert forall|k: int, l: int|
            0 <= k < nav_graph.edge_list().len() && 0 <= l < nav_graph.edge_list().len() && k
                != l implies !joins(
            #[trigger] nav_graph.edge_list()[k],
            (#[trigger] nav_graph.edge_list()[l]).0,
            nav_graph.edge_list()[l].1,
        ) by {
            assert(!joins(before.edge_list()[k], before.edge_list()[l].0, before.edge_list()[l].1));
        }
        assert(nav_graph.wf());
        assert forall|a: int, b: int| #[trigger]
            nav_graph.has_edge(a, b) <==> before.has_edge(a, b) by {
            if nav_graph.has_edge(a, b) {
                let i = choose|i: int|
                    0 <= i < nav_graph.edge_list().len() && joins(
                        #[trigger] nav_graph.edge_list()[i],
                        a,
                        b,
                    );
                assert(joins(before.edge_list()[i], a, b));
            }
            if before.has_edge(a, b) {
                let i = choose|i: int|
                    0 <= i < before.edge_list().len() && joins(
                        #[trigger] before.edge_list()[i],
                        a,
                        b,
                    );
                assert(joins(nav_graph.edge_list()[i], a, b));
            }
        }
    }
    let ghost middle = *nav_graph;
    assert(middle.nodes()[p_index as int] == p);
    assert forall|i: int| 0 <= i < vertices@.len() implies middle.nodes().contains(
        #[trigger] vertices@[i],
    ) by {
        assert(middle.nodes()[i] == vertices@[i]);
    }
    add_visible_edges(&p, &mut vertices, nav_graph, optimization_mode);
    proof {
        assert(!vertices@.contains(p)) by {
            if vertices@.contains(p) {
                lemma_sweep_sorted_contains(before.nodes(), coord, middle.features, p);
            }
        }
        let seen = visible_vertices_spec(p, vertices@, middle.features, optimization_mode);
        assert(!seen.contains(p)) by {
            if seen.contains(p) {
                lemma_visible_vertices_within(p, vertices@, middle.features, optimization_mode, p);
            }
        }
        assert forall|b: int|
            0 <= b < before.nodes().len() && is_same_location(
                coord,
                before.coord_of(b),
            ) implies #[trigger] nav_graph.has_edge(p_index as int, b) by {
            let w = before.nodes()[b];
            assert(middle.nodes()[b] == w);
            assert(before.features.node_valid(w));
            lemma_sweep_sorted_contains(before.nodes(), coord, middle.features, w);
            assert(before.nodes().contains(w));
            lemma_same_location_is_visible(p, vertices@, middle.features, optimization_mode, w);
        }
    }
    return (p, p_index);
}

} // verus!
