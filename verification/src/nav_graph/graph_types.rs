//! The data the planner works on: node identities, the feature set that
//! gives them coordinates, and the visibility graph itself.

use super::graph_store;
use super::graph_store::{far_end, graph_edges, graph_nodes, joins, touches};
use super::node_index::{lemma_matches_found, NodeIndexMap};
use crate::coord_ext::{euclidean_distance_spec, lemma_distance_symmetric, MAX_DISTANCE};
use crate::geometry::{
    in_contains_range, ring_wf, Coordinate, MultiPolygon, CONTAINS_COORDINATE_LIMIT,
};
use crate::winding::lemma_winding_range_is_contains_range;
use crate::mpi::{all_mpis, lemma_all_mpis, Mpi, MpiCoordsIterable};
use petgraph::graph::Graph;
use petgraph::Undirected;
use vstd::pervasive::unreached;
use vstd::prelude::*;

verus! {

/// The identity of a graph node: a vertex of a recharge polygon, a vertex of
/// an obstacle, or the `k`-th ad-hoc query point.
#[derive(Debug, Clone, Copy, PartialEq, Eq, Structural, Hash, PartialOrd, Ord)]
pub enum NodeData {
    PartOfWater(Mpi),
    PartOfObstacle(Mpi),
    Arbitrary(usize),
}

/// The attribute of a graph edge: its length in whole units.
#[derive(Debug, Clone, Copy, Default, PartialEq, Eq, Structural, PartialOrd, Ord)]
pub struct Edge {
    pub length: u64,
}

impl Edge {
    pub fn new(length: u64) -> (edge: Edge)
        ensures
            edge.length == length,
    {
        Edge { length }
    }
}

/// Why a set of polygons was not accepted as features.
#[derive(Debug, Clone, Copy, PartialEq, Eq, Structural)]
pub enum FeatureError {
    /// A ring has fewer than three vertices.
    RingTooShort,
    /// A ring's last coordinate differs from its first.
    RingNotClosed,
    /// Two consecutive coordinates of a ring coincide.
    ZeroLengthEdge,
}

/// Obstacles, recharge polygons and query points. Query points are only ever
/// appended, so `Arbitrary(k)` keeps naming the same point.
#[derive(Debug, Clone)]
pub struct Features {
    pub obstacles: MultiPolygon,
    pub waters: MultiPolygon,
    pub arbitrary: Vec<Coordinate>,
}

/// The first problem found in `ring`, if any: too short before not closed
/// before a zero-length edge.
pub open spec fn ring_defect(ring: Seq<Coordinate>) -> Option<FeatureError> {
    if ring.len() < 4 {
        Some(FeatureError::RingTooShort)
    } else if ring[0] != ring[ring.len() - 1] {
        Some(FeatureError::RingNotClosed)
    } else if !ring_wf(ring) {
        Some(FeatureError::ZeroLengthEdge)
    } else {
        None
    }
}

fn check_ring(ring: &Vec<Coordinate>) -> (r: Option<FeatureError>)
    ensures
        r == ring_defect(ring@),
        r.is_none() <==> ring_wf(ring@),
{
    if ring.len() < 4 {
        return Some(FeatureError::RingTooShort);
    }
    if ring[0] != ring[ring.len() - 1] {
        return Some(FeatureError::RingNotClosed);
    }
    let n: usize = ring.len() - 1;
    let mut i: usize = 0;
    while i < n
        invariant
            n == ring@.len() - 1,
            i <= n,
            ring@.len() >= 4,
            ring@[0] == ring@[ring@.len() - 1],
            forall|k: int| 0 <= k < i ==> ring@[k] != #[trigger] ring@[k + 1],
        decreases n - i,
    {
        if ring[i] == ring[i + 1] {
            assert(ring@[i as int] == ring@[i as int + 1]);
            return Some(FeatureError::ZeroLengthEdge);
        }
        i += 1;
    }
    None
}

/// Ring `k` of polygon `p` is the first ring of `mp` with a defect, going
/// polygon by polygon and, within a polygon, from the exterior ring on.
pub open spec fn is_first_defective_ring(mp: MultiPolygon, p: int, k: int) -> bool {
    &&& 0 <= p < mp.len()
    &&& 0 <= k < mp.polygon(p).ring_count()
    &&& !ring_wf(mp.ring(p, k))
    &&& forall|q: int| 0 <= q < p ==> (#[trigger] mp.polygon(q)).wf()
    &&& forall|j: int| 0 <= j < k ==> ring_wf(#[trigger] mp.ring(p, j))
}

/// The defect of the first defective ring of `mp`, if it has one.
pub open spec fn first_defect(mp: MultiPolygon) -> Option<FeatureError> {
    if mp.wf() {
        None
    } else {
        let (p, k) = choose|p: int, k: int| is_first_defective_ring(mp, p, k);
        ring_defect(mp.ring(p, k))
    }
}

/// Only one ring is the first with a defect.
pub proof fn lemma_first_defective_ring_unique(mp: MultiPolygon, p: int, k: int, q: int, j: int)
    requires
        is_first_defective_ring(mp, p, k),
        is_first_defective_ring(mp, q, j),
    ensures
        p == q,
        k == j,
{
    if p < q {
        assert(mp.polygon(p).wf());
        assert(ring_wf(mp.polygon(p).ring(k)));
    }
    if q < p {
        assert(mp.polygon(q).wf());
        assert(ring_wf(mp.polygon(q).ring(j)));
    }
}

/// Checks every ring of `mp`, polygon by polygon, the exterior ring first.
fn check_multi_polygon(mp: &MultiPolygon) -> (r: Option<FeatureError>)
    ensures
        r == first_defect(*mp),
        r.is_none() <==> mp.wf(),
{
    let mut p: usize = 0;
    while p < mp.0.len()
        invariant
            p <= mp.len(),
            forall|q: int| 0 <= q < p ==> (#[trigger] mp.polygon(q)).wf(),
        decreases mp.len() - p,
    {
        let polygon = &mp.0[p];
        let mut k: usize = 0;
        loop
            invariant_except_break
                k <= polygon.interiors@.len(),
                forall|j: int| 0 <= j < k ==> ring_wf(#[trigger] polygon.ring(j)),
            invariant
                polygon == mp.polygon(p as int),
                p < mp.len(),
                forall|q: int| 0 <= q < p ==> (#[trigger] mp.polygon(q)).wf(),
            ensures
                polygon.wf(),
            decreases polygon.interiors@.len() - k,
        {
            let defect = check_ring(polygon.ring_at(k));
            if defect.is_some() {
                proof {
                    assert(!ring_wf(mp.polygon(p as int).ring(k as int)));
                    assert(!mp.polygon(p as int).wf());
                    assert(ring_defect(mp.ring(p as int, k as int)) == defect);
                    assert(is_first_defective_ring(*mp, p as int, k as int));
                    let (q, j) = choose|q: int, j: int| is_first_defective_ring(*mp, q, j);
                    lemma_first_defective_ring_unique(*mp, p as int, k as int, q, j);
                }
                return defect;
            }
            if k == polygon.interiors.len() {
                assert forall|j: int| 0 <= j < polygon.ring_count() implies ring_wf(
                    #[trigger] polygon.ring(j),
                ) by {
                    if j == k {
                    }
                }
                break ;
            }
            k += 1;
        }
        p += 1;
    }
    None
}

impl Features {
    /// Every ring of every polygon is closed, has three vertices or more, and
    /// no edge of zero length.
    pub open spec fn wf(self) -> bool {
        self.obstacles.wf() && self.waters.wf()
    }

    /// Every point of the feature set keeps within the bound up to which
    /// containment in the obstacles is decided.
    pub open spec fn in_contains_range(self) -> bool {
        &&& self.obstacles.in_contains_range()
        &&& self.waters.in_contains_range()
        &&& forall|i: int|
            0 <= i < self.arbitrary@.len() ==> in_contains_range(#[trigger] self.arbitrary@[i])
    }

    /// `node` names a vertex or query point of this feature set.
    pub open spec fn node_valid(self, node: NodeData) -> bool {
        match node {
            NodeData::PartOfWater(mpi) => mpi.valid_for(self.waters),
            NodeData::PartOfObstacle(mpi) => mpi.valid_for(self.obstacles),
            NodeData::Arbitrary(i) => i < self.arbitrary@.len(),
        }
    }

    /// The coordinate of `node`.
    pub open spec fn coord_spec(self, node: NodeData) -> Coordinate {
        match node {
            NodeData::PartOfWater(mpi) => mpi.coord_in(self.waters),
            NodeData::PartOfObstacle(mpi) => mpi.coord_in(self.obstacles),
            NodeData::Arbitrary(i) => self.arbitrary@[i as int],
        }
    }

    /// All nodes in enumeration order: the obstacle vertices, the recharge
    /// vertices, then the query points.
    pub open spec fn all_nodes(self) -> Seq<NodeData> {
        all_mpis(self.obstacles).map_values(|m: Mpi| NodeData::PartOfObstacle(m)) + all_mpis(
            self.waters,
        ).map_values(|m: Mpi| NodeData::PartOfWater(m)) + Seq::new(
            self.arbitrary@.len(),
            |i: int| NodeData::Arbitrary(i as usize),
        )
    }

    /// A feature set of the given polygons with no query points yet, or the
    /// defect of the first ring that keeps the polygons from being used: of
    /// the obstacles before the waters.
    pub fn new(obstacles: MultiPolygon, waters: MultiPolygon) -> (r: Result<Features, FeatureError>)
        ensures
            r.is_ok() <==> obstacles.wf() && waters.wf(),
            match r {
                Ok(features) => {
                    &&& features.obstacles == obstacles
                    &&& features.waters == waters
                    &&& features.arbitrary@.len() == 0
                    &&& features.wf()
                },
                Err(e) => Some(e) == if obstacles.wf() {
                    first_defect(waters)
                } else {
                    first_defect(obstacles)
                },
            },
    {
        match check_multi_polygon(&obstacles) {
            Some(e) => {
                return Err(e);
            },
            None => {},
        }
        match check_multi_polygon(&waters) {
            Some(e) => {
                return Err(e);
            },
            None => {},
        }
        Ok(Features { obstacles, waters, arbitrary: Vec::new() })
    }

    /// The coordinate of `node_data`.
    pub fn coord(&self, node_data: &NodeData) -> (c: Coordinate)
        requires
            self.node_valid(*node_data),
        ensures
            c == self.coord_spec(*node_data),
    {
        match node_data {
            NodeData::PartOfWater(mpi) => self.waters.index(mpi),
            NodeData::PartOfObstacle(mpi) => self.obstacles.index(mpi),
            NodeData::Arbitrary(i) => self.arbitrary[*i],
        }
    }

    /// Whether every point of the feature set keeps within the bound up to
    /// which containment in the obstacles is decided.
    pub fn is_in_contains_range(&self) -> (r: bool)
        ensures
            r == self.in_contains_range(),
    {
        proof {
            lemma_winding_range_is_contains_range(self.obstacles);
            lemma_winding_range_is_contains_range(self.waters);
        }
        if !self.obstacles.is_in_winding_range() || !self.waters.is_in_winding_range() {
            return false;
        }
        let mut i: usize = 0;
        while i < self.arbitrary.len()
            invariant
                i <= self.arbitrary@.len(),
                forall|k: int| 0 <= k < i ==> in_contains_range(#[trigger] self.arbitrary@[k]),
            decreases self.arbitrary@.len() - i,
        {
            let c = self.arbitrary[i];
            if !(-CONTAINS_COORDINATE_LIMIT < c.x && c.x < CONTAINS_COORDINATE_LIMIT
                && -CONTAINS_COORDINATE_LIMIT < c.y && c.y < CONTAINS_COORDINATE_LIMIT) {
                return false;
            }
            i += 1;
        }
        true
    }

    /// Whether `node` names a vertex or query point of this feature set.
    pub fn is_node_valid(&self, node: &NodeData) -> (r: bool)
        ensures
            r == self.node_valid(*node),
    {
        match node {
            NodeData::PartOfWater(mpi) => mpi.is_valid_for(&self.waters),
            NodeData::PartOfObstacle(mpi) => mpi.is_valid_for(&self.obstacles),
            NodeData::Arbitrary(i) => *i < self.arbitrary.len(),
        }
    }

    /// All nodes, in enumeration order.
    pub fn iter(&self) -> (nodes: Vec<NodeData>)
        ensures
            nodes@ == self.all_nodes(),
    {
        let mut nodes: Vec<NodeData> = Vec::new();
        let obstacle_mpis = self.obstacles.indexed_coords_iter().collect();
        let mut i: usize = 0;
        while i < obstacle_mpis.len()
            invariant
                i <= obstacle_mpis@.len(),
                nodes@ == obstacle_mpis@.take(i as int).map_values(
                    |m: Mpi| NodeData::PartOfObstacle(m),
                ),
            decreases obstacle_mpis@.len() - i,
        {
            nodes.push(NodeData::PartOfObstacle(obstacle_mpis[i]));
            assert(nodes@ =~= obstacle_mpis@.take(i + 1).map_values(
                |m: Mpi| NodeData::PartOfObstacle(m),
            ));
            i += 1;
        }
        assert(obstacle_mpis@.take(i as int) =~= obstacle_mpis@);
        let ghost first = nodes@;
        let water_mpis = self.waters.indexed_coords_iter().collect();
        let mut j: usize = 0;
        while j < water_mpis.len()
            invariant
                j <= water_mpis@.len(),
                nodes@ == first + water_mpis@.take(j as int).map_values(
                    |m: Mpi| NodeData::PartOfWater(m),
                ),
            decreases water_mpis@.len() - j,
        {
            nodes.push(NodeData::PartOfWater(water_mpis[j]));
            assert(nodes@ =~= first + water_mpis@.take(j + 1).map_values(
                |m: Mpi| NodeData::PartOfWater(m),
            ));
            j += 1;
        }
        assert(water_mpis@.take(j as int) =~= water_mpis@);
        let ghost second = nodes@;
        let mut k: usize = 0;
        while k < self.arbitrary.len()
            invariant
                k <= self.arbitrary@.len(),
                nodes@ == second + Seq::new(k as nat, |i: int| NodeData::Arbitrary(i as usize)),
            decreases self.arbitrary@.len() - k,
        {
            nodes.push(NodeData::Arbitrary(k));
            assert(nodes@ =~= second + Seq::new(
                (k + 1) as nat,
                |i: int| NodeData::Arbitrary(i as usize),
            ));
            k += 1;
        }
        nodes
    }
}

/// The enumeration of a feature set holds every node exactly once and
/// nothing that is not a node.
pub proof fn lemma_all_nodes(features: Features)
    ensures
        features.all_nodes().no_duplicates(),
        forall|i: int|
            0 <= i < features.all_nodes().len() ==> features.node_valid(
                #[trigger] features.all_nodes()[i],
            ),
        forall|node: NodeData| features.node_valid(node) ==> features.all_nodes().contains(node),
{
    lemma_all_mpis(features.obstacles);
    lemma_all_mpis(features.waters);
    let obstacle_mpis = all_mpis(features.obstacles);
    let water_mpis = all_mpis(features.waters);
    let a = obstacle_mpis.map_values(|m: Mpi| NodeData::PartOfObstacle(m));
    let b = water_mpis.map_values(|m: Mpi| NodeData::PartOfWater(m));
    let c = Seq::new(features.arbitrary@.len(), |i: int| NodeData::Arbitrary(i as usize));
    let all = features.all_nodes();
    assert(all == a + b + c);
    assert(features.arbitrary.len() == features.arbitrary@.len());
    assert forall|i: int| 0 <= i < all.len() implies features.node_valid(#[trigger] all[i]) by {
        if i < a.len() {
            assert(all[i] == NodeData::PartOfObstacle(obstacle_mpis[i]));
        } else if i < a.len() + b.len() {
            assert(all[i] == NodeData::PartOfWater(water_mpis[i - a.len()]));
        } else {
            assert(all[i] == c[i - a.len() - b.len()]);
        }
    }
    assert forall|i: int, j: int| 0 <= i < all.len() && 0 <= j < all.len() && i != j implies all[i]
        != all[j] by {
        let kind = |k: int|
            if k < a.len() {
                0int
            } else if k < a.len() + b.len() {
                1int
            } else {
                2int
            };
        if i < a.len() {
            assert(all[i] == NodeData::PartOfObstacle(obstacle_mpis[i]));
        } else if i < a.len() + b.len() {
            assert(all[i] == NodeData::PartOfWater(water_mpis[i - a.len()]));
        } else {
            assert(all[i] == c[i - a.len() - b.len()]);
        }
        if j < a.len() {
            assert(all[j] == NodeData::PartOfObstacle(obstacle_mpis[j]));
        } else if j < a.len() + b.len() {
            assert(all[j] == NodeData::PartOfWater(water_mpis[j - a.len()]));
        } else {
            assert(all[j] == c[j - a.len() - b.len()]);
        }
    }
    assert forall|node: NodeData| features.node_valid(node) implies all.contains(node) by {
        match node {
            NodeData::PartOfObstacle(m) => {
                let i = choose|i: int| 0 <= i < obstacle_mpis.len() && obstacle_mpis[i] == m;
                assert(all[i] == node);
            },
            NodeData::PartOfWater(m) => {
                let i = choose|i: int| 0 <= i < water_mpis.len() && water_mpis[i] == m;
                assert(all[a.len() + i] == node);
            },
            NodeData::Arbitrary(k) => {
                assert(all[a.len() + b.len() + k] == node);
            },
        }
    }
}

/// The most nodes a graph may hold, so that the cost of any path fits the
/// cost type.
pub const MAX_NODES: usize = 0x4000_0000;

/// The visibility graph together with the features its nodes refer to.
/// A node's handle is its position in the order the nodes were added.
#[derive(Debug)]
pub struct NavGraph {
    pub graph: Graph<NodeData, Edge, Undirected, usize>,
    pub node_data_index_map: NodeIndexMap,
    pub features: Features,
}

impl NavGraph {
    /// The identities of the nodes, by handle.
    pub open spec fn nodes(self) -> Seq<NodeData> {
        graph_nodes(self.graph)
    }

    /// The stored edges: end handles and length.
    pub open spec fn edge_list(self) -> Seq<(int, int, u64)> {
        graph_edges(self.graph)
    }

    /// The coordinate of the node with handle `handle`.
    pub open spec fn coord_of(self, handle: int) -> Coordinate {
        self.features.coord_spec(self.nodes()[handle])
    }

    /// Some edge joins the nodes `a` and `b`.
    pub open spec fn has_edge(self, a: int, b: int) -> bool {
        exists|i: int| 0 <= i < self.edge_list().len() && joins(#[trigger] self.edge_list()[i], a, b)
    }

    /// The stored edge `i` joins `a` and `b`, and no stored edge that joins
    /// them is shorter.
    pub open spec fn is_shortest_edge(self, i: int, a: int, b: int) -> bool {
        &&& 0 <= i < self.edge_list().len()
        &&& joins(self.edge_list()[i], a, b)
        &&& forall|j: int|
            0 <= j < self.edge_list().len() && joins(#[trigger] self.edge_list()[j], a, b)
                ==> self.edge_list()[i].2 <= self.edge_list()[j].2
    }

    /// The length of the way from `a` straight to `b`: that of the shortest
    /// edge that joins them.
    pub open spec fn edge_length(self, a: int, b: int) -> int {
        let i = choose|i: int| self.is_shortest_edge(i, a, b);
        self.edge_list()[i].2 as int
    }

    /// The stored edge `e` runs between nodes of the graph and is no longer
    /// than the greatest distance there is.
    pub open spec fn edge_fits(self, e: (int, int, u64)) -> bool {
        &&& 0 <= e.0 < self.nodes().len()
        &&& 0 <= e.1 < self.nodes().len()
        &&& e.2 <= MAX_DISTANCE
    }

    /// The stored edge `e` runs between two different nodes and carries the
    /// distance of their coordinates in whole units, rounded up.
    pub open spec fn edge_wf(self, e: (int, int, u64)) -> bool {
        &&& e.0 != e.1
        &&& e.2 == euclidean_distance_spec(self.coord_of(e.0), self.coord_of(e.1))
    }

    /// The graph can be searched, whatever its nodes stand for and whatever
    /// lengths its edges carry: it has no more nodes than handles are
    /// foreseen for, and every edge runs between nodes of the graph and is
    /// no longer than the greatest distance there is.
    pub open spec fn searchable(self) -> bool {
        &&& self.nodes().len() <= MAX_NODES
        &&& forall|k: int|
            0 <= k < self.edge_list().len() ==> self.edge_fits(#[trigger] self.edge_list()[k])
    }

    /// The graph is consistent with its features: it can be searched, every
    /// node names a feature node, no two nodes name the same one, the index
    /// map knows the handle of every node, every edge runs between two
    /// different nodes and carries the distance of its ends, and no two
    /// edges join the same pair.
    pub open spec fn wf(self) -> bool {
        &&& self.features.wf()
        &&& self.searchable()
        &&& self.node_data_index_map.matches(self.nodes())
        &&& forall|i: int|
            0 <= i < self.nodes().len() ==> self.features.node_valid(#[trigger] self.nodes()[i])
        &&& forall|i: int, j: int|
            0 <= i < self.nodes().len() && 0 <= j < self.nodes().len() && i != j
                ==> #[trigger] self.nodes()[i] != #[trigger] self.nodes()[j]
        &&& forall|k: int|
            0 <= k < self.edge_list().len() ==> self.edge_wf(#[trigger] self.edge_list()[k])
        &&& forall|k: int, l: int|
            0 <= k < self.edge_list().len() && 0 <= l < self.edge_list().len() && k != l ==> !joins(
                #[trigger] self.edge_list()[k],
                (#[trigger] self.edge_list()[l]).0,
                self.edge_list()[l].1,
            )
    }

    /// The number of nodes.
    pub fn node_count(&self) -> (n: usize)
        ensures
            n == self.nodes().len(),
    {
        graph_store::node_count(&self.graph)
    }

    /// The identity of the node with handle `handle`, if there is one.
    pub fn node_weight(&self, handle: usize) -> (w: Option<NodeData>)
        ensures
            w == if handle < self.nodes().len() {
                Some(self.nodes()[handle as int])
            } else {
                None
            },
    {
        graph_store::node_weight(&self.graph, handle)
    }

    /// The coordinate of the node with handle `handle`.
    pub fn node_coord(&self, handle: usize) -> (c: Coordinate)
        requires
            self.wf(),
            handle < self.nodes().len(),
        ensures
            c == self.coord_of(handle as int),
    {
        match self.node_weight(handle) {
            Some(node_data) => self.features.coord(&node_data),
            None => unreached(),
        }
    }

    /// The handle of the node that carries `node_data`, if the graph has it.
    pub fn node_index(&self, node_data: &NodeData) -> (r: Option<usize>)
        requires
            self.wf(),
        ensures
            match r {
                Some(i) => i < self.nodes().len() && self.nodes()[i as int] == *node_data,
                None => !self.nodes().contains(*node_data),
            },
    {
        proof {
            lemma_matches_found(self.node_data_index_map, self.nodes(), *node_data);
        }
        self.node_data_index_map.get(node_data)
    }

    /// The neighbors of the node `a`, each with the length of an edge to it:
    /// one entry for every edge at `a`, the shortest edge to each neighbor
    /// among them. In a graph that is consistent with its features every
    /// neighbor is another node and comes with the length of the one edge to
    /// it.
    pub fn neighbors(&self, a: usize) -> (out: Vec<(usize, u64)>)
        requires
            self.searchable(),
            a < self.nodes().len(),
        ensures
            forall|k: int|
                0 <= k < out@.len() ==> {
                    &&& (#[trigger] out@[k]).0 < self.nodes().len()
                    &&& self.has_edge(a as int, out@[k].0 as int)
                    &&& self.edge_length(a as int, out@[k].0 as int) <= out@[k].1 <= MAX_DISTANCE
                    &&& self.wf() ==> out@[k].0 != a && out@[k].1 == self.edge_length(
                        a as int,
                        out@[k].0 as int,
                    )
                },
            forall|b: int|
                self.has_edge(a as int, b) ==> exists|k: int|
                    0 <= k < out@.len() && (#[trigger] out@[k]).0 == b && out@[k].1
                        == self.edge_length(a as int, b),
    {
        let out = graph_store::edges_of(&self.graph, a);
        proof {
            assert forall|k: int| 0 <= k < out@.len() implies {
                &&& (#[trigger] out@[k]).0 < self.nodes().len()
                &&& self.has_edge(a as int, out@[k].0 as int)
                &&& self.edge_length(a as int, out@[k].0 as int) <= out@[k].1 <= MAX_DISTANCE
                &&& self.wf() ==> out@[k].0 != a && out@[k].1 == self.edge_length(
                    a as int,
                    out@[k].0 as int,
                )
            } by {
                let i = choose|i: int|
                    0 <= i < graph_edges(self.graph).len() && joins(
                        #[trigger] graph_edges(self.graph)[i],
                        a as int,
                        out@[k].0 as int,
                    ) && graph_edges(self.graph)[i].2 == out@[k].1;
                assert(self.edge_fits(self.edge_list()[i]));
                lemma_edge_length(*self, i, a as int, out@[k].0 as int);
                if self.wf() {
                    assert(self.edge_wf(self.edge_list()[i]));
                    lemma_shortest_edge(*self, a as int, out@[k].0 as int);
                    let least = choose|l: int| self.is_shortest_edge(l, a as int, out@[k].0 as int);
                    assert(joins(
                        self.edge_list()[least],
                        self.edge_list()[i].0,
                        self.edge_list()[i].1,
                    ));
                }
            }
            assert forall|b: int| self.has_edge(a as int, b) implies exists|k: int|
                0 <= k < out@.len() && (#[trigger] out@[k]).0 == b && out@[k].1
                    == self.edge_length(a as int, b) by {
                lemma_shortest_edge(*self, a as int, b);
                let i = choose|i: int| self.is_shortest_edge(i, a as int, b);
                assert(self.edge_fits(self.edge_list()[i]));
                assert(touches(graph_edges(self.graph)[i], a as int));
                assert(far_end(graph_edges(self.graph)[i], a as int) == b);
            }
        }
        out
    }

    /// Whether an edge joins `a` and `b`.
    #[verifier::loop_isolation(false)]
    pub fn contains_edge(&self, a: usize, b: usize) -> (r: bool)
        requires
            self.searchable(),
            a < self.nodes().len(),
        ensures
            r == self.has_edge(a as int, b as int),
    {
        let around = self.neighbors(a);
        let mut k: usize = 0;
        while k < around.len()
            invariant
                k <= around@.len(),
                forall|j: int| 0 <= j < k ==> (#[trigger] around@[j]).0 != b,
            decreases around@.len() - k,
        {
            if around[k].0 == b {
                return true;
            }
            k += 1;
        }
        false
    }
}

/// Of the first `n` stored edges, if one joins `a` and `b`, one that joins
/// them is no longer than any other that does.
proof fn lemma_shortest_of(edges: Seq<(int, int, u64)>, a: int, b: int, n: int) -> (i: int)
    requires
        0 <= n <= edges.len(),
        exists|j: int| 0 <= j < n && joins(#[trigger] edges[j], a, b),
    ensures
        0 <= i < n,
        joins(edges[i], a, b),
        forall|j: int| 0 <= j < n && joins(#[trigger] edges[j], a, b) ==> edges[i].2 <= edges[j].2,
    decreases n,
{
    if exists|j: int| 0 <= j < n - 1 && joins(#[trigger] edges[j], a, b) {
        let i = lemma_shortest_of(edges, a, b, n - 1);
        if joins(edges[n - 1], a, b) && edges[n - 1].2 < edges[i].2 {
            n - 1
        } else {
            i
        }
    } else {
        n - 1
    }
}

/// Where an edge joins two nodes, a shortest edge joins them.
pub proof fn lemma_shortest_edge(graph: NavGraph, a: int, b: int)
    requires
        graph.has_edge(a, b),
    ensures
        graph.is_shortest_edge(choose|i: int| graph.is_shortest_edge(i, a, b), a, b),
{
    let i = lemma_shortest_of(graph.edge_list(), a, b, graph.edge_list().len() as int);
    assert(graph.is_shortest_edge(i, a, b));
}

/// The way straight from `a` to `b` is no longer than any stored edge that
/// joins them.
pub proof fn lemma_edge_length(graph: NavGraph, k: int, a: int, b: int)
    requires
        0 <= k < graph.edge_list().len(),
        joins(graph.edge_list()[k], a, b),
    ensures
        graph.has_edge(a, b),
        graph.edge_length(a, b) <= graph.edge_list()[k].2,
{
    lemma_shortest_edge(graph, a, b);
}

/// In a graph that can be searched no edge is longer than the greatest
/// distance there is, the way straight from one node to another is as long
/// one way as the other, and edges join nodes of the graph.
pub proof fn lemma_edge_length_bounds(graph: NavGraph, a: int, b: int)
    requires
        graph.searchable(),
        graph.has_edge(a, b),
    ensures
        0 <= graph.edge_length(a, b) <= MAX_DISTANCE,
        graph.edge_length(a, b) == graph.edge_length(b, a),
        0 <= a < graph.nodes().len(),
        0 <= b < graph.nodes().len(),
{
    lemma_shortest_edge(graph, a, b);
    let i = choose|i: int| graph.is_shortest_edge(i, a, b);
    assert(graph.edge_fits(graph.edge_list()[i]));
    assert(joins(graph.edge_list()[i], b, a));
    lemma_shortest_edge(graph, b, a);
    let j = choose|j: int| graph.is_shortest_edge(j, b, a);
    assert(joins(graph.edge_list()[j], a, b));
}

/// In a graph that is consistent with its features, the edge between two
/// nodes is as long as their coordinates are distant, in whole units rounded
/// up.
pub proof fn lemma_edge_length_is_distance(graph: NavGraph, a: int, b: int)
    requires
        graph.wf(),
        graph.has_edge(a, b),
    ensures
        graph.edge_length(a, b) == euclidean_distance_spec(graph.coord_of(a), graph.coord_of(b)),
{
    lemma_shortest_edge(graph, a, b);
    let i = choose|i: int| graph.is_shortest_edge(i, a, b);
    assert(graph.edge_wf(graph.edge_list()[i]));
    lemma_distance_symmetric(graph.coord_of(a), graph.coord_of(b));
}

} // verus!
