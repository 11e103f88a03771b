//! The handle of each node of a graph, found by the node's identity in
//! constant time.

use super::graph_types::NodeData;
use crate::mpi::Mpi;
use vstd::prelude::*;

verus! {

/// A table of handles with a place for every vertex index.
pub type MpiTable = Vec<Vec<Vec<Option<usize>>>>;

/// From the identity of a node to its handle in the graph.
///
/// The handles of polygon vertices are kept by polygon, ring and position,
/// those of query points by their number. A node without a place in the
/// tables has no handle.
#[derive(Debug)]
pub struct NodeIndexMap {
    obstacles: MpiTable,
    waters: MpiTable,
    arbitrary: Vec<Option<usize>>,
}

/// The entry of `table` for `mpi`; none where the table has no place for it.
pub open spec fn table_entry(table: Seq<Vec<Vec<Option<usize>>>>, mpi: Mpi) -> Option<usize> {
    if mpi.polygon_index < table.len() && mpi.ring_index < table[mpi.polygon_index as int]@.len()
        && mpi.coord_index < table[mpi.polygon_index as int]@[mpi.ring_index as int]@.len() {
        table[mpi.polygon_index as int]@[mpi.ring_index as int]@[mpi.coord_index as int]
    } else {
        None
    }
}

fn lookup(table: &MpiTable, mpi: &Mpi) -> (r: Option<usize>)
    ensures
        r == table_entry(table@, *mpi),
{
    if mpi.polygon_index >= table.len() {
        return None;
    }
    let rings = &table[mpi.polygon_index];
    if mpi.ring_index >= rings.len() {
        return None;
    }
    let ring = &rings[mpi.ring_index];
    if mpi.coord_index >= ring.len() {
        return None;
    }
    ring[mpi.coord_index]
}

/// Makes room for `mpi` in `table` and writes `handle` there. No other entry
/// changes.
fn record(table: &mut MpiTable, mpi: Mpi, handle: usize)
    ensures
        forall|other: Mpi| #[trigger]
            table_entry(final(table)@, other) == if other == mpi {
                Some(handle)
            } else {
                table_entry(old(table)@, other)
            },
{
    while table.len() <= mpi.polygon_index
        invariant
            forall|other: Mpi| #[trigger] table_entry(table@, other) == table_entry(old(table)@, other),
        decreases mpi.polygon_index + 1 - table@.len(),
    {
        let ghost before = table@;
        table.push(Vec::new());
        proof {
            assert forall|other: Mpi| #[trigger] table_entry(table@, other) == table_entry(
                before,
                other,
            ) by {
                if other.polygon_index < before.len() {
                    assert(table@[other.polygon_index as int] == before[other.polygon_index as int]);
                }
            }
        }
    }
    while table[mpi.polygon_index].len() <= mpi.ring_index
        invariant
            mpi.polygon_index < table@.len(),
            forall|other: Mpi| #[trigger] table_entry(table@, other) == table_entry(old(table)@, other),
        decreases mpi.ring_index + 1 - table@[mpi.polygon_index as int]@.len(),
    {
        let ghost before = table@;
        table[mpi.polygon_index].push(Vec::new());
        proof {
            assert forall|other: Mpi| #[trigger] table_entry(table@, other) == table_entry(
                before,
                other,
            ) by {
                if other.polygon_index < before.len() {
                    if other.polygon_index == mpi.polygon_index {
                        let rings = before[other.polygon_index as int]@;
                        if other.ring_index < rings.len() {
                            assert(table@[other.polygon_index as int]@[other.ring_index as int]
                                == rings[other.ring_index as int]);
                        }
                    } else {
                        assert(table@[other.polygon_index as int] == before[other.polygon_index as int]);
                    }
                }
            }
        }
    }
    while table[mpi.polygon_index][mpi.ring_index].len() <= mpi.coord_index
        invariant
            mpi.polygon_index < table@.len(),
            mpi.ring_index < table@[mpi.polygon_index as int]@.len(),
            forall|other: Mpi| #[trigger] table_entry(table@, other) == table_entry(old(table)@, other),
        decreases
                mpi.coord_index + 1 - table@[mpi.polygon_index as int]@[mpi.ring_index as int]@.len(),
    {
        let ghost before = table@;
        table[mpi.polygon_index][mpi.ring_index].push(None);
        proof {
            assert forall|other: Mpi| #[trigger] table_entry(table@, other) == table_entry(
                before,
                other,
            ) by {
                if other.polygon_index < before.len() {
                    if other.polygon_index == mpi.polygon_index {
                        let rings = before[other.polygon_index as int]@;
                        if other.ring_index < rings.len() {
                            if other.ring_index == mpi.ring_index {
                                let ring = rings[other.ring_index as int]@;
                                if other.coord_index < ring.len() {
                                    assert(table_entry(table@, other)
                                        == ring[other.coord_index as int]);
                                }
                            } else {
                                assert(table@[other.polygon_index as int]@[other.ring_index as int]
                                    == rings[other.ring_index as int]);
                            }
                        }
                    } else {
                        assert(table@[other.polygon_index as int] == before[other.polygon_index as int]);
                    }
                }
            }
        }
    }
    let ghost before = table@;
    table[mpi.polygon_index][mpi.ring_index][mpi.coord_index] = Some(handle);
    proof {
        assert forall|other: Mpi| #[trigger]
            table_entry(table@, other) == if other == mpi {
                Some(handle)
            } else {
                table_entry(before, other)
            } by {
            if other.polygon_index < before.len() {
                if other.polygon_index == mpi.polygon_index {
                    let rings = before[other.polygon_index as int]@;
                    if other.ring_index < rings.len() {
                        if other.ring_index == mpi.ring_index {
                            let ring = rings[other.ring_index as int]@;
                            if other.coord_index < ring.len() && other.coord_index
                                != mpi.coord_index {
                                assert(table_entry(table@, other)
                                    == ring[other.coord_index as int]);
                            }
                        } else {
                            assert(table@[other.polygon_index as int]@[other.ring_index as int]
                                == rings[other.ring_index as int]);
                        }
                    }
                } else {
                    assert(table@[other.polygon_index as int] == before[other.polygon_index as int]);
                }
            }
        }
    }
}

impl NodeIndexMap {
    /// The handle kept for `node`, if any.
    pub closed spec fn handle_of(self, node: NodeData) -> Option<usize> {
        match node {
            NodeData::PartOfObstacle(mpi) => table_entry(self.obstacles@, mpi),
            NodeData::PartOfWater(mpi) => table_entry(self.waters@, mpi),
            NodeData::Arbitrary(k) => if k < self.arbitrary@.len() {
                self.arbitrary@[k as int]
            } else {
                None
            },
        }
    }

    /// The map holds the handles of exactly the nodes `nodes`, each node's
    /// handle being its position.
    #[verifier::opaque]
    pub open spec fn matches(self, nodes: Seq<NodeData>) -> bool {
        &&& forall|i: int|
            0 <= i < nodes.len() ==> self.handle_of(#[trigger] nodes[i]) == Some(i as usize)
        &&& forall|node: NodeData|
            (#[trigger] self.handle_of(node)) is Some ==> self.handle_of(node)->0 < nodes.len()
                && nodes[self.handle_of(node)->0 as int] == node
    }

    /// A map without handles.
    pub fn new() -> (map: NodeIndexMap)
        ensures
            forall|node: NodeData| (#[trigger] map.handle_of(node)) is None,
    {
        NodeIndexMap { obstacles: Vec::new(), waters: Vec::new(), arbitrary: Vec::new() }
    }

    /// The handle kept for `node`, if any.
    pub fn get(&self, node: &NodeData) -> (r: Option<usize>)
        ensures
            r == self.handle_of(*node),
    {
        match node {
            NodeData::PartOfObstacle(mpi) => lookup(&self.obstacles, mpi),
            NodeData::PartOfWater(mpi) => lookup(&self.waters, mpi),
            NodeData::Arbitrary(k) => if *k < self.arbitrary.len() {
                self.arbitrary[*k]
            } else {
                None
            },
        }
    }

    /// Keeps `handle` for `node`, in place of any handle kept for it before.
    /// No other node's handle changes.
    pub fn insert(&mut self, node: NodeData, handle: usize)
        ensures
            forall|other: NodeData| #[trigger]
                final(self).handle_of(other) == if other == node {
                    Some(handle)
                } else {
                    old(self).handle_of(other)
                },
    {
        match node {
            NodeData::PartOfObstacle(mpi) => {
                record(&mut self.obstacles, mpi, handle);
            },
            NodeData::PartOfWater(mpi) => {
                record(&mut self.waters, mpi, handle);
            },
            NodeData::Arbitrary(k) => {
                while self.arbitrary.len() <= k
                    invariant
                        self.obstacles == old(self).obstacles,
                        self.waters == old(self).waters,
                        forall|other: NodeData| #[trigger]
                            self.handle_of(other) == old(self).handle_of(other),
                    decreases k + 1 - self.arbitrary@.len(),
                {
                    let ghost before = *self;
                    self.arbitrary.push(None);
                    proof {
                        assert forall|other: NodeData| #[trigger]
                            self.handle_of(other) == before.handle_of(other) by {
                            match other {
                                NodeData::Arbitrary(j) => {
                                    if j < before.arbitrary@.len() {
                                        assert(self.arbitrary@[j as int] == before.arbitrary@[j as int]);
                                    }
                                },
                                _ => {},
                            }
                        }
                    }
                }
                let ghost before = *self;
                self.arbitrary[k] = Some(handle);
                proof {
                    assert forall|other: NodeData| #[trigger]
                        self.handle_of(other) == if other == node {
                            Some(handle)
                        } else {
                            before.handle_of(other)
                        } by {
                        match other {
                            NodeData::Arbitrary(j) => {
                                if j < before.arbitrary@.len() && j != k {
                                    assert(self.arbitrary@[j as int] == before.arbitrary@[j as int]);
                                }
                            },
                            _ => {},
                        }
                    }
                }
            },
        }
    }
}

/// A map that matches the nodes of a graph, after a node the graph did not
/// have was added and its handle kept, matches the nodes again.
pub proof fn lemma_matches_extended(
    before: NodeIndexMap,
    after: NodeIndexMap,
    nodes: Seq<NodeData>,
    node: NodeData,
)
    requires
        before.matches(nodes),
        !nodes.contains(node),
        nodes.len() < usize::MAX,
        forall|other: NodeData| #[trigger]
            after.handle_of(other) == if other == node {
                Some(nodes.len() as usize)
            } else {
                before.handle_of(other)
            },
    ensures
        after.matches(nodes.push(node)),
{
    reveal(NodeIndexMap::matches);
    let longer = nodes.push(node);
    assert forall|i: int| 0 <= i < longer.len() implies after.handle_of(#[trigger] longer[i]) == Some(
        i as usize,
    ) by {
        if i < nodes.len() {
            assert(nodes.contains(nodes[i]));
            assert(before.handle_of(nodes[i]) == Some(i as usize));
        }
    }
    assert forall|other: NodeData| (#[trigger] after.handle_of(other)) is Some implies after.handle_of(
        other,
    )->0 < longer.len() && longer[after.handle_of(other)->0 as int] == other by {
        if other != node {
            assert(before.handle_of(other) is Some);
        }
    }
}

/// A map without handles matches the graph without nodes.
pub proof fn lemma_matches_nothing(map: NodeIndexMap)
    requires
        forall|node: NodeData| (#[trigger] map.handle_of(node)) is None,
    ensures
        map.matches(Seq::empty()),
{
    reveal(NodeIndexMap::matches);
}

/// What a matching map answers: the position of a node of the graph, and
/// nothing for any other node.
pub proof fn lemma_matches_found(map: NodeIndexMap, nodes: Seq<NodeData>, node: NodeData)
    requires
        map.matches(nodes),
    ensures
        match map.handle_of(node) {
            Some(i) => i < nodes.len() && nodes[i as int] == node,
            None => !nodes.contains(node),
        },
{
    reveal(NodeIndexMap::matches);
    if map.handle_of(node) is None && nodes.contains(node) {
        let i = choose|i: int| 0 <= i < nodes.len() && nodes[i] == node;
        assert(map.handle_of(nodes[i]) == Some(i as usize));
    }
}

} // verus!
