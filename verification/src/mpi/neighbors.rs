use super::mpi::Mpi;
use crate::geometry::MultiPolygon;
use vstd::prelude::*;

verus! {

/// Left and right neighbors of a multi-polygon index, as if looking out from
/// within. Left neighbor has ring index +1, right neighbor has ring index -1.
#[derive(Debug, Clone, Copy, PartialEq, Eq, Structural)]
pub struct Neighbors {
    pub left: Mpi,
    pub right: Mpi,
}

impl Neighbors {
    pub fn new(left: Mpi, right: Mpi) -> (n: Neighbors)
        ensures
            n.left == left,
            n.right == right,
    {
        Neighbors { left, right }
    }

    /// The two neighbors, left first.
    pub fn into(self) -> (pair: [Mpi; 2])
        ensures
            pair@ == seq![self.left, self.right],
    {
        let pair = [self.left, self.right];
        assert(pair@ =~= seq![self.left, self.right]);
        pair
    }
}

impl Mpi {
    /// The next vertex along the ring, wrapping from the last vertex to the
    /// first.
    pub open spec fn left_in(self, mp: MultiPolygon) -> Mpi {
        Mpi {
            polygon_index: self.polygon_index,
            ring_index: self.ring_index,
            coord_index: ((self.coord_index + 1) % (self.ring_in(mp).len() - 1)) as usize,
        }
    }

    /// The previous vertex along the ring, wrapping from the first vertex to
    /// the last.
    pub open spec fn right_in(self, mp: MultiPolygon) -> Mpi {
        Mpi {
            polygon_index: self.polygon_index,
            ring_index: self.ring_index,
            coord_index: ((self.coord_index - 1) % (self.ring_in(mp).len() - 1)) as usize,
        }
    }
}

/// What has a left and a right neighbor on its ring.
pub trait NeighborsGetter: Sized {
    spec fn neighbors_spec(&self, multi_poly: &MultiPolygon) -> Neighbors;

    spec fn has_neighbors(&self, multi_poly: &MultiPolygon) -> bool;

    /// Return the neighbors of this multi-polygon index.
    fn neighbors(&self, multi_poly: &MultiPolygon) -> (n: Neighbors)
        requires
            self.has_neighbors(multi_poly),
        ensures
            n == self.neighbors_spec(multi_poly),
    ;
}

impl NeighborsGetter for Mpi {
    open spec fn neighbors_spec(&self, multi_poly: &MultiPolygon) -> Neighbors {
        Neighbors { left: self.left_in(*multi_poly), right: self.right_in(*multi_poly) }
    }

    open spec fn has_neighbors(&self, multi_poly: &MultiPolygon) -> bool {
        self.valid_for(*multi_poly)
    }

    fn neighbors(&self, multi_poly: &MultiPolygon) -> (n: Neighbors) {
        let ring = multi_poly.ring_at(self.polygon_index, self.ring_index);

        // Ignore the last coordinate of the ring (- 1), as it is the same as
        // the first one.
        let nbro_coords: usize = ring.len() - 1;

        // Exterior rings wind counter-clockwise, interior rings clockwise.
        // As such, the left neighbor has a larger index, the right one a
        // smaller, both for outer and inner rings.
        let left_index: usize = if self.coord_index + 1 == nbro_coords {
            0
        } else {
            self.coord_index + 1
        };
        let right_index: usize = if self.coord_index == 0 {
            nbro_coords - 1
        } else {
            self.coord_index - 1
        };
        proof {
            let m = nbro_coords as int;
            let c = self.coord_index as int;
            if c + 1 == m {
                vstd::arithmetic::div_mod::lemma_fundamental_div_mod_converse(c + 1, m, 1, 0);
            } else {
                vstd::arithmetic::div_mod::lemma_fundamental_div_mod_converse(c + 1, m, 0, c + 1);
            }
            if c == 0 {
                vstd::arithmetic::div_mod::lemma_fundamental_div_mod_converse(c - 1, m, -1, m - 1);
            } else {
                vstd::arithmetic::div_mod::lemma_fundamental_div_mod_converse(c - 1, m, 0, c - 1);
            }
        }
        Neighbors::new(
            Mpi {
                polygon_index: self.polygon_index,
                ring_index: self.ring_index,
                coord_index: left_index,
            },
            Mpi {
                polygon_index: self.polygon_index,
                ring_index: self.ring_index,
                coord_index: right_index,
            },
        )
    }
}

/// Both neighbors of a vertex are vertices of the same ring.
pub proof fn lemma_neighbors_valid(mpi: Mpi, mp: MultiPolygon)
    requires
        mpi.valid_for(mp),
    ensures
        mpi.left_in(mp).valid_for(mp),
        mpi.right_in(mp).valid_for(mp),
{
    let m = mpi.ring_in(mp).len() - 1;
    let c = mpi.coord_index as int;
    assert(0 <= (c + 1) % m < m);
    assert(0 <= (c - 1) % m < m);
}

} // verus!
