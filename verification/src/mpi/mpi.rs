use crate::geometry::{Coordinate, MultiPolygon};
use vstd::prelude::*;

verus! {

/// A multi polygon coordinate index references a point on one of the rings on a
/// particular polygon by index rather than by coordinate.
/// This allows for example to retrieve the point's neighbors.
///
/// Ring `0` is the exterior ring, ring `k >= 1` the hole `k - 1`. The closing
/// coordinate of a ring, which repeats its first, has no index.
#[derive(Debug, Clone, Copy, Default, Eq, PartialEq, Structural, PartialOrd, Ord, Hash)]
pub struct Mpi {
    pub polygon_index: usize,
    pub ring_index: usize,
    pub coord_index: usize,
}

impl Mpi {
    /// The index names a vertex of `mp`.
    pub open spec fn valid_for(self, mp: MultiPolygon) -> bool {
        &&& self.polygon_index < mp.len()
        &&& self.ring_index < mp.polygon(self.polygon_index as int).ring_count()
        &&& self.coord_index + 1 < mp.ring(self.polygon_index as int, self.ring_index as int).len()
    }

    /// The ring of `mp` that the index points into.
    pub open spec fn ring_in(self, mp: MultiPolygon) -> Seq<Coordinate> {
        mp.ring(self.polygon_index as int, self.ring_index as int)
    }

    /// The coordinate of `mp` that the index names.
    pub open spec fn coord_in(self, mp: MultiPolygon) -> Coordinate {
        self.ring_in(mp)[self.coord_index as int]
    }

    /// `self` comes before `other`, or is `other`, when indices are ordered by
    /// polygon, then ring, then vertex.
    pub open spec fn lex_le(self, other: Mpi) -> bool {
        ||| self.polygon_index < other.polygon_index
        ||| (self.polygon_index == other.polygon_index && self.ring_index < other.ring_index)
        ||| (self.polygon_index == other.polygon_index && self.ring_index == other.ring_index
            && self.coord_index <= other.coord_index)
    }

    pub fn new(polygon_index: usize, ring_index: usize, coord_index: usize) -> (mpi: Mpi)
        ensures
            mpi.polygon_index == polygon_index,
            mpi.ring_index == ring_index,
            mpi.coord_index == coord_index,
    {
        Mpi { polygon_index, ring_index, coord_index }
    }

    /// Whether the index names a vertex of `mp`.
    pub fn is_valid_for(&self, mp: &MultiPolygon) -> (r: bool)
        ensures
            r == self.valid_for(*mp),
    {
        if self.polygon_index >= mp.0.len() {
            return false;
        }
        let polygon = &mp.0[self.polygon_index];
        if self.ring_index > polygon.interiors.len() {
            return false;
        }
        let ring = polygon.ring_at(self.ring_index);
        self.coord_index < ring.len() && self.coord_index + 1 < ring.len()
    }
}

impl MultiPolygon {
    /// The coordinate that `index` names.
    pub fn index(&self, index: &Mpi) -> (c: Coordinate)
        requires
            index.valid_for(*self),
        ensures
            c == index.coord_in(*self),
    {
        self.ring_at(index.polygon_index, index.ring_index)[index.coord_index]
    }
}

} // verus!
