use super::mpi::Mpi;
use super::neighbors::{lemma_neighbors_valid, NeighborsGetter};
use crate::coord_ext::{angle_between_points, AngleTo};
use crate::geometry::MultiPolygon;
use vstd::prelude::*;

verus! {

/// The angle towards the right neighbor exceeds the angle towards the left
/// neighbor by more than a half turn, both measured in `[0, full turn)`.
pub open spec fn is_locally_concave_spec(mpi: Mpi, multi_poly: MultiPolygon) -> bool {
    let coord = mpi.coord_in(multi_poly);
    let left_angle = angle_between_points(coord, mpi.left_in(multi_poly).coord_in(multi_poly));
    let right_angle = angle_between_points(coord, mpi.right_in(multi_poly).coord_in(multi_poly));
    left_angle.more_than_half_turn_below(right_angle)
}

/// Whether the ring turns inward at the vertex `mpi`, judged by the angles
/// towards its two neighbors.
pub fn is_locally_concave(mpi: &Mpi, multi_poly: &MultiPolygon) -> (r: bool)
    requires
        mpi.valid_for(*multi_poly),
    ensures
        r == is_locally_concave_spec(*mpi, *multi_poly),
{
    proof {
        lemma_neighbors_valid(*mpi, *multi_poly);
    }
    let coord = multi_poly.index(mpi);
    let neighbors = mpi.neighbors(multi_poly);
    let left_angle = coord.angle_to(&multi_poly.index(&neighbors.left));
    let right_angle = coord.angle_to(&multi_poly.index(&neighbors.right));
    left_angle.is_more_than_half_turn_below(&right_angle)
}

} // verus!
