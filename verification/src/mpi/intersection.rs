use super::mpi::Mpi;
use super::neighbors::{lemma_neighbors_valid, NeighborsGetter};
use crate::coord_ext::{angle_between_points, angle_is_between, angle_is_between_spec, AngleTo};
use crate::geometry::{Coordinate, MultiPolygon};
use vstd::prelude::*;

verus! {

/// The direction from the vertex `mpi` towards `ray_to` leaves the
/// counter-clockwise arc that runs from the direction of the right neighbor
/// to the direction of the left neighbor: it points into the polygon.
pub open spec fn enters_polygon_locally(mpi: Mpi, ray_to: Coordinate, multi_polygon: MultiPolygon) -> bool {
    let coord = mpi.coord_in(multi_polygon);
    let left_angle = angle_between_points(coord, mpi.left_in(multi_polygon).coord_in(multi_polygon));
    let right_angle = angle_between_points(
        coord,
        mpi.right_in(multi_polygon).coord_in(multi_polygon),
    );
    !angle_is_between_spec(angle_between_points(coord, ray_to), right_angle, left_angle)
}

/// Whether a ray from the vertex `mpi` towards `ray_to` enters the polygon
/// right at the vertex.
pub fn intersects_polygon_locally(mpi: &Mpi, ray_to: Coordinate, multi_polygon: &MultiPolygon) -> (r: bool)
    requires
        mpi.valid_for(*multi_polygon),
    ensures
        r == enters_polygon_locally(*mpi, ray_to, *multi_polygon),
{
    proof {
        lemma_neighbors_valid(*mpi, *multi_polygon);
    }
    let coord = multi_polygon.index(mpi);
    let neighbors = mpi.neighbors(multi_polygon);
    let left_angle = coord.angle_to(&multi_polygon.index(&neighbors.left));
    let right_angle = coord.angle_to(&multi_polygon.index(&neighbors.right));
    let w_p_angle = coord.angle_to(&ray_to);
    return !angle_is_between(w_p_angle, right_angle, left_angle);
}

} // verus!
