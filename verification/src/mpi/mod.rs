//! Multi-polygon indices: references to ring vertices by position.

mod concave_convex;
mod intersection;
mod iter;
mod mpi;
mod neighbors;

pub use concave_convex::{is_locally_concave, is_locally_concave_spec};
pub use intersection::{enters_polygon_locally, intersects_polygon_locally};
pub use iter::{
    all_mpis, lemma_all_mpis, polygon_mpis, ring_mpis, strictly_ascending, MpiCoordsIterable, MpiIter,
};
pub use mpi::Mpi;
pub use neighbors::{lemma_neighbors_valid, Neighbors, NeighborsGetter};
