//! Energy-bounded path planning across a plane of polygonal obstacles and
//! recharge regions: visibility graph construction, bounded A* search, and a
//! greedy multi-leg recharge planner.
//!
//! All geometry is exact. Coordinates are whole working units, centimetres
//! of a planar metric reference system, and every decision that depends on an
//! orientation, an angle or a comparison of distances is taken in integer
//! arithmetic wide enough not to overflow. Lengths are whole units too: the
//! length of an edge is the distance of its ends rounded up, the estimate that
//! guides a search the straight distance rounded down, so that the estimate
//! never exceeds what a path can cost.
//!
//! - [`geometry`], [`intersection`], [`coord_ext`]: points, segments, rings
//!   and polygons, and the predicates on them.
//! - [`mpi`]: vertices of a multi-polygon named by position, with their ring
//!   neighbors.
//! - [`winding`]: rings put into the standard winding order.
//! - [`nav_graph`]: features, the visibility graph over them, shortest paths,
//!   and the recharge planner.
//! - [`line_string_ratio`], [`modulo`]: the point a given way along a line
//!   string, and the remainder that is never negative.

pub mod coord_ext;
pub mod geometry;
pub mod intersection;
pub mod line_string_ratio;
pub mod modulo;
pub mod mpi;
pub mod nav_graph;
pub mod winding;
