//! The visibility graph and the searches that run on it.

pub mod bounded_astar;
pub mod create;
pub mod crossings;
pub mod goals;
pub mod graph_store;
pub mod graph_types;
pub mod node_index;
pub mod paths;
pub mod planning;
pub mod shortest_path;
pub mod visibility;
pub mod visibility_laws;

pub use graph_types::{Edge, FeatureError, Features, NavGraph, NodeData};
pub use visibility::VisibilityOptimizationMode;
pub use create::{add_coord_to_nav_graph, create_nav_graph};
pub use planning::{plan_path_or_recharge, Leg, PlannerError};
pub use shortest_path::{calculate_shortest_path, calculate_shortest_path_between_coords};
