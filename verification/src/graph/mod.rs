//! The local trail graph: junctions, the stretches between them, and what can be
//! reached over them.
pub mod laws;
pub mod reach;
pub mod route;
pub mod shape;

pub use reach::Reach;
pub use route::{edge_geometry, route, Route};
pub use shape::{Climb, CostMs, Edge, EdgePos, Graph};
