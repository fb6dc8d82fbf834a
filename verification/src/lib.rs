//! Mode-aware street-network routing over integer coordinates.

pub mod builder;
pub mod cache;
pub mod graph;
pub mod hierarchy;
pub mod isochrone;
pub mod queue;
pub mod registry;
pub mod router;
pub mod spatial;
pub mod speed;
pub mod text;
