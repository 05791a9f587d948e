//! The operator graph: nodes, the outlets they produce and the inlets they
//! consume.

pub mod fact;
pub mod graph;
pub mod access;
pub mod order;
pub mod map;

pub use fact::Fact;
pub use map::OutletMap;
pub use graph::{Graph, InletId, Model, ModelError, Node, Operator, Outlet, OutletId};
