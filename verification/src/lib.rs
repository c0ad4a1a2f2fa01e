//! A node-graph container: positioned nodes, wires between their pins, and
//! nested groups of nodes.
//!
//! The graph keeps nodes and groups under stable `usize` keys, reusing the
//! most recently freed key first; wires join an output pin to an input pin,
//! each pair at most once; groups nest without cycles.
pub mod arena;
pub mod ids;
pub mod iter;
pub mod laws;
pub mod pins;
pub mod seq_facts;
pub mod snarl;
pub mod wires;

pub use ids::{GroupId, InPinId, NodeId, OutPinId};
pub use iter::{NodeIdsDataIter, NodeInfoIter, NodesIdsIter, NodesIter, NodesPosIdsIter, NodesPosIter};
pub use pins::{InPin, OutPin};
pub use snarl::{Group, Node, Snarl};
