//! Identifiers of nodes, groups and pins.
use vstd::prelude::*;

verus! {

/// Node identifier.
///
/// This is newtype wrapper around [`usize`] that implements
/// necessary traits, but omits arithmetic operations.
#[derive(Clone, Copy, Debug, PartialEq, Eq, PartialOrd, Ord, Hash, Structural)]
pub struct NodeId(pub usize);

/// Group identifier.
///
/// This is newtype wrapper around [`usize`] that implements
/// necessary traits, but omits arithmetic operations.
#[derive(Clone, Copy, Debug, PartialEq, Eq, PartialOrd, Ord, Hash, Structural)]
pub struct GroupId(pub usize);

/// Output pin identifier.
/// Consists of node id and pin index.
#[derive(Clone, Copy, Debug, PartialEq, Eq, PartialOrd, Ord, Hash, Structural)]
pub struct OutPinId {
    /// Node id.
    pub node: NodeId,
    /// Output pin index.
    pub output: usize,
}

/// Input pin identifier. Consists of node id and pin index.
#[derive(Clone, Copy, Debug, PartialEq, Eq, PartialOrd, Ord, Hash, Structural)]
pub struct InPinId {
    /// Node id.
    pub node: NodeId,
    /// Input pin index.
    pub input: usize,
}

} // verus!
