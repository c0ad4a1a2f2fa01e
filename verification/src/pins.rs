//! A pin together with the pins wired to it.
use vstd::prelude::*;
use crate::ids::{InPinId, OutPinId};

verus! {

/// Node and its output pin.
#[derive(Clone, Debug)]
pub struct OutPin {
    /// Output pin identifier.
    pub id: OutPinId,
    /// List of input pins connected to this output pin.
    pub remotes: Vec<InPinId>,
}

/// Node and its input pin.
#[derive(Clone, Debug)]
pub struct InPin {
    /// Input pin identifier.
    pub id: InPinId,
    /// List of output pins connected to this input pin.
    pub remotes: Vec<OutPinId>,
}

} // verus!
