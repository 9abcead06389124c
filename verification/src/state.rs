//! The orders that the panel sends to the actor that owns the kernel maps.
use vstd::prelude::*;

use crate::policy::Policy;

verus! {

/// An order from the panel to the actor.
#[derive(Debug)]
pub enum Command {
    /// Block an IP or CIDR block, as written.
    AddBlock(String),
    /// Unblock an IP or CIDR block, as written.
    RemoveBlock(String),
    /// Switch enforcement on (enforce) or off (monitor).
    SetEnforce(bool),
    /// Replace the whole policy.
    ReplacePolicy(Policy),
    /// Stop the agent.
    Shutdown,
}

} // verus!
