//! The status of a virtual object.

use vstd::prelude::*;
use crate::identifiers::InvocationId;

verus! {

/// Whether a virtual object is free or held by an invocation. `Unlocked` is
/// the state of every object of which nothing is stored.
#[derive(Clone, Copy, Debug, PartialEq, Eq, Structural)]
pub enum VirtualObjectStatus {
    Locked(InvocationId),
    Unlocked,
}

impl Default for VirtualObjectStatus {
    fn default() -> (status: Self)
        ensures
            status == VirtualObjectStatus::Unlocked,
    {
        VirtualObjectStatus::Unlocked
    }
}

} // verus!
