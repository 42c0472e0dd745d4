use vstd::prelude::*;

use crate::queue::QueueId;

verus! {

/// Lifecycle of a fence.  A fence is bound to at most one pending epoch at a
/// time and is reused only after an explicit reset.
#[derive(Clone, Copy, Debug, PartialEq, Eq, Structural)]
pub enum FenceState {
    /// Unsignaled and bound to nothing.
    Reset,
    /// Bound to the epoch that will be satisfied when the device signals it.
    Armed { queue: QueueId, epoch: u64 },
    /// Signaled by the device (or created signaled); its epoch, if any, has
    /// been folded into the ledger.
    Signaled,
}

/// A synchronization primitive signaled by the device when the submitted
/// work it was handed with completes.
#[derive(Clone, Copy, Debug, PartialEq, Eq, Structural)]
pub struct Fence {
    pub state: FenceState,
}

/// Policy for waiting on a set of fences: succeed when any member signals,
/// or only when all do.
#[derive(Clone, Copy, Debug, PartialEq, Eq, Structural)]
pub enum WaitFor {
    Any,
    All,
}

impl Fence {
    /// A fresh fence, optionally created in the signaled state.
    pub fn new(signaled: bool) -> (f: Fence)
        ensures
            f.state == if signaled {
                FenceState::Signaled
            } else {
                FenceState::Reset
            },
    {
        Fence { state: if signaled {
                FenceState::Signaled
            } else {
                FenceState::Reset
            } }
    }

    /// Whether the fence has been observed signaled.
    pub fn is_signaled(&self) -> (r: bool)
        ensures
            r == (self.state == FenceState::Signaled),
    {
        matches!(self.state, FenceState::Signaled)
    }

    /// Make a signaled fence reusable.  Resetting a fence that might still
    /// be pending on the device would lose its completion signal, so only a
    /// signaled fence may be reset.
    pub fn reset(&mut self)
        requires
            old(self).state == FenceState::Signaled,
        ensures
            final(self).state == FenceState::Reset,
    {
        self.state = FenceState::Reset;
    }
}

} // verus!
