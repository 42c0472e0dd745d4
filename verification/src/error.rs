use vstd::prelude::*;

verus! {

/// Failure categories surfaced by the resource runtime.
#[derive(Clone, Copy, Debug, PartialEq, Eq, Structural)]
pub enum ResourceError {
    /// No matching heap can satisfy the requested allocation.
    OutOfMemory,
    /// The device was lost; fatal for the owning runtime instance.
    DeviceLost,
    /// The caller violated a documented precondition.
    InvalidUsage,
}

} // verus!
