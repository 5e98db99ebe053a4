//! What can go wrong when the set is edited or asked for memory.
use vstd::prelude::*;

verus! {

/// The ways a request on a range set, or on the allocator built on it, fails.
#[derive(Clone, Copy, Debug, PartialEq, Eq, Structural)]
pub enum MemError {
    /// A range whose start lies above its end.
    InvalidRange,
    /// A request for zero bytes.
    ZeroSizeAllocation,
    /// An alignment that is not a power of two.
    NonPowerOfTwoAlignment,
    /// The change needs more entries than the set can hold.
    CapacityExceeded,
    /// An address past the end of the address space.
    Unrepresentable,
    /// The allocator was used before it was given any memory.
    Uninitialized,
    /// No free entry can hold the request.
    OutOfMemory,
}

} // verus!
