//! Failures that the library reports to its caller.
//!
//! A failed I/O operation is not among them: it travels in band, as a
//! negative result inside a completion record.

use vstd::prelude::*;

verus! {

/// Why a call was refused. A refused call changes nothing.
#[derive(Clone, Copy, Debug, PartialEq, Eq, Structural)]
pub enum Error {
    /// The kernel did not provide a ring of the requested depth.
    ResourceExhausted,
    /// The submission queue already holds as many entries as its depth.
    QueueFull,
    /// The kernel refused a flush of the submission queue; `code` is the
    /// platform error code it gave.
    SubmitFailed { code: i32 },
    /// A ring was requested with a depth of zero.
    InvalidDepth,
    /// A path holds a zero byte and cannot be null-terminated.
    InvalidPath,
    /// A memory region is too short for what must be written into it.
    RegionTooSmall,
    /// A memory region is longer than one operation can transfer.
    RegionTooLarge,
    /// A vectored read names more blocks than one operation can carry.
    TooManyBlocks,
    /// The tracker has issued every handle it can issue.
    HandlesExhausted,
    /// The handle names no live allocation: it was never issued, or the
    /// allocation was already freed.
    UnknownAllocation,
    /// The handle names an allocation of the other kind.
    WrongKind,
    /// The allocation is still referenced by an operation whose completion
    /// has not been harvested.
    StillInFlight,
    /// The length given does not match the block.
    LengthMismatch,
}

} // verus!
