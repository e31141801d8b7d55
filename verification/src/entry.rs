//! The operation encoder: one submission entry per requested operation.
//!
//! An entry describes an operation in plain values. Memory of the caller is
//! named by address and length; storage that the library keeps alive for the
//! operation is named by its handle in the tracker. Whoever hands the entry
//! to the kernel turns these into the kernel's own entry, one for one.

use crate::error::Error;
use crate::platform::{
    cwd_descriptor, stat_all_fields, stat_buffer_size, CWD_DESCRIPTOR, STAT_ALL_FIELDS,
    STAT_BUFFER_SIZE,
};
use vstd::prelude::*;
use vstd::slice::slice_to_vec;

verus! {

/// A contiguous byte buffer that the caller owns. The library neither
/// allocates nor frees it, and never touches it itself: it only passes the
/// bounds on.
#[derive(Clone, Copy, Debug, PartialEq, Eq, Structural)]
pub struct MemoryRegion {
    pub address: u64,
    pub length: u64,
}

/// The raw address that backs a region. Ownership stays with the caller.
pub fn region_address(region: &MemoryRegion) -> (address: u64)
    ensures
        address == region.address,
{
    region.address
}

/// The kinds of operation.
#[derive(Clone, Copy, Debug, PartialEq, Eq, Structural)]
pub enum OpKind {
    Read,
    Write,
    ReadVectored,
    Stat,
    Open,
    Cancel,
}

/// When an entry must reach the kernel.
#[derive(Clone, Copy, Debug, PartialEq, Eq, Structural)]
pub enum SubmitPolicy {
    /// The entry may wait in the queue until the caller submits.
    Deferred,
    /// The queue must be flushed directly after the entry was pushed.
    Immediate,
}

/// The submission policy of each kind of operation. An open must be flushed
/// directly after its push, or the kernel reports an invalid argument; all
/// others may wait.
pub open spec fn policy_of(kind: OpKind) -> SubmitPolicy {
    match kind {
        OpKind::Open => SubmitPolicy::Immediate,
        _ => SubmitPolicy::Deferred,
    }
}

/// Looks `kind` up in the submission policy table.
pub fn submission_policy(kind: OpKind) -> (policy: SubmitPolicy)
    ensures
        policy == policy_of(kind),
{
    match kind {
        OpKind::Read => SubmitPolicy::Deferred,
        OpKind::Write => SubmitPolicy::Deferred,
        OpKind::ReadVectored => SubmitPolicy::Deferred,
        OpKind::Stat => SubmitPolicy::Deferred,
        OpKind::Open => SubmitPolicy::Immediate,
        OpKind::Cancel => SubmitPolicy::Deferred,
    }
}

/// What an entry asks the kernel to do.
#[derive(Clone, Debug, PartialEq, Eq)]
pub enum Operation {
    /// Read up to `length` bytes of `fd` at `offset` into memory at `address`.
    Read { fd: i32, offset: u64, address: u64, length: u32 },
    /// Write `length` bytes from memory at `address` to `fd` at `offset`.
    Write { fd: i32, offset: u64, address: u64, length: u32 },
    /// Read from `fd` into the blocks at the given addresses, each
    /// `block_size` bytes long, in order.
    ReadVectored { fd: i32, blocks: Vec<u64>, block_size: u64 },
    /// Stat the path held by the text allocation with the handle `path`,
    /// relative to `dir_fd`, into memory at `address`; `mask` selects the
    /// fields.
    Stat { dir_fd: i32, path: u64, mask: u32, address: u64 },
    /// Open the path held by the text allocation with the handle `path`,
    /// relative to `dir_fd`, as the parameter block with the handle `block`
    /// says.
    Open { dir_fd: i32, path: u64, block: u64 },
    /// Cancel the operation that was submitted with the tag `target`.
    Cancel { target: u64 },
}

/// One entry of the submission queue.
#[derive(Clone, Debug, PartialEq, Eq)]
pub struct SubmissionEntry {
    /// Correlation tag: the completion of this entry carries it.
    pub tag: u64,
    /// Whether the next entry in the queue must wait for this one.
    pub linked: bool,
    pub operation: Operation,
}

/// The entry of a read into `buffer`.
pub open spec fn read_entry(
    tag: u64,
    fd: i32,
    offset: u64,
    buffer: MemoryRegion,
    linked: bool,
) -> SubmissionEntry {
    SubmissionEntry {
        tag,
        linked,
        operation: Operation::Read {
            fd,
            offset,
            address: buffer.address,
            length: buffer.length as u32,
        },
    }
}

/// The entry of a write from `buffer`.
pub open spec fn write_entry(
    tag: u64,
    fd: i32,
    offset: u64,
    buffer: MemoryRegion,
    linked: bool,
) -> SubmissionEntry {
    SubmissionEntry {
        tag,
        linked,
        operation: Operation::Write {
            fd,
            offset,
            address: buffer.address,
            length: buffer.length as u32,
        },
    }
}

/// Whether `entry` is the vectored read of the given blocks.
pub open spec fn is_read_vectored(
    entry: SubmissionEntry,
    tag: u64,
    fd: i32,
    blocks: Seq<u64>,
    block_size: u64,
    linked: bool,
) -> bool {
    &&& entry.tag == tag
    &&& entry.linked == linked
    &&& entry.operation matches Operation::ReadVectored { fd: f, blocks: b, block_size: s }
    &&& f == fd
    &&& b@ == blocks
    &&& s == block_size
}

/// The entry of a stat of the text `path` into memory at `address`. It asks
/// for every field, resolves the path against the working directory and is
/// never linked.
pub open spec fn stat_entry(tag: u64, path: u64, address: u64) -> SubmissionEntry {
    SubmissionEntry {
        tag,
        linked: false,
        operation: Operation::Stat {
            dir_fd: CWD_DESCRIPTOR,
            path,
            mask: STAT_ALL_FIELDS,
            address,
        },
    }
}

/// The entry of an open of the text `path` with the parameter block `block`.
/// It resolves the path against the working directory and is never linked.
pub open spec fn open_entry(tag: u64, path: u64, block: u64) -> SubmissionEntry {
    SubmissionEntry {
        tag,
        linked: false,
        operation: Operation::Open { dir_fd: CWD_DESCRIPTOR, path, block },
    }
}

/// The entry that cancels the operation tagged `target`. It carries a tag of
/// its own, so that its completion can be told from that of its target, and
/// is never linked.
pub open spec fn cancel_entry(tag: u64, target: u64) -> SubmissionEntry {
    SubmissionEntry { tag, linked: false, operation: Operation::Cancel { target } }
}

/// The tags that a series of entries carry, in order.
pub open spec fn tags_of(entries: Seq<SubmissionEntry>) -> Seq<u64> {
    Seq::new(entries.len(), |i: int| entries[i].tag)
}

/// The kind of an operation.
pub open spec fn kind_of(operation: Operation) -> OpKind {
    match operation {
        Operation::Read { .. } => OpKind::Read,
        Operation::Write { .. } => OpKind::Write,
        Operation::ReadVectored { .. } => OpKind::ReadVectored,
        Operation::Stat { .. } => OpKind::Stat,
        Operation::Open { .. } => OpKind::Open,
        Operation::Cancel { .. } => OpKind::Cancel,
    }
}

impl SubmissionEntry {
    /// The kind of operation that this entry asks for.
    pub fn kind(&self) -> (kind: OpKind)
        ensures
            kind == kind_of(self.operation),
    {
        match &self.operation {
            Operation::Read { .. } => OpKind::Read,
            Operation::Write { .. } => OpKind::Write,
            Operation::ReadVectored { .. } => OpKind::ReadVectored,
            Operation::Stat { .. } => OpKind::Stat,
            Operation::Open { .. } => OpKind::Open,
            Operation::Cancel { .. } => OpKind::Cancel,
        }
    }

    /// Encodes a read of `fd` at `offset` into `buffer`. One operation
    /// transfers at most `u32::MAX` bytes: a longer buffer is refused.
    pub fn read(tag: u64, fd: i32, offset: u64, buffer: MemoryRegion, linked: bool) -> (result:
        Result<SubmissionEntry, Error>)
        ensures
            buffer.length > u32::MAX ==> result == Err::<SubmissionEntry, Error>(
                Error::RegionTooLarge,
            ),
            buffer.length <= u32::MAX ==> result == Ok::<SubmissionEntry, Error>(
                read_entry(tag, fd, offset, buffer, linked),
            ),
    {
        if buffer.length > u32::MAX as u64 {
            return Err(Error::RegionTooLarge);
        }
        Ok(
            SubmissionEntry {
                tag,
                linked,
                operation: Operation::Read {
                    fd,
                    offset,
                    address: buffer.address,
                    length: buffer.length as u32,
                },
            },
        )
    }

    /// Encodes a write of `buffer` to `fd` at `offset`. One operation
    /// transfers at most `u32::MAX` bytes: a longer buffer is refused.
    pub fn write(tag: u64, fd: i32, offset: u64, buffer: MemoryRegion, linked: bool) -> (result:
        Result<SubmissionEntry, Error>)
        ensures
            buffer.length > u32::MAX ==> result == Err::<SubmissionEntry, Error>(
                Error::RegionTooLarge,
            ),
            buffer.length <= u32::MAX ==> result == Ok::<SubmissionEntry, Error>(
                write_entry(tag, fd, offset, buffer, linked),
            ),
    {
        if buffer.length > u32::MAX as u64 {
            return Err(Error::RegionTooLarge);
        }
        Ok(
            SubmissionEntry {
                tag,
                linked,
                operation: Operation::Write {
                    fd,
                    offset,
                    address: buffer.address,
                    length: buffer.length as u32,
                },
            },
        )
    }

    /// Encodes a read of `fd` into the blocks at the given addresses, each
    /// `block_size` bytes long. One operation carries at most `u32::MAX`
    /// blocks: a longer list is refused.
    pub fn read_vectored(
        tag: u64,
        fd: i32,
        blocks: Vec<u64>,
        block_size: u64,
        linked: bool,
    ) -> (result: Result<SubmissionEntry, Error>)
        ensures
            blocks@.len() > u32::MAX ==> result == Err::<SubmissionEntry, Error>(
                Error::TooManyBlocks,
            ),
            blocks@.len() <= u32::MAX ==> result is Ok && is_read_vectored(
                result->Ok_0,
                tag,
                fd,
                blocks@,
                block_size,
                linked,
            ),
    {
        if blocks.len() > u32::MAX as usize {
            return Err(Error::TooManyBlocks);
        }
        Ok(
            SubmissionEntry {
                tag,
                linked,
                operation: Operation::ReadVectored { fd, blocks, block_size },
            },
        )
    }

    /// Encodes a stat of the text with the handle `path` into `buffer`, which
    /// must hold the platform's whole stat structure: a shorter buffer is
    /// refused.
    pub fn stat(tag: u64, path: u64, buffer: MemoryRegion) -> (result: Result<
        SubmissionEntry,
        Error,
    >)
        ensures
            buffer.length < STAT_BUFFER_SIZE ==> result == Err::<SubmissionEntry, Error>(
                Error::RegionTooSmall,
            ),
            buffer.length >= STAT_BUFFER_SIZE ==> result == Ok::<SubmissionEntry, Error>(
                stat_entry(tag, path, buffer.address),
            ),
    {
        if buffer.length < stat_buffer_size() {
            return Err(Error::RegionTooSmall);
        }
        Ok(
            SubmissionEntry {
                tag,
                linked: false,
                operation: Operation::Stat {
                    dir_fd: cwd_descriptor(),
                    path,
                    mask: stat_all_fields(),
                    address: buffer.address,
                },
            },
        )
    }

    /// Encodes an open of the text with the handle `path`, with the parameter
    /// block with the handle `block`.
    pub fn open(tag: u64, path: u64, block: u64) -> (entry: SubmissionEntry)
        ensures
            entry == open_entry(tag, path, block),
    {
        SubmissionEntry {
            tag,
            linked: false,
            operation: Operation::Open { dir_fd: cwd_descriptor(), path, block },
        }
    }

    /// Encodes the cancellation of the operation tagged `target`.
    pub fn cancel(tag: u64, target: u64) -> (entry: SubmissionEntry)
        ensures
            entry == cancel_entry(tag, target),
    {
        SubmissionEntry { tag, linked: false, operation: Operation::Cancel { target } }
    }
}

/// Whether `path` can be null-terminated: it holds no zero byte.
pub open spec fn terminable(path: Seq<u8>) -> bool {
    forall|i: int| 0 <= i < path.len() ==> path[i] != 0
}

/// Converts a path to a null-terminated byte string. A path that holds a zero
/// byte is refused.
pub fn null_terminated(path: &[u8]) -> (result: Result<Vec<u8>, Error>)
    ensures
        !terminable(path@) ==> result == Err::<Vec<u8>, Error>(Error::InvalidPath),
        terminable(path@) ==> result is Ok && result->Ok_0@ == path@.push(0),
{
    let mut i: usize = 0;
    while i < path.len()
        invariant
            i <= path@.len(),
            forall|k: int| 0 <= k < i ==> path@[k] != 0,
        decreases path@.len() - i,
    {
        if path[i] == 0 {
            return Err(Error::InvalidPath);
        }
        i += 1;
    }
    let mut text = slice_to_vec(path);
    text.push(0);
    Ok(text)
}

} // verus!
