//! What the library takes from the platform crates: the parameter block of
//! an extended open, and a few constants of the system interface.
//!
//! Nothing in this module is proved. Each item states what the named outside
//! item gives, and the rest of the library is verified against that.

use vstd::prelude::*;

verus! {

/// Descriptor value that makes a relative path resolve against the current
/// working directory.
pub const CWD_DESCRIPTOR: i32 = -100;

/// Mask that asks an extended stat for every basic field and the birth time.
pub const STAT_ALL_FIELDS: u32 = 0x0fff;

/// Bytes in the platform's extended stat structure.
pub const STAT_BUFFER_SIZE: u64 = 256;

/// Bytes in the parameter block of an extended open.
pub const OPEN_BLOCK_SIZE: u64 = 24;

/// The parameter block of an extended open, `io_uring::types::OpenHow`. The
/// library builds it, keeps it alive and hands out a reference to it; it
/// never looks inside.
#[verifier::external_type_specification]
#[verifier::external_body]
pub struct ExOpenHow(io_uring::types::OpenHow);

/// Builds a parameter block with `io_uring::types::OpenHow::new` and sets its
/// open flags with `OpenHow::flags`; mode and resolve flags stay zero. The
/// block is opaque, so nothing is claimed of the result.
#[verifier::external_body]
pub(crate) fn open_block(flags: u64) -> io_uring::types::OpenHow {
    io_uring::types::OpenHow::new().flags(flags)
}

/// `std::mem::size_of` of `io_uring::types::OpenHow`, a transparent wrapper
/// around the kernel's `open_how`: three 64-bit fields.
#[verifier::external_body]
pub(crate) fn open_block_size() -> (size: u64)
    ensures
        size == OPEN_BLOCK_SIZE,
{
    std::mem::size_of::<io_uring::types::OpenHow>() as u64
}

/// The constant `libc::AT_FDCWD`.
#[verifier::external_body]
pub(crate) fn cwd_descriptor() -> (fd: i32)
    ensures
        fd == CWD_DESCRIPTOR,
{
    libc::AT_FDCWD
}

/// The constant `libc::STATX_ALL`.
#[verifier::external_body]
pub(crate) fn stat_all_fields() -> (mask: u32)
    ensures
        mask == STAT_ALL_FIELDS,
{
    libc::STATX_ALL
}

/// `std::mem::size_of` of `libc::statx`, the structure that the kernel fills
/// for an extended stat.
#[verifier::external_body]
pub(crate) fn stat_buffer_size() -> (size: u64)
    ensures
        size == STAT_BUFFER_SIZE,
{
    std::mem::size_of::<libc::statx>() as u64
}

} // verus!
