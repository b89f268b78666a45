//! What the materializer and an allocator of dual-mapped memory say to each other.
//!
//! The allocator hands out regions with two views, one to write through and one to
//! execute through. The library never touches memory: it tells which calls to make,
//! and with which values.

use vstd::prelude::*;

verus! {

/// The allocator could not allocate or release.
#[derive(Debug, Clone, Copy, PartialEq, Eq, Structural)]
pub struct JitAllocError;

/// The access that a thread has to a region.
#[derive(Debug, Clone, Copy, PartialEq, Eq, Structural)]
pub enum ProtectJitAccess {
    /// The region can be read and written.
    ReadWrite,
    /// The region can be read and executed.
    ReadExecute,
}

} // verus!
