//! What the mapping operations report when they fail.
use crate::mm::flags::VmFlags;
use crate::platform::page_mgmt::{
    AllocationError, DeallocationError, PermissionUpdateError, RemapError,
};
use core::ops::Range;
use vstd::prelude::*;

verus! {

/// Error for removing mappings
#[derive(Clone, Copy, Debug, PartialEq, Eq, Structural)]
pub enum VmemUnmapError {
    /// arg is not aligned
    UnAligned,
    /// failed to unmap pages
    UnmapError(DeallocationError),
}

/// Error for resetting pages
#[derive(Clone, Copy, Debug, PartialEq, Eq, Structural)]
pub enum VmemResetError {
    /// arg is not aligned
    UnAligned,
    /// provided range contains unallocated pages
    AlreadyUnallocated,
    /// reset file-backed mapping
    FileBacked,
    /// failed to re-create the reset mapping
    Platform(AllocationError),
}

/// Error for marking mappings to be wiped in a forked child
#[derive(Debug, PartialEq, Eq)]
pub enum VmemWipeOnForkError {
    /// arg is not aligned
    UnAligned,
    /// the range contains unmapped pages
    Unmapped(Range<usize>),
    /// the mapping is file-backed or shared, so it cannot be wiped on fork
    NotPrivateAnonymous(Range<usize>),
}

/// Error for marking mappings to be absent from a forked child
#[derive(Debug, PartialEq, Eq)]
pub enum VmemDontForkError {
    /// arg is not aligned
    UnAligned,
    /// the range contains unmapped pages
    Unmapped(Range<usize>),
}

/// Error for resizing a mapping
#[derive(Debug, PartialEq, Eq)]
pub enum VmemResizeError {
    /// no mapping containing the address
    NotExist(usize),
    /// an address exceeds the mapping's range
    InvalidAddr { range: Range<usize>, addr: usize },
    /// the range is already (partially) occupied
    RangeOccupied(Range<usize>),
    /// the range has a pending initialization
    InitializationPending(Range<usize>),
    /// failed to unmap the removed range
    UnmapError(VmemUnmapError),
    /// out of memory
    OutOfMemory,
}

/// Error for moving mappings
#[derive(Clone, Copy, Debug, PartialEq, Eq, Structural)]
pub enum VmemMoveError {
    /// arg is not aligned
    UnAligned,
    /// out of memory
    OutOfMemory,
    /// remap failed
    RemapError(RemapError),
}

/// Error for protecting mappings
#[derive(Debug, PartialEq, Eq)]
pub enum VmemProtectError {
    /// the range is not aligned
    UnAligned(Range<usize>),
    /// the range has no mapping memory
    InvalidRange(Range<usize>),
    /// failed to change permissions
    NoAccess { old: VmFlags, new: VmFlags },
    /// the platform refused the change
    ProtectError(PermissionUpdateError),
    /// failed to materialize a deferred reservation
    DeferredAllocate(AllocationError),
}

/// Error for creating mappings
#[non_exhaustive]
#[derive(Debug, PartialEq, Eq)]
pub enum MappingError {
    /// arg is not aligned
    UnAligned,
    /// not enough memory
    OutOfMemory,
    /// bad file descriptor
    BadFD(i32),
    /// file descriptor does not point to a file
    NotAFile,
    /// file not open for reading
    NotForReading,
    /// I/O error reading file
    Io(i32),
    /// mapping failed
    MapError(AllocationError),
    /// mapping was concurrently removed before its permissions could be finalized
    ConcurrentlyRemoved,
    /// mapping initialization identity space is exhausted
    InitializationIdentityExhausted,
    /// mapping permission finalization failed
    FinalizeProtection(VmemProtectError),
    /// a failure whose cleanup failed as well
    Cleanup { primary: Box<MappingError>, cleanup: VmemUnmapError },
}

/// Error for handling page fault
#[derive(Debug, PartialEq, Eq)]
pub enum PageFaultError {
    /// no access
    AccessError(&'static str),
    /// allocation failed
    AllocationFailed,
    /// given page is part of an already mapped huge page
    HugePage,
}

} // verus!
