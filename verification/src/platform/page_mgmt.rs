//! Page-management related types and traits
use crate::ids::{BackingGenerationId, FamilyId, TaskInstanceId, VmViewId};
use crate::mm::flags::MemoryRegionPermissions;
use crate::shim::WxFlipOutcome;
use core::ops::Range;
use vstd::prelude::*;

verus! {

use crate::mm::addr::multiple_of;

/// What a platform did for one host-side guest-memory access.
#[derive(Debug)]
pub struct GuestAccessPreparation {
    /// Every page-aligned address promoted into the view's own independent copy, for the caller
    /// to publish into the domain.
    pub promoted: Vec<usize>,
    /// The platform could not bring some page of the range into a state the access may use. The
    /// caller must refuse the access instead of performing it.
    pub refused: bool,
}

impl Default for GuestAccessPreparation {
    fn default() -> (preparation: Self)
        ensures
            preparation.promoted@ == Seq::<usize>::empty(),
            !preparation.refused,
    {
        GuestAccessPreparation { promoted: Vec::new(), refused: false }
    }
}

/// One step of an acquisition or release of the mapping lock, for diagnostics only.
#[derive(Clone, Copy, Debug, PartialEq, Eq, Structural)]
pub enum MappingLockEvent {
    /// A shared acquisition is about to be requested.
    ReadRequest,
    /// The shared acquisition requested last on this thread was granted.
    ReadAcquired,
    /// A shared acquisition is being released.
    ReadReleased,
    /// An exclusive acquisition is about to be requested.
    WriteRequest,
    /// The exclusive acquisition requested last on this thread was granted.
    WriteAcquired,
    /// The exclusive section is about to replay its mapping-table changes into the mirror.
    MirrorReplay,
    /// An exclusive acquisition is being released.
    WriteReleased,
}

/// Behavior when allocating pages at a fixed address.
#[derive(Clone, Copy, Debug, PartialEq, Eq, Structural)]
pub enum FixedAddressBehavior {
    /// The address is just a hint, and the platform may choose a different
    /// address if the hint is not available.
    Hint,
    /// Allocate the pages at the specified address, replacing any existing
    /// mappings.
    Replace,
    /// Allocate the pages at the specified address, failing if any part of the
    /// range is already in use.
    NoReplace,
}

/// Possible errors of a page allocation
#[derive(Clone, Copy, Debug, PartialEq, Eq, Structural)]
#[non_exhaustive]
pub enum AllocationError {
    /// provided range is not page-aligned
    Unaligned,
    /// provided address is below the minimum allowed address
    BelowMinAddress,
    /// provided address is above the maximum allowed address
    AboveMaxAddress,
    /// out of memory
    OutOfMemory,
    /// provided fixed address range is in use
    AddressInUse,
    /// provided fixed address range is in use by the platform
    AddressInUseByPlatform,
    /// provided fixed address range partially overlaps existing mappings
    AddressPartiallyInUse,
}

/// Possible errors of a page deallocation
#[derive(Clone, Copy, Debug, PartialEq, Eq, Structural)]
#[non_exhaustive]
pub enum DeallocationError {
    /// provided range is not page-aligned
    Unaligned,
    /// provided range contains unallocated pages
    AlreadyUnallocated,
}

/// Possible errors of moving pages
#[derive(Clone, Copy, Debug, PartialEq, Eq, Structural)]
#[non_exhaustive]
pub enum RemapError {
    /// at least one of the provided ranges was not page-aligned
    Unaligned,
    /// provided old range contains unallocated pages
    AlreadyUnallocated,
    /// provided ranges were overlapping
    Overlapping,
    /// provided new range is already allocated
    AlreadyAllocated,
    /// out of memory
    OutOfMemory,
}

/// Possible errors of a permission change
#[derive(Clone, Copy, Debug, PartialEq, Eq, Structural)]
#[non_exhaustive]
pub enum PermissionUpdateError {
    /// provided range is not page-aligned
    Unaligned,
    /// provided range contains unallocated pages
    Unallocated,
}

/// Failure while synchronizing a canonical shared backing with file-descriptor I/O.
#[derive(Clone, Copy, Debug, PartialEq, Eq, Structural)]
pub enum SharedPageIoError {
    /// shared backing range overflow
    OutOfRange,
    /// host shared backing I/O failed
    Io,
}

/// Why a private backing is captured.
#[derive(Clone, Copy, Debug, PartialEq, Eq, Structural)]
pub enum CaptureMode {
    /// A forked address space is about to diverge from this run.
    ForkClone,
    /// A second reference to the same run, no fork involved.
    Retain,
}

/// A handle to a private memory run's backing bytes.
pub enum PrivateBackingLease {
    /// An owned copy of the captured range's bytes.
    ByteSnapshot(Vec<u8>),
}

impl PrivateBackingLease {
    /// The captured bytes.
    pub open spec fn bytes(&self) -> Seq<u8> {
        match self {
            PrivateBackingLease::ByteSnapshot(bytes) => bytes@,
        }
    }

    /// The byte length this lease will occupy once restored.
    pub fn len(&self) -> (length: usize)
        ensures
            length == self.bytes().len(),
    {
        match self {
            PrivateBackingLease::ByteSnapshot(bytes) => bytes.len(),
        }
    }

    /// Whether this lease is empty (zero-length).
    pub fn is_empty(&self) -> (empty: bool)
        ensures
            empty == (self.bytes().len() == 0),
    {
        self.len() == 0
    }
}

impl Clone for PrivateBackingLease {
    fn clone(&self) -> (copy: Self)
        ensures
            copy.bytes() == self.bytes(),
    {
        match self {
            PrivateBackingLease::ByteSnapshot(bytes) => PrivateBackingLease::ByteSnapshot(bytes.clone()),
        }
    }
}

/// One captured private-backing run.
pub struct CapturedBackingRun {
    /// The address range this run was captured from.
    pub range: Range<usize>,
    /// This run's own captured-generation identity.
    pub generation: BackingGenerationId,
    /// The lease that can later restore this run's bytes, at the same or a different address.
    pub lease: PrivateBackingLease,
}

/// Possible errors of a backing capture
#[derive(Clone, Copy, Debug, PartialEq, Eq, Structural)]
#[non_exhaustive]
pub enum CaptureBackingError {
    /// provided range is empty
    Unaligned,
    /// provided range's bytes could not be read (unallocated, or not privately backed)
    NotCapturable,
}

/// Possible errors of a backing restore
#[derive(Clone, Copy, Debug, PartialEq, Eq, Structural)]
#[non_exhaustive]
pub enum RestoreBackingError {
    /// the lease's captured length does not match the requested destination
    LengthMismatch,
    /// the destination range is already in use
    AddressInUse,
}

/// Possible errors of retaining a backing
#[derive(Clone, Copy, Debug, PartialEq, Eq, Structural)]
#[non_exhaustive]
pub enum RetainBackingError {
    /// the platform's own backing registry refused this retain
    Refused,
}

/// Possible errors of a copy-on-write allocation
#[derive(Clone, Copy, Debug, PartialEq, Eq, Structural)]
pub enum CowAllocationError {
    /// copy-on-write page allocation is not supported for this particular platform
    UnsupportedByPlatform,
    /// source region is not copy-on-writable
    UnsupportedSourceRegion,
    /// unaligned request
    Unaligned,
    /// internal failure in creating CoW pages
    InternalFailure,
}

/// What an allocation answer may say: on success the start of a region of the asked length,
/// aligned, inside the task address range, and at the asked address unless that was only a hint;
/// an error about the range itself only where the range has that fault.
pub open spec fn allocation_answer(
    task: (int, int),
    align: int,
    suggested: Range<usize>,
    behavior: FixedAddressBehavior,
    answer: Result<usize, AllocationError>,
) -> bool {
    match answer {
        Ok(start) => {
            &&& multiple_of(start as int, align)
            &&& task.0 <= start
            &&& start + (suggested.end - suggested.start) <= task.1
            &&& behavior != FixedAddressBehavior::Hint ==> start == suggested.start
        },
        Err(AllocationError::Unaligned) => !multiple_of(suggested.start as int, align)
            || !multiple_of(suggested.end as int, align),
        Err(AllocationError::BelowMinAddress) => suggested.start < task.0,
        Err(AllocationError::AboveMaxAddress) => suggested.end > task.1,
        Err(_) => true,
    }
}

/// How many pages there are from one page to another, both taken in.
pub open spec fn page_count(first: int, last: int, align: int) -> int {
    if last < first {
        0
    } else {
        (last - first) / align + 1
    }
}

/// The next page after `passed` of them is one of those that are counted exactly if it does not lie
/// past the last.
proof fn lemma_page_count(first: int, last: int, align: int, passed: int)
    requires
        passed >= 0,
    ensures
        (passed + 1) * align == passed * align + align,
        align > 0 ==> (first + passed * align <= last <==> passed < page_count(first, last, align)),
        align > 0 ==> (first + (passed + 1) * align <= last <==> passed + 1 < page_count(
            first,
            last,
            align,
        )),
{
    assert((passed + 1) * align == passed * align + align) by (nonlinear_arith);
    if align > 0 {
        let room = last - first;
        vstd::arithmetic::div_mod::lemma_fundamental_div_mod(room, align);
        let pages = room / align;
        assert(passed * align <= room <==> passed <= pages) by (nonlinear_arith)
            requires
                align > 0,
                room == align * pages + room % align,
                0 <= room % align < align,
        ;
        assert((passed + 1) * align <= room <==> passed + 1 <= pages) by (nonlinear_arith)
            requires
                align > 0,
                room == align * pages + room % align,
                0 <= room % align < align,
        ;
        if room < 0 {
            assert(passed * align >= 0 && (passed + 1) * align >= 0) by (nonlinear_arith)
                requires
                    passed >= 0,
                    align > 0,
            ;
        }
    }
}

/// A provider for managing memory pages
pub trait PageManagementProvider<const ALIGN: usize>: Sized {
    /// The lower bound (inclusive) for virtual addresses that can be allocated for task memory.
    ///
    /// Note it must be aligned to `ALIGN`.
    const TASK_ADDR_MIN: usize;

    /// The upper bound (exclusive) for virtual addresses that can be allocated for task memory.
    ///
    /// Note it must be aligned to `ALIGN`.
    const TASK_ADDR_MAX: usize;

    /// Allocates new memory pages at the specified `suggested_range` with the given
    /// `initial_permissions`; answers with the start of the allocated region.
    fn allocate_pages(
        &self,
        suggested_range: Range<usize>,
        initial_permissions: MemoryRegionPermissions,
        can_grow_down: bool,
        populate_pages_immediately: bool,
        fixed_address_behavior: FixedAddressBehavior,
    ) -> (answer: Result<usize, AllocationError>)
        ensures
            allocation_answer(
                (Self::TASK_ADDR_MIN as int, Self::TASK_ADDR_MAX as int),
                ALIGN as int,
                suggested_range,
                fixed_address_behavior,
                answer,
            ),
    ;

    /// Allocates an alias of a stable shared backing object.
    fn allocate_shared_pages(
        &self,
        backing_identity: usize,
        backing_offset: usize,
        suggested_range: Range<usize>,
        initial_permissions: MemoryRegionPermissions,
        can_grow_down: bool,
        populate_pages_immediately: bool,
        fixed_address_behavior: FixedAddressBehavior,
    ) -> (answer: Result<usize, AllocationError>)
        ensures
            allocation_answer(
                (Self::TASK_ADDR_MIN as int, Self::TASK_ADDR_MAX as int),
                ALIGN as int,
                suggested_range,
                fixed_address_behavior,
                answer,
            ),
        default_ensures
            call_ensures(
                Self::allocate_pages,
                (
                    self,
                    suggested_range,
                    initial_permissions,
                    can_grow_down,
                    populate_pages_immediately,
                    fixed_address_behavior,
                ),
                answer,
            ),
    {
        self.allocate_pages(
            suggested_range,
            initial_permissions,
            can_grow_down,
            populate_pages_immediately,
            fixed_address_behavior,
        )
    }

    /// De-allocates all pages in the given `range`.
    fn deallocate_pages(&self, range: Range<usize>) -> (answer: Result<(), DeallocationError>);

    /// Moves pages from `old_range` to `new_range`; answers with the start of the new region. A
    /// platform that cannot move pages copies them: see
    /// [`remap_by_copy`](crate::platform::backing::remap_by_copy).
    fn remap_pages(
        &self,
        old_range: Range<usize>,
        new_range: Range<usize>,
        permissions: MemoryRegionPermissions,
    ) -> (answer: Result<usize, RemapError>);

    /// Moves a stable shared backing alias while preserving its backing offset.
    fn remap_shared_pages(
        &self,
        backing_identity: usize,
        backing_offset: usize,
        old_range: Range<usize>,
        new_range: Range<usize>,
        permissions: MemoryRegionPermissions,
    ) -> (answer: Result<usize, RemapError>)
        default_ensures
            call_ensures(Self::remap_pages, (self, old_range, new_range, permissions), answer),
    {
        self.remap_pages(old_range, new_range, permissions)
    }

    /// Whether one [`Self::update_permissions`] call may span adjacent tracked
    /// mappings while retaining all-or-fail semantics.
    fn has_transactional_permission_updates(&self) -> (yes: bool)
        default_ensures
            !yes,
    {
        false
    }

    /// Update the permissions on pages in `range` to `new_permissions`.
    fn update_permissions(
        &self,
        range: Range<usize>,
        new_permissions: MemoryRegionPermissions,
    ) -> (answer: Result<(), PermissionUpdateError>);

    /// Return reserved pages that are not available for allocation.
    ///
    /// Note that the returned ranges should be `ALIGN`-aligned.
    fn reserved_pages(&self) -> (ranges: Vec<Range<usize>>);

    /// Reads guest memory. `None` if some byte of it cannot be read.
    fn read_guest_bytes(&self, address: usize, length: usize) -> (bytes: Option<Vec<u8>>)
        ensures
            bytes matches Some(read) ==> read@.len() == length,
    ;

    /// Writes guest memory. `false` if some byte of it cannot be written.
    fn write_guest_bytes(&self, address: usize, bytes: &Vec<u8>) -> (written: bool);

    /// Overlays bytes currently held by a canonical shared backing onto `data`. Bytes for which
    /// there is no initialized canonical storage are left unchanged.
    fn read_shared_pages(&self, _backing_identity: usize, _backing_offset: usize, _data: &mut Vec<u8>) -> (answer:
        Result<(), SharedPageIoError>)
        default_ensures
            answer == Ok::<(), SharedPageIoError>(()),
            *final(_data) == *old(_data),
    {
        Ok(())
    }

    /// Propagates a file write into any canonical shared backing storage that already exists.
    fn write_shared_pages(&self, _backing_identity: usize, _backing_offset: usize, _data: &Vec<u8>) -> (answer:
        Result<(), SharedPageIoError>)
        default_ensures
            answer == Ok::<(), SharedPageIoError>(()),
    {
        Ok(())
    }

    /// Zeroes any canonical shared storage intersecting `backing_range` after file truncation.
    fn zero_shared_pages(&self, _backing_identity: usize, _backing_range: Range<usize>) -> (answer: Result<
        (),
        SharedPageIoError,
    >)
        default_ensures
            answer == Ok::<(), SharedPageIoError>(()),
    {
        Ok(())
    }

    /// Releases the caller's pin on a stable shared backing object. Pages that a live mapping
    /// still covers survive; releasing an identity that is not pinned is no error.
    fn forget_shared_backing(&self, _backing_identity: usize) -> (answer: Result<(), SharedPageIoError>)
        default_ensures
            answer == Ok::<(), SharedPageIoError>(()),
    {
        Ok(())
    }

    /// Attempts to allocate pages with copy-on-write semantics backed by existing data.
    fn try_allocate_cow_pages(
        &self,
        _suggested_start: usize,
        _source_data: &Vec<u8>,
        _permissions: MemoryRegionPermissions,
        _fixed_address_behavior: FixedAddressBehavior,
    ) -> (answer: Result<usize, CowAllocationError>)
        default_ensures
            answer == Err::<usize, CowAllocationError>(CowAllocationError::UnsupportedByPlatform),
    {
        Err(CowAllocationError::UnsupportedByPlatform)
    }

    /// Captures the backing bytes of a private memory run into a lease. A platform without a
    /// scheme of its own takes an owned copy: see
    /// [`snapshot_bytes`](crate::platform::backing::snapshot_bytes).
    fn capture_private_backing(&self, range: Range<usize>, mode: CaptureMode) -> (answer: Result<
        PrivateBackingLease,
        CaptureBackingError,
    >);

    /// Writes a captured lease to an address that is already mapped writable, consuming it. A
    /// platform without a scheme of its own writes the owned copy: see
    /// [`write_snapshot`](crate::platform::backing::write_snapshot).
    fn restore_private_backing(&self, lease: PrivateBackingLease, gva: usize) -> (answer: Result<
        (),
        RestoreBackingError,
    >);

    /// Retains a second, independent reference to a captured lease. An owned copy is duplicated, which
    /// cannot fail.
    fn retain_private_backing(&self, lease: &PrivateBackingLease) -> (answer: Result<
        PrivateBackingLease,
        RetainBackingError,
    >)
        default_ensures
            answer matches Ok(copy) && copy.bytes() == lease.bytes(),
    {
        Ok(lease.clone())
    }

    /// Toggles this thread's write access to code pages whose writability is gated per thread.
    fn jit_write_protect(&self, _executable: bool) {
    }

    /// Whether a view has its own independent host address space, distinct from every other
    /// view's.
    fn has_independent_view_space(_view: VmViewId) -> (yes: bool)
        default_ensures
            !yes,
    {
        false
    }

    /// Gives a view pages of its own over a range, with these permissions. `holders` names, in
    /// address order, the views whose content the parts of the range are inherited from; where it
    /// names none the pages are fresh.
    fn materialize_inherited_range(
        _view: VmViewId,
        _range: Range<usize>,
        _permissions: MemoryRegionPermissions,
        _holders: &Vec<(Range<usize>, VmViewId)>,
    ) -> (answer: Result<(), PermissionUpdateError>)
        default_ensures
            answer == Err::<(), PermissionUpdateError>(PermissionUpdateError::Unallocated),
    {
        Err(PermissionUpdateError::Unallocated)
    }

    /// Releases a view's own host address space, once the view is gone from its domain.
    fn release_view_space(_view: VmViewId, _family: Option<FamilyId>) {
    }

    /// Gives a forked child its own copy of a range at once, before it runs beside its ancestor.
    fn eagerly_diverge_fork_child_range(_child_view: VmViewId, _ancestor_view: VmViewId, _range: Range<usize>) {
    }

    /// Write-protects a forking ancestor's own pages of a range, so that its next write to them
    /// diverges.
    fn fork_time_ancestor_protect(_child_view: VmViewId, _ancestor_view: VmViewId, _range: Range<usize>) {
    }

    /// Drops a view's file windows when it replaces its image.
    fn exec_sever_file_windows(_view: VmViewId, _keep_for_descendant: bool) {
    }

    /// Where a host access to a page under a view is redirected to, if it is.
    fn resolve_promoted_host_page(_view: VmViewId, _page: usize) -> (target: Option<usize>)
        default_ensures
            target is None,
    {
        None
    }

    /// [`Self::resolve_promoted_host_page`] for every page from `first_page` to `last_page`, both
    /// page-aligned, in address order: one answer for each page, and each is one that may be given
    /// for that page alone.
    fn resolve_promoted_host_pages(view: VmViewId, first_page: usize, last_page: usize) -> (targets: Vec<
        Option<usize>,
    >)
        ensures
            ALIGN > 0 ==> targets@.len() == page_count(
                first_page as int,
                last_page as int,
                ALIGN as int,
            ),
            ALIGN > 0 ==> forall|i: int|
                0 <= i < targets@.len() ==> call_ensures(
                    Self::resolve_promoted_host_page,
                    (view, (first_page + i * ALIGN) as usize),
                    #[trigger] targets@[i],
                ),
    {
        let mut targets: Vec<Option<usize>> = Vec::new();
        let mut page: usize = first_page;
        proof {
            assert(0 * ALIGN as int == 0) by (nonlinear_arith);
        }
        while page <= last_page
            invariant
                page == first_page + targets@.len() * ALIGN,
                ALIGN > 0 ==> targets@.len() <= page_count(
                    first_page as int,
                    last_page as int,
                    ALIGN as int,
                ),
                forall|i: int|
                    0 <= i < targets@.len() ==> call_ensures(
                        Self::resolve_promoted_host_page,
                        (view, (first_page + i * ALIGN) as usize),
                        #[trigger] targets@[i],
                    ),
            decreases usize::MAX - page,
        {
            let ghost passed = targets@.len() as int;
            targets.push(Self::resolve_promoted_host_page(view, page));
            proof {
                lemma_page_count(first_page as int, last_page as int, ALIGN as int, passed);
            }
            match page.checked_add(ALIGN) {
                Some(next) => {
                    if next <= page {
                        return targets;
                    }
                    page = next;
                },
                None => {
                    return targets;
                },
            }
        }
        proof {
            lemma_page_count(
                first_page as int,
                last_page as int,
                ALIGN as int,
                targets@.len() as int,
            );
        }
        targets
    }

    /// A counter that advances every time a fork write-protects a range.
    fn fork_generation() -> (generation: u64)
        default_ensures
            generation == 0,
    {
        0
    }

    /// Whether any page, for any view, has ever been redirected.
    fn any_host_redirect_active() -> (active: bool)
        default_ensures
            !active,
    {
        false
    }

    /// Prepares a host-side access to a view's guest memory that already passed the permission
    /// check. `holders` names, in address order, the views whose custody the parts of the range
    /// fall under by lineage.
    fn prepare_guest_access(
        _view: VmViewId,
        _range: Range<usize>,
        _write: bool,
        _holders: &Vec<(Range<usize>, VmViewId)>,
    ) -> (preparation: GuestAccessPreparation)
        default_ensures
            preparation.promoted@ == Seq::<usize>::empty(),
            !preparation.refused,
    {
        GuestAccessPreparation { promoted: Vec::new(), refused: false }
    }

    /// Flips a page between writable and executable, if its generation is still the expected one.
    fn commit_wx_flip(_page: usize, _want_execute: bool, _expected_generation: u64) -> (outcome: WxFlipOutcome)
        default_ensures
            outcome == WxFlipOutcome::HostFailure,
    {
        WxFlipOutcome::HostFailure
    }

    /// Diagnostics: one step of taking or giving back the mapping lock.
    fn mapping_lock_event(_event: MappingLockEvent) {
    }

    /// Diagnostics: a host access was served in more than one run.
    fn record_host_access_multi_run() {
    }

    /// Diagnostics: a host access failed after an earlier run of it went through.
    fn record_host_access_efault_after_runs() {
    }

    /// Diagnostics: a guest fault was serviced.
    fn record_guest_fault_serviced() {
    }

    /// Diagnostics: a guest fault was delivered to a task.
    fn record_guest_fault_delivered(_task: TaskInstanceId) {
    }
}

} // verus!
