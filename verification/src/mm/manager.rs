//! The page manager: one mapping table, its mirror, and the domain that says who may touch what.
pub mod create;
pub mod fault;
pub mod laws;
pub mod protect;
pub mod release;
pub mod remap;
pub mod wipe;
pub mod views;

use crate::ids::{IdCounter, TaskInstanceId, VmViewId};
use crate::mm::addr::{NonZeroAddress, NonZeroPageSize, PageRange};
use crate::mm::area::{SharedFutexIds, VmArea};
use crate::mm::custody::Custody;
use crate::mm::domain::admission::ViewAccessLease;
use crate::mm::domain::{DomainConflict, DomainIds, GuestVaDomain};
use crate::mm::errors::{VmemDontForkError, VmemWipeOnForkError};
use crate::mm::flags::{MemoryRegionPermissions, VmFlags};
use crate::mm::vmas::VmaMirror;
use crate::mm::vmem::Vmem;
use crate::mm::wx_ledger::{WxLedger, WxLedgerEntry};
use crate::platform::backing::{build_domain, capture_run};
use crate::platform::page_mgmt::{
    CaptureBackingError, CaptureMode, CapturedBackingRun, FixedAddressBehavior, MappingLockEvent,
    PageManagementProvider, PrivateBackingLease, RestoreBackingError,
};
use crate::shim::{WxFlipOutcome, WxFlipRequest};
use core::ops::Range;
use vstd::prelude::*;

verus! {

use crate::mm::addr::{lemma_page_of, multiple_of, page_of};
use crate::mm::area::new_area;
use crate::mm::domain::admission::{lease_acquired, lease_released, LeaseModel};
use crate::mm::domain::holes::mutation_issued;
use crate::mm::domain::lookup::{custody_via_lineage, fragments};
use crate::mm::domain::publish::{owns_retired, present_confirmed};
use crate::mm::domain::{ids_taken, is_fresh_domain, DomainModel};
use crate::mm::flags::{access_of, carries8, may_flags};
use crate::mm::manager::laws::access::{
    is_check, is_registration, lemma_check_is_lawful, lemma_registration_is_lawful,
};
use crate::mm::manager::views::spans;
use crate::mm::vmas::{flags_over, futex_key_over, granted_at, permissions_over};
use crate::mm::vmem::effects::{inserted, occupied};
use crate::mm::vmem::initialization::{overwritten, span, takes_backing};
use crate::mm::vmem::laws::flagging::{is_absence_mark, is_wipe_mark, names_all_marked};
use crate::mm::vmem::placement::{release, reserve};
use crate::mm::vmem::protect::{
    changed_over, lists_marked, marked_entries, plain_runs, wipe_result, FlagChange,
};
use crate::mm::vmem::{
    block_taken, is_fresh, reserved_ok, task_range_ok, VmemModel, FUTEX_BLOCK, STACK_GUARD_GAP,
};
use crate::mm::wx_ledger::{recorded, LedgerModel};
use crate::platform::backing::is_captured_run;
use crate::range_map::runs_of;
use crate::range_table::modelled;

/// Why a guest-memory access was refused.
#[derive(Clone, Copy, Debug, PartialEq, Eq, Structural)]
pub enum GuestAccessError {
    /// The byte range is empty, or falls (even partially) outside the task addresses.
    OutOfAperture,
    /// The domain refused to admit the view.
    Domain(DomainConflict),
    /// The range is not entirely mapped with at least the required permissions.
    NotMapped,
}

/// On whose behalf an operation runs: the view that guest accesses are confined to, and its task.
#[derive(Clone, Copy, Debug, PartialEq, Eq, Structural)]
pub struct GuestAccess {
    pub view: VmViewId,
    pub task: TaskInstanceId,
}

/// A page manager to support `mmap`, `munmap`, and etc.
///
/// The mirror is the mapping table as every operation leaves it; point queries are answered from
/// it. Operations that run on behalf of a guest take its [`GuestAccess`].
pub struct PageManager<P: PageManagementProvider<ALIGN> + 'static, const ALIGN: usize> {
    vmem: Vmem<P, ALIGN>,
    mirror: VmaMirror,
    domain: GuestVaDomain,
}

/// What a page manager is, to everybody but the platform.
pub struct ManagerModel {
    pub vmem: VmemModel,
    pub domain: DomainModel,
}

/// A view of the mapping metadata for point queries.
pub struct MappingReadGuard<'a> {
    mirror: &'a VmaMirror,
    task_addresses: (usize, usize),
}

/// The domain after a real mapping was published for whoever made it.
pub open spec fn published(m: DomainModel, access: Option<GuestAccess>, start: int, end: int) -> DomainModel {
    match access {
        Some(guest) => present_confirmed(m, guest.view, start, end).0,
        None => m,
    }
}

/// The domain after a real unmapping was retired for whoever made it.
pub open spec fn retired(m: DomainModel, access: Option<GuestAccess>, start: int, end: int) -> DomainModel {
    match access {
        Some(guest) => owns_retired(m, fragments(m, guest.view, start, end), guest.view),
        None => m,
    }
}

/// The list names every mapping of a table with its flags, in address order.
pub open spec fn lists_all(list: Seq<(Range<usize>, VmFlags)>, areas: Map<int, VmArea>) -> bool {
    exists|runs: Seq<(int, int, VmArea)>| #[trigger]
        runs_of(runs, areas, 0, usize::MAX as int) && marked_entries(list) == plain_runs(runs)
}

/// The permissions that an access needs.
pub open spec fn needed(write: bool) -> u8 {
    if write {
        MemoryRegionPermissions::READ | MemoryRegionPermissions::WRITE
    } else {
        MemoryRegionPermissions::READ
    }
}

/// Whether the whole pages around a byte range grant an access, once the view is admitted: each of
/// them is mapped with at least the permissions that the access needs.
pub open spec fn pages_grant(areas: Map<int, VmArea>, start: int, end: int, write: bool, align: int) -> Result<
    (),
    GuestAccessError,
> {
    if forall|k: int|
        page_of(start, align) <= k < page_of(end + align - 1, align) ==> #[trigger] granted_at(
            areas,
            k,
            needed(write),
        ) {
        Ok(())
    } else {
        Err(GuestAccessError::NotMapped)
    }
}

/// What checking a guest access does and answers: a lease is taken while the pages are checked,
/// and given back if they do not grant the access.
pub open spec fn access_checked(
    task: (int, int),
    m: ManagerModel,
    view: VmViewId,
    start: int,
    end: int,
    write: bool,
    align: int,
) -> (DomainModel, Result<LeaseModel, GuestAccessError>) {
    if start >= end || start < task.0 || end > task.1 {
        (m.domain, Err(GuestAccessError::OutOfAperture))
    } else {
        match lease_acquired(m.domain, view) {
            (after, Err(error)) => (after, Err(GuestAccessError::Domain(error))),
            (after, Ok(lease)) => match pages_grant(m.vmem.areas, start, end, write, align) {
                Ok(()) => (after, Ok(lease)),
                Err(error) => (lease_released(after, lease), Err(error)),
            },
        }
    }
}

/// The area that an already allocated region is entered as.
pub open spec fn registered_area(permissions: MemoryRegionPermissions, file_backed: bool, shared: bool) -> VmArea {
    new_area(access_of(permissions) | may_flags(shared), file_backed, None)
}

/// The area that a restored run is entered as: without an owner and without a backing.
pub open spec fn bare(area: VmArea) -> VmArea {
    VmArea { initialization: None, shared_futex: None, ..area }
}

/// The entry that a committed flip leaves in the ledger.
pub open spec fn flip_entry(view: VmViewId, request: WxFlipRequest, mutation: u64, nanos: u64) -> WxLedgerEntry {
    WxLedgerEntry {
        view,
        page: request.page,
        executable: request.want_execute,
        mutation,
        duration_nanos: nanos,
    }
}

/// Whether a flip may go to the platform: some view of the guest's lineage has the page present.
pub open spec fn may_flip(m: DomainModel, access: Option<GuestAccess>, page: int) -> bool {
    access matches Some(guest) && custody_via_lineage(m, guest.view, page) is Present
}

/// What a platform's outcome of a flip changes: a commit gets a mutation and an entry.
pub open spec fn flip_recorded(
    m: DomainModel,
    ledger: LedgerModel,
    view: VmViewId,
    request: WxFlipRequest,
    outcome: WxFlipOutcome,
) -> (DomainModel, LedgerModel) {
    match outcome {
        WxFlipOutcome::Committed(nanos) => if m.issued.mutation >= m.limits.mutation {
            (m, recorded(ledger, flip_entry(view, request, 0, nanos)))
        } else {
            let after = mutation_issued(m);
            (after, recorded(ledger, flip_entry(view, request, after.issued.mutation, nanos)))
        },
        _ => (m, ledger),
    }
}

/// What restoring a run did.
pub open spec fn run_restored<P: PageManagementProvider<ALIGN>, const ALIGN: usize>(
    platform: &P,
    before: VmemModel,
    lease: PrivateBackingLease,
    gva: usize,
    area: VmArea,
    after: VmemModel,
    result: Result<usize, RestoreBackingError>,
) -> bool {
    let end = gva + lease.bytes().len();
    if lease.bytes().len() == 0 || !multiple_of(gva as int, ALIGN as int) || !multiple_of(
        end,
        ALIGN as int,
    ) {
        after == before && result == Err::<usize, RestoreBackingError>(
            RestoreBackingError::LengthMismatch,
        )
    } else {
        exists|placed| #[trigger]
            inserted(
                platform,
                before,
                (gva as int, end),
                bare(area),
                true,
                FixedAddressBehavior::NoReplace,
                after,
                placed,
            ) && match placed {
                Err(_) => result == Err::<usize, RestoreBackingError>(
                    RestoreBackingError::AddressInUse,
                ),
                Ok(start) => exists|answer: Result<(), RestoreBackingError>| #[trigger]
                    call_ensures(P::restore_private_backing, (platform, lease, gva), answer)
                        && result == (match answer {
                        Ok(()) => Ok::<usize, RestoreBackingError>(start),
                        Err(error) => Err(error),
                    }),
            }
    }
}

impl<P: PageManagementProvider<ALIGN> + 'static, const ALIGN: usize> View for PageManager<P, ALIGN> {
    type V = ManagerModel;

    closed spec fn view(&self) -> ManagerModel {
        ManagerModel { vmem: self.vmem@, domain: self.domain@ }
    }
}

impl<'a> MappingReadGuard<'a> {
    /// The mapping table that the guard answers from.
    pub closed spec fn areas(&self) -> Map<int, VmArea> {
        self.mirror@
    }

    pub closed spec fn wf(&self) -> bool {
        self.mirror.wf()
    }

    /// The task address range.
    pub closed spec fn task(&self) -> (int, int) {
        (self.task_addresses.0 as int, self.task_addresses.1 as int)
    }

    /// The flags of the mapping containing `address`.
    pub fn flags_at(&self, address: usize) -> (found: Option<VmFlags>)
        requires
            self.wf(),
        ensures
            found == flags_over(self.areas(), address as int),
    {
        self.mirror.flags_at(address)
    }

    /// The stable shared-backing identity and byte offset for `address`.
    pub fn shared_futex_key_at(&self, address: usize) -> (found: Option<(usize, usize)>)
        requires
            self.wf(),
        ensures
            found == futex_key_over(self.areas(), address),
    {
        self.mirror.shared_futex_key_at(address)
    }

    /// Whether a word at `address` may be read without any check but the hardware's own: it is
    /// aligned and lies inside the task addresses.
    pub fn may_read_u32(&self, address: usize) -> (yes: bool)
        ensures
            yes == (address % 4 == 0 && self.task().0 <= address && address + 4 <= self.task().1),
    {
        address % 4 == 0 && self.task_addresses.0 <= address && address < self.task_addresses.1
            && self.task_addresses.1 - address >= 4
    }
}

impl<P: PageManagementProvider<ALIGN> + 'static, const ALIGN: usize> PageManager<P, ALIGN> {
    /// The table and the domain are well formed, and the mirror is the table.
    pub closed spec fn wf(&self) -> bool {
        &&& self.vmem.wf()
        &&& self.domain.wf()
        &&& self.mirror.wf()
        &&& self.mirror@ == self.vmem@.areas
        &&& self.vmem.base() == self.vmem@.areas
    }

    /// The platform underneath.
    pub closed spec fn platform(&self) -> &'static P {
        self.vmem.platform()
    }

    /// What every operation keeps.
    pub open spec fn follows(&self, before: &Self) -> bool {
        &&& self.wf()
        &&& self.platform() == before.platform()
    }

    /// Only the table moved on since the mirror was the table.
    closed spec fn ahead_of(&self, before: &Self) -> bool {
        &&& self.vmem.wf()
        &&& self.domain.wf()
        &&& self.mirror.wf()
        &&& self.mirror@ == self.vmem.base()
        &&& self.vmem.platform() == before.vmem.platform()
    }

    /// The task addresses of a manager make sense.
    pub proof fn lemma_wf(&self)
        requires
            self.wf(),
        ensures
            task_range_ok(P::TASK_ADDR_MIN as int, P::TASK_ADDR_MAX as int, ALIGN as int),
    {
        self.vmem.lemma_wf();
    }

    /// Brings the mirror up to date with the table, and tells the platform so if the table changed.
    fn sync(&mut self)
        requires
            old(self).ahead_of(old(self)),
        ensures
            final(self).follows(old(self)),
            final(self)@ == old(self)@,
            old(self).vmem.logged() > 0 ==> call_ensures(
                P::mapping_lock_event,
                (MappingLockEvent::MirrorReplay,),
                (),
            ),
    {
        if self.vmem.has_vma_ops() {
            P::mapping_lock_event(MappingLockEvent::MirrorReplay);
            self.vmem.replay_vma_ops(&mut self.mirror);
        }
    }

    /// Creates a manager with an empty mapping table, the platform's reserved pages apart, and a
    /// domain over its task addresses.
    pub fn new(
        platform: &'static P,
        domains: &mut DomainIds,
        futex_ids: &mut SharedFutexIds,
    ) -> (manager: Self)
        requires
            task_range_ok(P::TASK_ADDR_MIN as int, P::TASK_ADDR_MAX as int, ALIGN as int),
            old(domains).has_room(),
            old(futex_ids).wf(),
            old(futex_ids).next() + FUTEX_BLOCK <= old(futex_ids).end(),
            forall|ranges: Vec<Range<usize>>|
                call_ensures(P::reserved_pages, (platform,), ranges) ==> reserved_ok(
                    ranges@,
                    ALIGN as int,
                ),
        ensures
            manager.wf(),
            manager.platform() == platform,
            ids_taken(*old(domains), *final(domains)),
            manager@.domain.id.raw == old(domains).domains() + 1,
            block_taken(*old(futex_ids), *final(futex_ids)),
            exists|ranges: Vec<Range<usize>>|
                call_ensures(P::reserved_pages, (platform,), ranges) && is_fresh(
                    manager@.vmem,
                    ranges@,
                    old(futex_ids).next(),
                ),
            exists|ranges: Vec<Range<usize>>| #[trigger]
                call_ensures(P::reserved_pages, (platform,), ranges) && is_fresh_domain(
                    manager@.domain,
                    (P::TASK_ADDR_MIN as int, P::TASK_ADDR_MAX as int),
                    spans(ranges@),
                    old(domains).issued(),
                ),
    {
        let mut vmem = Vmem::new(platform, futex_ids);
        let mut mirror = VmaMirror::new();
        let ghost fresh = vmem@;
        vmem.replay_vma_ops(&mut mirror);
        let domain = build_domain(platform, domains);
        PageManager { vmem, mirror, domain }
    }

    /// The guest-virtual-address domain of this manager.
    pub fn guest_va_domain(&self) -> (domain: &GuestVaDomain)
        requires
            self.wf(),
        ensures
            domain.wf(),
            domain@ == self@.domain,
    {
        &self.domain
    }

    /// The guest-virtual-address domain of this manager, to be changed.
    pub fn guest_va_domain_mut(&mut self) -> (domain: &mut GuestVaDomain)
        requires
            old(self).wf(),
        ensures
            domain.wf(),
            domain@ == old(self)@.domain,
            final(domain).wf() ==> final(self).follows(old(self)),
            final(self)@ == (ManagerModel { domain: final(domain)@, ..old(self)@ }),
    {
        &mut self.domain
    }

    /// Publishes a real mapping for whoever made it. Never fails.
    fn shadow_publish_present(&mut self, access: Option<GuestAccess>, start: usize, end: usize)
        requires
            old(self).wf(),
        ensures
            final(self).follows(old(self)),
            final(self)@ == (ManagerModel {
                domain: published(old(self)@.domain, access, start as int, end as int),
                ..old(self)@
            }),
    {
        if let Some(guest) = access {
            let _ = self.domain.confirm_present_or_reconcile(guest.view, start..end);
        }
    }

    /// Retires a real unmapping for whoever made it. Never fails.
    fn shadow_retire_present(&mut self, access: Option<GuestAccess>, start: usize, end: usize)
        requires
            old(self).wf(),
        ensures
            final(self).follows(old(self)),
            final(self)@ == (ManagerModel {
                domain: retired(old(self)@.domain, access, start as int, end as int),
                ..old(self)@
            }),
    {
        if let Some(guest) = access {
            self.domain.confirm_retired_or_reconcile(guest.view, start..end);
        }
    }

    /// Enters what the platform made of a flip.
    pub fn finish_wx_flip(
        &mut self,
        view: VmViewId,
        request: WxFlipRequest,
        outcome: WxFlipOutcome,
        ledger: &mut WxLedger,
    )
        requires
            old(self).wf(),
            old(ledger).wf(),
        ensures
            final(self).follows(old(self)),
            final(ledger).wf(),
            final(self)@.vmem == old(self)@.vmem,
            (final(self)@.domain, final(ledger)@) == flip_recorded(
                old(self)@.domain,
                old(ledger)@,
                view,
                request,
                outcome,
            ),
    {
        if let WxFlipOutcome::Committed(duration_nanos) = outcome {
            let mutation: u64 = match self.domain.next_mutation() {
                Some(id) => id.raw,
                None => 0,
            };
            ledger.record(
                WxLedgerEntry {
                    view,
                    page: request.page,
                    executable: request.want_execute,
                    mutation,
                    duration_nanos,
                },
            );
        }
    }

    /// Services a classified permission flip: the page must be present for the guest's view or one
    /// of its ancestors, else the flip is refused and the platform not asked. A commit is entered
    /// into the ledger.
    pub fn commit_wx_flip(
        &mut self,
        access: Option<GuestAccess>,
        ledger: &mut WxLedger,
        request: WxFlipRequest,
    ) -> (outcome: WxFlipOutcome)
        requires
            old(self).wf(),
            old(ledger).wf(),
        ensures
            final(self).follows(old(self)),
            final(ledger).wf(),
            final(self)@.vmem == old(self)@.vmem,
            if may_flip(old(self)@.domain, access, request.page as int) {
                &&& call_ensures(
                    P::commit_wx_flip,
                    (request.page, request.want_execute, request.expected_generation),
                    outcome,
                )
                &&& (final(self)@.domain, final(ledger)@) == flip_recorded(
                    old(self)@.domain,
                    old(ledger)@,
                    access->0.view,
                    request,
                    outcome,
                )
            } else {
                &&& outcome == WxFlipOutcome::AliasConflictRefused
                &&& final(self)@ == old(self)@
                &&& final(ledger)@ == old(ledger)@
            },
    {
        let guest = match access {
            Some(guest) => guest,
            None => {
                return WxFlipOutcome::AliasConflictRefused;
            },
        };
        let custody = self.domain.custody_at_via_lineage(guest.view, request.page);
        if let Custody::Present { .. } = custody {
            let outcome = P::commit_wx_flip(
                request.page,
                request.want_execute,
                request.expected_generation,
            );
            self.finish_wx_flip(guest.view, request, outcome, ledger);
            outcome
        } else {
            WxFlipOutcome::AliasConflictRefused
        }
    }

    /// Sets the initial program break. A break left behind by somebody else is replaced.
    pub fn set_initial_brk(&mut self, brk: usize)
        requires
            old(self).wf(),
        ensures
            final(self).follows(old(self)),
            final(self)@ == (ManagerModel {
                vmem: VmemModel { brk, ..old(self)@.vmem },
                ..old(self)@
            }),
    {
        self.vmem.set_brk(brk);
        self.sync();
    }

    /// Installs a program break, returning the value it replaced.
    pub fn swap_brk(&mut self, brk: usize) -> (replaced: usize)
        requires
            old(self).wf(),
        ensures
            final(self).follows(old(self)),
            final(self)@ == (ManagerModel {
                vmem: VmemModel { brk, ..old(self)@.vmem },
                ..old(self)@
            }),
            replaced == old(self)@.vmem.brk,
    {
        let replaced = self.vmem.brk();
        self.vmem.set_brk(brk);
        self.sync();
        replaced
    }

    /// Marks the mappings of a range so that a forked child sees them zero-filled, or takes the
    /// mark off. See [`Vmem::set_wipe_on_fork`].
    pub fn set_wipe_on_fork(&mut self, address: usize, len: usize, enable: bool) -> (result: Result<
        (),
        VmemWipeOnForkError,
    >)
        requires
            old(self).wf(),
            address + len <= usize::MAX,
        ensures
            final(self).follows(old(self)),
            if (PageRange::<ALIGN> { start: address, end: (address + len) as usize }).wf() {
                &&& result == wipe_result(
                    old(self)@.vmem.areas,
                    address as int,
                    address + len,
                    enable,
                )
                &&& final(self)@ == (if result is Ok {
                    ManagerModel {
                        vmem: VmemModel {
                            areas: changed_over(
                                old(self)@.vmem.areas,
                                address as int,
                                address + len,
                                FlagChange::Mark { mask: VmFlags::VM_WIPEONFORK, on: enable },
                            ),
                            ..old(self)@.vmem
                        },
                        ..old(self)@
                    }
                } else {
                    old(self)@
                })
            } else {
                &&& result == Err::<(), VmemWipeOnForkError>(VmemWipeOnForkError::UnAligned)
                &&& final(self)@ == old(self)@
            },
            final(self)@.domain == old(self)@.domain,
            result == Err::<(), VmemWipeOnForkError>(VmemWipeOnForkError::UnAligned) <==> len == 0 || address as int
                % ALIGN as int != 0 || (address + len) % ALIGN as int != 0,
            result != Err::<(), VmemWipeOnForkError>(VmemWipeOnForkError::UnAligned) ==> is_wipe_mark(
                old(self)@.vmem,
                (address as int, address + len),
                enable,
                final(self)@.vmem,
                result,
            ),
    {
        proof {
            self.lemma_wf();
        }
        let range = match PageRange::<ALIGN>::new(address, address + len) {
            Some(range) => range,
            None => {
                return Err(VmemWipeOnForkError::UnAligned);
            },
        };
        let result = self.vmem.set_wipe_on_fork(range, enable);
        self.sync();
        result
    }

    /// Every mapping marked to be wiped in a forked child, with its flags.
    pub fn ranges_to_wipe_on_fork(&self) -> (found: Vec<(Range<usize>, VmFlags)>)
        requires
            self.wf(),
        ensures
            lists_marked(found@, self@.vmem.areas, VmFlags::VM_WIPEONFORK),
            names_all_marked(found@, self@.vmem.areas, 0x400),
    {
        self.vmem.wipe_on_fork_ranges()
    }

    /// Marks the mappings of a range so that a forked child has none there, or takes the mark off.
    /// See [`Vmem::set_dont_fork`].
    pub fn set_dont_fork(&mut self, address: usize, len: usize, enable: bool) -> (result: Result<
        (),
        VmemDontForkError,
    >)
        requires
            old(self).wf(),
            address + len <= usize::MAX,
        ensures
            final(self).follows(old(self)),
            if (PageRange::<ALIGN> { start: address, end: (address + len) as usize }).wf() {
                &&& result == (if crate::mm::vmem::effects::holed(
                    old(self)@.vmem.areas,
                    address as int,
                    address + len,
                ) {
                    Err(VmemDontForkError::Unmapped(span(address as int, address + len)))
                } else {
                    Ok(())
                })
                &&& final(self)@ == (if result is Ok {
                    ManagerModel {
                        vmem: VmemModel {
                            areas: changed_over(
                                old(self)@.vmem.areas,
                                address as int,
                                address + len,
                                FlagChange::Mark { mask: VmFlags::VM_DONTCOPY, on: enable },
                            ),
                            ..old(self)@.vmem
                        },
                        ..old(self)@
                    }
                } else {
                    old(self)@
                })
            } else {
                &&& result == Err::<(), VmemDontForkError>(VmemDontForkError::UnAligned)
                &&& final(self)@ == old(self)@
            },
            final(self)@.domain == old(self)@.domain,
            result == Err::<(), VmemDontForkError>(VmemDontForkError::UnAligned) <==> len == 0 || address as int
                % ALIGN as int != 0 || (address + len) % ALIGN as int != 0,
            result != Err::<(), VmemDontForkError>(VmemDontForkError::UnAligned) ==> is_absence_mark(
                old(self)@.vmem,
                (address as int, address + len),
                enable,
                final(self)@.vmem,
                result,
            ),
    {
        proof {
            self.lemma_wf();
        }
        let range = match PageRange::<ALIGN>::new(address, address + len) {
            Some(range) => range,
            None => {
                return Err(VmemDontForkError::UnAligned);
            },
        };
        let result = self.vmem.set_dont_fork(range, enable);
        self.sync();
        result
    }

    /// Every mapping marked to be absent from a forked child, with its flags.
    pub fn ranges_to_dont_fork(&self) -> (found: Vec<(Range<usize>, VmFlags)>)
        requires
            self.wf(),
        ensures
            lists_marked(found@, self@.vmem.areas, VmFlags::VM_DONTCOPY),
            names_all_marked(found@, self@.vmem.areas, 0x800),
    {
        self.vmem.dont_fork_ranges()
    }

    /// Meant to drop the marked mappings from a forked child. The child's family is not registered
    /// yet when this is called, so there is nothing it could drop them from: it removes nothing.
    pub fn dont_fork_child<F: Fn(Range<usize>, VmFlags) -> Vec<Range<usize>>>(
        &self,
        _restrict: F,
    ) -> (removed: usize)
        ensures
            removed == 0,
    {
        0
    }

    /// Enters an already-allocated region into the mapping table. With `replace`, overlapping
    /// mappings leave the table; without it, an overlap is refused.
    pub fn register_existing_mapping(
        &mut self,
        access: Option<GuestAccess>,
        range: PageRange<ALIGN>,
        permissions: MemoryRegionPermissions,
        is_file_backed: bool,
        replace: bool,
        shared: bool,
    ) -> (result: Option<()>)
        requires
            old(self).wf(),
            range.wf(),
            !carries8(permissions.bits, MemoryRegionPermissions::SHARED),
            takes_backing(registered_area(permissions, is_file_backed, shared))
                ==> old(self)@.vmem.next_futex < old(self)@.vmem.futex_end,
        ensures
            final(self).follows(old(self)),
            if !replace && occupied(old(self)@.vmem.areas, range.start as int, range.end as int) {
                result is None && final(self)@ == old(self)@
            } else {
                result is Some && final(self)@ == (ManagerModel {
                    vmem: overwritten(
                        old(self)@.vmem,
                        range.start as int,
                        range.end as int,
                        registered_area(permissions, is_file_backed, shared),
                    ),
                    domain: published(
                        old(self)@.domain,
                        access,
                        range.start as int,
                        range.end as int,
                    ),
                })
            },
            is_registration(
                old(self)@.vmem,
                (range.start as int, range.end as int),
                permissions,
                is_file_backed,
                replace,
                shared,
                final(self)@.vmem,
                result is Some,
            ),
    {
        proof {
            lemma_registration_is_lawful(
                self@.vmem,
                (range.start as int, range.end as int),
                permissions,
                is_file_backed,
                replace,
                shared,
            );
        }
        let flags = VmFlags::from_permissions(permissions).union(
            VmFlags::may_flags_for_mapping(shared, is_file_backed).bits,
        );
        let area = VmArea::new(flags, is_file_backed, None);
        if !replace && self.is_occupied(range.start, range.end) {
            return None;
        }
        self.vmem.register_existing_mapping_overwrite(range, area);
        self.sync();
        self.shadow_publish_present(access, range.start, range.end);
        Some(())
    }

    /// Whether some address of a non-empty range is mapped.
    fn is_occupied(&self, start: usize, end: usize) -> (yes: bool)
        requires
            self.wf(),
            start < end,
        ensures
            yes == occupied(self@.vmem.areas, start as int, end as int),
    {
        let found = self.vmem.overlapping(start, end);
        proof {
            let list = modelled(found@);
            if found@.len() > 0 {
                let k = if list[0].0 < start {
                    start as int
                } else {
                    list[0].0
                };
                assert(crate::range_map::lookup(self@.vmem.areas, k) == Some(list[0].2));
            }
            if occupied(self@.vmem.areas, start as int, end as int) {
                let k = choose|k: int|
                    start <= k < end && #[trigger] crate::range_map::lookup(self@.vmem.areas, k) is Some;
                assert(crate::range_map::covered(list, k));
            }
        }
        found.len() > 0
    }

    /// A view of the mapping metadata for point queries.
    pub fn lock_mappings(&self) -> (guard: MappingReadGuard<'_>)
        requires
            self.wf(),
        ensures
            guard.wf(),
            guard.areas() == self@.vmem.areas,
            guard.task() == (P::TASK_ADDR_MIN as int, P::TASK_ADDR_MAX as int),
    {
        MappingReadGuard {
            mirror: &self.mirror,
            task_addresses: (P::TASK_ADDR_MIN, P::TASK_ADDR_MAX),
        }
    }

    fn plain(found: Vec<(usize, usize, VmArea)>) -> (list: Vec<(Range<usize>, VmFlags)>)
        ensures
            marked_entries(list@) == plain_runs(modelled(found@)),
    {
        let mut list: Vec<(Range<usize>, VmFlags)> = Vec::new();
        let ghost goal = plain_runs(modelled(found@));
        let mut i: usize = 0;
        while i < found.len()
            invariant
                i <= found@.len(),
                list@.len() == i,
                forall|j: int|
                    0 <= j < i ==> (#[trigger] list@[j]).0.start == found@[j].0 && list@[j].0.end
                        == found@[j].1 && list@[j].1 == found@[j].2.flags,
            decreases found@.len() - i,
        {
            list.push((found[i].0..found[i].1, found[i].2.flags()));
            i += 1;
        }
        proof {
            assert(marked_entries(list@) =~= goal);
        }
        list
    }

    /// All mappings, in address order. One returned range is not one `mmap`: adjacent mappings
    /// with equal properties are one entry.
    pub fn mappings(&self) -> (found: Vec<(Range<usize>, VmFlags)>)
        requires
            self.wf(),
        ensures
            lists_all(found@, self@.vmem.areas),
    {
        let found = self.vmem.iter();
        let ghost runs = modelled(found@);
        let list = Self::plain(found);
        proof {
            assert(runs_of(runs, self@.vmem.areas, 0, usize::MAX as int));
        }
        list
    }

    /// [`Self::mappings`], answered from the mirror.
    pub fn mappings_snapshot(&self) -> (found: Vec<(Range<usize>, VmFlags)>)
        requires
            self.wf(),
        ensures
            lists_all(found@, self@.vmem.areas),
    {
        let found = self.mirror.iter();
        let ghost runs = modelled(found@);
        let list = Self::plain(found);
        proof {
            assert(runs_of(runs, self@.vmem.areas, 0, usize::MAX as int));
        }
        list
    }

    /// Takes a new block of shared-backing identities from the process. See
    /// [`Vmem::renew_futex_ids`].
    pub fn renew_futex_ids(&mut self, futex_ids: &mut SharedFutexIds)
        requires
            old(self).wf(),
            old(futex_ids).wf(),
            old(futex_ids).next() + FUTEX_BLOCK <= old(futex_ids).end(),
        ensures
            final(self).follows(old(self)),
            block_taken(*old(futex_ids), *final(futex_ids)),
            final(self)@ == (ManagerModel {
                vmem: VmemModel {
                    next_futex: old(futex_ids).next(),
                    futex_end: (old(futex_ids).next() + FUTEX_BLOCK) as usize,
                    ..old(self)@.vmem
                },
                ..old(self)@
            }),
    {
        self.vmem.renew_futex_ids(futex_ids);
        self.sync();
    }

    /// How many shared-backing identities are left of the block that was taken last.
    pub fn futex_ids_left(&self) -> (left: usize)
        requires
            self.wf(),
        ensures
            left == self@.vmem.futex_end - self@.vmem.next_futex,
    {
        self.vmem.futex_ids_left()
    }

    /// Holds a range back from flexible placement for `owner`. See [`Vmem::reserve_external`].
    pub fn reserve_external(&mut self, range: Range<usize>, owner: VmViewId)
        requires
            old(self).wf(),
        ensures
            final(self).follows(old(self)),
            final(self)@ == (ManagerModel {
                vmem: VmemModel {
                    reserved: reserve(
                        old(self)@.vmem.reserved,
                        owner.raw,
                        range.start as int,
                        range.end as int,
                    ),
                    ..old(self)@.vmem
                },
                ..old(self)@
            }),
    {
        self.vmem.reserve_external(range.start, range.end, owner);
        self.sync();
    }

    /// Releases what [`Self::reserve_external`] held back under the same `owner`.
    pub fn release_external(&mut self, range: Range<usize>, owner: VmViewId)
        requires
            old(self).wf(),
        ensures
            final(self).follows(old(self)),
            final(self)@ == (ManagerModel {
                vmem: VmemModel {
                    reserved: release(
                        old(self)@.vmem.reserved,
                        owner.raw,
                        range.start as int,
                        range.end as int,
                    ),
                    ..old(self)@.vmem
                },
                ..old(self)@
            }),
    {
        self.vmem.release_external(range.start, range.end, owner);
        self.sync();
    }

    /// Captures a private memory run. Nothing of the manager changes.
    pub fn capture_private_backing(
        &self,
        generations: &mut IdCounter,
        range: Range<usize>,
        mode: CaptureMode,
    ) -> (result: Result<CapturedBackingRun, CaptureBackingError>)
        ensures
            exists|answer: Result<PrivateBackingLease, CaptureBackingError>| #[trigger]
                call_ensures(P::capture_private_backing, (self.platform(), range, mode), answer)
                    && is_captured_run(range, old(generations).issued(), answer, result),
            final(generations).issued() == (if result is Ok {
                old(generations).issued() + 1
            } else {
                old(generations).issued() as int
            }),
    {
        capture_run(self.vmem.backend(), generations, range, mode)
    }

    /// Restores a captured run at an address: a fresh private mapping is entered there, then the
    /// bytes are written into it. Refused if the address is mapped. The area's owner and backing
    /// are ignored.
    pub fn restore_private_backing(&mut self, lease: PrivateBackingLease, gva: usize, area: VmArea) -> (result:
        Result<usize, RestoreBackingError>)
        requires
            old(self).wf(),
            gva + lease.bytes().len() <= usize::MAX,
            takes_backing(bare(area)) ==> old(self)@.vmem.next_futex < old(self)@.vmem.futex_end,
        ensures
            final(self).follows(old(self)),
            final(self)@.domain == old(self)@.domain,
            run_restored(
                final(self).platform(),
                old(self)@.vmem,
                lease,
                gva,
                area,
                final(self)@.vmem,
                result,
            ),
    {
        let len = lease.len();
        if lease.is_empty() {
            return Err(RestoreBackingError::LengthMismatch);
        }
        let range = match PageRange::<ALIGN>::new(gva, gva + len) {
            Some(range) => range,
            None => {
                return Err(RestoreBackingError::LengthMismatch);
            },
        };
        let mut plain = area;
        plain.initialization = None;
        plain.shared_futex = None;
        let placed = self.vmem.insert_mapping(range, plain, true, FixedAddressBehavior::NoReplace);
        self.sync();
        proof {
            assert(inserted(
                self.platform(),
                old(self)@.vmem,
                (gva as int, gva + lease.bytes().len()),
                bare(area),
                true,
                FixedAddressBehavior::NoReplace,
                self@.vmem,
                placed,
            ));
        }
        let start: usize = match placed {
            Ok(start) => start,
            Err(_) => {
                return Err(RestoreBackingError::AddressInUse);
            },
        };
        let answer = self.vmem.backend().restore_private_backing(lease, gva);
        match answer {
            Ok(()) => Ok(start),
            Err(error) => Err(error),
        }
    }

    /// The permissions of a range: those of the one mapping that covers all of it, if one does.
    pub fn get_memory_permissions(&self, ptr: NonZeroAddress<ALIGN>, len: NonZeroPageSize<ALIGN>) -> (found: Option<
        MemoryRegionPermissions,
    >)
        requires
            self.wf(),
            ptr.wf(),
            len.wf(),
            ptr.address() + len.size() <= usize::MAX,
        ensures
            found == permissions_over(
                self@.vmem.areas,
                ptr.address(),
                ptr.address() + len.size(),
            ),
    {
        let start = ptr.as_usize();
        let end = start + len.as_usize();
        proof {
            self.lemma_wf();
            crate::mm::addr::lemma_aligned_sum(start as int, len.size(), ALIGN as int);
        }
        match PageRange::<ALIGN>::new(start, end) {
            Some(range) => self.mirror.get_memory_permissions(range),
            None => None,
        }
    }

    /// Confines a guest-memory access to pages that grant it, before it runs. The caller performs
    /// the access while it holds the lease, and gives the lease back right after.
    pub fn checked_guest_range(&mut self, view: VmViewId, range: Range<usize>, write: bool) -> (result: Result<
        ViewAccessLease,
        GuestAccessError,
    >)
        requires
            old(self).wf(),
        ensures
            final(self).follows(old(self)),
            final(self)@.vmem == old(self)@.vmem,
            ({
                let (domain, outcome) = access_checked(
                    (P::TASK_ADDR_MIN as int, P::TASK_ADDR_MAX as int),
                    old(self)@,
                    view,
                    range.start as int,
                    range.end as int,
                    write,
                    ALIGN as int,
                );
                &&& final(self)@.domain == domain
                &&& match result {
                    Ok(lease) => outcome == Ok::<LeaseModel, GuestAccessError>(lease.held()),
                    Err(error) => outcome == Err::<LeaseModel, GuestAccessError>(error),
                }
            }),
            is_check(
                (P::TASK_ADDR_MIN as int, P::TASK_ADDR_MAX as int),
                old(self)@.vmem.areas,
                (range.start as int, range.end as int),
                write,
                ALIGN as int,
                match result {
                    Ok(_) => None,
                    Err(error) => Some(error),
                },
            ),
    {
        let (start, end) = (range.start, range.end);
        proof {
            self.lemma_wf();
            lemma_check_is_lawful(
                (P::TASK_ADDR_MIN as int, P::TASK_ADDR_MAX as int),
                self@,
                view,
                start as int,
                end as int,
                write,
                ALIGN as int,
            );
        }
        if start >= end || start < P::TASK_ADDR_MIN || end > P::TASK_ADDR_MAX {
            return Err(GuestAccessError::OutOfAperture);
        }
        let lease = match self.domain.acquire_access_lease(view) {
            Ok(lease) => lease,
            Err(error) => {
                return Err(GuestAccessError::Domain(error));
            },
        };
        match self.check_pages(start, end, write) {
            Ok(()) => Ok(lease),
            Err(error) => {
                self.domain.release_access_lease(lease);
                Err(error)
            },
        }
    }

    /// Gives an access lease back.
    pub fn release_lease(&mut self, lease: ViewAccessLease)
        requires
            old(self).wf(),
        ensures
            final(self).follows(old(self)),
            final(self)@ == (ManagerModel {
                domain: lease_released(old(self)@.domain, lease.held()),
                ..old(self)@
            }),
    {
        self.domain.release_access_lease(lease);
    }

    /// Whether the whole pages around a byte range grant an access.
    fn check_pages(&self, start: usize, end: usize, write: bool) -> (result: Result<(), GuestAccessError>)
        requires
            self.wf(),
            end <= P::TASK_ADDR_MAX,
        ensures
            result == pages_grant(self@.vmem.areas, start as int, end as int, write, ALIGN as int),
    {
        proof {
            self.lemma_wf();
            lemma_page_of(start as int, ALIGN as int);
            lemma_page_of(end + ALIGN - 1, ALIGN as int);
            vstd::arithmetic::div_mod::lemma_mod_decreases(start as nat, ALIGN as nat);
            vstd::arithmetic::div_mod::lemma_mod_decreases((end + ALIGN - 1) as nat, ALIGN as nat);
            // The room above the task addresses is at least one page.
            if ALIGN > 2 * STACK_GUARD_GAP {
                vstd::arithmetic::div_mod::lemma_small_mod((2 * STACK_GUARD_GAP) as nat, ALIGN as nat);
            }
        }
        let first: usize = start - start % ALIGN;
        let sum: usize = end + (ALIGN - 1);
        let last: usize = sum - sum % ALIGN;
        let required: u8 = if write {
            MemoryRegionPermissions::READ | MemoryRegionPermissions::WRITE
        } else {
            MemoryRegionPermissions::READ
        };
        proof {
            assert(first == page_of(start as int, ALIGN as int));
            assert(last == page_of(end + ALIGN - 1, ALIGN as int));
            assert(required == needed(write));
        }
        if self.mirror.is_granted(first, last, required) {
            Ok(())
        } else {
            Err(GuestAccessError::NotMapped)
        }
    }
}

} // verus!
