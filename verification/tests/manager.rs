//! The page manager: what guests create, change and let go of, with custody kept alongside.
use core::ops::Range;
use litebox::ids::{IdCounter, ProcessInstanceId, TaskInstanceId, VmViewId};
use litebox::mm::addr::{NonZeroAddress, NonZeroPageSize, PageRange};
use litebox::mm::area::{SharedFutexBacking, SharedFutexIds, VmArea};
use litebox::mm::custody::Custody;
use litebox::mm::domain::{DomainConflict, DomainIds};
use litebox::mm::errors::{
    MappingError, PageFaultError, VmemProtectError, VmemResetError, VmemUnmapError,
    VmemWipeOnForkError,
};
use litebox::mm::flags::{CreatePagesFlags, MemoryRegionPermissions, VmFlags};
use litebox::mm::manager::fault::{FaultOutcome, FaultPlan, VmemPageFaultHandler};
use litebox::mm::manager::{GuestAccess, GuestAccessError, PageManager};
use litebox::mm::session::EffectGate;
use litebox::mm::vmem::STACK_GUARD_GAP;
use litebox::mm::wx_ledger::WxLedger;
use litebox::platform::backing::{remap_by_copy, snapshot_bytes, write_snapshot};
use litebox::platform::page_mgmt::{
    AllocationError, CaptureBackingError, CaptureMode, DeallocationError, FixedAddressBehavior,
    PageManagementProvider, PermissionUpdateError, PrivateBackingLease, RemapError,
    RestoreBackingError,
};
use litebox::shim::{WxFlipOutcome, WxFlipRequest};
use std::sync::Mutex;

const PAGE: usize = 4096;
const MIN: usize = 0x1_0000;
const MAX: usize = 0x4000_0000;

/// A recording host. `OWN` says whether each view has an address space of its own.
struct Host<const OWN: bool> {
    calls: Mutex<Vec<String>>,
    refused: Mutex<Vec<&'static str>>,
    bytes: Mutex<Vec<u8>>,
}

impl<const OWN: bool> Host<OWN> {
    fn leaked() -> &'static Self {
        Box::leak(Box::new(Host {
            calls: Mutex::new(Vec::new()),
            refused: Mutex::new(Vec::new()),
            bytes: Mutex::new(vec![0; 0x4000]),
        }))
    }

    fn refuse(&self, call: &'static str) {
        self.refused.lock().unwrap().push(call);
    }

    fn refuses(&self, call: &str) -> bool {
        self.refused.lock().unwrap().iter().any(|c| *c == call)
    }

    fn take(&self) -> Vec<String> {
        std::mem::take(&mut *self.calls.lock().unwrap())
    }

    fn note(&self, text: String) {
        self.calls.lock().unwrap().push(text);
    }
}

impl<const OWN: bool> PageManagementProvider<PAGE> for Host<OWN> {
    const TASK_ADDR_MIN: usize = MIN;

    const TASK_ADDR_MAX: usize = MAX;

    fn allocate_pages(
        &self,
        suggested_range: Range<usize>,
        initial_permissions: MemoryRegionPermissions,
        _can_grow_down: bool,
        _populate: bool,
        _behavior: FixedAddressBehavior,
    ) -> Result<usize, AllocationError> {
        self.note(format!(
            "map {:x}-{:x} {}",
            suggested_range.start,
            suggested_range.end,
            initial_permissions.bits()
        ));
        if self.refuses("map") {
            return Err(AllocationError::OutOfMemory);
        }
        Ok(suggested_range.start)
    }

    fn deallocate_pages(&self, range: Range<usize>) -> Result<(), DeallocationError> {
        self.note(format!("unmap {:x}-{:x}", range.start, range.end));
        if self.refuses("unmap") {
            return Err(DeallocationError::AlreadyUnallocated);
        }
        Ok(())
    }

    fn remap_pages(
        &self,
        old_range: Range<usize>,
        new_range: Range<usize>,
        _permissions: MemoryRegionPermissions,
    ) -> Result<usize, RemapError> {
        self.note(format!("move {:x} to {:x}", old_range.start, new_range.start));
        Ok(new_range.start)
    }

    fn update_permissions(
        &self,
        range: Range<usize>,
        new_permissions: MemoryRegionPermissions,
    ) -> Result<(), PermissionUpdateError> {
        self.note(format!("protect {:x}-{:x} {}", range.start, range.end, new_permissions.bits()));
        Ok(())
    }

    fn reserved_pages(&self) -> Vec<Range<usize>> {
        vec![0x2_0000..0x2_1000]
    }

    fn read_guest_bytes(&self, address: usize, length: usize) -> Option<Vec<u8>> {
        if self.refuses("read") {
            return None;
        }
        let bytes = self.bytes.lock().unwrap();
        let at = address % 0x4000;
        Some(bytes[at..at + length].to_vec())
    }

    fn write_guest_bytes(&self, address: usize, bytes: &Vec<u8>) -> bool {
        let at = address % 0x4000;
        self.bytes.lock().unwrap()[at..at + bytes.len()].copy_from_slice(bytes);
        true
    }

    fn capture_private_backing(
        &self,
        range: Range<usize>,
        _mode: CaptureMode,
    ) -> Result<PrivateBackingLease, CaptureBackingError> {
        snapshot_bytes(self, range)
    }

    fn restore_private_backing(
        &self,
        lease: PrivateBackingLease,
        gva: usize,
    ) -> Result<(), RestoreBackingError> {
        write_snapshot(self, lease, gva)
    }

    fn has_independent_view_space(_view: VmViewId) -> bool {
        OWN
    }

    fn materialize_inherited_range(
        _view: VmViewId,
        _range: Range<usize>,
        _permissions: MemoryRegionPermissions,
        _holders: &Vec<(Range<usize>, VmViewId)>,
    ) -> Result<(), PermissionUpdateError> {
        if OWN {
            Ok(())
        } else {
            Err(PermissionUpdateError::Unallocated)
        }
    }

    fn commit_wx_flip(page: usize, want_execute: bool, _expected_generation: u64) -> WxFlipOutcome {
        if want_execute && page == 0x10_0000 {
            WxFlipOutcome::Committed(2048)
        } else {
            WxFlipOutcome::StaleGeneration
        }
    }
}

impl<const OWN: bool> VmemPageFaultHandler for Host<OWN> {
    fn handle_page_fault(
        &self,
        fault_addr: usize,
        flags: VmFlags,
        error_code: u64,
    ) -> Result<(), PageFaultError> {
        self.note(format!("fault {:x} {:x} {}", fault_addr, flags.bits(), error_code));
        Ok(())
    }

    fn access_error(error_code: u64, flags: VmFlags) -> bool {
        error_code == 2 && !flags.contains(VmFlags::VM_WRITE)
    }
}

struct World<const OWN: bool> {
    host: &'static Host<OWN>,
    manager: PageManager<Host<OWN>, PAGE>,
}

fn world<const OWN: bool>() -> World<OWN> {
    let host = Host::<OWN>::leaked();
    let manager = PageManager::new(host, &mut DomainIds::new(), &mut SharedFutexIds::new());
    World { host, manager }
}

impl<const OWN: bool> World<OWN> {
    fn guest(&mut self, n: u64) -> GuestAccess {
        let domain = self.manager.guest_va_domain_mut();
        let family = domain.register_family().unwrap();
        let owner = (ProcessInstanceId { raw: n }, TaskInstanceId { raw: n });
        let view = domain.register_view(family, owner).unwrap();
        domain.activate_view(view).unwrap();
        GuestAccess { view, task: TaskInstanceId { raw: n } }
    }

    fn forked(&mut self, from: GuestAccess, n: u64) -> GuestAccess {
        let domain = self.manager.guest_va_domain_mut();
        let parent = domain.family_of_view(from.view).unwrap();
        let family = domain.register_family_from(parent).unwrap();
        let owner = (ProcessInstanceId { raw: n }, TaskInstanceId { raw: n });
        let view = domain.register_view(family, owner).unwrap();
        domain.activate_view(view).unwrap();
        GuestAccess { view, task: TaskInstanceId { raw: n } }
    }

    fn map(&mut self, access: Option<GuestAccess>, start: usize, bytes: usize) {
        let got = self.manager.create_writable_pages(access, at(start), size(bytes), fixed(), |_| Ok(0));
        assert_eq!(got, Ok(start));
    }

    fn layout(&self) -> Vec<(Range<usize>, u32)> {
        self.manager.mappings().into_iter().map(|(r, f)| (r, f.bits())).collect()
    }

    fn custody(&self, guest: GuestAccess, address: usize) -> Custody {
        self.manager.guest_va_domain().custody_at(guest.view, address)
    }
}

fn size(bytes: usize) -> NonZeroPageSize<PAGE> {
    NonZeroPageSize::new(bytes).unwrap()
}

fn at(address: usize) -> Option<NonZeroAddress<PAGE>> {
    NonZeroAddress::new(address)
}

fn fixed() -> CreatePagesFlags {
    CreatePagesFlags::empty().union(CreatePagesFlags::FIXED_ADDR)
}

const RESERVED: (Range<usize>, u32) = (0x2_0000..0x2_1000, 0);

#[test]
fn new_manager_holds_the_platforms_pages() {
    let w = world::<false>();
    assert_eq!(w.layout(), vec![RESERVED]);
    assert_eq!(w.manager.guest_va_domain().aperture(), MIN..MAX);
    assert_eq!(w.manager.mappings_snapshot(), w.manager.mappings());
}

#[test]
fn guest_mapping_is_published_for_its_view() {
    let mut w = world::<false>();
    let guest = w.guest(1);
    w.map(Some(guest), 0x10_0000, 0x2000);
    assert_eq!(w.layout(), vec![RESERVED, (0x10_0000..0x10_2000, 0x73)]);
    assert!(matches!(w.custody(guest, 0x10_1fff), Custody::Present { view, .. } if view == guest.view));
    assert_eq!(w.host.take(), vec!["map 100000-102000 3"]);
}

#[test]
fn host_mapping_is_published_for_nobody() {
    let mut w = world::<false>();
    let guest = w.guest(1);
    w.map(None, 0x10_0000, 0x1000);
    assert!(matches!(w.custody(guest, 0x10_0000), Custody::Unclaimed));
}

#[test]
fn executable_pages_are_filled_before_they_are_sealed() {
    let mut w = world::<false>();
    let filled = std::cell::Cell::new(0usize);
    let got = w.manager.create_executable_pages(None, at(0x10_0000), size(0x1000), fixed(), |start| {
        filled.set(start);
        Ok(0)
    });
    assert_eq!(got, Ok(0x10_0000));
    assert_eq!(filled.get(), 0x10_0000);
    assert_eq!(w.host.take(), vec!["map 100000-101000 3", "protect 100000-101000 5"]);
    assert_eq!(w.layout()[1], (0x10_0000..0x10_1000, 0x75));
}

#[test]
fn failed_initialization_is_torn_down() {
    let mut w = world::<false>();
    let guest = w.guest(1);
    let got = w.manager.create_readable_pages(Some(guest), at(0x10_0000), size(0x1000), fixed(), |_| {
        Err(MappingError::NotAFile)
    });
    assert_eq!(got, Err(MappingError::NotAFile));
    assert_eq!(w.layout(), vec![RESERVED]);
    assert_eq!(w.host.take(), vec!["map 100000-101000 3", "unmap 100000-101000"]);
}

#[test]
fn failed_cleanup_reports_both_errors() {
    let mut w = world::<false>();
    w.host.refuse("unmap");
    let got = w.manager.create_readable_pages(None, at(0x10_0000), size(0x1000), fixed(), |_| {
        Err(MappingError::Io(5))
    });
    assert_eq!(
        got,
        Err(MappingError::Cleanup {
            primary: Box::new(MappingError::Io(5)),
            cleanup: VmemUnmapError::UnmapError(DeallocationError::AlreadyUnallocated),
        })
    );
}

#[test]
fn mapping_removed_during_initialization_is_reported() {
    let mut w = world::<false>();
    let (start, identity) = w
        .manager
        .begin_create(
            None,
            at(0x10_0000),
            size(0x2000),
            fixed(),
            MemoryRegionPermissions::from_bits(3).unwrap(),
            None,
        )
        .unwrap();
    w.manager.remove_pages(None, 0x10_0000, 0x1000).unwrap();
    let range = PageRange::new(start, start + 0x2000).unwrap();
    let got = w.manager.finish_create(
        None,
        range,
        identity,
        MemoryRegionPermissions::from_bits(1).unwrap(),
        Ok(0),
    );
    assert_eq!(got, Err(MappingError::ConcurrentlyRemoved));
    assert_eq!(w.layout(), vec![RESERVED]);
}

#[test]
fn stack_pages_can_grow_down() {
    let mut w = world::<false>();
    let got = w.manager.create_stack_pages(None, at(0x10_0000), size(0x2000), fixed());
    assert_eq!(got, Ok(0x10_0000));
    assert_eq!(w.layout()[1], (0x10_0000..0x10_2000, 0x173));
}

#[test]
fn shared_mapping_shows_its_backing() {
    let mut w = world::<false>();
    let mut ids = SharedFutexIds::new();
    let backing = SharedFutexBacking::new(&mut ids);
    assert_ne!(backing, SharedFutexBacking::new(&mut ids));
    let rw = MemoryRegionPermissions::from_bits(3).unwrap();
    let flags = fixed().union(CreatePagesFlags::SHARED);
    w.manager
        .create_pages_with_shared_futex_backing(
            None,
            at(0x10_0000),
            size(0x1000),
            flags,
            rw,
            rw,
            Some((backing, 0x3000)),
            |_| Ok(0),
        )
        .unwrap();
    let guard = w.manager.lock_mappings();
    assert_eq!(guard.shared_futex_key_at(0x10_0010), Some((backing.identity(), 0x3010)));
    assert_eq!(guard.shared_futex_key_at(0x20_0000), None);
    assert_eq!(guard.flags_at(0x10_0000).map(|f| f.bits()), Some(0x7b));
    assert!(guard.may_read_u32(0x10_0000));
    assert!(!guard.may_read_u32(0x100));
}

#[test]
fn removal_retires_custody() {
    let mut w = world::<false>();
    let guest = w.guest(1);
    w.map(Some(guest), 0x10_0000, 0x2000);
    w.host.take();
    w.manager.remove_pages(Some(guest), 0x10_0000, 0x1000).unwrap();
    assert_eq!(w.host.take(), vec!["unmap 100000-101000"]);
    assert_eq!(w.layout(), vec![RESERVED, (0x10_1000..0x10_2000, 0x73)]);
    assert!(matches!(w.custody(guest, 0x10_0000), Custody::Hole { .. }));
    assert!(matches!(w.custody(guest, 0x10_1000), Custody::Present { .. }));
    assert_eq!(
        w.manager.remove_pages(Some(guest), 0x10_0001, 0x1000),
        Err(VmemUnmapError::UnAligned)
    );
}

#[test]
fn removal_leaves_other_families_alone() {
    let mut w = world::<false>();
    let a = w.guest(1);
    let b = w.guest(2);
    w.map(Some(a), 0x10_0000, 0x1000);
    w.manager.remove_pages(Some(b), 0x10_0000, 0x1000).unwrap();
    assert_eq!(w.layout(), vec![RESERVED, (0x10_0000..0x10_1000, 0x73)]);
    assert!(matches!(w.custody(a, 0x10_0000), Custody::Present { .. }));
}

#[test]
fn parent_lets_go_but_the_mapping_stays_for_the_child() {
    let mut w = world::<true>();
    let parent = w.guest(1);
    w.map(Some(parent), 0x10_0000, 0x1000);
    let child = w.forked(parent, 2);
    w.manager.remove_pages(Some(parent), 0x10_0000, 0x1000).unwrap();
    assert_eq!(w.layout(), vec![RESERVED, (0x10_0000..0x10_1000, 0x73)]);
    assert!(matches!(w.custody(parent, 0x10_0000), Custody::Hole { .. }));
    assert!(matches!(
        w.manager.guest_va_domain().custody_at_via_lineage(child.view, 0x10_0000),
        Custody::Present { view, .. } if view == parent.view
    ));
}

#[test]
fn protection_reaches_as_far_as_the_view_may_act() {
    let mut w = world::<false>();
    let guest = w.guest(1);
    w.map(Some(guest), 0x10_0000, 0x1000);
    w.map(None, 0x10_1000, 0x1000);
    assert_eq!(
        w.manager.make_pages_readable(Some(guest), 0x10_0000, 0x2000),
        Err(VmemProtectError::InvalidRange(0x10_1000..0x10_2000))
    );
    assert_eq!(
        w.layout()[1..].to_vec(),
        vec![(0x10_0000..0x10_1000, 0x71), (0x10_1000..0x10_2000, 0x73)]
    );
    assert_eq!(
        w.manager.make_pages_readable(Some(guest), 0x10_1000, 0x1000),
        Err(VmemProtectError::InvalidRange(0x10_1000..0x10_2000))
    );
    w.manager.make_pages_executable(None, 0x10_1000, 0x1000).unwrap();
    w.manager.make_pages_rwx(None, 0x10_0000, 0x1000).unwrap();
    assert_eq!(
        w.layout()[1..].to_vec(),
        vec![(0x10_0000..0x10_1000, 0x77), (0x10_1000..0x10_2000, 0x75)]
    );
    w.manager.make_pages_inaccessible(None, 0x10_0000, 0x2000).unwrap();
    w.manager.make_pages_writable(None, 0x10_0000, 0x1000).unwrap();
    assert_eq!(
        w.layout()[1..].to_vec(),
        vec![(0x10_0000..0x10_1000, 0x73), (0x10_1000..0x10_2000, 0x70)]
    );
}

#[test]
fn break_moves_up_and_down() {
    let mut w = world::<false>();
    let guest = w.guest(1);
    assert_eq!(w.manager.brk(Some(guest), 0x10_2000), Err(MappingError::OutOfMemory));
    w.manager.set_initial_brk(0x10_0000);
    assert_eq!(w.manager.brk(Some(guest), 0), Ok(0x10_0000));
    assert_eq!(w.manager.brk(Some(guest), 0x10_1800), Ok(0x10_1800));
    assert_eq!(w.layout()[1].0, 0x10_0000..0x10_2000);
    assert_eq!(w.manager.brk(Some(guest), 0x10_0800), Ok(0x10_0800));
    assert_eq!(w.layout()[1].0, 0x10_0000..0x10_1000);
    assert_eq!(w.manager.swap_brk(0x30_0000), 0x10_0800);
}

#[test]
fn released_memory_is_what_the_caller_names() {
    let mut w = world::<false>();
    w.map(None, 0x10_0000, 0x2000);
    w.map(None, 0x10_4000, 0x1000);
    w.manager
        .release_memory(None, |range, flags| {
            if flags.contains(VmFlags::VM_WRITE) && range.start == 0x10_0000 {
                vec![0x10_1000..0x10_2000]
            } else {
                Vec::new()
            }
        })
        .unwrap();
    assert_eq!(
        w.layout()[1..].to_vec(),
        vec![(0x10_0000..0x10_1000, 0x73), (0x10_4000..0x10_5000, 0x73)]
    );
}

#[test]
fn reset_needs_aligned_mapped_memory() {
    let mut w = world::<false>();
    let guest = w.guest(1);
    w.map(Some(guest), 0x10_0000, 0x1000);
    w.manager.reset_pages(Some(guest), 0x10_0000, 0x1000, false).unwrap();
    assert_eq!(
        w.manager.reset_pages(Some(guest), 0x10_0001, 0x1000, false),
        Err(VmemResetError::UnAligned)
    );
    assert_eq!(
        w.manager.reset_pages(None, 0x20_0000, 0x1000, false),
        Err(VmemResetError::AlreadyUnallocated)
    );
    assert!(matches!(w.custody(guest, 0x10_0000), Custody::Present { .. }));
}

#[test]
fn remap_grows_in_place_or_moves() {
    let mut w = world::<false>();
    w.map(None, 0x10_0000, 0x1000);
    assert_eq!(w.manager.remap_pages(None, 0x10_0000, 0x1000, 0x2000, false), Ok(0x10_0000));
    w.map(None, 0x10_2000, 0x1000);
    w.manager.make_pages_readable(None, 0x10_2000, 0x1000).unwrap();
    let moved = w.manager.remap_pages(None, 0x10_0000, 0x2000, 0x4000, true).unwrap();
    assert_eq!(moved, MAX - 0x4000);
    assert!(w.manager.remap_pages(None, 0x10_2000, 0x1000, 0x1001, false).is_err());
    assert_eq!(
        w.layout()[1..].to_vec(),
        vec![(0x10_2000..0x10_3000, 0x71), (MAX - 0x4000..MAX, 0x73)]
    );
}

#[test]
fn resize_is_possible_unless_it_grows_out_of_the_task_range() {
    let mut w = world::<false>();
    w.map(None, MAX - 0x2000, 0x1000);
    assert!(w.manager.can_remap(MAX - 0x2000, 0x1000, 0x2000));
    assert!(!w.manager.can_remap(MAX - 0x2000, 0x1000, 0x3000));
    assert!(w.manager.can_remap(MAX - 0x2000, 0x1000, 0x3001));
    assert!(w.manager.can_remap(MAX - 0x1000, 0x1000, 0x3000));
    assert!(!w.manager.can_remap(MAX - 0x2000, 0x1000, usize::MAX - 0xfff));
    assert!(!w.manager.can_remap(usize::MAX, 2, 2));
    let guest = w.guest(1);
    assert_eq!(
        w.manager.remap_pages(Some(guest), MAX - 0x2000, 0x1000, 0x3000, true),
        Err(RemapError::AlreadyUnallocated)
    );
    assert_eq!(
        w.manager.remap_pages(None, MAX - 0x2000, 0x1000, 0x3001, true),
        Err(RemapError::Unaligned)
    );
}

#[test]
fn wiped_ranges_are_reset_in_the_child() {
    let mut w = world::<false>();
    w.map(None, 0x10_0000, 0x2000);
    w.manager.set_wipe_on_fork(0x10_0000, 0x1000, true).unwrap();
    assert_eq!(
        w.manager.set_wipe_on_fork(0x10_0001, 0x1000, true),
        Err(VmemWipeOnForkError::UnAligned)
    );
    assert_eq!(w.manager.ranges_to_wipe_on_fork(), vec![(
        0x10_0000..0x10_1000,
        VmFlags::from_bits(0x473).unwrap()
    )]);
    w.host.take();
    let wiped = w.manager.wipe_on_fork_child(|range, _| vec![range]);
    assert_eq!(wiped, 0x1000);
    assert!(!w.host.take().is_empty());
    w.manager.set_dont_fork(0x10_1000, 0x1000, true).unwrap();
    assert_eq!(w.manager.ranges_to_dont_fork().len(), 1);
    assert_eq!(w.manager.dont_fork_child(|range, _| vec![range]), 0);
}

#[test]
fn only_writable_ranges_are_wiped_in_place() {
    let mut w = world::<false>();
    w.map(None, 0x10_0000, 0x2000);
    w.manager.make_pages_readable(None, 0x10_0000, 0x1000).unwrap();
    w.manager.set_wipe_on_fork(0x10_0000, 0x1000, true).unwrap();
    w.host.take();
    assert_eq!(w.manager.wipe_on_fork_child(|range, _| vec![range]), 0);
    assert!(w.host.take().is_empty());
    w.manager.set_wipe_on_fork(0x10_1000, 0x1000, true).unwrap();
    assert_eq!(w.manager.wipe_on_fork_child(|range, _| vec![range]), 0x1000);
    assert_eq!(w.host.take(), vec!["map 101000-102000 3"]);
}

#[test]
fn read_only_ranges_are_renewed_in_the_childs_view() {
    let mut w = world::<true>();
    let parent = w.guest(1);
    w.map(Some(parent), 0x10_0000, 0x1000);
    w.manager.make_pages_readable(Some(parent), 0x10_0000, 0x1000).unwrap();
    w.manager.set_wipe_on_fork(0x10_0000, 0x1000, true).unwrap();
    let child = w.forked(parent, 2);
    assert_eq!(w.manager.wipe_on_fork_child_view(child.view, |range, _| vec![range]), 0x1000);
}

#[test]
fn wiped_ranges_are_the_childs_own_in_its_view() {
    let mut w = world::<true>();
    let parent = w.guest(1);
    w.map(Some(parent), 0x10_0000, 0x2000);
    w.manager.set_wipe_on_fork(0x10_0000, 0x1000, true).unwrap();
    let child = w.forked(parent, 2);
    let before = w.layout();
    w.host.take();
    assert_eq!(w.manager.wipe_on_fork_child_view(child.view, |range, _| vec![range]), 0x1000);
    assert!(w.host.take().is_empty());
    assert_eq!(w.layout(), before);
    assert!(matches!(w.custody(child, 0x10_0000), Custody::Present { view, .. } if view == child.view));
    assert!(matches!(w.custody(child, 0x10_1000), Custody::Unclaimed));
    assert!(matches!(w.custody(parent, 0x10_0000), Custody::Present { view, .. } if view == parent.view));
    assert_eq!(w.manager.wipe_on_fork_child_view(child.view, |_, _| Vec::new()), 0);
}

#[test]
fn refused_wipe_leaves_the_child_what_it_inherits() {
    let mut w = world::<false>();
    let parent = w.guest(1);
    w.map(Some(parent), 0x10_0000, 0x1000);
    w.manager.set_wipe_on_fork(0x10_0000, 0x1000, true).unwrap();
    let child = w.forked(parent, 2);
    assert_eq!(w.manager.wipe_on_fork_child_view(child.view, |range, _| vec![range]), 0);
    assert!(matches!(w.custody(child, 0x10_0000), Custody::Unclaimed));
}

#[test]
fn forked_child_protects_what_it_inherits_for_itself_alone() {
    let mut w = world::<true>();
    let parent = w.guest(1);
    w.map(Some(parent), 0x10_0000, 0x2000);
    let child = w.forked(parent, 2);
    let before = w.layout();
    w.host.take();
    assert_eq!(w.manager.make_pages_readable(Some(child), 0x10_0000, 0x1000), Ok(()));
    assert!(w.host.take().is_empty());
    assert_eq!(w.layout(), before);
    assert!(matches!(w.custody(child, 0x10_0000), Custody::Present { view, .. } if view == child.view));
    assert!(matches!(w.custody(child, 0x10_1000), Custody::Unclaimed));
    assert!(matches!(w.custody(parent, 0x10_0000), Custody::Present { view, .. } if view == parent.view));
}

#[test]
fn existing_mapping_is_entered_once() {
    let mut w = world::<false>();
    let guest = w.guest(1);
    let range = PageRange::new(0x10_0000, 0x10_2000).unwrap();
    let read = MemoryRegionPermissions::from_bits(1).unwrap();
    let done = w.manager.register_existing_mapping(Some(guest), range, read, true, false, false);
    assert_eq!(done, Some(()));
    assert_eq!(w.layout()[1], (0x10_0000..0x10_2000, 0x71));
    let again = w.manager.register_existing_mapping(Some(guest), range, read, true, false, false);
    assert_eq!(again, None);
    let replaced = w.manager.register_existing_mapping(Some(guest), range, read, true, true, true);
    assert_eq!(replaced, Some(()));
    assert_eq!(w.layout()[1], (0x10_0000..0x10_2000, 0x79));
    assert!(w.host.take().is_empty());
    assert_eq!(
        w.manager.get_memory_permissions(at(0x10_0000).unwrap(), size(0x1000)).map(|p| p.bits()),
        Some(9)
    );
}

#[test]
fn guest_range_is_checked_against_view_and_pages() {
    let mut w = world::<false>();
    let guest = w.guest(1);
    w.map(Some(guest), 0x10_0000, 0x1000);
    let lease = w.manager.checked_guest_range(guest.view, 0x10_0010..0x10_0020, true).unwrap();
    w.manager.release_lease(lease);
    w.manager.make_pages_readable(None, 0x10_0000, 0x1000).unwrap();
    assert_eq!(
        w.manager.checked_guest_range(guest.view, 0x10_0010..0x10_0020, true).err(),
        Some(GuestAccessError::NotMapped)
    );
    assert!(w.manager.checked_guest_range(guest.view, 0x10_0010..0x10_0020, false).is_ok());
    assert_eq!(
        w.manager.checked_guest_range(guest.view, 0x10..0x20, false).err(),
        Some(GuestAccessError::OutOfAperture)
    );
    assert_eq!(
        w.manager.checked_guest_range(VmViewId { raw: 99 }, 0x10_0010..0x10_0020, false).err(),
        Some(GuestAccessError::Domain(DomainConflict::NotFound))
    );
}

#[test]
fn external_reservations_steer_their_owner() {
    let mut w = world::<false>();
    let a = w.guest(1);
    w.manager.reserve_external(MAX - 0x1000..MAX, a.view);
    let mine = w
        .manager
        .create_writable_pages(Some(a), None, size(0x1000), CreatePagesFlags::empty(), |_| Ok(0))
        .unwrap();
    assert!(mine + 0x1000 <= MAX - 0x1000);
    w.manager.release_external(MAX - 0x1000..MAX, a.view);
    let next = w
        .manager
        .create_writable_pages(Some(a), None, size(0x1000), CreatePagesFlags::empty(), |_| Ok(0))
        .unwrap();
    assert_eq!(next, MAX - 0x1000);
}

#[test]
fn captured_pages_are_restored() {
    let mut w = world::<false>();
    w.map(None, 0x10_0000, 0x1000);
    w.host.bytes.lock().unwrap()[5] = 42;
    let mut generations = IdCounter::new();
    let run = w
        .manager
        .capture_private_backing(&mut generations, 0x10_0000..0x10_1000, CaptureMode::ForkClone)
        .unwrap();
    assert_eq!((run.range.clone(), run.generation.raw, run.lease.len()), (0x10_0000..0x10_1000, 1, 0x1000));
    w.host.bytes.lock().unwrap()[5] = 0;
    let area = VmArea::new(VmFlags::from_bits(0x73).unwrap(), false, None);
    let busy = w.manager.restore_private_backing(run.lease.clone(), 0x10_0000, area);
    assert_eq!(busy, Err(RestoreBackingError::AddressInUse));
    w.manager.remove_pages(None, 0x10_0000, 0x1000).unwrap();
    let done = w.manager.restore_private_backing(run.lease.clone(), 0x10_0000, area);
    assert_eq!(done, Ok(0x10_0000));
    assert_eq!(w.host.bytes.lock().unwrap()[5], 42);
    assert_eq!(
        w.manager.restore_private_backing(
            PrivateBackingLease::ByteSnapshot(vec![1; 10]),
            0x30_0000,
            area
        ),
        Err(RestoreBackingError::LengthMismatch)
    );
}

#[test]
fn unreadable_pages_are_not_captured() {
    let w = world::<false>();
    let mut generations = IdCounter::new();
    w.host.refuse("read");
    let got =
        w.manager.capture_private_backing(&mut generations, 0x10_0000..0x10_1000, CaptureMode::Retain);
    assert_eq!(got.err(), Some(CaptureBackingError::NotCapturable));
    let got =
        w.manager.capture_private_backing(&mut generations, 0x10_1000..0x10_1000, CaptureMode::Retain);
    assert_eq!(got.err(), Some(CaptureBackingError::Unaligned));
}

#[test]
fn copied_remap_moves_the_bytes() {
    let host = Host::<false>::leaked();
    host.bytes.lock().unwrap()[0x10] = 9;
    let rw = MemoryRegionPermissions::from_bits(3).unwrap();
    let got = remap_by_copy(host, 0x10_0000..0x10_1000, 0x20_1000..0x20_3000, rw);
    assert_eq!(got, Ok(0x20_1000));
    assert_eq!(host.bytes.lock().unwrap()[0x1010], 9);
    assert_eq!(host.take(), vec!["map 201000-203000 3", "unmap 100000-101000"]);
    host.refuse("map");
    assert_eq!(
        remap_by_copy(host, 0x20_1000..0x20_3000, 0x10_0000..0x10_3000, rw),
        Err(RemapError::OutOfMemory)
    );
}

#[test]
fn committed_flip_is_entered_in_the_ledger() {
    let mut w = world::<false>();
    let guest = w.guest(1);
    let mut ledger = WxLedger::new();
    let request = WxFlipRequest { page: 0x10_0000, want_execute: true, expected_generation: 0 };
    let refused = w.manager.commit_wx_flip(Some(guest), &mut ledger, request);
    assert!(!matches!(refused, WxFlipOutcome::Committed(_)));
    w.map(Some(guest), 0x10_0000, 0x1000);
    let outcome = w.manager.commit_wx_flip(Some(guest), &mut ledger, request);
    assert!(matches!(outcome, WxFlipOutcome::Committed(2048)));
    let entries = ledger.snapshot();
    assert_eq!(entries.len(), 1);
    assert_eq!((entries[0].view, entries[0].page, entries[0].executable), (guest.view, 0x10_0000, true));
    assert_eq!(ledger.latency_histogram().0[1], 1);
}

struct Counters {
    gate: EffectGate,
    sessions: IdCounter,
    failures: IdCounter,
}

fn counters() -> Counters {
    Counters { gate: EffectGate::new(), sessions: IdCounter::new(), failures: IdCounter::new() }
}

fn fault<const OWN: bool>(
    w: &mut World<OWN>,
    c: &mut Counters,
    guest: Option<GuestAccess>,
    rlimit: Option<usize>,
    address: usize,
    code: u64,
) -> FaultOutcome {
    w.manager.handle_page_fault(
        guest,
        rlimit,
        address,
        code,
        &mut c.gate,
        &mut c.sessions,
        &mut c.failures,
    )
}

#[test]
fn fault_on_a_mapped_page_goes_to_the_platform() {
    let mut w = world::<false>();
    let mut c = counters();
    let guest = w.guest(1);
    w.map(Some(guest), 0x10_0000, 0x1000);
    w.host.take();
    let done = fault(&mut w, &mut c, Some(guest), None, 0x10_0123, 2);
    assert!(matches!(done, FaultOutcome::Done(Ok(()))));
    assert_eq!(w.host.take(), vec!["fault 100000 73 2"]);
    w.manager.make_pages_readable(Some(guest), 0x10_0000, 0x1000).unwrap();
    let refused = fault(&mut w, &mut c, Some(guest), None, 0x10_0123, 2);
    assert!(matches!(refused, FaultOutcome::Done(Err(PageFaultError::AccessError(_)))));
}

#[test]
fn fault_on_another_familys_page_is_refused() {
    let mut w = world::<false>();
    let mut c = counters();
    let a = w.guest(1);
    let b = w.guest(2);
    w.map(Some(a), 0x10_0000, 0x1000);
    w.host.take();
    let refused = fault(&mut w, &mut c, Some(b), None, 0x10_0000, 1);
    assert!(matches!(refused, FaultOutcome::Done(Err(PageFaultError::AccessError(_)))));
    assert!(w.host.take().is_empty());
    let inherited = w.forked(a, 3);
    let served = fault(&mut w, &mut c, Some(inherited), None, 0x10_0000, 1);
    assert!(matches!(served, FaultOutcome::Done(Ok(()))));
}

#[test]
fn fault_below_a_stack_grows_it() {
    let mut w = world::<false>();
    let mut c = counters();
    let guest = w.guest(1);
    w.manager.create_stack_pages(Some(guest), at(0x100_0000), size(0x2000), fixed()).unwrap();
    w.host.take();
    assert!(matches!(
        w.manager.plan_fault(Some(guest), None, 0xff_e123),
        FaultPlan::Grow { page: 0xff_e000, .. }
    ));
    let done = fault(&mut w, &mut c, Some(guest), None, 0xff_e123, 2);
    assert!(matches!(done, FaultOutcome::Done(Ok(()))));
    assert_eq!(w.host.take(), vec!["map ffe000-1000000 3", "fault ffe000 173 2"]);
    assert_eq!(w.layout()[1], (0xff_e000..0x100_2000, 0x173));
    assert!(matches!(w.custody(guest, 0xff_e000), Custody::Present { view, .. } if view == guest.view));
    assert_eq!(c.gate.current_owner_raw(), 0);
}

#[test]
fn stack_keeps_its_distance() {
    let mut w = world::<false>();
    let guest = w.guest(1);
    w.manager.create_stack_pages(Some(guest), at(0x10_0000), size(0x2000), fixed()).unwrap();
    assert!(matches!(
        w.manager.plan_fault(Some(guest), None, 0xf_f000),
        FaultPlan::Refuse(PageFaultError::AllocationFailed)
    ));
}

#[test]
fn stack_growth_stops_at_the_limit() {
    let mut w = world::<false>();
    let guest = w.guest(1);
    w.manager.create_stack_pages(Some(guest), at(0x100_0000), size(0x2000), fixed()).unwrap();
    assert!(matches!(
        w.manager.plan_fault(Some(guest), Some(0x2000), 0xff_f000),
        FaultPlan::Refuse(PageFaultError::AllocationFailed)
    ));
    assert!(matches!(
        w.manager.plan_fault(Some(guest), Some(0x3000), 0xff_f000),
        FaultPlan::Grow { .. }
    ));
}

#[test]
fn busy_gate_hands_the_growth_back() {
    let mut w = world::<false>();
    let mut c = counters();
    let guest = w.guest(1);
    w.manager.create_stack_pages(Some(guest), at(0x100_0000), size(0x2000), fixed()).unwrap();
    assert!(c.gate.acquire(TaskInstanceId { raw: 77 }));
    let growth = match fault(&mut w, &mut c, Some(guest), None, 0xff_f000, 2) {
        FaultOutcome::Busy(growth) => growth,
        FaultOutcome::Done(_) => panic!("another task is inside"),
    };
    assert_eq!(w.layout()[1].0, 0x100_0000..0x100_2000);
    c.gate.release();
    let done =
        w.manager.resume_page_fault(growth, 2, &mut c.gate, &mut c.sessions, &mut c.failures);
    assert!(matches!(done, FaultOutcome::Done(Ok(()))));
    assert_eq!(w.layout()[1].0, 0xff_f000..0x100_2000);
}

#[test]
fn search_keeps_clear_of_a_stack_and_goes_on_below_it() {
    let mut w = world::<false>();
    w.manager.create_stack_pages(None, at(0x2000_0000), size(0x2000), fixed()).unwrap();
    w.map(None, 0x3000_0000, 0x1000);
    let got = w
        .manager
        .create_writable_pages(None, None, size(0x1000_0000), CreatePagesFlags::empty(), |_| Ok(0));
    assert_eq!(got, Ok(0x1000_0000 - 2 * STACK_GUARD_GAP));
}

#[test]
fn break_moves_inside_its_page() {
    let mut w = world::<false>();
    let guest = w.guest(1);
    w.manager.set_initial_brk(0x1_5800);
    let before = w.layout();
    assert_eq!(w.manager.brk(Some(guest), 0x1_5400), Ok(0x1_5400));
    assert_eq!(w.manager.brk(Some(guest), 0), Ok(0x1_5400));
    assert_eq!(w.manager.brk(Some(guest), 0x1_5c00), Ok(0x1_5c00));
    assert_eq!(w.layout(), before);
    assert!(w.host.take().is_empty());
}

#[test]
fn guest_range_may_lie_in_two_areas() {
    let mut w = world::<false>();
    let guest = w.guest(1);
    w.map(Some(guest), 0x10_0000, 0x2000);
    w.manager.make_pages_readable(Some(guest), 0x10_1000, 0x1000).unwrap();
    let family = w.manager.guest_va_domain().family_of_view(guest.view).unwrap();
    let survivors =
        |w: &World<false>| w.manager.guest_va_domain().query_family(family).unwrap().lease_survivors;
    let lease = w.manager.checked_guest_range(guest.view, 0x10_0ff8..0x10_1008, false).unwrap();
    assert_eq!(survivors(&w), 1);
    w.manager.release_lease(lease);
    assert_eq!(
        w.manager.checked_guest_range(guest.view, 0x10_0ff8..0x10_1008, true).err(),
        Some(GuestAccessError::NotMapped)
    );
    assert_eq!(
        w.manager.checked_guest_range(guest.view, 0x10_1ff8..0x10_2008, false).err(),
        Some(GuestAccessError::NotMapped)
    );
    assert_eq!(survivors(&w), 0);
}

#[test]
fn shared_identities_differ_across_address_spaces() {
    let mut domains = DomainIds::new();
    let mut ids = SharedFutexIds::new();
    let host = Host::<false>::leaked();
    let mut one = PageManager::new(host, &mut domains, &mut ids);
    let mut two = PageManager::new(host, &mut domains, &mut ids);
    let outside = SharedFutexBacking::new(&mut ids).identity();
    let shared = |manager: &mut PageManager<Host<false>, PAGE>, start: usize| {
        let rw = MemoryRegionPermissions::from_bits(3).unwrap();
        let flags = fixed().union(CreatePagesFlags::SHARED);
        manager
            .create_pages_with_shared_futex_backing(
                None,
                at(start),
                size(0x1000),
                flags,
                rw,
                rw,
                None,
                |_| Ok(0),
            )
            .unwrap();
        manager.lock_mappings().shared_futex_key_at(start).unwrap().0
    };
    let mut seen = vec![outside];
    seen.push(shared(&mut one, 0x10_0000));
    seen.push(shared(&mut two, 0x10_0000));
    seen.push(shared(&mut two, 0x20_0000));
    let left = two.futex_ids_left();
    two.renew_futex_ids(&mut ids);
    assert_eq!(two.futex_ids_left(), left + 2);
    seen.push(shared(&mut two, 0x30_0000));
    seen.push(SharedFutexBacking::new(&mut ids).identity());
    seen.sort();
    assert!(seen[0] >= 1);
    seen.dedup();
    assert_eq!(seen.len(), 6);
}

#[test]
fn failed_reservation_is_taken_back_without_the_platform() {
    let mut w = world::<false>();
    let flags = CreatePagesFlags::empty();
    let got = w.manager.create_inaccessible_pages(None, None, size(0x2000), flags, |_| {
        Err(MappingError::NotAFile)
    });
    assert_eq!(got, Err(MappingError::NotAFile));
    assert_eq!(w.layout(), vec![RESERVED]);
    assert!(w.host.take().is_empty());
}
