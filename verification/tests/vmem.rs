//! One address space over a recording platform: placing, removing, protecting, resizing, moving.
use core::ops::Range;
use litebox::ids::VmViewId;
use litebox::mm::addr::{NonZeroAddress, NonZeroPageSize, PageRange};
use litebox::mm::area::{SharedFutexIds, VmArea};
use litebox::mm::errors::{
    MappingError, VmemDontForkError, VmemMoveError, VmemProtectError, VmemResetError,
    VmemResizeError, VmemUnmapError, VmemWipeOnForkError,
};
use litebox::mm::flags::{CreatePagesFlags, MemoryRegionPermissions, VmFlags};
use litebox::mm::vmas::VmaMirror;
use litebox::mm::vmem::Vmem;
use litebox::platform::page_mgmt::{
    AllocationError, CaptureBackingError, CaptureMode, DeallocationError, FixedAddressBehavior,
    PageManagementProvider, PermissionUpdateError, PrivateBackingLease, RemapError,
    RestoreBackingError,
};
use std::sync::Mutex;

const PAGE: usize = 4096;
const MIN: usize = 0x1_0000;
const MAX: usize = 0x4000_0000;

/// A host that records what it is asked and refuses what it is told to.
struct Host {
    calls: Mutex<Vec<String>>,
    refused: Mutex<Vec<&'static str>>,
    at_once: bool,
}

impl Host {
    fn leaked(at_once: bool) -> &'static Host {
        Box::leak(Box::new(Host {
            calls: Mutex::new(Vec::new()),
            refused: Mutex::new(Vec::new()),
            at_once,
        }))
    }

    fn refuse(&self, call: &'static str) {
        self.refused.lock().unwrap().push(call);
    }

    fn refuses(&self, call: &str) -> bool {
        self.refused.lock().unwrap().iter().any(|c| *c == call)
    }

    fn take(&self) -> Vec<String> {
        std::mem::take(&mut *self.calls.lock().unwrap())
    }

    fn note(&self, text: String) {
        self.calls.lock().unwrap().push(text);
    }
}

impl PageManagementProvider<PAGE> for Host {
    const TASK_ADDR_MIN: usize = MIN;

    const TASK_ADDR_MAX: usize = MAX;

    fn allocate_pages(
        &self,
        suggested_range: Range<usize>,
        initial_permissions: MemoryRegionPermissions,
        _can_grow_down: bool,
        _populate: bool,
        behavior: FixedAddressBehavior,
    ) -> Result<usize, AllocationError> {
        self.note(format!(
            "map {:x}-{:x} {} {:?}",
            suggested_range.start,
            suggested_range.end,
            initial_permissions.bits(),
            behavior
        ));
        if self.refuses("map") || self.refuses("map high") && suggested_range.start >= 0x10_3000 {
            return Err(AllocationError::OutOfMemory);
        }
        Ok(suggested_range.start)
    }

    fn deallocate_pages(&self, range: Range<usize>) -> Result<(), DeallocationError> {
        self.note(format!("unmap {:x}-{:x}", range.start, range.end));
        if self.refuses("unmap") {
            return Err(DeallocationError::AlreadyUnallocated);
        }
        Ok(())
    }

    fn remap_pages(
        &self,
        old_range: Range<usize>,
        new_range: Range<usize>,
        _permissions: MemoryRegionPermissions,
    ) -> Result<usize, RemapError> {
        self.note(format!("move {:x} to {:x}", old_range.start, new_range.start));
        if self.refuses("move") {
            return Err(RemapError::OutOfMemory);
        }
        Ok(new_range.start)
    }

    fn has_transactional_permission_updates(&self) -> bool {
        self.at_once
    }

    fn update_permissions(
        &self,
        range: Range<usize>,
        new_permissions: MemoryRegionPermissions,
    ) -> Result<(), PermissionUpdateError> {
        self.note(format!("protect {:x}-{:x} {}", range.start, range.end, new_permissions.bits()));
        if self.refuses("protect") {
            return Err(PermissionUpdateError::Unallocated);
        }
        Ok(())
    }

    fn reserved_pages(&self) -> Vec<Range<usize>> {
        Vec::new()
    }

    fn read_guest_bytes(&self, _address: usize, length: usize) -> Option<Vec<u8>> {
        Some(vec![0; length])
    }

    fn write_guest_bytes(&self, _address: usize, _bytes: &Vec<u8>) -> bool {
        true
    }

    fn capture_private_backing(
        &self,
        range: Range<usize>,
        _mode: CaptureMode,
    ) -> Result<PrivateBackingLease, CaptureBackingError> {
        Ok(PrivateBackingLease::ByteSnapshot(vec![7; range.end - range.start]))
    }

    fn restore_private_backing(
        &self,
        _lease: PrivateBackingLease,
        _gva: usize,
    ) -> Result<(), RestoreBackingError> {
        Ok(())
    }
}

fn rw() -> MemoryRegionPermissions {
    MemoryRegionPermissions::from_bits(3).unwrap()
}

fn perms(bits: u8) -> MemoryRegionPermissions {
    MemoryRegionPermissions::from_bits(bits).unwrap()
}

fn range(start: usize, end: usize) -> PageRange<PAGE> {
    PageRange::new(start, end).unwrap()
}

fn size(bytes: usize) -> NonZeroPageSize<PAGE> {
    NonZeroPageSize::new(bytes).unwrap()
}

fn at(address: usize) -> Option<NonZeroAddress<PAGE>> {
    NonZeroAddress::new(address)
}

fn fixed() -> CreatePagesFlags {
    CreatePagesFlags::empty().union(CreatePagesFlags::FIXED_ADDR)
}

fn map(vmem: &mut Vmem<Host, PAGE>, start: usize, bytes: usize, bits: u8) {
    let got = vmem.create_pages(at(start), size(bytes), fixed(), perms(bits), None, None);
    assert_eq!(got.ok(), Some(start));
}

fn reserve(vmem: &mut Vmem<Host, PAGE>, start: usize, bytes: usize) {
    let flags = CreatePagesFlags::empty();
    let got = vmem.create_pages(at(start), size(bytes), flags, perms(0), None, None);
    assert_eq!(got.ok(), Some(start));
}

fn layout(vmem: &Vmem<Host, PAGE>) -> Vec<(usize, usize, u32)> {
    vmem.iter().into_iter().map(|(s, e, area)| (s, e, area.flags().bits())).collect()
}

fn address_space(host: &'static Host) -> Vmem<Host, PAGE> {
    Vmem::new(host, &mut SharedFutexIds::new())
}

#[test]
fn new_space_holds_the_reserved_ranges_without_access() {
    let vmem = Vmem::<Host, PAGE>::with_reserved(
        Host::leaked(false),
        &mut SharedFutexIds::new(),
        vec![0x2_0000..0x2_2000],
    );
    assert_eq!(layout(&vmem), vec![(0x2_0000, 0x2_2000, 0)]);
    assert_eq!(vmem.brk(), 0);
    assert!(layout(&address_space(Host::leaked(false))).is_empty());
}

#[test]
fn fixed_mapping_lands_where_asked() {
    let host = Host::leaked(false);
    let mut vmem = address_space(host);
    map(&mut vmem, 0x10_0000, 0x2000, 3);
    assert_eq!(layout(&vmem), vec![(0x10_0000, 0x10_2000, 0x73)]);
    assert_eq!(host.take(), vec!["map 100000-102000 3 NoReplace"]);
}

#[test]
fn flexible_mapping_goes_to_the_top() {
    let mut vmem = address_space(Host::leaked(false));
    let flags = CreatePagesFlags::empty();
    let first = vmem.create_pages(None, size(0x2000), flags, rw(), None, None).unwrap();
    assert_eq!(first, MAX - 0x2000);
    let second = vmem.create_pages(None, size(0x1000), flags, rw(), None, None).unwrap();
    assert_eq!(second, MAX - 0x3000);
    let hinted = vmem.create_pages(at(0x20_0000), size(0x1000), flags, rw(), None, None).unwrap();
    assert_eq!(hinted, 0x20_0000);
}

#[test]
fn flexible_mapping_avoids_what_its_owner_holds_back() {
    let mut vmem = address_space(Host::leaked(false));
    let (a, b) = (VmViewId { raw: 1 }, VmViewId { raw: 2 });
    vmem.reserve_external(MAX - 0x2000, MAX, a);
    assert_eq!(vmem.find_unmapped_area(None, size(0x1000), false, Some(b)), Some(MAX - 0x1000));
    let mine = vmem.find_unmapped_area(None, size(0x1000), false, Some(a));
    assert_ne!(mine, Some(MAX - 0x1000));
    vmem.release_external(MAX - 0x2000, MAX, a);
    assert_eq!(vmem.find_unmapped_area(None, size(0x1000), false, Some(a)), Some(MAX - 0x1000));
}

#[test]
fn too_large_a_mapping_finds_no_place() {
    let mut vmem = address_space(Host::leaked(false));
    assert_eq!(vmem.find_unmapped_area(None, size(MAX + 0x1000), false, None), None);
    let got =
        vmem.create_pages(None, size(MAX), CreatePagesFlags::empty(), rw(), None, None);
    assert!(matches!(got, Err(MappingError::MapError(_)) | Err(MappingError::OutOfMemory)));
}

#[test]
fn noreplace_refuses_an_occupied_range() {
    let mut vmem = address_space(Host::leaked(false));
    map(&mut vmem, 0x10_0000, 0x2000, 3);
    let flags = fixed().union(CreatePagesFlags::NOREPLACE);
    let got = vmem.create_pages(at(0x10_1000), size(0x2000), flags, rw(), None, None);
    assert!(matches!(got, Err(MappingError::MapError(AllocationError::AddressInUse))));
    assert_eq!(layout(&vmem), vec![(0x10_0000, 0x10_2000, 0x73)]);
}

#[test]
fn insertion_is_admitted_by_what_is_there() {
    let mut vmem = address_space(Host::leaked(false));
    map(&mut vmem, 0x10_0000, 0x2000, 3);
    let area = VmArea::new(VmFlags::from_bits(0x73).unwrap(), false, None);
    let low = vmem.insert_mapping(range(0x1000, 0x2000), area, false, FixedAddressBehavior::Hint);
    assert_eq!(low, Err(AllocationError::BelowMinAddress));
    let high =
        vmem.insert_mapping(range(MAX, MAX + 0x1000), area, false, FixedAddressBehavior::Hint);
    assert_eq!(high, Err(AllocationError::AboveMaxAddress));
    let part = vmem.insert_mapping(
        range(0x10_1000, 0x10_3000),
        area,
        false,
        FixedAddressBehavior::Replace,
    );
    assert_eq!(part, Ok(0x10_1000));
    assert_eq!(layout(&vmem), vec![(0x10_0000, 0x10_3000, 0x73)]);
    let whole = vmem.insert_mapping(
        range(0x10_0000, 0x10_1000),
        area.with_flags(VmFlags::from_bits(0x71).unwrap()),
        false,
        FixedAddressBehavior::Replace,
    );
    assert_eq!(whole, Ok(0x10_0000));
    assert_eq!(
        layout(&vmem),
        vec![(0x10_0000, 0x10_1000, 0x71), (0x10_1000, 0x10_3000, 0x73)]
    );
}

#[test]
fn fixed_creation_replaces_what_is_mapped_and_fills_the_rest() {
    let host = Host::leaked(false);
    let mut vmem = address_space(host);
    map(&mut vmem, 0x10_0000, 0x2000, 3);
    map(&mut vmem, 0x10_3000, 0x1000, 3);
    map(&mut vmem, 0x10_4000, 0x2000, 1);
    host.take();
    let got = vmem.create_pages(at(0x10_1000), size(0x4000), fixed(), perms(1), None, None).unwrap();
    assert_eq!(got, 0x10_1000);
    assert_eq!(
        host.take(),
        vec![
            "map 101000-102000 1 Replace",
            "map 102000-103000 1 NoReplace",
            "map 103000-105000 1 Replace",
        ]
    );
    assert_eq!(
        layout(&vmem),
        vec![(0x10_0000, 0x10_1000, 0x73), (0x10_1000, 0x10_6000, 0x71)]
    );
}

#[test]
fn refused_stretch_leaves_the_rest_as_it_was() {
    let host = Host::leaked(false);
    let mut vmem = address_space(host);
    map(&mut vmem, 0x10_0000, 0x2000, 3);
    map(&mut vmem, 0x10_3000, 0x1000, 3);
    host.take();
    host.refuse("map high");
    let got = vmem.create_pages(at(0x10_1000), size(0x4000), fixed(), perms(1), None, None);
    assert!(matches!(got, Err(MappingError::MapError(AllocationError::OutOfMemory))));
    assert_eq!(host.take().len(), 3);
    assert_eq!(
        layout(&vmem),
        vec![
            (0x10_0000, 0x10_1000, 0x73),
            (0x10_1000, 0x10_3000, 0x71),
            (0x10_3000, 0x10_4000, 0x73),
        ]
    );
}

#[test]
fn stretches_of_a_shared_mapping_show_one_backing() {
    let mut vmem = address_space(Host::leaked(false));
    map(&mut vmem, 0x10_0000, 0x1000, 3);
    map(&mut vmem, 0x10_2000, 0x1000, 3);
    let flags = fixed().union(CreatePagesFlags::SHARED);
    vmem.create_pages(at(0x10_0000), size(0x4000), flags, rw(), None, None).unwrap();
    assert_eq!(layout(&vmem).len(), 1);
    let mut mirror = VmaMirror::new();
    vmem.replay_vma_ops(&mut mirror);
    let first = mirror.shared_futex_key_at(0x10_0000).unwrap();
    let last = mirror.shared_futex_key_at(0x10_3008).unwrap();
    assert_eq!(first.0, last.0);
    assert_eq!((first.1, last.1), (0, 0x3008));
}

#[test]
fn inaccessible_memory_is_reserved_without_the_platform() {
    let host = Host::leaked(false);
    let mut vmem = address_space(host);
    reserve(&mut vmem, 0x10_0000, 0x4000);
    assert!(host.take().is_empty());
    assert_eq!(layout(&vmem), vec![(0x10_0000, 0x10_4000, 0x270)]);
    vmem.protect_mapping(range(0x10_1000, 0x10_2000), rw()).unwrap();
    assert_eq!(host.take(), vec!["map 101000-102000 3 NoReplace"]);
    assert_eq!(
        layout(&vmem),
        vec![
            (0x10_0000, 0x10_1000, 0x270),
            (0x10_1000, 0x10_2000, 0x73),
            (0x10_2000, 0x10_4000, 0x270),
        ]
    );
    vmem.remove_mapping(range(0x10_0000, 0x10_4000)).unwrap();
    assert_eq!(host.take(), vec!["unmap 101000-102000"]);
    assert!(layout(&vmem).is_empty());
}

#[test]
fn reservation_becomes_executable_in_two_steps() {
    let host = Host::leaked(false);
    let mut vmem = address_space(host);
    reserve(&mut vmem, 0x10_0000, 0x1000);
    vmem.protect_mapping(range(0x10_0000, 0x10_1000), perms(5)).unwrap();
    assert_eq!(host.take(), vec!["map 100000-101000 1 NoReplace", "protect 100000-101000 5"]);
}

#[test]
fn removal_contracts_what_it_cuts() {
    let host = Host::leaked(false);
    let mut vmem = address_space(host);
    map(&mut vmem, 0x10_0000, 0x4000, 3);
    host.take();
    vmem.remove_mapping(range(0x10_1000, 0x10_2000)).unwrap();
    assert_eq!(host.take(), vec!["unmap 101000-102000"]);
    assert_eq!(
        layout(&vmem),
        vec![(0x10_0000, 0x10_1000, 0x73), (0x10_2000, 0x10_4000, 0x73)]
    );
    host.refuse("unmap");
    assert_eq!(
        vmem.remove_mapping(range(0x10_2000, 0x10_4000)),
        Err(VmemUnmapError::UnmapError(DeallocationError::AlreadyUnallocated))
    );
    assert_eq!(layout(&vmem).len(), 2);
}

#[test]
fn removal_undoes_an_insertion() {
    let mut vmem = address_space(Host::leaked(false));
    map(&mut vmem, 0x10_0000, 0x1000, 1);
    let before = layout(&vmem);
    map(&mut vmem, 0x10_1000, 0x2000, 3);
    vmem.remove_mapping(range(0x10_1000, 0x10_3000)).unwrap();
    assert_eq!(layout(&vmem), before);
}

#[test]
fn protection_changes_access_and_nothing_else() {
    let host = Host::leaked(false);
    let mut vmem = address_space(host);
    map(&mut vmem, 0x10_0000, 0x4000, 3);
    vmem.set_dont_fork(range(0x10_0000, 0x10_4000), true).unwrap();
    host.take();
    vmem.protect_mapping(range(0x10_1000, 0x10_3000), perms(1)).unwrap();
    assert_eq!(host.take(), vec!["protect 101000-103000 1"]);
    assert_eq!(
        layout(&vmem),
        vec![
            (0x10_0000, 0x10_1000, 0x873),
            (0x10_1000, 0x10_3000, 0x871),
            (0x10_3000, 0x10_4000, 0x873),
        ]
    );
}

#[test]
fn protection_stops_at_a_gap() {
    let host = Host::leaked(false);
    let mut vmem = address_space(host);
    map(&mut vmem, 0x10_0000, 0x1000, 3);
    map(&mut vmem, 0x10_2000, 0x1000, 3);
    let got = vmem.protect_mapping(range(0x10_0000, 0x10_3000), perms(1));
    assert_eq!(got, Err(VmemProtectError::InvalidRange(0x10_0000..0x10_3000)));
    assert_eq!(
        layout(&vmem),
        vec![(0x10_0000, 0x10_1000, 0x71), (0x10_2000, 0x10_3000, 0x73)]
    );
}

#[test]
fn protection_respects_the_ceiling() {
    let mut vmem = address_space(Host::leaked(false));
    let area = VmArea::new(VmFlags::from_bits(0x11).unwrap(), false, None);
    vmem.insert_mapping(range(0x10_0000, 0x10_1000), area, false, FixedAddressBehavior::NoReplace)
        .unwrap();
    let got = vmem.protect_mapping(range(0x10_0000, 0x10_1000), rw());
    assert_eq!(
        got,
        Err(VmemProtectError::NoAccess {
            old: VmFlags::from_bits(0x11).unwrap(),
            new: VmFlags::from_bits(3).unwrap(),
        })
    );
    assert_eq!(vmem.check_permissions(range(0x10_0000, 0x10_1000), perms(1)), Ok(()));
}

#[test]
fn protection_is_at_once_or_piece_by_piece() {
    for at_once in [true, false] {
        let host = Host::leaked(at_once);
        let mut vmem = address_space(host);
        map(&mut vmem, 0x10_0000, 0x1000, 3);
        map(&mut vmem, 0x10_1000, 0x1000, 1);
        map(&mut vmem, 0x10_2000, 0x1000, 3);
        host.take();
        vmem.protect_mapping(range(0x10_0000, 0x10_3000), perms(1)).unwrap();
        let expected: Vec<&str> = if at_once {
            vec!["protect 100000-103000 1"]
        } else {
            vec!["protect 100000-101000 1", "protect 102000-103000 1"]
        };
        assert_eq!(host.take(), expected);
        assert_eq!(layout(&vmem), vec![(0x10_0000, 0x10_3000, 0x71)]);
    }
}

#[test]
fn refused_protection_is_reported() {
    let host = Host::leaked(true);
    let mut vmem = address_space(host);
    map(&mut vmem, 0x10_0000, 0x1000, 3);
    host.refuse("protect");
    assert_eq!(
        vmem.protect_mapping(range(0x10_0000, 0x10_1000), perms(1)),
        Err(VmemProtectError::ProtectError(PermissionUpdateError::Unallocated))
    );
    assert_eq!(layout(&vmem), vec![(0x10_0000, 0x10_1000, 0x73)]);
    reserve(&mut vmem, 0x10_2000, 0x1000);
    host.refuse("map");
    assert_eq!(
        vmem.protect_mapping(range(0x10_2000, 0x10_3000), rw()),
        Err(VmemProtectError::DeferredAllocate(AllocationError::OutOfMemory))
    );
}

#[test]
fn wipe_marks_are_all_or_nothing() {
    let mut vmem = address_space(Host::leaked(false));
    map(&mut vmem, 0x10_0000, 0x2000, 3);
    let file = VmArea::new(VmFlags::from_bits(0x73).unwrap(), true, None);
    vmem.insert_mapping(range(0x10_2000, 0x10_3000), file, false, FixedAddressBehavior::NoReplace)
        .unwrap();
    assert_eq!(
        vmem.set_wipe_on_fork(range(0x10_0000, 0x10_3000), true),
        Err(VmemWipeOnForkError::NotPrivateAnonymous(0x10_2000..0x10_3000))
    );
    assert!(vmem.wipe_on_fork_ranges().is_empty());
    vmem.set_wipe_on_fork(range(0x10_0000, 0x10_1000), true).unwrap();
    let marked: Vec<_> = vmem.wipe_on_fork_ranges().into_iter().map(|(r, _)| r).collect();
    assert_eq!(marked, vec![0x10_0000..0x10_1000]);
    vmem.set_wipe_on_fork(range(0x10_0000, 0x10_1000), false).unwrap();
    assert!(vmem.wipe_on_fork_ranges().is_empty());
    assert_eq!(
        vmem.set_wipe_on_fork(range(0x10_1000, 0x10_2000), false),
        Ok(())
    );
    assert_eq!(
        vmem.set_wipe_on_fork(range(0x20_0000, 0x20_1000), true),
        Err(VmemWipeOnForkError::Unmapped(0x20_0000..0x20_1000))
    );
}

#[test]
fn dont_fork_marks_can_be_taken_back() {
    let mut vmem = address_space(Host::leaked(false));
    map(&mut vmem, 0x10_0000, 0x2000, 3);
    vmem.set_dont_fork(range(0x10_0000, 0x10_1000), true).unwrap();
    let marked: Vec<_> = vmem.dont_fork_ranges().into_iter().map(|(r, f)| (r, f.bits())).collect();
    assert_eq!(marked, vec![(0x10_0000..0x10_1000, 0x873)]);
    vmem.set_dont_fork(range(0x10_0000, 0x10_2000), false).unwrap();
    assert!(vmem.dont_fork_ranges().is_empty());
    assert_eq!(
        vmem.set_dont_fork(range(0x10_1000, 0x10_3000), true),
        Err(VmemDontForkError::Unmapped(0x10_1000..0x10_3000))
    );
    assert!(vmem.dont_fork_ranges().is_empty());
}

#[test]
fn mapping_shrinks_and_grows_in_place() {
    let host = Host::leaked(false);
    let mut vmem = address_space(host);
    map(&mut vmem, 0x10_0000, 0x4000, 3);
    vmem.resize_mapping(range(0x10_0000, 0x10_4000), size(0x2000)).unwrap();
    assert_eq!(layout(&vmem), vec![(0x10_0000, 0x10_2000, 0x73)]);
    vmem.resize_mapping(range(0x10_0000, 0x10_2000), size(0x3000)).unwrap();
    assert_eq!(layout(&vmem), vec![(0x10_0000, 0x10_3000, 0x73)]);
    vmem.resize_mapping(range(0x10_0000, 0x10_3000), size(0x3000)).unwrap();
    map(&mut vmem, 0x10_4000, 0x1000, 1);
    assert_eq!(
        vmem.resize_mapping(range(0x10_0000, 0x10_3000), size(0x5000)),
        Err(VmemResizeError::RangeOccupied(0x10_3000..0x10_5000))
    );
    assert_eq!(
        vmem.resize_mapping(range(0x20_0000, 0x20_1000), size(0x2000)),
        Err(VmemResizeError::NotExist(0x20_0000))
    );
    assert_eq!(
        vmem.resize_mapping(range(0x10_0000, 0x10_4000), size(0x1000)),
        Err(VmemResizeError::InvalidAddr { range: 0x10_0000..0x10_3000, addr: 0x10_4000 })
    );
    host.refuse("map");
    assert_eq!(
        vmem.resize_mapping(range(0x10_4000, 0x10_5000), size(0x2000)),
        Err(VmemResizeError::OutOfMemory)
    );
    host.refuse("unmap");
    assert_eq!(
        vmem.resize_mapping(range(0x10_0000, 0x10_3000), size(0x1000)),
        Err(VmemResizeError::UnmapError(VmemUnmapError::UnmapError(
            DeallocationError::AlreadyUnallocated
        )))
    );
}

#[test]
fn moved_mapping_keeps_its_flags() {
    let host = Host::leaked(false);
    let mut vmem = address_space(host);
    map(&mut vmem, 0x10_0000, 0x2000, 1);
    host.take();
    let to = vmem.move_mappings(range(0x10_0000, 0x10_2000), None, size(0x3000)).unwrap();
    assert_eq!(to, MAX - 0x3000);
    assert_eq!(host.take(), vec!["move 100000 to 3fffd000"]);
    assert_eq!(layout(&vmem), vec![(MAX - 0x3000, MAX, 0x71)]);
    host.refuse("move");
    assert_eq!(
        vmem.move_mappings(range(MAX - 0x3000, MAX), None, size(0x3000)),
        Err(VmemMoveError::RemapError(RemapError::OutOfMemory))
    );
}

#[test]
fn grown_private_file_mapping_gains_anonymous_memory() {
    let mut vmem = address_space(Host::leaked(false));
    let file = VmArea::new(VmFlags::from_bits(0x71).unwrap(), true, None);
    vmem.insert_mapping(range(0x10_0000, 0x10_1000), file, false, FixedAddressBehavior::NoReplace)
        .unwrap();
    vmem.resize_mapping(range(0x10_0000, 0x10_1000), size(0x2000)).unwrap();
    let kinds: Vec<bool> = vmem.iter().into_iter().map(|(_, _, a)| a.is_file_backed()).collect();
    assert_eq!(kinds, vec![true, false]);
}

#[test]
fn reset_replaces_private_anonymous_pages() {
    let host = Host::leaked(false);
    let mut vmem = address_space(host);
    map(&mut vmem, 0x10_0000, 0x2000, 3);
    host.take();
    vmem.reset_pages(range(0x10_0000, 0x10_1000), false).unwrap();
    assert!(!host.take().is_empty());
    assert_eq!(layout(&vmem), vec![(0x10_0000, 0x10_2000, 0x73)]);
    assert_eq!(
        vmem.reset_pages(range(0x10_1000, 0x10_3000), false),
        Err(VmemResetError::AlreadyUnallocated)
    );
    let file = VmArea::new(VmFlags::from_bits(0x73).unwrap(), true, None);
    vmem.insert_mapping(range(0x20_0000, 0x20_1000), file, false, FixedAddressBehavior::NoReplace)
        .unwrap();
    assert_eq!(
        vmem.reset_pages(range(0x20_0000, 0x20_1000), true),
        Err(VmemResetError::FileBacked)
    );
    host.refuse("map");
    assert_eq!(
        vmem.reset_pages(range(0x10_0000, 0x10_1000), false),
        Err(VmemResetError::Platform(AllocationError::OutOfMemory))
    );
}

#[test]
fn initialization_is_owned_until_it_is_finished() {
    let mut vmem = address_space(Host::leaked(false));
    map(&mut vmem, 0x10_0000, 0x2000, 3);
    let identity = vmem.reserve_initialization_id().unwrap();
    vmem.track_initialization(range(0x10_0000, 0x10_2000), identity);
    assert!(vmem.owns_initialization(range(0x10_0000, 0x10_2000), identity));
    assert!(vmem.has_pending_initialization(0x10_1000, 0x10_3000));
    assert_eq!(
        vmem.resize_mapping(range(0x10_0000, 0x10_2000), size(0x1000)),
        Err(VmemResizeError::InitializationPending(0x10_0000..0x10_2000))
    );
    vmem.remove_mapping(range(0x10_1000, 0x10_2000)).unwrap();
    assert!(!vmem.owns_initialization(range(0x10_0000, 0x10_2000), identity));
    assert!(!vmem.finish_initialization(range(0x10_0000, 0x10_2000), identity));
    vmem.cleanup_initialization(range(0x10_0000, 0x10_2000), identity).unwrap();
    assert!(layout(&vmem).is_empty());
}

#[test]
fn mirror_follows_the_table() {
    let mut vmem = address_space(Host::leaked(false));
    let mut mirror = VmaMirror::new();
    map(&mut vmem, 0x10_0000, 0x4000, 3);
    vmem.remove_mapping(range(0x10_1000, 0x10_2000)).unwrap();
    assert!(vmem.has_vma_ops());
    assert!(vmem.replay_vma_ops(&mut mirror) > 0);
    assert!(!vmem.has_vma_ops());
    assert_eq!(
        mirror.iter().into_iter().map(|(s, e, _)| (s, e)).collect::<Vec<_>>(),
        vec![(0x10_0000, 0x10_1000), (0x10_2000, 0x10_4000)]
    );
    assert_eq!(mirror.get_memory_permissions(range(0x10_2000, 0x10_4000)), Some(rw()));
    assert_eq!(mirror.get_memory_permissions(range(0x10_0000, 0x10_4000)), None);
    assert_eq!(mirror.flags_at(0x10_0fff).map(|f| f.bits()), Some(0x73));
    assert_eq!(mirror.flags_at(0x10_1000), None);
}

#[test]
fn search_finds_the_highest_place_that_fits() {
    let mut vmem = address_space(Host::leaked(false));
    let a = VmViewId { raw: 1 };
    map(&mut vmem, MAX - 0x5000, 0x1000, 3);
    vmem.reserve_external(MAX - 0x3000, MAX - 0x2000, a);
    let find = |bytes: usize| vmem.find_unmapped_area(None, size(bytes), false, Some(a));
    assert_eq!(find(0x1000), Some(MAX - 0x1000));
    assert_eq!(find(0x2000), Some(MAX - 0x2000));
    assert_eq!(find(0x3000), Some(MAX - 0x8000));
    assert_eq!(find(MAX - 0x5000 - MIN), Some(MIN));
    assert_eq!(find(MAX - 0x4000 - MIN), None);
}

#[test]
fn every_change_is_logged() {
    let host = Host::leaked(false);
    let mut vmem = address_space(host);
    let mut mirror = VmaMirror::new();
    let mut logged = |vmem: &mut Vmem<Host, PAGE>| vmem.replay_vma_ops(&mut mirror);
    map(&mut vmem, 0x10_0000, 0x2000, 3);
    map(&mut vmem, 0x10_4000, 0x2000, 1);
    assert_eq!(logged(&mut vmem), 2);
    map(&mut vmem, 0x10_1000, 0x4000, 3);
    assert_eq!(logged(&mut vmem), 3);
    vmem.protect_mapping(range(0x10_0000, 0x10_6000), rw()).unwrap();
    assert_eq!(logged(&mut vmem), 2);
    vmem.set_dont_fork(range(0x10_0000, 0x10_1000), true).unwrap();
    assert_eq!(logged(&mut vmem), 3);
    vmem.protect_mapping(range(0x10_2000, 0x10_3000), perms(1)).unwrap();
    assert_eq!(logged(&mut vmem), 4);
    vmem.protect_mapping(range(0x10_2000, 0x10_3000), rw()).unwrap();
    assert_eq!(logged(&mut vmem), 2);
    vmem.set_dont_fork(range(0x10_0000, 0x10_1000), true).unwrap();
    assert_eq!(logged(&mut vmem), 0);
    vmem.reset_pages(range(0x10_0000, 0x10_6000), false).unwrap();
    assert_eq!(logged(&mut vmem), 2);
    vmem.resize_mapping(range(0x10_1000, 0x10_6000), size(0x4000)).unwrap();
    assert_eq!(logged(&mut vmem), 1);
    vmem.resize_mapping(range(0x10_1000, 0x10_5000), size(0x5000)).unwrap();
    assert_eq!(logged(&mut vmem), 1);
    vmem.move_mappings(range(0x10_1000, 0x10_6000), None, size(0x5000)).unwrap();
    assert_eq!(logged(&mut vmem), 2);
    vmem.remove_mapping(range(0x10_0000, 0x10_1000)).unwrap();
    assert_eq!(logged(&mut vmem), 1);
    host.refuse("unmap");
    assert!(vmem.remove_mapping(range(MAX - 0x5000, MAX)).is_err());
    assert!(vmem.resize_mapping(range(MAX - 0x5000, MAX), size(0x1000)).is_err());
    host.refuse("map");
    assert!(vmem.reset_pages(range(MAX - 0x5000, MAX), false).is_err());
    assert_eq!(logged(&mut vmem), 0);
}

#[test]
fn stretches_before_a_refusal_are_logged() {
    let host = Host::leaked(false);
    let mut vmem = address_space(host);
    let mut mirror = VmaMirror::new();
    map(&mut vmem, 0x10_1000, 0x1000, 1);
    vmem.replay_vma_ops(&mut mirror);
    host.refuse("map high");
    assert!(vmem.create_pages(at(0x10_0000), size(0x4000), fixed(), rw(), None, None).is_ok());
    assert_eq!(vmem.replay_vma_ops(&mut mirror), 3);
    vmem.remove_mapping(range(0x10_2000, 0x10_4000)).unwrap();
    map(&mut vmem, 0x10_2000, 0x1000, 1);
    vmem.replay_vma_ops(&mut mirror);
    assert!(vmem.create_pages(at(0x10_2000), size(0x2000), fixed(), rw(), None, None).is_err());
    assert_eq!(vmem.replay_vma_ops(&mut mirror), 1);
}

#[test]
fn initialization_marks_are_logged() {
    let mut vmem = address_space(Host::leaked(false));
    let mut mirror = VmaMirror::new();
    map(&mut vmem, 0x10_0000, 0x2000, 3);
    let identity = vmem.reserve_initialization_id().unwrap();
    vmem.replay_vma_ops(&mut mirror);
    vmem.track_initialization(range(0x10_0000, 0x10_2000), identity);
    assert_eq!(vmem.replay_vma_ops(&mut mirror), 1);
    assert!(vmem.finish_initialization(range(0x10_0000, 0x10_2000), identity));
    assert_eq!(vmem.replay_vma_ops(&mut mirror), 1);
}

#[test]
fn retained_backing_holds_the_same_bytes() {
    let lease = PrivateBackingLease::ByteSnapshot(vec![4, 2]);
    let Ok(PrivateBackingLease::ByteSnapshot(copy)) =
        Host::leaked(false).retain_private_backing(&lease)
    else {
        panic!("an owned copy is retained");
    };
    assert_eq!(copy, vec![4, 2]);
}
