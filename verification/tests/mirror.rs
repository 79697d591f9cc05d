//! The mirror of the mapping table, and what the platform is told of it.
use core::ops::Range;
use litebox::mm::addr::{NonZeroAddress, NonZeroPageSize};
use litebox::mm::area::SharedFutexIds;
use litebox::mm::domain::DomainIds;
use litebox::mm::flags::{CreatePagesFlags, MemoryRegionPermissions};
use litebox::mm::manager::PageManager;
use litebox::platform::backing::{remap_by_copy, snapshot_bytes, write_snapshot};
use litebox::platform::page_mgmt::{
    AllocationError, CaptureBackingError, CaptureMode, DeallocationError, FixedAddressBehavior,
    MappingLockEvent, PageManagementProvider, PermissionUpdateError, PrivateBackingLease, RemapError,
    RestoreBackingError,
};
use std::sync::atomic::{AtomicUsize, Ordering};

const PAGE: usize = 4096;
const FULL_FROM: usize = 0x20_0000;

/// How often the host was told that changes are about to be replayed.
static REPLAYS: AtomicUsize = AtomicUsize::new(0);

/// A host without memory from an address on.
struct Host;

impl PageManagementProvider<PAGE> for Host {
    const TASK_ADDR_MIN: usize = 0x1_0000;

    const TASK_ADDR_MAX: usize = 0x4000_0000;

    fn allocate_pages(
        &self,
        suggested_range: Range<usize>,
        _initial_permissions: MemoryRegionPermissions,
        _can_grow_down: bool,
        _populate: bool,
        _behavior: FixedAddressBehavior,
    ) -> Result<usize, AllocationError> {
        if suggested_range.start >= FULL_FROM {
            return Err(AllocationError::OutOfMemory);
        }
        Ok(suggested_range.start)
    }

    fn deallocate_pages(&self, _range: Range<usize>) -> Result<(), DeallocationError> {
        Ok(())
    }

    fn remap_pages(
        &self,
        old_range: Range<usize>,
        new_range: Range<usize>,
        permissions: MemoryRegionPermissions,
    ) -> Result<usize, RemapError> {
        remap_by_copy(self, old_range, new_range, permissions)
    }

    fn update_permissions(
        &self,
        _range: Range<usize>,
        _new_permissions: MemoryRegionPermissions,
    ) -> Result<(), PermissionUpdateError> {
        Ok(())
    }

    fn reserved_pages(&self) -> Vec<Range<usize>> {
        Vec::new()
    }

    fn read_guest_bytes(&self, _address: usize, length: usize) -> Option<Vec<u8>> {
        Some(vec![0; length])
    }

    fn write_guest_bytes(&self, _address: usize, _bytes: &Vec<u8>) -> bool {
        true
    }

    fn capture_private_backing(
        &self,
        range: Range<usize>,
        _mode: CaptureMode,
    ) -> Result<PrivateBackingLease, CaptureBackingError> {
        snapshot_bytes(self, range)
    }

    fn restore_private_backing(
        &self,
        lease: PrivateBackingLease,
        gva: usize,
    ) -> Result<(), RestoreBackingError> {
        write_snapshot(self, lease, gva)
    }

    fn mapping_lock_event(event: MappingLockEvent) {
        if event == MappingLockEvent::MirrorReplay {
            REPLAYS.fetch_add(1, Ordering::Relaxed);
        }
    }
}

fn create(manager: &mut PageManager<Host, PAGE>, start: usize) -> bool {
    let flags = CreatePagesFlags::empty().union(CreatePagesFlags::FIXED_ADDR);
    let length = NonZeroPageSize::new(PAGE).unwrap();
    manager.create_writable_pages(None, NonZeroAddress::new(start), length, flags, |_| Ok(0)).is_ok()
}

#[test]
fn replay_is_announced_only_if_the_table_changed() {
    let host: &'static Host = Box::leak(Box::new(Host));
    let mut manager = PageManager::new(host, &mut DomainIds::new(), &mut SharedFutexIds::new());
    let before = REPLAYS.load(Ordering::Relaxed);
    assert!(create(&mut manager, 0x10_0000));
    let after = REPLAYS.load(Ordering::Relaxed);
    assert!(after > before);
    assert!(!create(&mut manager, FULL_FROM));
    assert_eq!(REPLAYS.load(Ordering::Relaxed), after);
    assert_eq!(manager.mappings_snapshot(), manager.mappings());
    assert_eq!(manager.mappings().len(), 1);
}
