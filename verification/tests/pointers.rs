//! Guest memory through validated pointers, and confined to what a view may touch.
use core::ops::Range;
use litebox::ids::{ProcessInstanceId, TaskInstanceId, VmViewId};
use litebox::mm::addr::{NonZeroAddress, NonZeroPageSize};
use litebox::mm::area::SharedFutexIds;
use litebox::mm::domain::DomainIds;
use litebox::mm::flags::{CreatePagesFlags, MemoryRegionPermissions};
use litebox::mm::manager::{GuestAccess, PageManager};
use litebox::platform::common_providers::confined::ViewConfinedAccess;
use litebox::platform::common_providers::runs::BulkStep;
use litebox::platform::common_providers::userspace_pointers::{
    access_runs, access_with_retry, compare_exchange_u32, copy_from_slice, element_at, read_at_offset,
    to_cstring_paged, to_owned_slice, write_at_offset, Access, AccessKind, Fault, NoValidation,
    UserConstPtr, UserMutPtr, ValidateAccess,
};
use litebox::platform::page_mgmt::{
    AllocationError, CaptureBackingError, CaptureMode, DeallocationError, FixedAddressBehavior,
    GuestAccessPreparation, PageManagementProvider, PermissionUpdateError, PrivateBackingLease,
    RemapError, RestoreBackingError,
};
use std::cell::{Cell, RefCell};

const PAGE: usize = 4096;

/// Lets reads through at an offset, and writes nowhere below 0x1000; gives up after three faults.
struct Shifted;

impl ValidateAccess for Shifted {
    fn validate(addr: usize, size: usize) -> Option<usize> {
        if size > 64 {
            None
        } else {
            Some(addr + 0x10_0000)
        }
    }

    fn validate_slice(addr: usize, _size: usize) -> Option<usize> {
        Some(addr + 0x20_0000)
    }

    fn validate_for_write(addr: usize, _size: usize) -> Option<usize> {
        if addr < 0x1000 {
            None
        } else {
            Some(addr)
        }
    }

    fn retry_after_fault(_addr: usize, _size: usize, _write: bool, attempt: u32, _generation: u64) -> bool {
        attempt < 3
    }
}

fn value(addr: usize, write: bool) -> Access {
    Access { kind: AccessKind::Value, addr, size: 4, write }
}

#[test]
fn access_goes_to_the_validated_address() {
    let seen = RefCell::new(Vec::new());
    let perform = |host: usize, offset: usize, len: usize| {
        seen.borrow_mut().push((host, offset, len));
        Ok(7)
    };
    assert_eq!(access_with_retry::<Shifted, i32, _>(value(0x40, false), &perform), Some(7));
    assert_eq!(access_with_retry::<NoValidation, i32, _>(value(0x40, true), &perform), Some(7));
    assert_eq!(access_with_retry::<Shifted, i32, _>(value(0x40, true), &perform), None);
    assert_eq!(*seen.borrow(), vec![(0x10_0040, 0, 4), (0x40, 0, 4)]);
}

#[test]
fn fault_is_retried_as_often_as_the_validator_says() {
    let calls = Cell::new(0);
    let always = |_: usize, _: usize, _: usize| -> Result<i32, Fault> {
        calls.set(calls.get() + 1);
        Err(Fault)
    };
    assert_eq!(access_with_retry::<Shifted, i32, _>(value(0, false), &always), None);
    assert_eq!(calls.get(), 3);
    calls.set(0);
    assert_eq!(access_with_retry::<NoValidation, i32, _>(value(0, false), &always), None);
    assert_eq!(calls.get(), 1);
    calls.set(0);
    let second = |_: usize, _: usize, _: usize| {
        calls.set(calls.get() + 1);
        if calls.get() < 2 {
            Err(Fault)
        } else {
            Ok(5)
        }
    };
    assert_eq!(access_with_retry::<Shifted, i32, _>(value(0, false), &second), Some(5));
}

#[test]
fn elements_are_addressed_by_index() {
    assert_eq!(element_at(0x100, 3, 8), Some(0x118));
    assert_eq!(element_at(0x100, 0, 8), Some(0x100));
    assert_eq!(element_at(0x100, -1, 8), None);
    let host = |host: usize, _: usize, _: usize| Ok(host);
    assert_eq!(read_at_offset::<Shifted, usize, _>(0x100, 2, 4, &host), Some(0x10_0108));
    assert_eq!(read_at_offset::<Shifted, usize, _>(0x100, -2, 4, &host), None);
    assert_eq!(write_at_offset::<Shifted, usize, _>(0x1000, 1, 4, &host), Some(0x1004));
    assert_eq!(write_at_offset::<Shifted, usize, _>(0x100, 1, 1, &host), None);
    assert_eq!(write_at_offset::<Shifted, usize, _>(0x100, 1, 4, &host), Some(0x20_0104));
    assert_eq!(compare_exchange_u32::<Shifted, usize, _>(0x2002, &host), None);
    assert_eq!(compare_exchange_u32::<NoValidation, usize, _>(0, &host), None);
    assert_eq!(compare_exchange_u32::<Shifted, usize, _>(0x2000, &host), Some(0x2000));
}

#[test]
fn slices_are_read_and_written_in_one_run() {
    let read = |host: usize, _: usize, len: usize| Ok(vec![(host >> 20) as u8; len]);
    assert_eq!(to_owned_slice::<Shifted, _>(0x100, 3, 2, &read), Some(vec![2; 6]));
    assert_eq!(to_owned_slice::<Shifted, _>(0x100, 0, 2, &read), Some(Vec::new()));
    let written = Cell::new((0, 0));
    let write = |host: usize, _: usize, len: usize| {
        written.set((host, len));
        Ok(())
    };
    assert_eq!(copy_from_slice::<NoValidation, _>(0x100, 2, 3, 4, &write), Some(()));
    assert_eq!(written.get(), (0x108, 12));
    let span = |host: usize, _: usize, len: usize| Ok((host, len));
    assert_eq!(access_runs::<NoValidation, _, _>(0x40, 8, true, &span), Some((0x40, 8)));
}

#[test]
fn pointers_remember_their_address() {
    assert_eq!(UserConstPtr::<NoValidation, u32>::from_ptr(0x1234).as_usize(), 0x1234);
    assert_eq!(UserMutPtr::<NoValidation, u32>::from_ptr(0x4321).as_usize(), 0x4321);
}

/// A string of `len` letters at `start`, then a zero byte; nothing from `limit` on.
fn letters(start: usize, len: usize, limit: usize, at: usize) -> Option<u8> {
    if at >= limit || at < start {
        None
    } else if at - start < len {
        Some(b'a' + ((at - start) % 26) as u8)
    } else {
        Some(0)
    }
}

#[test]
fn strings_end_at_the_zero_byte() {
    let bulk_calls = RefCell::new(Vec::new());
    for (start, len) in [(0x1000, 5), (0x1ffe, 1), (0x1ffe, 2), (0x1ff0, 5000), (0x1000, 0)] {
        let bulk = |addr: usize, size: usize| {
            bulk_calls.borrow_mut().push((addr, size));
            (addr..addr + size).map(|at| letters(start, len, usize::MAX, at)).collect()
        };
        let byte = |at: usize| letters(start, len, usize::MAX, at);
        let read = to_cstring_paged(start, &bulk, &byte).unwrap();
        let expected: Vec<u8> =
            (start..=start + len).map(|at| letters(start, len, usize::MAX, at).unwrap()).collect();
        assert_eq!(read, expected);
    }
    for (addr, size) in bulk_calls.borrow().iter() {
        assert_eq!(addr / PAGE, (addr + size - 1) / PAGE);
    }
}

#[test]
fn unreadable_string_is_refused() {
    let bulk = |_: usize, _: usize| None;
    let byte = |at: usize| letters(0x1000, 50, 0x1010, at);
    assert_eq!(to_cstring_paged(0x1000, &bulk, &byte), None);
    let byte = |at: usize| letters(0x1000, 5, 0x1010, at);
    assert_eq!(to_cstring_paged(0x1000, &bulk, &byte), Some(b"abcde\0".to_vec()));
}

/// A host that may keep pages apart: page 0x101000 is at 0x900000 where `REDIRECTS`.
struct Host<const REDIRECTS: bool>;

impl<const REDIRECTS: bool> PageManagementProvider<PAGE> for Host<REDIRECTS> {
    const TASK_ADDR_MIN: usize = 0x1_0000;

    const TASK_ADDR_MAX: usize = 0x4000_0000;

    fn allocate_pages(
        &self,
        suggested_range: Range<usize>,
        _initial_permissions: MemoryRegionPermissions,
        _can_grow_down: bool,
        _populate: bool,
        _behavior: FixedAddressBehavior,
    ) -> Result<usize, AllocationError> {
        Ok(suggested_range.start)
    }

    fn deallocate_pages(&self, _range: Range<usize>) -> Result<(), DeallocationError> {
        Ok(())
    }

    fn remap_pages(
        &self,
        _old_range: Range<usize>,
        new_range: Range<usize>,
        _permissions: MemoryRegionPermissions,
    ) -> Result<usize, RemapError> {
        Ok(new_range.start)
    }

    fn update_permissions(
        &self,
        _range: Range<usize>,
        _new_permissions: MemoryRegionPermissions,
    ) -> Result<(), PermissionUpdateError> {
        Ok(())
    }

    fn reserved_pages(&self) -> Vec<Range<usize>> {
        Vec::new()
    }

    fn read_guest_bytes(&self, _address: usize, length: usize) -> Option<Vec<u8>> {
        Some(vec![0; length])
    }

    fn write_guest_bytes(&self, _address: usize, _bytes: &Vec<u8>) -> bool {
        true
    }

    fn capture_private_backing(
        &self,
        range: Range<usize>,
        _mode: CaptureMode,
    ) -> Result<PrivateBackingLease, CaptureBackingError> {
        Ok(PrivateBackingLease::ByteSnapshot(vec![0; range.end - range.start]))
    }

    fn restore_private_backing(
        &self,
        _lease: PrivateBackingLease,
        _gva: usize,
    ) -> Result<(), RestoreBackingError> {
        Ok(())
    }

    fn any_host_redirect_active() -> bool {
        REDIRECTS
    }

    fn resolve_promoted_host_page(_view: VmViewId, page: usize) -> Option<usize> {
        if REDIRECTS && page == 0x10_1000 {
            Some(0x90_0000)
        } else {
            None
        }
    }

    fn prepare_guest_access(
        _view: VmViewId,
        range: Range<usize>,
        write: bool,
        _holders: &Vec<(Range<usize>, VmViewId)>,
    ) -> GuestAccessPreparation {
        GuestAccessPreparation { promoted: Vec::new(), refused: write && range.start < 0x10_0010 }
    }
}

fn confined<const REDIRECTS: bool>() -> (PageManager<Host<REDIRECTS>, PAGE>, VmViewId) {
    let host: &'static Host<REDIRECTS> = Box::leak(Box::new(Host));
    let mut manager = PageManager::new(host, &mut DomainIds::new(), &mut SharedFutexIds::new());
    let domain = manager.guest_va_domain_mut();
    let family = domain.register_family().unwrap();
    let owner = (ProcessInstanceId { raw: 1 }, TaskInstanceId { raw: 1 });
    let view = domain.register_view(family, owner).unwrap();
    domain.activate_view(view).unwrap();
    let guest = GuestAccess { view, task: TaskInstanceId { raw: 1 } };
    manager
        .create_writable_pages(
            Some(guest),
            NonZeroAddress::new(0x10_0000),
            NonZeroPageSize::new(0x3000).unwrap(),
            CreatePagesFlags::empty().union(CreatePagesFlags::FIXED_ADDR),
            |_| Ok(0),
        )
        .unwrap();
    (manager, view)
}

#[test]
fn checked_access_is_in_place_without_redirects() {
    let (mut manager, view) = confined::<false>();
    let mut check = |addr: usize, size: usize, write: bool| {
        ViewConfinedAccess::checked(&mut manager, view, addr, size, write)
    };
    assert_eq!(check(0x10_0100, 8, false), Some(0x10_0100));
    assert_eq!(check(0x10_0100, 0x2000, true), Some(0x10_0100));
    assert_eq!(check(0x10_0000, 8, true), None);
    assert_eq!(check(0x20_0000, 8, false), None);
    assert_eq!(check(0x10_2ffc, 8, false), None);
    assert_eq!(check(usize::MAX, 8, false), None);
    assert_eq!(check(0x50, 0, true), Some(0x50));
}

#[test]
fn redirected_page_is_served_where_it_lies() {
    let (mut manager, view) = confined::<true>();
    let mut check = |addr: usize, size: usize| {
        ViewConfinedAccess::checked(&mut manager, view, addr, size, false)
    };
    assert_eq!(check(0x10_0100, 8), Some(0x10_0100));
    assert_eq!(check(0x10_1100, 8), Some(0x90_0100));
    assert_eq!(check(0x10_0ffc, 8), None);
}

#[test]
fn every_page_of_a_range_is_resolved_in_order() {
    let view = VmViewId { raw: 1 };
    let resolve = <Host<true> as PageManagementProvider<PAGE>>::resolve_promoted_host_pages;
    assert_eq!(resolve(view, 0x10_0000, 0x10_2000), vec![None, Some(0x90_0000), None]);
    assert_eq!(resolve(view, 0x10_1000, 0x10_1000), vec![Some(0x90_0000)]);
    assert_eq!(resolve(view, 0x10_2000, 0x10_1000), vec![]);
    let last = usize::MAX - (PAGE - 1);
    assert_eq!(resolve(view, last - PAGE, last), vec![None, None]);
}

#[test]
fn runs_split_where_the_redirect_changes() {
    let (_, view) = confined::<true>();
    let runs = ViewConfinedAccess::<Host<true>, PAGE>::delta_runs(view, 0x10_0800, 0x10_2400);
    assert_eq!(
        runs,
        Some(vec![(0x10_0800, 0x10_1000), (0x10_1000, 0x10_2000), (0x10_2000, 0x10_2400)])
    );
    let runs = ViewConfinedAccess::<Host<false>, PAGE>::delta_runs(view, 0x10_0800, 0x10_2400);
    assert_eq!(runs, Some(vec![(0x10_0800, 0x10_2400)]));
}

#[test]
fn bulk_access_is_put_together_from_its_runs() {
    let (mut manager, view) = confined::<true>();
    let seen = RefCell::new(Vec::new());
    let read = |host: usize, offset: usize, len: usize| {
        seen.borrow_mut().push((host, offset, len));
        Ok(vec![(host >> 20) as u8; len])
    };
    let bytes =
        ViewConfinedAccess::access_runs(&mut manager, view, 0x10_0ffe, 0x1004, false, &read).unwrap();
    assert_eq!(
        *seen.borrow(),
        vec![(0x10_0ffe, 0, 2), (0x90_0000, 2, 0x1000), (0x10_2000, 0x1002, 2)]
    );
    assert_eq!(bytes.len(), 0x1004);
    assert_eq!((bytes[1], bytes[2], bytes[0x1001], bytes[0x1002]), (1, 9, 9, 1));
    seen.borrow_mut().clear();
    assert_eq!(
        ViewConfinedAccess::access_runs(&mut manager, view, 0x10_2ff0, 0x20, false, &read),
        None
    );
    assert_eq!(
        ViewConfinedAccess::access_runs(&mut manager, view, 0x10_0ffe, 0, false, &read),
        Some(Vec::new())
    );
    assert!(seen.borrow().is_empty());
}

#[test]
fn faulting_run_is_replanned_and_then_refused() {
    let (mut manager, view) = confined::<true>();
    let calls = Cell::new(0);
    let never = |host: usize, _: usize, len: usize| {
        if host >= 0x90_0000 {
            calls.set(calls.get() + 1);
            Err(Fault)
        } else {
            Ok(vec![0; len])
        }
    };
    assert_eq!(
        ViewConfinedAccess::access_runs(&mut manager, view, 0x10_0ffe, 4, false, &never),
        None
    );
    assert_eq!(calls.get(), 9);
    calls.set(0);
    let late = |host: usize, _: usize, len: usize| {
        if host >= 0x90_0000 {
            calls.set(calls.get() + 1);
            if calls.get() < 5 {
                return Err(Fault);
            }
        }
        Ok(vec![1; len])
    };
    assert_eq!(
        ViewConfinedAccess::access_runs(&mut manager, view, 0x10_0ffe, 4, false, &late),
        Some(vec![1; 4])
    );
}

#[test]
fn single_run_is_retried_without_redirects() {
    let (mut manager, view) = confined::<false>();
    let calls = Cell::new(0);
    let third = |_: usize, offset: usize, len: usize| {
        calls.set(calls.get() + 1);
        if calls.get() < 3 {
            Err(Fault)
        } else {
            Ok(vec![offset as u8; len])
        }
    };
    assert_eq!(
        ViewConfinedAccess::access_runs(&mut manager, view, 0x10_0ffe, 4, false, &third),
        Some(vec![0; 4])
    );
    calls.set(-10);
    assert_eq!(
        ViewConfinedAccess::access_runs(&mut manager, view, 0x10_0ffe, 4, false, &third),
        None
    );
    assert_eq!(calls.get(), -7);
}

#[test]
fn access_goes_on_in_steps_with_the_manager_free_between_them() {
    let (mut manager, view) = confined::<true>();
    let mut step = ViewConfinedAccess::begin_access(&mut manager, view, 0x10_0ffe, 0x1004, false);
    let mut copies = Vec::new();
    let mut faults = 2;
    let done = loop {
        match step {
            BulkStep::Copy { host, offset, len, rest } => {
                copies.push((host, offset, len));
                assert!(manager.guest_va_domain().query_view(view).is_some());
                let copied = if host >= 0x90_0000 && faults > 0 {
                    faults -= 1;
                    Err(Fault)
                } else {
                    Ok(())
                };
                step = ViewConfinedAccess::resume_access(&mut manager, rest, copied);
            }
            BulkStep::Done => break true,
            BulkStep::Refused => break false,
        }
    };
    assert!(done);
    let (first, shadow, last) = ((0x10_0ffe, 0, 2), (0x90_0000, 2, 0x1000), (0x10_2000, 0x1002, 2));
    assert_eq!(copies, vec![first, shadow, shadow, shadow, last]);
}

#[test]
fn access_is_refused_where_the_range_changes_under_it() {
    let (mut manager, view) = confined::<true>();
    let guest = GuestAccess { view, task: TaskInstanceId { raw: 1 } };
    let step = ViewConfinedAccess::begin_access(&mut manager, view, 0x10_0ffe, 4, false);
    let BulkStep::Copy { host, offset, len, rest } = step else {
        panic!("the first run is copied");
    };
    assert_eq!((host, offset, len), (0x10_0ffe, 0, 2));
    manager.remove_pages(Some(guest), 0x10_1000, 0x1000).unwrap();
    let step = ViewConfinedAccess::resume_access(&mut manager, rest, Ok(()));
    assert!(matches!(step, BulkStep::Refused));
}

#[test]
fn access_of_nothing_is_done_and_one_that_leaves_the_address_space_is_refused() {
    let (mut manager, view) = confined::<false>();
    let mut begin = |addr: usize, size: usize| {
        ViewConfinedAccess::begin_access(&mut manager, view, addr, size, false)
    };
    assert!(matches!(begin(0x50, 0), BulkStep::Done));
    assert!(matches!(begin(usize::MAX, 2), BulkStep::Refused));
    assert!(matches!(begin(0x20_0000, 8), BulkStep::Refused));
    assert!(matches!(
        begin(0x10_0ffe, 4),
        BulkStep::Copy { host: 0x10_0ffe, offset: 0, len: 4, .. }
    ));
}
