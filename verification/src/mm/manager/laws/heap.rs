//! What moving the program break may touch.
use crate::mm::errors::{MappingError, VmemUnmapError};
use crate::mm::flags::{CreatePagesFlags, MemoryRegionPermissions, VmFlags};
use crate::mm::manager::GuestAccess;
use crate::platform::page_mgmt::{AllocationError, PageManagementProvider};
use vstd::prelude::*;

verus! {

use crate::mm::addr::multiple_of;
use crate::mm::manager::create::read_write;
use crate::mm::manager::laws::lemma_removal_for_a_view_is_confined;
use crate::mm::manager::release::{brk_moved, heap_flags, heap_grown, heap_shrunk, page_up};
use crate::mm::manager::views::{removed_for_view, whole_pages};
use crate::mm::manager::ManagerModel;
use crate::mm::vmem::create::{address_behavior, created, created_area, mapped};
use crate::mm::vmem::effects::{occupied, removed};
use crate::mm::vmem::laws::{lemma_insertion_is_confined, lemma_removal_is_confined, mapped_like};
use crate::mm::vmem::VmemModel;
use crate::range_map::lookup;

/// The least page boundary that is not below an address.
pub open spec fn is_page_end(address: int, end: int) -> bool {
    end % 4096 == 0 && address <= end < address + 4096
}

proof fn lemma_page_up(address: int, end: int)
    requires
        is_page_end(address, end),
        0 <= address,
    ensures
        page_up(address) == end,
{
    assert((address + 4096 - 1) / 4096 * 4096 == end);
}

proof fn lemma_heap_area()
    ensures
        created_area(heap_flags(), read_write(), None).flags.bits & 7 == 3,
        !created_area(heap_flags(), read_write(), None).is_file_backed,
        address_behavior(heap_flags()) == crate::platform::page_mgmt::FixedAddressBehavior::Replace,
        crate::mm::flags::carries8(heap_flags().bits, CreatePagesFlags::FIXED_ADDR),
        !crate::mm::flags::carries8(heap_flags().bits, CreatePagesFlags::ENSURE_SPACE_AFTER),
{
    crate::mm::vmem::laws::creating::lemma_created_area(heap_flags(), read_write(), None);
    let bits: u8 = heap_flags().bits;
    assert((0x1u8 | 0x4u8) & 0x1 != 0 && (0x1u8 | 0x4u8) & 0x8 == 0 && (0x1u8 | 0x4u8) & 0x10 == 0 && (0x1u8
        | 0x4u8) & 0x20 == 0 && (3u8 & 0x7) as u32 == 3) by (bit_vector);
    crate::mm::vmem::laws::creating::lemma_creation_bits(bits);
}

/// Raising the program break replaces nothing: every mapping stays what it was, whatever the outcome.
/// Where anything is mapped in the way, the break stays and nothing changes. Where it succeeds, the
/// break is the one that was asked for, all of the new pages can be read and written, and nothing else
/// is new; where it fails nothing is.
pub proof fn lemma_heap_grows_over_free_memory<P: PageManagementProvider<ALIGN>, const ALIGN: usize>(
    platform: &P,
    before: ManagerModel,
    access: Option<GuestAccess>,
    independent: bool,
    brk: usize,
    after: ManagerModel,
    result: Result<usize, MappingError>,
    old_end: int,
    new_end: int,
    k: int,
)
    requires
        ALIGN > 0,
        brk_moved(platform, before, access, independent, brk, after, result),
        0 < before.vmem.brk < brk,
        is_page_end(before.vmem.brk as int, old_end),
        is_page_end(brk as int, new_end),
        new_end <= usize::MAX,
        old_end % ALIGN as int == 0,
        new_end % ALIGN as int == 0,
    ensures
        lookup(before.vmem.areas, k) is Some ==> lookup(after.vmem.areas, k) == lookup(
            before.vmem.areas,
            k,
        ),
        old_end <= k < new_end && lookup(before.vmem.areas, k) is Some ==> after == before && result
            == Err::<usize, MappingError>(MappingError::OutOfMemory),
        !(old_end <= k < new_end) || result is Err ==> lookup(after.vmem.areas, k) == lookup(
            before.vmem.areas,
            k,
        ),
        result is Ok && old_end <= k < new_end ==> (lookup(after.vmem.areas, k) matches Some(now) && now.flags.bits
            & 7 == 3 && !now.is_file_backed),
        result matches Ok(at) ==> at == brk && after.vmem.brk == brk,
        result is Err ==> after.vmem.brk == before.vmem.brk,
        old_end == new_end ==> result is Ok && after.vmem.areas == before.vmem.areas,
{
    lemma_page_up(before.vmem.brk as int, old_end);
    lemma_page_up(brk as int, new_end);
    lemma_heap_area();
    let areas = before.vmem.areas;
    if occupied(areas, old_end, new_end) {
        assert(old_end < new_end);
    } else {
        assert(old_end <= k < new_end ==> lookup(areas, k) is None);
        if old_end < new_end {
            assert(whole_pages(old_end, new_end, ALIGN as int));
            let area = created_area(heap_flags(), read_write(), None);
            let (mid, answer) = choose|mid: VmemModel, answer: Result<usize, MappingError>| #[trigger]
                created(
                    platform,
                    before.vmem,
                    Some(old_end),
                    new_end - old_end,
                    heap_flags(),
                    read_write(),
                    None,
                    None,
                    mid,
                    answer,
                ) && match answer {
                    Err(error) => after == (ManagerModel { vmem: mid, ..before }) && result == Err::<
                        usize,
                        MappingError,
                    >(error),
                    Ok(_) => after.vmem == (VmemModel { brk, ..mid }) && result == Ok::<
                        usize,
                        MappingError,
                    >(brk),
                };
            let told = choose|told: Result<usize, AllocationError>| #[trigger]
                mapped(
                    platform,
                    before.vmem,
                    Some(old_end),
                    new_end - old_end,
                    area,
                    heap_flags(),
                    None,
                    mid,
                    told,
                ) && answer == crate::mm::vmem::create::created_result(told);
            if mid != before.vmem || told is Ok {
                let reached = lemma_insertion_is_confined(
                    platform,
                    before.vmem,
                    (old_end, new_end),
                    area,
                    crate::mm::flags::carries8(
                        heap_flags().bits,
                        CreatePagesFlags::POPULATE_PAGES_IMMEDIATELY,
                    ),
                    address_behavior(heap_flags()),
                    mid,
                    told,
                );
                if told is Ok && old_end <= k < new_end {
                    assert(mapped_like(mid.areas, k, area));
                }
            }
        } else {
            assert(!whole_pages(old_end, new_end, ALIGN as int));
        }
    }
}

/// Lowering the program break maps nothing and touches nothing but the pages between the two breaks.
/// It always answers, with the break as it then is: the one that was asked for, or the old one if the
/// pages could not be let go. Unless others may rely on them, the pages are then gone, or all there.
pub proof fn lemma_heap_shrinks_by_its_own_pages<P: PageManagementProvider<ALIGN>, const ALIGN: usize>(
    platform: &P,
    before: ManagerModel,
    access: Option<GuestAccess>,
    independent: bool,
    brk: usize,
    after: ManagerModel,
    result: Result<usize, MappingError>,
    old_end: int,
    new_end: int,
    k: int,
)
    requires
        ALIGN > 0,
        brk_moved(platform, before, access, independent, brk, after, result),
        0 < brk <= before.vmem.brk,
        is_page_end(before.vmem.brk as int, old_end),
        is_page_end(brk as int, new_end),
        old_end <= usize::MAX,
        old_end % ALIGN as int == 0,
        new_end % ALIGN as int == 0,
    ensures
        result == Ok::<usize, MappingError>(after.vmem.brk),
        after.vmem.brk == brk || after.vmem.brk == before.vmem.brk,
        !(new_end <= k < old_end) ==> lookup(after.vmem.areas, k) == lookup(before.vmem.areas, k),
        lookup(after.vmem.areas, k) is Some ==> lookup(after.vmem.areas, k) == lookup(
            before.vmem.areas,
            k,
        ),
        access is None || !independent ==> {
            &&& after.vmem.brk != before.vmem.brk && new_end <= k < old_end ==> lookup(
                after.vmem.areas,
                k,
            ) is None
            &&& after.vmem.brk == before.vmem.brk ==> lookup(after.vmem.areas, k) == lookup(
                before.vmem.areas,
                k,
            ) || brk == before.vmem.brk
        },
        new_end <= k < old_end && lookup(before.vmem.pending, k) is Some ==> after == before,
        new_end == old_end ==> after.vmem.brk == brk && after.vmem.areas == before.vmem.areas,
{
    lemma_page_up(before.vmem.brk as int, old_end);
    lemma_page_up(brk as int, new_end);
    let pages = (new_end, old_end);
    if new_end <= k < old_end && lookup(before.vmem.pending, k) is Some {
        assert(crate::mm::vmem::remap::initializing(before.vmem, new_end, old_end));
    }
    if new_end != old_end && !crate::mm::vmem::remap::initializing(before.vmem, new_end, old_end) {
        assert(new_end < old_end);
        assert(heap_shrunk(platform, before, access, independent, pages, brk, after, result));
        if access is Some && independent {
            let (mid, outcome) = choose|mid: ManagerModel, outcome: Result<(), VmemUnmapError>| #[trigger]
                removed_for_view(platform, before, access->0.view, pages, true, mid, outcome)
                    && match outcome {
                    Ok(()) => after == crate::mm::manager::release::with_brk(mid, brk) && result == Ok::<
                        usize,
                        MappingError,
                    >(brk),
                    Err(_) => after == mid && result == Ok::<usize, MappingError>(mid.vmem.brk),
                };
            lemma_removal_for_a_view_is_confined(
                platform,
                before,
                access->0.view,
                pages,
                true,
                mid,
                outcome,
            );
        } else {
            assert(whole_pages(new_end, old_end, ALIGN as int));
            let (mid, outcome) = choose|mid: VmemModel, outcome: Result<(), VmemUnmapError>| #[trigger]
                removed(platform, before.vmem, new_end, old_end, mid, outcome) && match outcome {
                    Ok(()) => after.vmem == (VmemModel { brk, ..mid }) && result == Ok::<
                        usize,
                        MappingError,
                    >(brk),
                    Err(_) => after == (ManagerModel { vmem: mid, ..before }) && result == Ok::<
                        usize,
                        MappingError,
                    >(mid.brk),
                };
            lemma_removal_is_confined(platform, before.vmem, new_end, old_end, mid, outcome);
        }
    }
}

/// Asking for the break 0 tells where it is, and without a break there is nothing to move. Neither
/// changes anything.
pub proof fn lemma_break_is_told<P: PageManagementProvider<ALIGN>, const ALIGN: usize>(
    platform: &P,
    before: ManagerModel,
    access: Option<GuestAccess>,
    independent: bool,
    brk: usize,
    after: ManagerModel,
    result: Result<usize, MappingError>,
)
    requires
        brk_moved(platform, before, access, independent, brk, after, result),
        before.vmem.brk == 0 || brk == 0,
    ensures
        after == before,
        before.vmem.brk == 0 ==> result == Err::<usize, MappingError>(MappingError::OutOfMemory),
        before.vmem.brk != 0 ==> result == Ok::<usize, MappingError>(before.vmem.brk),
{
}

} // verus!
