//! The program break, and letting go of memory.
use crate::ids::VmViewId;
use crate::mm::addr::{PageRange, PAGE_SIZE};
use crate::mm::custody::{Custody, CustodyModel};
use crate::mm::errors::{MappingError, VmemResetError, VmemUnmapError};
use crate::mm::flags::{CreatePagesFlags, MemoryRegionPermissions, VmFlags};
use crate::mm::manager::{GuestAccess, PageManager};
use crate::platform::page_mgmt::PageManagementProvider;
use core::ops::Range;
use vstd::prelude::*;

verus! {

use crate::mm::domain::lookup::{lineage_fragments, lineage_models};
use crate::mm::domain::publish::present_confirmed;
use crate::mm::domain::DomainModel;
use crate::mm::flags::{access_of, carries8};
use crate::mm::manager::create::read_write;
use crate::mm::manager::views::{
    actor_prefix_of, all_dropped, drop_asked, joined_span, removed_for_view, spans, whole_pages,
};
use crate::mm::manager::{lists_all, published, retired, ManagerModel};
use crate::mm::vmem::create::{created, created_area, is_deferred};
use crate::mm::vmem::effects::{occupied, removed, reset};
use crate::mm::vmem::initialization::{span, takes_backing};
use crate::mm::vmem::protect::marked_entries;
use crate::mm::vmem::remap::initializing;
use crate::mm::vmem::VmemModel;

/// The next page boundary at or above an address.
pub open spec fn page_up(address: int) -> int {
    (address + PAGE_SIZE - 1) / (PAGE_SIZE as int) * PAGE_SIZE
}

/// The manager with another program break.
pub open spec fn with_brk(m: ManagerModel, brk: usize) -> ManagerModel {
    ManagerModel { vmem: VmemModel { brk, ..m.vmem }, ..m }
}

/// The flags with which the heap is grown.
pub open spec fn heap_flags() -> CreatePagesFlags {
    CreatePagesFlags {
        bits: CreatePagesFlags::FIXED_ADDR | CreatePagesFlags::POPULATE_PAGES_IMMEDIATELY,
    }
}

/// What lowering the program break did, where whole pages are let go. If they cannot be, the break
/// stays.
pub open spec fn heap_shrunk<P: PageManagementProvider<ALIGN>, const ALIGN: usize>(
    platform: &P,
    before: ManagerModel,
    access: Option<GuestAccess>,
    independent: bool,
    pages: (int, int),
    brk: usize,
    after: ManagerModel,
    result: Result<usize, MappingError>,
) -> bool {
    if access is Some && independent && pages.0 < pages.1 {
        exists|mid: ManagerModel, outcome: Result<(), VmemUnmapError>| #[trigger]
            removed_for_view(platform, before, access->0.view, pages, true, mid, outcome)
                && match outcome {
                Ok(()) => after == with_brk(mid, brk) && result == Ok::<usize, MappingError>(brk),
                Err(_) => after == mid && result == Ok::<usize, MappingError>(mid.vmem.brk),
            }
    } else if !whole_pages(pages.0, pages.1, ALIGN as int) {
        after == before && result == Err::<usize, MappingError>(MappingError::UnAligned)
    } else {
        exists|mid: VmemModel, outcome: Result<(), VmemUnmapError>| #[trigger]
            removed(platform, before.vmem, pages.0, pages.1, mid, outcome) && match outcome {
                Ok(()) => after == (ManagerModel {
                    vmem: VmemModel { brk, ..mid },
                    domain: retired(before.domain, access, pages.0, pages.1),
                }) && result == Ok::<usize, MappingError>(brk),
                Err(_) => after == (ManagerModel { vmem: mid, ..before }) && result == Ok::<
                    usize,
                    MappingError,
                >(mid.brk),
            }
    }
}

/// What raising the program break did.
pub open spec fn heap_grown<P: PageManagementProvider<ALIGN>, const ALIGN: usize>(
    platform: &P,
    before: ManagerModel,
    access: Option<GuestAccess>,
    pages: (int, int),
    brk: usize,
    after: ManagerModel,
    result: Result<usize, MappingError>,
) -> bool {
    if occupied(before.vmem.areas, pages.0, pages.1) {
        after == before && result == Err::<usize, MappingError>(MappingError::OutOfMemory)
    } else if !whole_pages(pages.0, pages.1, ALIGN as int) {
        after == with_brk(before, brk) && result == Ok::<usize, MappingError>(brk)
    } else {
        exists|mid: VmemModel, answer: Result<usize, MappingError>| #[trigger]
            created(
                platform,
                before.vmem,
                Some(pages.0),
                pages.1 - pages.0,
                heap_flags(),
                read_write(),
                None,
                None,
                mid,
                answer,
            ) && match answer {
                Err(error) => after == (ManagerModel { vmem: mid, ..before }) && result == Err::<
                    usize,
                    MappingError,
                >(error),
                Ok(_) => after == (ManagerModel {
                    vmem: VmemModel { brk, ..mid },
                    domain: published(before.domain, access, pages.0, pages.1),
                }) && result == Ok::<usize, MappingError>(brk),
            }
    }
}

/// What moving the program break did. Asking for 0 tells where it is; without one set, nothing is
/// moved. A move inside one page touches no mapping.
pub open spec fn brk_moved<P: PageManagementProvider<ALIGN>, const ALIGN: usize>(
    platform: &P,
    before: ManagerModel,
    access: Option<GuestAccess>,
    independent: bool,
    brk: usize,
    after: ManagerModel,
    result: Result<usize, MappingError>,
) -> bool {
    let current = before.vmem.brk;
    let old_end = page_up(current as int);
    let new_end = page_up(brk as int);
    if current == 0 {
        after == before && result == Err::<usize, MappingError>(MappingError::OutOfMemory)
    } else if brk == 0 {
        after == before && result == Ok::<usize, MappingError>(current)
    } else if current >= brk {
        if new_end == old_end {
            after == with_brk(before, brk) && result == Ok::<usize, MappingError>(brk)
        } else if initializing(before.vmem, new_end, old_end) {
            after == before && result == Ok::<usize, MappingError>(current)
        } else {
            heap_shrunk(platform, before, access, independent, (new_end, old_end), brk, after, result)
        }
    } else {
        heap_grown(platform, before, access, (old_end, new_end), brk, after, result)
    }
}

/// Whether a guest's view has an address space of its own, as the platform says.
pub open spec fn space_known<P: PageManagementProvider<ALIGN>, const ALIGN: usize>(
    access: Option<GuestAccess>,
    independent: bool,
) -> bool {
    match access {
        Some(guest) => call_ensures(P::has_independent_view_space, (guest.view,), independent),
        None => !independent,
    }
}

/// What letting go of one range did: on behalf of a view with a space of its own, or for real.
pub open spec fn one_released<P: PageManagementProvider<ALIGN>, const ALIGN: usize>(
    platform: &P,
    before: ManagerModel,
    access: Option<GuestAccess>,
    independent: bool,
    range: (int, int),
    after: ManagerModel,
    result: Result<(), VmemUnmapError>,
) -> bool {
    if access is Some && independent {
        removed_for_view(platform, before, access->0.view, range, true, after, result)
    } else {
        after.domain == before.domain && removed(
            platform,
            before.vmem,
            range.0,
            range.1,
            after.vmem,
            result,
        )
    }
}

/// A part of a mapping, cut off at its edges.
pub open spec fn clamped(part: (int, int), mapping: (int, int)) -> (int, int) {
    (
        if part.0 < mapping.0 {
            mapping.0
        } else {
            part.0
        },
        if part.1 > mapping.1 {
            mapping.1
        } else {
            part.1
        },
    )
}

/// What letting go of parts of one mapping did: in order, until one could not be.
#[verifier::opaque]
pub open spec fn parts_released<P: PageManagementProvider<ALIGN>, const ALIGN: usize>(
    platform: &P,
    before: ManagerModel,
    access: Option<GuestAccess>,
    independent: bool,
    mapping: (int, int),
    parts: Seq<(int, int)>,
    after: ManagerModel,
    result: Result<(), VmemUnmapError>,
) -> bool
    decreases parts.len(),
{
    if parts.len() == 0 {
        after == before && result is Ok
    } else {
        let part = clamped(parts[0], mapping);
        if !whole_pages(part.0, part.1, ALIGN as int) {
            parts_released(
                platform,
                before,
                access,
                independent,
                mapping,
                parts.drop_first(),
                after,
                result,
            )
        } else {
            exists|mid: ManagerModel, outcome: Result<(), VmemUnmapError>| #[trigger]
                one_released(platform, before, access, independent, part, mid, outcome)
                    && match outcome {
                    Err(error) => after == mid && result == Err::<(), VmemUnmapError>(error),
                    Ok(()) => parts_released(
                        platform,
                        mid,
                        access,
                        independent,
                        mapping,
                        parts.drop_first(),
                        after,
                        result,
                    ),
                }
        }
    }
}

/// What letting go of what a caller names of each mapping did.
#[verifier::opaque]
pub open spec fn mappings_released<
    P: PageManagementProvider<ALIGN>,
    const ALIGN: usize,
    F: Fn(Range<usize>, VmFlags) -> Vec<Range<usize>>,
>(
    platform: &P,
    before: ManagerModel,
    access: Option<GuestAccess>,
    independent: bool,
    mappings: Seq<(int, int, VmFlags)>,
    releasable: F,
    after: ManagerModel,
    result: Result<(), VmemUnmapError>,
) -> bool
    decreases mappings.len(),
{
    if mappings.len() == 0 {
        after == before && result is Ok
    } else {
        let (start, end, flags) = mappings[0];
        exists|parts: Vec<Range<usize>>, mid: ManagerModel, outcome: Result<(), VmemUnmapError>|
            #[trigger] call_ensures(releasable, (span(start, end), flags), parts)
                && #[trigger] parts_released(
                platform,
                before,
                access,
                independent,
                (start, end),
                spans(parts@),
                mid,
                outcome,
            ) && match outcome {
                Err(error) => after == mid && result == Err::<(), VmemUnmapError>(error),
                Ok(()) => mappings_released(
                    platform,
                    mid,
                    access,
                    independent,
                    mappings.drop_first(),
                    releasable,
                    after,
                    result,
                ),
            }
    }
}

/// What releasing memory did. The program break stays as it is.
pub open spec fn memory_released<
    P: PageManagementProvider<ALIGN>,
    const ALIGN: usize,
    F: Fn(Range<usize>, VmFlags) -> Vec<Range<usize>>,
>(
    platform: &P,
    before: ManagerModel,
    access: Option<GuestAccess>,
    releasable: F,
    after: ManagerModel,
    result: Result<(), VmemUnmapError>,
) -> bool {
    exists|independent: bool, list: Seq<(Range<usize>, VmFlags)>|
        #[trigger] space_known::<P, ALIGN>(access, independent) && #[trigger] lists_all(
            list,
            before.vmem.areas,
        ) && mappings_released(
            platform,
            before,
            access,
            independent,
            marked_entries(list),
            releasable,
            after,
            result,
        )
}

/// The fragments that a view's unmapping takes away: its own real pages.
pub open spec fn own_fragments(list: Seq<(int, int, CustodyModel, bool)>, view: VmViewId) -> Seq<(int, int)>
    decreases list.len(),
{
    if list.len() == 0 {
        Seq::empty()
    } else {
        let rest = own_fragments(list.drop_last(), view);
        let last = list.last();
        if !last.3 && last.2 is Present && last.2->Present_view == view {
            joined_span(rest, last.0, last.1)
        } else {
            rest
        }
    }
}

/// The fragments that a view only inherited.
pub open spec fn inherited_fragments(list: Seq<(int, int, CustodyModel, bool)>) -> Seq<(int, int)>
    decreases list.len(),
{
    if list.len() == 0 {
        Seq::empty()
    } else {
        let rest = inherited_fragments(list.drop_last());
        let last = list.last();
        if last.3 && (last.2 is Present || last.2 is Retiring) {
            joined_span(rest, last.0, last.1)
        } else {
            rest
        }
    }
}

/// Each of a list of ranges was removed on behalf of a view; refusals are passed over.
#[verifier::opaque]
pub open spec fn each_removed<P: PageManagementProvider<ALIGN>, const ALIGN: usize>(
    platform: &P,
    before: ManagerModel,
    view: VmViewId,
    independent: bool,
    list: Seq<(int, int)>,
    after: ManagerModel,
) -> bool
    decreases list.len(),
{
    if list.len() == 0 {
        after == before
    } else {
        exists|mid: ManagerModel, outcome: Result<(), VmemUnmapError>| #[trigger]
            removed_for_view(platform, before, view, list[0], independent, mid, outcome)
                && each_removed(platform, mid, view, independent, list.drop_first(), after)
    }
}

/// What a guest's unmapping did: its own pages are removed, what it only inherited is dropped from
/// its own space, and anything else in the range is left alone.
pub open spec fn pages_removed<P: PageManagementProvider<ALIGN>, const ALIGN: usize>(
    platform: &P,
    before: ManagerModel,
    access: Option<GuestAccess>,
    range: (int, int),
    after: ManagerModel,
    result: Result<(), VmemUnmapError>,
) -> bool {
    if !whole_pages(range.0, range.1, ALIGN as int) {
        after == before && result == Err::<(), VmemUnmapError>(VmemUnmapError::UnAligned)
    } else {
        match access {
            None => after.domain == before.domain && removed(
                platform,
                before.vmem,
                range.0,
                range.1,
                after.vmem,
                result,
            ),
            Some(guest) => {
                let list = lineage_fragments(before.domain, guest.view, range.0, range.1);
                &&& result is Ok
                &&& all_dropped(platform, inherited_fragments(list))
                &&& exists|independent: bool| #[trigger]
                    call_ensures(P::has_independent_view_space, (guest.view,), independent)
                        && each_removed(
                        platform,
                        before,
                        guest.view,
                        independent,
                        own_fragments(list, guest.view),
                        after,
                    )
            },
        }
    }
}

/// The domain after each of a list of ranges was published for a view.
pub open spec fn each_published(m: DomainModel, list: Seq<(int, int)>, view: VmViewId) -> DomainModel
    decreases list.len(),
{
    if list.len() == 0 {
        m
    } else {
        each_published(
            present_confirmed(m, view, list[0].0, list[0].1).0,
            list.drop_first(),
            view,
        )
    }
}

/// What a guest's reset did: it reaches as far as the guest's view may act. The fresh pages are the
/// view's own.
pub open spec fn pages_reset<P: PageManagementProvider<ALIGN>, const ALIGN: usize>(
    platform: &P,
    before: ManagerModel,
    access: Option<GuestAccess>,
    range: (int, int),
    after: ManagerModel,
    result: Result<(), VmemResetError>,
) -> bool {
    if !whole_pages(range.0, range.1, ALIGN as int) {
        after == before && result == Err::<(), VmemResetError>(VmemResetError::UnAligned)
    } else {
        match access {
            None => after.domain == before.domain && reset(
                platform,
                before.vmem,
                range.0,
                range.1,
                after.vmem,
                result,
            ),
            Some(guest) => exists|independent: bool| #[trigger]
                call_ensures(P::has_independent_view_space, (guest.view,), independent)
                    && view_pages_reset(
                    platform,
                    before,
                    guest.view,
                    range,
                    actor_prefix_of(before.domain, guest.view, range.0, range.1, independent),
                    after,
                    result,
                ),
        }
    }
}

/// [`pages_reset`], for a view that may act on a known prefix of the range.
pub open spec fn view_pages_reset<P: PageManagementProvider<ALIGN>, const ALIGN: usize>(
    platform: &P,
    before: ManagerModel,
    view: VmViewId,
    range: (int, int),
    prefix: (int, Seq<(int, int)>),
    after: ManagerModel,
    result: Result<(), VmemResetError>,
) -> bool {
    if !whole_pages(range.0, prefix.0, ALIGN as int) {
        after == before && result == Err::<(), VmemResetError>(VmemResetError::AlreadyUnallocated)
    } else {
        exists|outcome: Result<(), VmemResetError>| #[trigger]
            reset(platform, before.vmem, range.0, prefix.0, after.vmem, outcome) && match outcome {
                Err(error) => after.domain == before.domain && result == Err::<(), VmemResetError>(
                    error,
                ),
                Ok(()) => {
                    &&& after.domain == each_published(before.domain, prefix.1, view)
                    &&& if prefix.0 != range.1 {
                        result == Err::<(), VmemResetError>(VmemResetError::AlreadyUnallocated)
                    } else {
                        result is Ok
                    }
                },
            }
    }
}

impl<P: PageManagementProvider<ALIGN> + 'static, const ALIGN: usize> PageManager<P, ALIGN> {
    /// The next page boundary at or above an address.
    fn next_page(address: usize) -> (page: usize)
        requires
            address + (PAGE_SIZE - 1) <= usize::MAX,
        ensures
            page == page_up(address as int),
            page >= address,
            page % PAGE_SIZE == 0,
    {
        let up: usize = address + (PAGE_SIZE - 1);
        up / PAGE_SIZE * PAGE_SIZE
    }

    /// Whether the guest's view has an address space of its own.
    pub(crate) fn has_own_space(access: Option<GuestAccess>) -> (independent: bool)
        ensures
            space_known::<P, ALIGN>(access, independent),
    {
        match access {
            Some(guest) => P::has_independent_view_space(guest.view),
            None => false,
        }
    }

    /// Moves the program break. Raising it maps memory, lowering it unmaps memory; 0 asks where it
    /// is. Where the memory cannot be let go, or is still being initialized, the break stays.
    pub fn brk(&mut self, access: Option<GuestAccess>, brk: usize) -> (result: Result<usize, MappingError>)
        requires
            old(self).wf(),
            old(self)@.vmem.brk != 0 && brk != 0 ==> old(self)@.vmem.brk + (PAGE_SIZE - 1)
                <= usize::MAX && brk + (PAGE_SIZE - 1) <= usize::MAX,
        ensures
            final(self).follows(old(self)),
            exists|independent: bool| #[trigger]
                space_known::<P, ALIGN>(access, independent) && brk_moved(
                    final(self).platform(),
                    old(self)@,
                    access,
                    independent,
                    brk,
                    final(self)@,
                    result,
                ),
    {
        let independent = Self::has_own_space(access);
        let ghost first = self@;
        proof {
            assert(space_known::<P, ALIGN>(access, independent));
        }
        let current = self.vmem.brk();
        if current == 0 {
            return Err(MappingError::OutOfMemory);
        }
        if brk == 0 {
            return Ok(current);
        }
        let old_end = Self::next_page(current);
        let new_end = Self::next_page(brk);
        if current >= brk {
            if new_end == old_end {
                self.vmem.set_brk(brk);
                self.sync();
                return Ok(brk);
            }
            if new_end < old_end && self.vmem.has_pending_initialization(new_end, old_end) {
                return Ok(current);
            }
            return self.shrink_heap(access, independent, new_end, old_end, brk);
        }
        self.grow_heap(access, old_end, new_end, brk)
    }

    fn shrink_heap(
        &mut self,
        access: Option<GuestAccess>,
        independent: bool,
        new_end: usize,
        old_end: usize,
        brk: usize,
    ) -> (result: Result<usize, MappingError>)
        requires
            old(self).wf(),
        ensures
            final(self).follows(old(self)),
            heap_shrunk(
                final(self).platform(),
                old(self)@,
                access,
                independent,
                (new_end as int, old_end as int),
                brk,
                final(self)@,
                result,
            ),
    {
        if new_end < old_end && independent {
            if let Some(guest) = access {
                let outcome = self.remove_range_for_view(guest.view, new_end, old_end, true);
                let ghost mid = self@;
                let ghost given = outcome;
                proof {
                    assert(removed_for_view(
                        self.platform(),
                        old(self)@,
                        guest.view,
                        (new_end as int, old_end as int),
                        true,
                        mid,
                        given,
                    ));
                }
                if outcome.is_ok() {
                    self.vmem.set_brk(brk);
                    self.sync();
                    return Ok(brk);
                }
                return Ok(self.vmem.brk());
            }
        }
        let range = match PageRange::<ALIGN>::new(new_end, old_end) {
            Some(range) => range,
            None => {
                return Err(MappingError::UnAligned);
            },
        };
        let outcome = self.vmem.remove_mapping(range);
        let ghost mid = self.vmem@;
        let ghost given = outcome;
        proof {
            assert(removed(
                self.platform(),
                old(self)@.vmem,
                new_end as int,
                old_end as int,
                mid,
                given,
            ));
        }
        if outcome.is_ok() {
            self.vmem.set_brk(brk);
            self.sync();
            self.shadow_retire_present(access, new_end, old_end);
            Ok(brk)
        } else {
            self.sync();
            Ok(self.vmem.brk())
        }
    }

    fn grow_heap(
        &mut self,
        access: Option<GuestAccess>,
        old_end: usize,
        new_end: usize,
        brk: usize,
    ) -> (result: Result<usize, MappingError>)
        requires
            old(self).wf(),
            old_end > 0,
        ensures
            final(self).follows(old(self)),
            heap_grown(
                final(self).platform(),
                old(self)@,
                access,
                (old_end as int, new_end as int),
                brk,
                final(self)@,
                result,
            ),
    {
        if old_end < new_end && self.is_occupied(old_end, new_end) {
            return Err(MappingError::OutOfMemory);
        }
        let range = match PageRange::<ALIGN>::new(old_end, new_end) {
            Some(range) => range,
            None => {
                self.vmem.set_brk(brk);
                self.sync();
                return Ok(brk);
            },
        };
        let (address, length) = range.start_and_length();
        let flags = CreatePagesFlags {
            bits: CreatePagesFlags::FIXED_ADDR | CreatePagesFlags::POPULATE_PAGES_IMMEDIATELY,
        };
        let permissions = MemoryRegionPermissions { bits: 3 };
        proof {
            Self::lemma_heap_flags();
        }
        let answer = self.vmem.create_pages(Some(address), length, flags, permissions, None, None);
        let ghost mid = self.vmem@;
        let ghost given = answer;
        proof {
            assert(created(
                self.platform(),
                old(self)@.vmem,
                Some(old_end as int),
                new_end - old_end,
                heap_flags(),
                read_write(),
                None,
                None,
                mid,
                given,
            ));
        }
        if let Err(error) = answer {
            self.sync();
            return Err(error);
        }
        self.vmem.set_brk(brk);
        self.sync();
        self.shadow_publish_present(access, old_end, new_end);
        Ok(brk)
    }

    /// The heap is neither shared nor leaves room after itself.
    proof fn lemma_heap_flags()
        ensures
            !carries8(heap_flags().bits, CreatePagesFlags::ENSURE_SPACE_AFTER),
            !carries8(heap_flags().bits, CreatePagesFlags::SHARED),
            !carries8(read_write().bits, MemoryRegionPermissions::SHARED),
            !takes_backing(created_area(heap_flags(), read_write(), None)),
    {
        assert((CreatePagesFlags::FIXED_ADDR | CreatePagesFlags::POPULATE_PAGES_IMMEDIATELY)
            & CreatePagesFlags::ENSURE_SPACE_AFTER != CreatePagesFlags::ENSURE_SPACE_AFTER) by (bit_vector);
        assert((CreatePagesFlags::FIXED_ADDR | CreatePagesFlags::POPULATE_PAGES_IMMEDIATELY)
            & CreatePagesFlags::SHARED != CreatePagesFlags::SHARED) by (bit_vector);
        assert(3u8 & MemoryRegionPermissions::SHARED != MemoryRegionPermissions::SHARED) by (bit_vector);
        let access = access_of(read_write());
        let deferred: u32 = if is_deferred(heap_flags(), read_write()) {
            VmFlags::VM_DEFERRED
        } else {
            0
        };
        let stack: u32 = if carries8(heap_flags().bits, CreatePagesFlags::IS_STACK) {
            VmFlags::VM_GROWSDOWN
        } else {
            0
        };
        assert((3u8 & 7) as u32 == 3u32) by (bit_vector);
        assert((access | VmFlags::VM_MAY_ACCESS_FLAGS | deferred | stack) & VmFlags::VM_SHARED
            != VmFlags::VM_SHARED) by (bit_vector)
            requires
                access == 3,
                deferred == 0 || deferred == VmFlags::VM_DEFERRED,
                stack == 0 || stack == VmFlags::VM_GROWSDOWN,
        ;
    }

    /// Lets go of one range.
    fn release_one(
        &mut self,
        access: Option<GuestAccess>,
        independent: bool,
        range: PageRange<ALIGN>,
    ) -> (result: Result<(), VmemUnmapError>)
        requires
            old(self).wf(),
            range.wf(),
        ensures
            final(self).follows(old(self)),
            one_released(
                final(self).platform(),
                old(self)@,
                access,
                independent,
                (range.start as int, range.end as int),
                final(self)@,
                result,
            ),
    {
        if independent {
            if let Some(guest) = access {
                return self.remove_range_for_view(guest.view, range.start, range.end, true);
            }
        }
        let result = self.vmem.remove_mapping(range);
        self.sync();
        result
    }

    /// Lets go of parts of one mapping.
    fn release_parts(
        &mut self,
        access: Option<GuestAccess>,
        independent: bool,
        start: usize,
        end: usize,
        parts: &Vec<Range<usize>>,
    ) -> (result: Result<(), VmemUnmapError>)
        requires
            old(self).wf(),
        ensures
            final(self).follows(old(self)),
            parts_released(
                final(self).platform(),
                old(self)@,
                access,
                independent,
                (start as int, end as int),
                spans(parts@),
                final(self)@,
                result,
            ),
    {
        let ghost platform = self.platform();
        let ghost first = self@;
        let ghost list = spans(parts@);
        let ghost mapping = (start as int, end as int);
        let mut i: usize = 0;
        proof {
            assert(list.skip(0) =~= list);
        }
        while i < parts.len()
            invariant
                self.follows(old(self)),
                platform == self.platform(),
                first == old(self)@,
                i <= parts@.len(),
                list == spans(parts@),
                mapping == (start as int, end as int),
                forall|after: ManagerModel, result: Result<(), VmemUnmapError>| #[trigger]
                    parts_released(
                        platform,
                        self@,
                        access,
                        independent,
                        mapping,
                        list.skip(i as int),
                        after,
                        result,
                    ) ==> parts_released(
                        platform,
                        first,
                        access,
                        independent,
                        mapping,
                        list,
                        after,
                        result,
                    ),
            decreases parts@.len() - i,
        {
            let ghost here = self@;
            let ghost rest = list.skip(i as int);
            let from: usize = if parts[i].start < start {
                start
            } else {
                parts[i].start
            };
            let to: usize = if parts[i].end > end {
                end
            } else {
                parts[i].end
            };
            proof {
                assert(rest[0] == list[i as int]);
                assert(rest.drop_first() =~= list.skip(i + 1));
                assert(clamped(rest[0], mapping) == (from as int, to as int));
            }
            if let Some(range) = PageRange::<ALIGN>::new(from, to) {
                let outcome = self.release_one(access, independent, range);
                let ghost mid = self@;
                let ghost given = outcome;
                proof {
                    assert(one_released(
                        platform,
                        here,
                        access,
                        independent,
                        clamped(rest[0], mapping),
                        mid,
                        given,
                    ));
                }
                if let Err(error) = outcome {
                    proof {
                        reveal(parts_released);
                        assert(parts_released(
                            platform,
                            here,
                            access,
                            independent,
                            mapping,
                            rest,
                            mid,
                            Err::<(), VmemUnmapError>(error),
                        ));
                    }
                    return Err(error);
                }
                proof {
                    assert forall|after: ManagerModel, result: Result<(), VmemUnmapError>| #[trigger]
                        parts_released(
                            platform,
                            mid,
                            access,
                            independent,
                            mapping,
                            list.skip(i + 1),
                            after,
                            result,
                        ) implies parts_released(
                        platform,
                        first,
                        access,
                        independent,
                        mapping,
                        list,
                        after,
                        result,
                    ) by {
                        reveal(parts_released);
                        assert(parts_released(
                            platform,
                            here,
                            access,
                            independent,
                            mapping,
                            rest,
                            after,
                            result,
                        ));
                    }
                }
            } else {
                proof {
                    assert forall|after: ManagerModel, result: Result<(), VmemUnmapError>| #[trigger]
                        parts_released(
                            platform,
                            here,
                            access,
                            independent,
                            mapping,
                            list.skip(i + 1),
                            after,
                            result,
                        ) implies parts_released(
                        platform,
                        first,
                        access,
                        independent,
                        mapping,
                        list,
                        after,
                        result,
                    ) by {
                        reveal(parts_released);
                        assert(parts_released(
                            platform,
                            here,
                            access,
                            independent,
                            mapping,
                            rest,
                            after,
                            result,
                        ));
                    }
                }
            }
            i += 1;
        }
        proof {
            reveal(parts_released);
            assert(parts_released(
                platform,
                self@,
                access,
                independent,
                mapping,
                list.skip(i as int),
                self@,
                Ok::<(), VmemUnmapError>(()),
            ));
        }
        Ok(())
    }

    /// Releases memory. `releasable` is asked once for each mapping and names the parts of it to
    /// let go of: one entry can span mappings of several owners. Parts are cut off at their
    /// mapping. The program break is not touched.
    pub fn release_memory<F: Fn(Range<usize>, VmFlags) -> Vec<Range<usize>>>(
        &mut self,
        access: Option<GuestAccess>,
        releasable: F,
    ) -> (result: Result<(), VmemUnmapError>)
        requires
            old(self).wf(),
            forall|range: Range<usize>, flags: VmFlags| #[trigger]
                call_requires(releasable, (range, flags)),
        ensures
            final(self).follows(old(self)),
            memory_released(
                final(self).platform(),
                old(self)@,
                access,
                releasable,
                final(self)@,
                result,
            ),
    {
        let independent = Self::has_own_space(access);
        let found = self.mappings();
        let ghost platform = self.platform();
        let ghost first = self@;
        let ghost list = marked_entries(found@);
        let mut i: usize = 0;
        proof {
            assert(list.skip(0) =~= list);
            assert(lists_all(found@, first.vmem.areas));
            assert(space_known::<P, ALIGN>(access, independent));
        }
        while i < found.len()
            invariant
                self.follows(old(self)),
                platform == self.platform(),
                first == old(self)@,
                i <= found@.len(),
                list == marked_entries(found@),
                lists_all(found@, first.vmem.areas),
                space_known::<P, ALIGN>(access, independent),
                forall|range: Range<usize>, flags: VmFlags| #[trigger]
                    call_requires(releasable, (range, flags)),
                forall|after: ManagerModel, result: Result<(), VmemUnmapError>| #[trigger]
                    mappings_released(
                        platform,
                        self@,
                        access,
                        independent,
                        list.skip(i as int),
                        releasable,
                        after,
                        result,
                    ) ==> mappings_released(
                        platform,
                        first,
                        access,
                        independent,
                        list,
                        releasable,
                        after,
                        result,
                    ),
            decreases found@.len() - i,
        {
            let ghost here = self@;
            let ghost rest = list.skip(i as int);
            let (start, end, flags) = (found[i].0.start, found[i].0.end, found[i].1);
            proof {
                assert(rest[0] == list[i as int]);
                assert(rest.drop_first() =~= list.skip(i + 1));
                assert(rest[0] == (start as int, end as int, flags));
            }
            let parts = releasable(start..end, flags);
            let outcome = self.release_parts(access, independent, start, end, &parts);
            let ghost mid = self@;
            let ghost given = outcome;
            proof {
                assert(call_ensures(
                    releasable,
                    (span(start as int, end as int), flags),
                    parts,
                ));
            }
            if let Err(error) = outcome {
                proof {
                    reveal(mappings_released);
                    assert(mappings_released(
                        platform,
                        here,
                        access,
                        independent,
                        rest,
                        releasable,
                        mid,
                        Err::<(), VmemUnmapError>(error),
                    ));
                }
                return Err(error);
            }
            proof {
                assert forall|after: ManagerModel, result: Result<(), VmemUnmapError>| #[trigger]
                    mappings_released(
                        platform,
                        mid,
                        access,
                        independent,
                        list.skip(i + 1),
                        releasable,
                        after,
                        result,
                    ) implies mappings_released(
                    platform,
                    first,
                    access,
                    independent,
                    list,
                    releasable,
                    after,
                    result,
                ) by {
                    reveal(mappings_released);
                    assert(mappings_released(
                        platform,
                        here,
                        access,
                        independent,
                        rest,
                        releasable,
                        after,
                        result,
                    ));
                }
            }
            i += 1;
        }
        proof {
            reveal(mappings_released);
            assert(mappings_released(
                platform,
                self@,
                access,
                independent,
                list.skip(i as int),
                releasable,
                self@,
                Ok::<(), VmemUnmapError>(()),
            ));
        }
        Ok(())
    }

    /// What of a range is a view's own, and what it only inherited.
    fn removal_lists(&self, view: VmViewId, start: usize, end: usize) -> (lists: (
        Vec<Range<usize>>,
        Vec<Range<usize>>,
    ))
        requires
            self.wf(),
        ensures
            spans(lists.0@) == own_fragments(
                lineage_fragments(self@.domain, view, start as int, end as int),
                view,
            ),
            spans(lists.1@) == inherited_fragments(
                lineage_fragments(self@.domain, view, start as int, end as int),
            ),
    {
        let found = self.domain.custody_fragments_via_lineage(view, start..end);
        let ghost list = lineage_fragments(self@.domain, view, start as int, end as int);
        let mut own: Vec<Range<usize>> = Vec::new();
        let mut inherited: Vec<Range<usize>> = Vec::new();
        let mut i: usize = 0;
        proof {
            assert(spans(own@) =~= own_fragments(list.take(0), view));
            assert(spans(inherited@) =~= inherited_fragments(list.take(0)));
        }
        while i < found.len()
            invariant
                i <= found@.len(),
                list == lineage_models(found@),
                spans(own@) == own_fragments(list.take(i as int), view),
                spans(inherited@) == inherited_fragments(list.take(i as int)),
            decreases found@.len() - i,
        {
            let (from, to) = (found[i].0.start, found[i].0.end);
            let by_lineage = found[i].2;
            proof {
                assert(list.take(i + 1).drop_last() =~= list.take(i as int));
                assert(list.take(i + 1).last() == list[i as int]);
                assert(list[i as int] == (
                    from as int,
                    to as int,
                    found@[i as int].1@,
                    found@[i as int].2,
                ));
            }
            match &found[i].1 {
                Custody::Present { view: holder, .. } => {
                    if by_lineage {
                        Self::join_span(&mut inherited, from, to);
                    } else if *holder == view {
                        Self::join_span(&mut own, from, to);
                    }
                },
                Custody::Retiring { .. } => {
                    if by_lineage {
                        Self::join_span(&mut inherited, from, to);
                    }
                },
                _ => {},
            }
            i += 1;
        }
        proof {
            assert(list.take(list.len() as int) =~= list);
        }
        (own, inherited)
    }

    /// Removes pages. A guest only ever removes its own view's pages; what the view inherited is
    /// gone from its own space, and stays with the ancestor that holds it.
    pub fn remove_pages(&mut self, access: Option<GuestAccess>, address: usize, len: usize) -> (result: Result<
        (),
        VmemUnmapError,
    >)
        requires
            old(self).wf(),
            address + len <= usize::MAX,
        ensures
            final(self).follows(old(self)),
            pages_removed(
                final(self).platform(),
                old(self)@,
                access,
                (address as int, address + len),
                final(self)@,
                result,
            ),
    {
        let range = match PageRange::<ALIGN>::new(address, address + len) {
            Some(range) => range,
            None => {
                return Err(VmemUnmapError::UnAligned);
            },
        };
        let guest = match access {
            Some(guest) => guest,
            None => {
                let result = self.vmem.remove_mapping(range);
                self.sync();
                return result;
            },
        };
        let view = guest.view;
        let independent = P::has_independent_view_space(view);
        let (own, inherited) = self.removal_lists(view, range.start, range.end);
        let ghost platform = self.platform();
        let ghost first = self@;
        let ghost list = spans(own@);
        let ghost inherited_list = spans(inherited@);
        let mut i: usize = 0;
        proof {
            assert(list.skip(0) =~= list);
        }
        while i < own.len()
            invariant
                self.follows(old(self)),
                platform == self.platform(),
                first == old(self)@,
                i <= own@.len(),
                list == spans(own@),
                forall|after: ManagerModel| #[trigger]
                    each_removed(platform, self@, view, independent, list.skip(i as int), after)
                        ==> each_removed(platform, first, view, independent, list, after),
            decreases own@.len() - i,
        {
            let ghost here = self@;
            let ghost rest = list.skip(i as int);
            proof {
                assert(rest[0] == list[i as int]);
                assert(rest.drop_first() =~= list.skip(i + 1));
            }
            let outcome = self.remove_range_for_view(view, own[i].start, own[i].end, independent);
            proof {
                let mid = self@;
                assert(removed_for_view(platform, here, view, rest[0], independent, mid, outcome));
                assert forall|after: ManagerModel| #[trigger]
                    each_removed(platform, mid, view, independent, list.skip(i + 1), after) implies each_removed(
                    platform,
                    first,
                    view,
                    independent,
                    list,
                    after,
                ) by {
                    reveal(each_removed);
                    assert(each_removed(platform, here, view, independent, rest, after));
                }
            }
            i += 1;
        }
        proof {
            reveal(each_removed);
            assert(each_removed(
                platform,
                self@,
                view,
                independent,
                list.skip(i as int),
                self@,
            ));
        }
        let ghost done = self@;
        let mut k: usize = 0;
        while k < inherited.len()
            invariant
                self.wf(),
                platform == self.platform(),
                self@ == done,
                k <= inherited@.len(),
                inherited_list == spans(inherited@),
                forall|j: int|
                    0 <= j < k ==> drop_asked(
                        platform,
                        (#[trigger] inherited_list[j]).0,
                        inherited_list[j].1,
                    ),
            decreases inherited@.len() - k,
        {
            self.unmap_own_view_only(inherited[k].start, inherited[k].end);
            proof {
                assert(inherited_list[k as int] == (
                    inherited@[k as int].start as int,
                    inherited@[k as int].end as int,
                ));
            }
            k += 1;
        }
        Ok(())
    }

    /// Publishes each of a list of ranges for a view.
    pub(crate) fn publish_each(&mut self, view: VmViewId, list: &Vec<Range<usize>>)
        requires
            old(self).wf(),
        ensures
            final(self).follows(old(self)),
            final(self)@ == (ManagerModel {
                domain: each_published(old(self)@.domain, spans(list@), view),
                ..old(self)@
            }),
    {
        let ghost all = spans(list@);
        let mut i: usize = 0;
        proof {
            assert(all.skip(0) =~= all);
        }
        while i < list.len()
            invariant
                self.follows(old(self)),
                i <= list@.len(),
                all == spans(list@),
                self@.vmem == old(self)@.vmem,
                each_published(self@.domain, all.skip(i as int), view) == each_published(
                    old(self)@.domain,
                    all,
                    view,
                ),
            decreases list@.len() - i,
        {
            proof {
                assert(all.skip(i as int)[0] == all[i as int]);
                assert(all.skip(i as int).drop_first() =~= all.skip(i + 1));
            }
            let _ = self.domain.confirm_present_or_reconcile(view, list[i].start..list[i].end);
            i += 1;
        }
        proof {
            assert(self@ == (ManagerModel {
                domain: each_published(old(self)@.domain, all, view),
                ..old(self)@
            }));
        }
    }

    /// Resets pages without removing their mapping. See [`crate::mm::vmem::Vmem::reset_pages`]. A
    /// guest resets as far as its view may act.
    pub fn reset_pages(
        &mut self,
        access: Option<GuestAccess>,
        address: usize,
        len: usize,
        anonymous_only: bool,
    ) -> (result: Result<(), VmemResetError>)
        requires
            old(self).wf(),
            address + len <= usize::MAX,
        ensures
            final(self).follows(old(self)),
            pages_reset(
                final(self).platform(),
                old(self)@,
                access,
                (address as int, address + len),
                final(self)@,
                result,
            ),
    {
        let end: usize = address + len;
        let range = match PageRange::<ALIGN>::new(address, end) {
            Some(range) => range,
            None => {
                return Err(VmemResetError::UnAligned);
            },
        };
        let guest = match access {
            Some(guest) => guest,
            None => {
                let result = self.vmem.reset_pages(range, anonymous_only);
                self.sync();
                return result;
            },
        };
        let independent = P::has_independent_view_space(guest.view);
        let ghost first = self@;
        let (reach, inherited) = self.actor_prefix(guest.view, address, end, independent);
        let ghost prefix = actor_prefix_of(
            first.domain,
            guest.view,
            address as int,
            address + len,
            independent,
        );
        proof {
            assert(prefix == (reach as int, spans(inherited@)));
        }
        let own = match PageRange::<ALIGN>::new(address, reach) {
            Some(own) => own,
            None => {
                proof {
                    assert(view_pages_reset(
                        self.platform(),
                        first,
                        guest.view,
                        (address as int, address + len),
                        prefix,
                        self@,
                        Err::<(), VmemResetError>(VmemResetError::AlreadyUnallocated),
                    ));
                }
                return Err(VmemResetError::AlreadyUnallocated);
            },
        };
        let outcome = self.vmem.reset_pages(own, anonymous_only);
        self.sync();
        let ghost mid = self@.vmem;
        let ghost given = outcome;
        proof {
            let bounds = (address as int, address + len);
            assert(reset(self.platform(), first.vmem, bounds.0, prefix.0, mid, given));
        }
        if let Err(error) = outcome {
            proof {
                assert(view_pages_reset(
                    self.platform(),
                    first,
                    guest.view,
                    (address as int, address + len),
                    prefix,
                    self@,
                    Err::<(), VmemResetError>(error),
                ));
            }
            return Err(error);
        }
        self.publish_each(guest.view, &inherited);
        let result: Result<(), VmemResetError> = if reach != end {
            Err(VmemResetError::AlreadyUnallocated)
        } else {
            Ok(())
        };
        proof {
            let bounds = (address as int, address + len);
            assert(reset(self.platform(), first.vmem, bounds.0, prefix.0, self@.vmem, given));
            assert(view_pages_reset(
                self.platform(),
                first,
                guest.view,
                bounds,
                prefix,
                self@,
                result,
            ));
        }
        result
    }
}

} // verus!
