//! Where a mapping goes: what a place must be, when one is found, and which of several.
use crate::ids::VmViewId;
use crate::mm::area::VmArea;
use vstd::prelude::*;

verus! {

use crate::mm::flags::lemma_single_flag;
use crate::mm::vmem::effects::occupied;
use crate::mm::vmem::placement::{
    crowds_stack, fits, fits_in, held_back, is_open, is_stack_ahead, lemma_search_is_exact, overlapped,
    top_down, unmapped_area,
};
use crate::mm::vmem::VmemModel;
use crate::range_map::lookup;

/// Nothing is mapped in a range.
pub open spec fn is_free(areas: Map<int, VmArea>, start: int, end: int) -> bool {
    forall|k: int| start <= k < end ==> #[trigger] lookup(areas, k) is None
}

/// Nobody whom a search steers around holds anything of a range back: the owner, or without an owner
/// anybody.
pub open spec fn is_let_go(m: VmemModel, owner: Option<VmViewId>, start: int, end: int) -> bool {
    forall|view: u64, k: int|
        m.reserved.dom().contains(view) && (owner matches Some(only) ==> view == only.raw) && start <= k
            < end ==> !(#[trigger] m.reserved[view].contains(k))
}

/// The first mapping from an address on is no stack, or leaves it room to grow.
pub open spec fn is_clear_of_stacks(areas: Map<int, VmArea>, end: int) -> bool {
    forall|k: int|
        end <= k < end + 0x20_0000 && is_free(areas, end, k) ==> ((#[trigger] lookup(areas, k)) matches Some(
            area,
        ) ==> area.flags.bits & 0x100 == 0)
}

/// There is room for so many bytes at an address.
pub open spec fn has_room(m: VmemModel, owner: Option<VmViewId>, start: int, size: int) -> bool {
    &&& is_free(m.areas, start, start + size)
    &&& is_let_go(m, owner, start, start + size)
    &&& is_clear_of_stacks(m.areas, start + size)
}

proof fn lemma_open(m: VmemModel, owner: Option<VmViewId>, start: int, size: int)
    ensures
        is_open(m, owner, start, size) <==> is_free(m.areas, start, start + size) && is_let_go(
            m,
            owner,
            start,
            start + size,
        ),
{
    let end = start + size;
    if is_open(m, owner, start, size) {
        assert forall|k: int| start <= k < end implies #[trigger] lookup(m.areas, k) is None by {
            if lookup(m.areas, k) is Some {
                assert(occupied(m.areas, start, end));
            }
        }
        assert forall|view: u64, k: int|
            m.reserved.dom().contains(view) && (owner matches Some(only) ==> view == only.raw) && start
                <= k < end implies !(#[trigger] m.reserved[view].contains(k)) by {
            if m.reserved[view].contains(k) {
                assert(overlapped(m.reserved[view], start, end));
                assert(held_back(m.reserved, owner, start, end));
            }
        }
    }
    if is_free(m.areas, start, end) && is_let_go(m, owner, start, end) {
        if held_back(m.reserved, owner, start, end) {
            let view = match owner {
                Some(only) => only.raw,
                None => choose|view: u64| #[trigger]
                    m.reserved.dom().contains(view) && overlapped(m.reserved[view], start, end),
            };
            let k = choose|k: int| start <= k < end && m.reserved[view].contains(k);
            assert(m.reserved[view].contains(k));
        }
    }
}

proof fn lemma_fits(m: VmemModel, owner: Option<VmViewId>, start: int, size: int)
    ensures
        fits(m, owner, start, size) <==> has_room(m, owner, start, size),
{
    let end = start + size;
    lemma_open(m, owner, start, size);
    if !crowds_stack(m.areas, end) {
        assert forall|k: int| end <= k < end + 0x20_0000 && is_free(m.areas, end, k) implies ((
        #[trigger] lookup(m.areas, k)) matches Some(area) ==> area.flags.bits & 0x100 == 0) by {
            if let Some(area) = lookup(m.areas, k) {
                lemma_single_flag(area.flags.bits);
                assert(!is_stack_ahead(m.areas, end, k));
            }
        }
    }
    if is_clear_of_stacks(m.areas, end) {
        if crowds_stack(m.areas, end) {
            let k = choose|k: int| #[trigger] is_stack_ahead(m.areas, end, k);
            lemma_single_flag(lookup(m.areas, k)->0.flags.bits);
            assert forall|j: int| end <= j < k implies #[trigger] lookup(m.areas, j) is None by {
                if lookup(m.areas, j) is Some {
                    assert(occupied(m.areas, end, k));
                }
            }
            assert(is_free(m.areas, end, k));
        }
    }
}

proof fn lemma_search(
    m: VmemModel,
    owner: Option<VmViewId>,
    low: int,
    high: int,
    size: int,
    align: int,
    start: int,
)
    ensures
        top_down(m, owner, low, high, size, align) matches Some(found) ==> low <= found <= high && found
            % align == 0 && has_room(m, owner, found, size),
        low <= start <= high && start % align == 0 && has_room(m, owner, start, size) ==> (top_down(
            m,
            owner,
            low,
            high,
            size,
            align,
        ) matches Some(found) && start <= found),
{
    lemma_search_is_exact(m, owner, low, high, size, align);
    lemma_fits(m, owner, start, size);
    if let Some(found) = top_down(m, owner, low, high, size, align) {
        assert(fits_in(m, owner, low, high, size, align, found));
        lemma_fits(m, owner, found, size);
    }
}

/// A placement that is not fixed succeeds wherever there is room, whatever was suggested.
pub proof fn lemma_room_is_found(
    task: (int, int),
    m: VmemModel,
    suggested: Option<int>,
    size: int,
    owner: Option<VmViewId>,
    align: int,
    start: int,
)
    requires
        0 <= task.0 <= start,
        start + size <= task.1,
        start % align == 0,
        has_room(m, owner, start, size),
    ensures
        unmapped_area(task, m, suggested, size, false, owner, align) is Some,
{
    lemma_search(m, owner, task.0, task.1 - size, size, align, start);
}

/// A placement that is not fixed is free, held back by nobody, inside the task range and at a page,
/// and clear of stacks unless it is just what was suggested.
pub proof fn lemma_place_is_sound(
    task: (int, int),
    m: VmemModel,
    suggested: Option<int>,
    size: int,
    owner: Option<VmViewId>,
    align: int,
)
    requires
        suggested matches Some(address) ==> address % align == 0,
    ensures
        unmapped_area(task, m, suggested, size, false, owner, align) matches Some(found) ==> {
            &&& task.0 <= found
            &&& found + size <= task.1
            &&& found % align == 0
            &&& is_free(m.areas, found, found + size)
            &&& is_let_go(m, owner, found, found + size)
            &&& Some(found) == suggested || is_clear_of_stacks(m.areas, found + size)
        },
{
    let high = task.1 - size;
    lemma_search(m, owner, task.0, high, size, align, 0);
    if let Some(address) = suggested {
        lemma_open(m, owner, address, size);
        lemma_search(m, owner, task.0, address, size, align, 0);
    }
}

/// A suggestion that can be taken is taken. One that cannot bounds the search first: wherever there is
/// room at or below it, the highest such place is taken, and only without any is the search free to
/// go above it.
pub proof fn lemma_suggestion_is_followed(
    task: (int, int),
    m: VmemModel,
    suggested: int,
    size: int,
    owner: Option<VmViewId>,
    align: int,
    start: int,
)
    requires
        0 <= task.0 <= task.1,
        0 <= size,
    ensures
        task.0 <= suggested && suggested + size <= task.1 && is_free(
            m.areas,
            suggested,
            suggested + size,
        ) && is_let_go(m, owner, suggested, suggested + size) ==> unmapped_area(
            task,
            m,
            Some(suggested),
            size,
            false,
            owner,
            align,
        ) == Some(suggested),
        task.0 <= start <= suggested && start + size <= task.1 && start % align == 0 && has_room(
            m,
            owner,
            start,
            size,
        ) ==> (unmapped_area(task, m, Some(suggested), size, false, owner, align) matches Some(found)
            && start <= found <= suggested),
        unmapped_area(task, m, Some(suggested), size, false, owner, align) matches Some(found) ==> found
            > suggested && task.0 <= start && start + size <= task.1 && start % align == 0 && has_room(
            m,
            owner,
            start,
            size,
        ) ==> suggested < start <= found,
{
    let high = task.1 - size;
    lemma_open(m, owner, suggested, size);
    lemma_search(m, owner, task.0, high, size, align, start);
    lemma_search(m, owner, task.0, suggested, size, align, start);
}

/// Without a suggestion the highest place with room is taken.
pub proof fn lemma_highest_place_is_taken(
    task: (int, int),
    m: VmemModel,
    size: int,
    owner: Option<VmViewId>,
    align: int,
    start: int,
)
    requires
        0 <= task.0 <= start,
        start + size <= task.1,
        start % align == 0,
        has_room(m, owner, start, size),
    ensures
        unmapped_area(task, m, None, size, false, owner, align) matches Some(found) && start <= found,
{
    lemma_search(m, owner, task.0, task.1 - size, size, align, start);
}

/// A fixed address is taken as it is, mapped or not, if the mapping ends inside the task range; and
/// only then. Without an address a fixed placement is at 0.
pub proof fn lemma_fixed_place_is_not_searched(
    task: (int, int),
    m: VmemModel,
    suggested: int,
    size: int,
    owner: Option<VmViewId>,
    align: int,
)
    requires
        0 <= suggested,
        0 <= size,
    ensures
        unmapped_area(task, m, Some(suggested), size, true, owner, align) == (if suggested + size
            <= task.1 {
            Some(suggested)
        } else {
            None
        }),
        size <= task.1 ==> unmapped_area(task, m, None, size, true, owner, align) == Some(0int),
        size > task.1 ==> unmapped_area(task, m, None, size, true, owner, align) is None,
{
}

} // verus!
