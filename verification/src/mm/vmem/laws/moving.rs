//! What a move does to every address.
use crate::mm::area::{SharedFutexPosition, VmArea};
use crate::mm::errors::VmemMoveError;
use crate::mm::flags::MemoryRegionPermissions;
use crate::platform::page_mgmt::{PageManagementProvider, RemapError};
use vstd::prelude::*;

verus! {

use crate::mm::flags::lemma_single_flag;
use crate::mm::vmem::laws::placing::{
    has_room, is_clear_of_stacks, is_free, is_let_go, lemma_place_is_sound, lemma_room_is_found,
};
use crate::mm::vmem::remap::{
    initializing, lemma_rebase_keeps_offsets, move_asked, move_result, moved, relocated,
};
use crate::mm::vmem::{all_placed, has_origin, VmemModel};
use crate::mm::vmem::placement::unmapped_area;
use crate::range_map::{lookup, uniform};

broadcast use {
    crate::range_map::lemma_lookup_put,
    crate::range_map::lemma_lookup_cut,
    crate::range_map::lemma_lookup_revise,
};

/// The platform was asked to move the pages of a mapping, and did: with the access that they have, and
/// shared ones as the part of their backing that they show.
pub open spec fn is_asked_to_move<P: PageManagementProvider<ALIGN>, const ALIGN: usize>(
    platform: &P,
    area: VmArea,
    from: (int, int),
    to: (int, int),
    answer: Result<usize, RemapError>,
) -> bool {
    let old = core::ops::Range { start: from.0 as usize, end: from.1 as usize };
    let new = core::ops::Range { start: to.0 as usize, end: to.1 as usize };
    let access = MemoryRegionPermissions { bits: (area.flags.bits & 0xf) as u8 };
    match area.shared_futex {
        None => call_ensures(P::remap_pages, (platform, old, new, access), answer),
        Some(shared) => shared.position matches SharedFutexPosition::Origin(origin) && call_ensures(
            P::remap_shared_pages,
            (
                platform,
                shared.identity,
                (from.0 as usize).wrapping_sub(origin),
                old,
                new,
                access,
            ),
            answer,
        ),
    }
}

/// Two addresses of mappings show the same place of the same backing, or neither has one.
pub open spec fn shows_alike(a: VmArea, at_a: int, b: VmArea, at_b: int) -> bool {
    match (a.shared_futex, b.shared_futex) {
        (None, None) => true,
        (Some(one), Some(other)) => one.identity == other.identity && (one.position matches
            SharedFutexPosition::Origin(from) && (other.position matches SharedFutexPosition::Origin(to)
            && (at_a as usize).wrapping_sub(from) == (at_b as usize).wrapping_sub(to))),
        _ => false,
    }
}

/// What a move to a place leaves of one address. The old place is not mapped any more. The new one
/// carries the flags of the mapping and what it showed, address for address; what a private mapping of
/// a file gains is anonymous. Everything else is as it was.
pub open spec fn is_moved_at(
    before: Map<int, VmArea>,
    after: Map<int, VmArea>,
    from: (int, int),
    to: (int, int),
    k: int,
) -> bool {
    if to.0 <= k < to.1 {
        lookup(after, k) matches Some(now) && lookup(before, from.0) matches Some(area) && {
            &&& now.flags == area.flags
            &&& now.initialization is None
            &&& if k - to.0 < from.1 - from.0 || !area.is_file_backed || area.flags.bits & 0x8 != 0 {
                now.is_file_backed == area.is_file_backed && shows_alike(
                    now,
                    k,
                    area,
                    from.0 + (k - to.0),
                )
            } else {
                !now.is_file_backed && now.shared_futex is None
            }
        }
    } else if from.0 <= k < from.1 {
        lookup(after, k) is None
    } else {
        lookup(after, k) == lookup(before, k)
    }
}

/// A mapping was moved to a place: a free one inside the task range, at a page, that nobody holds back,
/// and that is clear of stacks unless it is just what was suggested.
pub open spec fn is_move_to<P: PageManagementProvider<ALIGN>, const ALIGN: usize>(
    platform: &P,
    before: VmemModel,
    from: (int, int),
    suggested: Option<int>,
    size: int,
    after: VmemModel,
    at: usize,
    start: int,
) -> bool {
    &&& is_asked_to_move(
        platform,
        before.areas[from.0],
        from,
        (start, start + size),
        Ok::<usize, RemapError>(at),
    )
    &&& P::TASK_ADDR_MIN <= start
    &&& start + size <= P::TASK_ADDR_MAX
    &&& start % ALIGN as int == 0
    &&& is_free(before.areas, start, start + size)
    &&& is_let_go(before, None, start, start + size)
    &&& Some(start) == suggested || is_clear_of_stacks(before.areas, start + size)
    &&& forall|k: int| #[trigger]
        is_moved_at(before.areas, after.areas, from, (start, start + size), k)
    &&& forall|k: int|
        start <= k < start + size || from.0 <= k < from.1 ==> #[trigger] lookup(after.pending, k) is None
}

/// A move goes to a place with room and leaves every address as it must; the platform was asked for
/// just that. It fails for want of room only where a callback still initializes part of the mapping or
/// there is no room anywhere, and a failure changes nothing.
pub proof fn lemma_move_is_lawful<P: PageManagementProvider<ALIGN>, const ALIGN: usize>(
    platform: &P,
    before: VmemModel,
    from: (int, int),
    suggested: Option<int>,
    size: int,
    after: VmemModel,
    result: Result<usize, VmemMoveError>,
    room: int,
)
    requires
        relocated(platform, before, from, suggested, size, after, result),
        0 <= from.0 < from.1 <= usize::MAX,
        0 < size,
        from.0 + size <= usize::MAX,
        suggested matches Some(address) ==> address % ALIGN as int == 0,
        lookup(before.areas, from.0) matches Some(area) && uniform(before.areas, from.0, from.1, area),
        all_placed(before.areas),
    ensures
        result is Err ==> after == before,
        result matches Ok(at) ==> exists|start: int| #[trigger]
            is_move_to(platform, before, from, suggested, size, after, at, start),
        result == Err::<usize, VmemMoveError>(VmemMoveError::OutOfMemory) && P::TASK_ADDR_MIN <= room && room
            + size <= P::TASK_ADDR_MAX && room % ALIGN as int == 0 && has_room(before, None, room, size)
            ==> exists|k: int| from.0 <= k < from.1 && (#[trigger] lookup(before.pending, k)) is Some,
{
    let task = (P::TASK_ADDR_MIN as int, P::TASK_ADDR_MAX as int);
    let place = unmapped_area(task, before, suggested, size, false, None, ALIGN as int);
    lemma_place_is_sound(task, before, suggested, size, None, ALIGN as int);
    if P::TASK_ADDR_MIN <= room && room + size <= P::TASK_ADDR_MAX && room % ALIGN as int == 0 && has_room(
        before,
        None,
        room,
        size,
    ) {
        lemma_room_is_found(task, before, suggested, size, None, ALIGN as int, room);
    }
    let area = before.areas[from.0];
    assert(lookup(before.areas, from.0) == Some(area));
    assert(has_origin(area));
    if !initializing(before, from.0, from.1) && place is Some {
        let start = place->0;
        let to = (start, start + size);
        let answer = choose|answer: Result<usize, RemapError>| #[trigger]
            move_asked(platform, area, from, to, answer) && result == move_result(answer) && after == (
            if answer is Ok {
                moved(before, from, to)
            } else {
                before
            });
        assert(is_asked_to_move(platform, area, from, to, answer));
        if answer is Ok {
            lemma_single_flag(area.flags.bits);
            assert forall|k: int| #[trigger] is_moved_at(before.areas, after.areas, from, to, k) by {
                if to.0 <= k < to.1 {
                    assert(lookup(before.areas, k) is None);
                    assert(!(from.0 <= k < from.1)) by {
                        if from.0 <= k < from.1 {
                            assert(lookup(before.areas, k) == Some(area));
                        }
                    }
                    if area.shared_futex is Some {
                        lemma_rebase_keeps_offsets(
                            area,
                            from.0 as usize,
                            to.0 as usize,
                            (k - to.0) as usize,
                        );
                    }
                    assert(lookup(after.areas, k) is Some);
                }
            }
            assert(is_move_to(platform, before, from, suggested, size, after, result->Ok_0, start));
        }
    }
}

} // verus!
