//! What growing and shrinking a mapping in place may touch.
use crate::mm::area::VmArea;
use crate::mm::errors::{VmemResizeError, VmemUnmapError};
use crate::platform::page_mgmt::{AllocationError, FixedAddressBehavior, PageManagementProvider};
use vstd::prelude::*;

verus! {

use crate::mm::vmem::effects::{inserted, occupied, removed};
use crate::mm::vmem::laws::{lemma_insertion_is_confined, lemma_removal_is_confined, mapped_like};
use crate::mm::vmem::remap::{
    grow_result, initializing, lemma_run_at, resize_plan, resized, run_at, shrink_result, ResizePlan,
};
use crate::mm::vmem::VmemModel;
use crate::range_map::{is_run, lemma_run_around, lookup};

/// A mapping that is resized in place keeps what it keeps: every address that is in it before and
/// after is mapped as it was. What it loses is unmapped, what it gains was free and has its flags, and
/// no other address is touched. Where it fails nothing has changed.
pub proof fn lemma_resize_is_confined<P: PageManagementProvider<ALIGN>, const ALIGN: usize>(
    platform: &P,
    before: VmemModel,
    range: (int, int),
    size: int,
    after: VmemModel,
    result: Result<(), VmemResizeError>,
)
    requires
        resized(platform, before, range, size, after, result),
        0 <= range.0 < range.1 <= usize::MAX,
        0 < size,
        range.0 + size <= usize::MAX,
    ensures
        result is Err ==> forall|k: int| #[trigger] lookup(after.areas, k) == lookup(before.areas, k),
        result is Ok ==> {
            &&& lookup(before.areas, range.0) is Some
            &&& forall|k: int|
                k < range.0 + size && k < range.1 ==> #[trigger] lookup(after.areas, k) == lookup(
                    before.areas,
                    k,
                )
            &&& forall|k: int|
                range.0 + size <= k < range.1 ==> #[trigger] lookup(after.areas, k) is None
            &&& forall|k: int|
                range.1 <= k < range.0 + size ==> lookup(before.areas, k) is None && ((
                #[trigger] lookup(after.areas, k)) matches Some(now) && now.flags == (lookup(
                    before.areas,
                    range.0,
                )->0).flags)
            &&& forall|k: int|
                k >= range.0 + size && k >= range.1 ==> #[trigger] lookup(after.areas, k) == lookup(
                    before.areas,
                    k,
                )
        },
        after.brk == before.brk,
{
    match resize_plan(before, range.0, range.1, size) {
        ResizePlan::Settled(_) => {},
        ResizePlan::Shrink(new_end) => {
            let answer = choose|answer: Result<(), VmemUnmapError>| #[trigger]
                removed(platform, before, new_end as int, range.1, after, answer) && result
                    == shrink_result(answer);
            lemma_removal_is_confined(platform, before, new_end as int, range.1, after, answer);
        },
        ResizePlan::Grow(new_end, area) => {
            let answer = choose|answer: Result<usize, AllocationError>| #[trigger]
                inserted(
                    platform,
                    before,
                    (range.1, new_end as int),
                    area,
                    false,
                    FixedAddressBehavior::NoReplace,
                    after,
                    answer,
                ) && result == grow_result(answer, range.1, new_end as int);
            let reached = lemma_insertion_is_confined(
                platform,
                before,
                (range.1, new_end as int),
                area,
                false,
                FixedAddressBehavior::NoReplace,
                after,
                answer,
            );
            if answer is Ok {
                assert forall|k: int| range.1 <= k < new_end implies lookup(before.areas, k) is None && ((
                #[trigger] lookup(after.areas, k)) matches Some(now) && now.flags == (lookup(
                    before.areas,
                    range.0,
                )->0).flags) by {
                    assert(mapped_like(after.areas, k, area));
                    if lookup(before.areas, k) is Some {
                        assert(occupied(before.areas, range.1, new_end as int));
                    }
                }
            }
        },
    }
}

/// A resize is in the way of something only where it grows, and only inside one mapping: the range has
/// one area throughout.
pub proof fn lemma_only_growth_is_in_the_way<P: PageManagementProvider<ALIGN>, const ALIGN: usize>(
    platform: &P,
    before: VmemModel,
    range: (int, int),
    size: int,
    after: VmemModel,
    result: Result<(), VmemResizeError>,
)
    requires
        resized(platform, before, range, size, after, result),
        result matches Err(error) && error is RangeOccupied,
        0 <= range.0 < range.1 <= usize::MAX,
        range.0 + size <= usize::MAX,
        forall|j: int| #[trigger] lookup(before.areas, j) is Some ==> 0 <= j < usize::MAX,
    ensures
        size > range.1 - range.0,
        lookup(before.areas, range.0) is Some,
        forall|k: int|
            range.0 <= k < range.1 ==> #[trigger] lookup(before.areas, k) == lookup(
                before.areas,
                range.0,
            ),
{
    if lookup(before.areas, range.0) is Some {
        let (low, high) = lemma_run_around(before.areas, range.0, 0, usize::MAX as int);
        lemma_run_at(before.areas, range.0, low, high);
    }
}

/// A resize to the size that the range has changes nothing and succeeds, a range that begins unmapped
/// cannot be resized, and a range that a callback still initializes keeps its size.
pub proof fn lemma_resize_is_refused_where_it_must_be<P: PageManagementProvider<ALIGN>, const ALIGN: usize>(
    platform: &P,
    before: VmemModel,
    range: (int, int),
    size: int,
    after: VmemModel,
    result: Result<(), VmemResizeError>,
    k: int,
)
    requires
        resized(platform, before, range, size, after, result),
        0 <= range.0 < range.1 <= usize::MAX,
        range.0 + size <= usize::MAX,
        forall|j: int| #[trigger] lookup(before.areas, j) is Some ==> 0 <= j < usize::MAX,
    ensures
        lookup(before.areas, range.0) is Some && range.0 + size == range.1 ==> result is Ok && after
            == before,
        lookup(before.areas, range.0) is None ==> after == before && result == Err::<(), VmemResizeError>(
            VmemResizeError::NotExist(range.0 as usize),
        ),
        range.0 + size != range.1 && range.0 <= k < range.1 && lookup(before.pending, k) is Some
            ==> result is Err && after == before,
        range.0 + size != range.1 && range.0 <= k < range.1 && lookup(before.areas, k) != lookup(
            before.areas,
            range.0,
        ) ==> result is Err && after == before,
        range.1 <= k < range.0 + size && lookup(before.areas, k) is Some ==> result is Err && after
            == before,
{
    if lookup(before.areas, range.0) is Some {
        let (low, high) = lemma_run_around(before.areas, range.0, 0, usize::MAX as int);
        lemma_run_at(before.areas, range.0, low, high);
        if range.0 <= k < range.1 && lookup(before.pending, k) is Some {
            assert(initializing(before, range.0, range.1));
        }
        if range.1 <= k < range.0 + size && lookup(before.areas, k) is Some {
            assert(occupied(before.areas, range.1, range.0 + size));
        }
        if range.0 <= k < high {
            assert(lookup(before.areas, k) == lookup(before.areas, range.0));
        }
    }
}

} // verus!
