//! What the platform is asked when pages are mapped, unmapped and renewed, and what comes of it.
use crate::mm::area::{SharedFutexPosition, VmArea};
use crate::mm::errors::{VmemResetError, VmemUnmapError};
use crate::mm::flags::MemoryRegionPermissions;
use crate::platform::page_mgmt::{
    AllocationError, DeallocationError, FixedAddressBehavior, PageManagementProvider,
};
use vstd::prelude::*;

verus! {

use crate::mm::flags::lemma_single_flag;
use crate::mm::vmem::effects::{
    allocation_asked, anchored, any_deferred, backed, deferred, holed, insert_admission, inserted,
    lemma_stretches_reach, occupied, pieces_reset, pieces_torn, removed, reset, run_inserted, settled,
    stretches_inserted, teardown_answered, InsertAdmission,
};
use crate::mm::vmem::initialization::{next_after, span};
use crate::mm::vmem::laws::placing::is_free;
use crate::mm::vmem::VmemModel;
use crate::range_map::{covered, lemma_pieces, lookup, pieces, pieces_of, uniform};

broadcast use {
    crate::range_map::lemma_lookup_put,
    crate::range_map::lemma_lookup_cut,
    crate::range_map::lemma_lookup_revise,
};

/// The platform was asked for private pages, and gave this answer: with the access of the area and no
/// more, as a stack if the area is one.
pub open spec fn is_asked_for<P: PageManagementProvider<ALIGN>, const ALIGN: usize>(
    platform: &P,
    range: (int, int),
    area: VmArea,
    populate: bool,
    behavior: FixedAddressBehavior,
    answer: Result<usize, AllocationError>,
) -> bool {
    call_ensures(
        P::allocate_pages,
        (
            platform,
            core::ops::Range { start: range.0 as usize, end: range.1 as usize },
            MemoryRegionPermissions { bits: (area.flags.bits & 0x7) as u8 },
            area.flags.bits & 0x100 != 0,
            populate,
            behavior,
        ),
        answer,
    )
}

/// The platform was asked for pages of a backing from an offset on, and gave this answer.
pub open spec fn is_asked_to_share<P: PageManagementProvider<ALIGN>, const ALIGN: usize>(
    platform: &P,
    backing: (usize, usize),
    range: (int, int),
    area: VmArea,
    populate: bool,
    behavior: FixedAddressBehavior,
    answer: Result<usize, AllocationError>,
) -> bool {
    call_ensures(
        P::allocate_shared_pages,
        (
            platform,
            backing.0,
            backing.1,
            core::ops::Range { start: range.0 as usize, end: range.1 as usize },
            MemoryRegionPermissions { bits: (area.flags.bits & 0x7) as u8 },
            area.flags.bits & 0x100 != 0,
            populate,
            behavior,
        ),
        answer,
    )
}

/// Mapping pages below or above the task range is refused, and so is anything that must not replace
/// what is mapped, a reservation among it; a reservation over free addresses succeeds at its address.
/// Each refusal changes nothing.
pub proof fn lemma_insertion_is_refused_where_it_must_be<
    P: PageManagementProvider<ALIGN>,
    const ALIGN: usize,
>(
    platform: &P,
    before: VmemModel,
    range: (int, int),
    area: VmArea,
    populate: bool,
    behavior: FixedAddressBehavior,
    after: VmemModel,
    result: Result<usize, AllocationError>,
)
    requires
        0 <= range.0 < range.1 <= usize::MAX,
        inserted(platform, before, range, area, populate, behavior, after, result),
    ensures
        range.0 < P::TASK_ADDR_MIN ==> result == Err::<usize, AllocationError>(
            AllocationError::BelowMinAddress,
        ) && after == before,
        P::TASK_ADDR_MIN <= range.0 && P::TASK_ADDR_MAX < range.1 ==> result == Err::<
            usize,
            AllocationError,
        >(AllocationError::AboveMaxAddress) && after == before,
        P::TASK_ADDR_MIN <= range.0 && range.1 <= P::TASK_ADDR_MAX ==> {
            &&& !is_free(before.areas, range.0, range.1) && (area.flags.bits & 0x200 != 0 || behavior
                == FixedAddressBehavior::NoReplace) ==> result == Err::<usize, AllocationError>(
                AllocationError::AddressInUse,
            ) && after == before
            &&& is_free(before.areas, range.0, range.1) && area.flags.bits & 0x200 != 0 ==> result == Ok::<
                usize,
                AllocationError,
            >(range.0 as usize)
            &&& is_free(before.areas, range.0, range.1) ==> result != Err::<usize, AllocationError>(
                AllocationError::AddressInUse,
            )
        },
{
    reveal(inserted);
    lemma_single_flag(area.flags.bits);
    if !is_free(before.areas, range.0, range.1) {
        let k = choose|k: int|
            range.0 <= k < range.1 && !(#[trigger] lookup(before.areas, k) is None);
        assert(lookup(before.areas, k) is Some);
        assert(occupied(before.areas, range.0, range.1));
    } else if occupied(before.areas, range.0, range.1) {
        let k = choose|k: int| range.0 <= k < range.1 && #[trigger] lookup(before.areas, k) is Some;
        assert(lookup(before.areas, k) is None);
    }
}

/// Pages that are mapped in one go are asked for in one go: the whole range, with the access of the
/// area. The platform may go elsewhere exactly if the caller lets it, and may replace something only
/// where the whole range is mapped here already. Shared pages are asked for by their backing: the one
/// they were given, or a new one from its beginning.
pub proof fn lemma_insertion_asks_for_the_range<P: PageManagementProvider<ALIGN>, const ALIGN: usize>(
    platform: &P,
    before: VmemModel,
    range: (int, int),
    area: VmArea,
    populate: bool,
    behavior: FixedAddressBehavior,
    after: VmemModel,
    at: usize,
)
    requires
        0 <= range.0 < range.1 <= usize::MAX,
        inserted(
            platform,
            before,
            range,
            area,
            populate,
            behavior,
            after,
            Ok::<usize, AllocationError>(at),
        ),
        area.flags.bits & 0x200 == 0,
        is_free(before.areas, range.0, range.1) || forall|k: int|
            range.0 <= k < range.1 ==> #[trigger] lookup(before.areas, k) is Some,
    ensures
        ({
            let asked = if behavior == FixedAddressBehavior::Hint {
                FixedAddressBehavior::Hint
            } else if is_free(before.areas, range.0, range.1) {
                FixedAddressBehavior::NoReplace
            } else {
                FixedAddressBehavior::Replace
            };
            let answer = Ok::<usize, AllocationError>(at);
            match area.shared_futex {
                None => if area.flags.bits & 0x8 == 0 {
                    is_asked_for(platform, range, area, populate, asked, answer)
                } else {
                    is_asked_to_share(
                        platform,
                        (before.next_futex, 0),
                        range,
                        area,
                        populate,
                        asked,
                        answer,
                    )
                },
                Some(shared) => match shared.position {
                    SharedFutexPosition::PendingOffset(offset) => is_asked_to_share(
                        platform,
                        (shared.identity, offset),
                        range,
                        area,
                        populate,
                        asked,
                        answer,
                    ),
                    SharedFutexPosition::Origin(origin) => is_asked_to_share(
                        platform,
                        (shared.identity, (range.0 as usize).wrapping_sub(origin)),
                        range,
                        area,
                        populate,
                        asked,
                        answer,
                    ),
                },
            }
        }),
{
    reveal(inserted);
    lemma_single_flag(area.flags.bits);
    assert(lookup(before.areas, range.0) == lookup(before.areas, range.0));
    if is_free(before.areas, range.0, range.1) {
        if occupied(before.areas, range.0, range.1) {
            let k = choose|k: int|
                range.0 <= k < range.1 && #[trigger] lookup(before.areas, k) is Some;
            assert(lookup(before.areas, k) is None);
        }
    } else {
        assert(lookup(before.areas, range.0) is Some);
        assert(occupied(before.areas, range.0, range.1));
        if holed(before.areas, range.0, range.1) {
            let k = choose|k: int|
                range.0 <= k < range.1 && #[trigger] lookup(before.areas, k) is None;
            assert(lookup(before.areas, k) is Some);
        }
    }
}

/// Every page of a mapping that was made shows its own part of the backing: private pages none, shared
/// ones the backing they were given from the offset they were given, counted from where the mapping
/// begins, or else a backing that nothing else has.
pub proof fn lemma_shared_pages_show_their_backing<
    P: PageManagementProvider<ALIGN>,
    const ALIGN: usize,
>(
    platform: &P,
    before: VmemModel,
    range: (int, int),
    area: VmArea,
    populate: bool,
    behavior: FixedAddressBehavior,
    after: VmemModel,
    at: usize,
    k: int,
)
    requires
        0 <= range.0 < range.1 <= usize::MAX,
        before.next_futex < usize::MAX,
        at <= k < at + (range.1 - range.0),
        area.flags.bits & 0x8 == 0 ==> area.shared_futex is None,
        inserted(
            platform,
            before,
            range,
            area,
            populate,
            behavior,
            after,
            Ok::<usize, AllocationError>(at),
        ),
    ensures
        lookup(after.areas, k) matches Some(now) && match now.shared_futex {
            None => area.flags.bits & 0x8 == 0,
            Some(shown) => area.flags.bits & 0x8 != 0 && match area.shared_futex {
                None => shown.identity == before.next_futex && shown.position
                    == SharedFutexPosition::Origin(at),
                Some(given) => shown.identity == given.identity && match given.position {
                    SharedFutexPosition::PendingOffset(offset) => shown.position matches
                        SharedFutexPosition::Origin(origin) && at.wrapping_sub(origin) == offset,
                    SharedFutexPosition::Origin(_) => shown.position == given.position,
                },
            },
        },
        after.next_futex == before.next_futex + (if area.flags.bits & 0x8 != 0 && area.shared_futex is None {
            1int
        } else {
            0int
        }),
{
    reveal(inserted);
    lemma_single_flag(area.flags.bits);
    let task = (P::TASK_ADDR_MIN as int, P::TASK_ADDR_MAX as int);
    if insert_admission(task, before.areas, range.0, range.1, area, behavior) is AskEach {
        let whole = anchored(backed(area, before.next_futex), range.0 as usize);
        let ready = VmemModel { next_futex: next_after(area, before.next_futex), ..before };
        let ended = choose|ended: Result<(), AllocationError>| #[trigger]
            stretches_inserted(platform, ready, range.0, range.1, whole, populate, after, ended)
                && Ok::<usize, AllocationError>(at) == (match ended {
                Ok(()) => Ok(range.0 as usize),
                Err(error) => Err(error),
            });
        let reached = lemma_stretches_reach(
            platform,
            ready,
            range.0,
            range.1,
            whole,
            populate,
            after,
            ended,
        );
        assert(lookup(after.areas, k) == Some(settled(whole)));
    }
}

/// The platform was asked to give a range back, and gave this answer.
pub open spec fn is_asked_back<P: PageManagementProvider<ALIGN>, const ALIGN: usize>(
    platform: &P,
    start: int,
    end: int,
    answer: Result<(), DeallocationError>,
) -> bool {
    call_ensures(
        P::deallocate_pages,
        (platform, core::ops::Range { start: start as usize, end: end as usize }),
        answer,
    )
}

/// There is one success.
proof fn lemma_one_success(answer: Result<(), DeallocationError>)
    ensures
        answer is Ok ==> answer == Ok::<(), DeallocationError>(()),
{
    if let Ok(done) = answer {
        assert(done == ());
    }
}

/// What tearing pieces down asks of the platform.
proof fn lemma_torn<P: PageManagementProvider<ALIGN>, const ALIGN: usize>(
    platform: &P,
    list: Seq<(int, int, VmArea)>,
    answer: Result<(), DeallocationError>,
)
    requires
        pieces_torn(platform, list, answer),
    ensures
        answer is Ok ==> forall|i: int|
            0 <= i < list.len() && !deferred((#[trigger] list[i]).2) ==> is_asked_back(
                platform,
                list[i].0,
                list[i].1,
                Ok::<(), DeallocationError>(()),
            ),
        answer is Err ==> exists|i: int|
            0 <= i < list.len() && !deferred(list[i].2) && is_asked_back(
                platform,
                (#[trigger] list[i]).0,
                list[i].1,
                answer,
            ),
    decreases list.len(),
{
    if list.len() > 0 {
        let rest = list.drop_first();
        if deferred(list[0].2) {
            lemma_torn(platform, rest, answer);
        } else {
            let a = choose|a: Result<(), DeallocationError>| #[trigger]
                call_ensures(P::deallocate_pages, (platform, span(list[0].0, list[0].1)), a) && match a {
                    Ok(()) => pieces_torn(platform, rest, answer),
                    Err(_) => answer == a,
                };
            lemma_one_success(a);
            assert(is_asked_back(platform, list[0].0, list[0].1, a));
            if a is Ok {
                lemma_torn(platform, rest, answer);
            }
        }
        assert forall|i: int|
            answer is Ok && 0 <= i < list.len() && !deferred((#[trigger] list[i]).2) implies is_asked_back(
            platform,
            list[i].0,
            list[i].1,
            Ok::<(), DeallocationError>(()),
        ) by {
            if i > 0 {
                assert(list[i] == rest[i - 1]);
            }
        }
        if answer is Err {
            if exists|i: int|
                0 <= i < rest.len() && !deferred(rest[i].2) && is_asked_back(
                    platform,
                    (#[trigger] rest[i]).0,
                    rest[i].1,
                    answer,
                ) {
                let i = choose|i: int|
                    0 <= i < rest.len() && !deferred(rest[i].2) && is_asked_back(
                        platform,
                        (#[trigger] rest[i]).0,
                        rest[i].1,
                        answer,
                    );
                assert(list[i + 1] == rest[i]);
            } else {
                assert(is_asked_back(platform, list[0].0, list[0].1, answer));
            }
        }
    }
}

/// Unmapping gives every page that is no mere reservation back to the platform, and reports a refusal
/// by the platform and nothing else; a range without reservations is given back in one piece, and
/// nothing outside the range is given back.
pub proof fn lemma_unmapping_gives_pages_back<P: PageManagementProvider<ALIGN>, const ALIGN: usize>(
    platform: &P,
    before: VmemModel,
    start: int,
    end: int,
    after: VmemModel,
    result: Result<(), VmemUnmapError>,
    k: int,
)
    requires
        start < end,
        start <= k < end,
        removed(platform, before, start, end, after, result),
    ensures
        result is Ok && (lookup(before.areas, k) matches Some(area) && area.flags.bits & 0x200 == 0)
            ==> exists|from: int, to: int| #[trigger]
            is_asked_back(platform, from, to, Ok::<(), DeallocationError>(())) && start <= from <= k < to
                <= end,
        result matches Err(error) ==> error matches VmemUnmapError::UnmapError(cause) && exists|
            from: int,
            to: int,
        | #[trigger]
            is_asked_back(platform, from, to, Err::<(), DeallocationError>(cause)) && start <= from < to <= end,
        (forall|j: int|
            start <= j < end ==> ((#[trigger] lookup(before.areas, j)) matches Some(area) ==> area.flags.bits
                & 0x200 == 0)) ==> is_asked_back(
            platform,
            start,
            end,
            match result {
                Ok(()) => Ok(()),
                Err(VmemUnmapError::UnmapError(cause)) => Err(cause),
                Err(VmemUnmapError::UnAligned) => Ok(()),
            },
        ),
{
    let list = pieces(before.areas, start, end);
    lemma_pieces(before.areas, start, end);
    let answer = choose|answer: Result<(), DeallocationError>| #[trigger]
        teardown_answered(platform, before.areas, start, end, answer) && result
            == crate::mm::vmem::effects::unmap_result(answer);
    lemma_one_success(answer);
    if any_deferred(list) {
        lemma_torn(platform, list, answer);
        let d = choose|i: int| 0 <= i < list.len() && deferred((#[trigger] list[i]).2);
        assert(lookup(before.areas, list[d].0) == Some(list[d].2));
        lemma_single_flag(list[d].2.flags.bits);
        if answer is Ok {
            if let Some(area) = lookup(before.areas, k) {
                assert(covered(list, k));
                let i = choose|i: int| 0 <= i < list.len() && (#[trigger] list[i]).0 <= k < list[i].1;
                assert(lookup(before.areas, k) == Some(list[i].2));
                lemma_single_flag(area.flags.bits);
                if area.flags.bits & 0x200 == 0 {
                    assert(is_asked_back(
                        platform,
                        list[i].0,
                        list[i].1,
                        Ok::<(), DeallocationError>(()),
                    ));
                }
            }
        } else {
            let i = choose|i: int|
                0 <= i < list.len() && !deferred(list[i].2) && is_asked_back(
                    platform,
                    (#[trigger] list[i]).0,
                    list[i].1,
                    answer,
                );
            assert(is_asked_back(platform, list[i].0, list[i].1, answer));
        }
    } else {
        assert(is_asked_back(platform, start, end, answer));
    }
}

/// A private mapping of a file at an address: its pages cannot be renewed.
pub open spec fn is_private_file(areas: Map<int, VmArea>, k: int) -> bool {
    lookup(areas, k) matches Some(area) && area.is_file_backed && area.flags.bits & 0x8 == 0
}

/// Private anonymous memory at an address that is no mere reservation.
pub open spec fn is_renewable(areas: Map<int, VmArea>, k: int) -> bool {
    lookup(areas, k) matches Some(area) && !area.is_file_backed && area.flags.bits & 0x208 == 0
}

/// What renewing leaves of one address: private anonymous memory stays mapped as it was, and anything
/// else does not change at all.
pub open spec fn is_renewed(before: Map<int, VmArea>, after: Map<int, VmArea>, k: int) -> bool {
    if is_renewable(before, k) {
        lookup(after, k) matches Some(now) && now.flags == before[k].flags && !now.is_file_backed
    } else {
        lookup(after, k) == lookup(before, k)
    }
}

/// What renewing pieces does.
proof fn lemma_pieces_renewed<P: PageManagementProvider<ALIGN>, const ALIGN: usize>(
    platform: &P,
    before: VmemModel,
    list: Seq<(int, int, VmArea)>,
    after: VmemModel,
    result: Result<(), VmemResetError>,
)
    requires
        pieces_reset(platform, before, list, after, result),
        super::listed(before.areas, list),
        forall|i: int| 0 <= i < list.len() ==> 0 <= (#[trigger] list[i]).0 < list[i].1 <= usize::MAX,
    ensures
        forall|k: int| #[trigger] is_renewed(before.areas, after.areas, k),
        forall|k: int|
            !covered(list, k) ==> #[trigger] lookup(after.areas, k) == lookup(before.areas, k),
        result is Ok ==> forall|i: int|
            0 <= i < list.len() ==> !is_private_file(before.areas, (#[trigger] list[i]).0),
        match result {
            Ok(()) => true,
            Err(VmemResetError::FileBacked) => exists|i: int|
                0 <= i < list.len() && is_private_file(before.areas, (#[trigger] list[i]).0),
            Err(VmemResetError::Platform(_)) => true,
            Err(_) => false,
        },
    decreases list.len(),
{
    reveal(pieces_reset);
    if list.len() > 0 {
        let (start, end, area) = list[0];
        let rest = list.drop_first();
        lemma_single_flag(area.flags.bits);
        let bits: u32 = area.flags.bits;
        assert(bits & 0x208 == 0 <==> bits & 0x8 == 0 && bits & 0x200 == 0) by (bit_vector);
        assert(lookup(before.areas, start) == Some(area));
        assert forall|i: int, j: int| 0 <= i < j < rest.len() implies (#[trigger] rest[i]).1 <= (
        #[trigger] rest[j]).0 by {
            assert(list[i + 1].1 <= list[j + 1].0);
        }
        assert forall|k: int| #[trigger] covered(rest, k) implies covered(list, k) && !(start <= k < end) by {
            let i = choose|i: int| 0 <= i < rest.len() && (#[trigger] rest[i]).0 <= k < rest[i].1;
            assert(list[i + 1].0 <= k < list[i + 1].1);
            assert(list[0].1 <= list[i + 1].0);
        }
        assert forall|k: int| start <= k < end implies #[trigger] covered(list, k) by {
            assert(list[0].0 <= k < list[0].1);
        }
        assert forall|i: int| 0 <= i < rest.len() implies (#[trigger] rest[i]).0 < rest[i].1 && uniform(
            before.areas,
            rest[i].0,
            rest[i].1,
            rest[i].2,
        ) && end <= rest[i].0 by {
            assert(rest[i] == list[i + 1]);
            assert(list[0].1 <= list[i + 1].0);
        }
        if bits & 0x8 != 0 || (!area.is_file_backed && bits & 0x200 != 0) {
            lemma_pieces_renewed(platform, before, rest, after, result);
            assert(!is_private_file(before.areas, start));
            lemma_rest_of(before.areas, list, result);
        } else if area.is_file_backed {
            assert(is_private_file(before.areas, list[0].0));
        } else {
            let (middle, answer) = choose|middle: VmemModel, answer: Result<usize, AllocationError>| #[trigger]
                inserted(
                    platform,
                    before,
                    (start, end),
                    area,
                    false,
                    FixedAddressBehavior::Replace,
                    middle,
                    answer,
                ) && match answer {
                    Ok(_) => pieces_reset(platform, middle, rest, after, result),
                    Err(error) => after == middle && result == Err::<(), VmemResetError>(
                        VmemResetError::Platform(error),
                    ),
                };
            let reached = super::lemma_insertion_is_confined(
                platform,
                before,
                (start, end),
                area,
                false,
                FixedAddressBehavior::Replace,
                middle,
                answer,
            );
            let to = match answer {
                Ok(_) => end,
                Err(_) => reached,
            };
            assert forall|k: int| #[trigger] lookup(middle.areas, k) == lookup(before.areas, k) || (start
                <= k < to && super::mapped_like(middle.areas, k, area)) by {
                if start <= k < to {
                    assert(super::mapped_like(middle.areas, k, area));
                }
            }
            assert forall|k: int| #[trigger] is_renewed(before.areas, middle.areas, k) by {
                assert(lookup(middle.areas, k) == lookup(middle.areas, k));
                if start <= k < to {
                    assert(lookup(before.areas, k) == Some(area));
                    assert(super::mapped_like(middle.areas, k, area));
                }
            }
            if answer is Ok {
                assert(super::listed(middle.areas, rest)) by {
                    assert forall|i: int| 0 <= i < rest.len() implies (#[trigger] rest[i]).0 < rest[i].1
                        && uniform(middle.areas, rest[i].0, rest[i].1, rest[i].2) by {
                        assert(rest[i] == list[i + 1]);
                        assert(list[0].1 <= list[i + 1].0);
                        assert forall|k: int| rest[i].0 <= k < rest[i].1 implies #[trigger] lookup(
                            middle.areas,
                            k,
                        ) == Some(rest[i].2) by {
                            assert(lookup(before.areas, k) == Some(list[i + 1].2));
                        }
                    }
                }
                lemma_pieces_renewed(platform, middle, rest, after, result);
                assert forall|k: int| #[trigger] is_renewed(before.areas, after.areas, k) by {
                    assert(is_renewed(before.areas, middle.areas, k));
                    assert(is_renewed(middle.areas, after.areas, k));
                    assert(lookup(middle.areas, k) == lookup(middle.areas, k));
                    if start <= k < end {
                        assert(!covered(rest, k));
                        assert(lookup(after.areas, k) == lookup(middle.areas, k));
                        assert(lookup(before.areas, k) == Some(area));
                    }
                }
                assert forall|k: int| !covered(list, k) implies #[trigger] lookup(after.areas, k)
                    == lookup(before.areas, k) by {
                    assert(!covered(rest, k)) by {
                        if covered(rest, k) {
                            assert(covered(list, k));
                        }
                    }
                    assert(!(start <= k < end)) by {
                        if start <= k < end {
                            assert(covered(list, k));
                        }
                    }
                    assert(lookup(middle.areas, k) == lookup(before.areas, k));
                }
                assert forall|i: int| 0 <= i < rest.len() implies #[trigger] is_private_file(
                    middle.areas,
                    rest[i].0,
                ) == is_private_file(before.areas, rest[i].0) by {
                    assert(rest[i].0 >= end);
                    assert(lookup(middle.areas, rest[i].0) == lookup(before.areas, rest[i].0));
                }
                assert(!is_private_file(before.areas, start));
                lemma_rest_files(middle.areas, before.areas, rest, result);
                lemma_rest_of(before.areas, list, result);
            } else {
                assert forall|k: int| !covered(list, k) implies #[trigger] lookup(after.areas, k)
                    == lookup(before.areas, k) by {
                    assert(!(start <= k < end)) by {
                        if start <= k < end {
                            assert(covered(list, k));
                        }
                    }
                    assert(lookup(middle.areas, k) == lookup(before.areas, k));
                }
            }
        }
    }
}

/// Whether a private file lies at the start of a piece, in two maps that agree there.
proof fn lemma_rest_files(
    a: Map<int, VmArea>,
    b: Map<int, VmArea>,
    list: Seq<(int, int, VmArea)>,
    result: Result<(), VmemResetError>,
)
    requires
        forall|i: int|
            0 <= i < list.len() ==> #[trigger] is_private_file(a, list[i].0) == is_private_file(
                b,
                list[i].0,
            ),
        result is Ok ==> forall|i: int| 0 <= i < list.len() ==> !is_private_file(a, (#[trigger] list[i]).0),
        result == Err::<(), VmemResetError>(VmemResetError::FileBacked) ==> exists|i: int|
            0 <= i < list.len() && is_private_file(a, (#[trigger] list[i]).0),
    ensures
        result is Ok ==> forall|i: int| 0 <= i < list.len() ==> !is_private_file(b, (#[trigger] list[i]).0),
        result == Err::<(), VmemResetError>(VmemResetError::FileBacked) ==> exists|i: int|
            0 <= i < list.len() && is_private_file(b, (#[trigger] list[i]).0),
{
    assert forall|i: int| result is Ok && 0 <= i < list.len() implies !is_private_file(
        b,
        (#[trigger] list[i]).0,
    ) by {
        assert(is_private_file(a, list[i].0) == is_private_file(b, list[i].0));
    }
    if result == Err::<(), VmemResetError>(VmemResetError::FileBacked) {
        let i = choose|i: int| 0 <= i < list.len() && is_private_file(a, (#[trigger] list[i]).0);
        assert(is_private_file(a, list[i].0) == is_private_file(b, list[i].0));
    }
}

/// What holds of all pieces behind the first, which is no private file, holds of all.
proof fn lemma_rest_of(
    areas: Map<int, VmArea>,
    list: Seq<(int, int, VmArea)>,
    result: Result<(), VmemResetError>,
)
    requires
        list.len() > 0,
        !is_private_file(areas, list[0].0),
        result is Ok ==> forall|i: int|
            0 <= i < list.drop_first().len() ==> !is_private_file(areas, (#[trigger] list.drop_first()[i]).0),
        result == Err::<(), VmemResetError>(VmemResetError::FileBacked) ==> exists|i: int|
            0 <= i < list.drop_first().len() && is_private_file(areas, (#[trigger] list.drop_first()[i]).0),
    ensures
        result is Ok ==> forall|i: int| 0 <= i < list.len() ==> !is_private_file(areas, (#[trigger] list[i]).0),
        result == Err::<(), VmemResetError>(VmemResetError::FileBacked) ==> exists|i: int|
            0 <= i < list.len() && is_private_file(areas, (#[trigger] list[i]).0),
{
    let rest = list.drop_first();
    assert forall|i: int| result is Ok && 0 <= i < list.len() implies !is_private_file(
        areas,
        (#[trigger] list[i]).0,
    ) by {
        if i > 0 {
            assert(rest[i - 1] == list[i]);
        }
    }
    if result == Err::<(), VmemResetError>(VmemResetError::FileBacked) {
        let i = choose|i: int| 0 <= i < rest.len() && is_private_file(areas, (#[trigger] rest[i]).0);
        assert(list[i + 1] == rest[i]);
    }
}

/// Renewing a range keeps every address mapped as it was: only private anonymous memory in it gets
/// fresh pages, with the same flags. It succeeds only if the whole range is mapped and no private
/// mapping of a file lies in it, and it fails for one of these two reasons only where it holds.
pub proof fn lemma_renewal_is_lawful<P: PageManagementProvider<ALIGN>, const ALIGN: usize>(
    platform: &P,
    before: VmemModel,
    start: int,
    end: int,
    after: VmemModel,
    result: Result<(), VmemResetError>,
)
    requires
        0 <= start < end <= usize::MAX,
        reset(platform, before, start, end, after, result),
    ensures
        forall|k: int| #[trigger] is_renewed(before.areas, after.areas, k),
        forall|k: int|
            !(start <= k < end) ==> #[trigger] lookup(after.areas, k) == lookup(before.areas, k),
        match result {
            Ok(()) => forall|k: int|
                start <= k < end ==> (#[trigger] lookup(before.areas, k)) is Some && !is_private_file(
                    before.areas,
                    k,
                ),
            Err(VmemResetError::FileBacked) => exists|k: int|
                start <= k < end && #[trigger] is_private_file(before.areas, k),
            Err(VmemResetError::AlreadyUnallocated) => {
                &&& exists|k: int| start <= k < end && (#[trigger] lookup(before.areas, k)) is None
                &&& forall|k: int| start <= k < end ==> !#[trigger] is_private_file(before.areas, k)
            },
            Err(VmemResetError::Platform(_)) => true,
            Err(VmemResetError::UnAligned) => false,
        },
{
    let list = pieces(before.areas, start, end);
    lemma_pieces(before.areas, start, end);
    let walked = choose|walked: Result<(), VmemResetError>| #[trigger]
        pieces_reset(platform, before, list, after, walked) && result == (if walked is Ok && holed(
            before.areas,
            start,
            end,
        ) {
            Err(VmemResetError::AlreadyUnallocated)
        } else {
            walked
        });
    lemma_pieces_renewed(platform, before, list, after, walked);
    assert forall|k: int| !(start <= k < end) implies #[trigger] lookup(after.areas, k) == lookup(
        before.areas,
        k,
    ) by {
        if covered(list, k) {
            let i = choose|i: int| 0 <= i < list.len() && (#[trigger] list[i]).0 <= k < list[i].1;
            assert(start <= list[i].0);
        }
    }
    assert forall|k: int| walked is Ok && start <= k < end implies !#[trigger] is_private_file(
        before.areas,
        k,
    ) by {
        if lookup(before.areas, k) is Some {
            assert(covered(list, k));
            let i = choose|i: int| 0 <= i < list.len() && (#[trigger] list[i]).0 <= k < list[i].1;
            assert(lookup(before.areas, k) == Some(list[i].2));
            assert(lookup(before.areas, list[i].0) == Some(list[i].2));
            assert(!is_private_file(before.areas, list[i].0));
        }
    }
    if walked is Ok {
        if holed(before.areas, start, end) {
            let k = choose|k: int| start <= k < end && #[trigger] lookup(before.areas, k) is None;
            assert(lookup(before.areas, k) is None);
        } else {
            assert forall|k: int| start <= k < end implies (#[trigger] lookup(before.areas, k)) is Some
                && !is_private_file(before.areas, k) by {
                assert(!(lookup(before.areas, k) is None));
                assert(!is_private_file(before.areas, k));
            }
        }
    } else if walked == Err::<(), VmemResetError>(VmemResetError::FileBacked) {
        let i = choose|i: int| 0 <= i < list.len() && is_private_file(before.areas, (#[trigger] list[i]).0);
        assert(is_private_file(before.areas, list[i].0));
    }
}

/// Renewing pieces asks for the pages of each that can be renewed.
proof fn lemma_pieces_asked<P: PageManagementProvider<ALIGN>, const ALIGN: usize>(
    platform: &P,
    before: VmemModel,
    list: Seq<(int, int, VmArea)>,
    after: VmemModel,
    n: int,
)
    requires
        pieces_reset(platform, before, list, after, Ok::<(), VmemResetError>(())),
        super::listed(before.areas, list),
        forall|i: int| 0 <= i < list.len() ==> 0 <= (#[trigger] list[i]).0 < list[i].1 <= usize::MAX,
        0 <= n < list.len(),
        !list[n].2.is_file_backed,
        list[n].2.flags.bits & 0x208 == 0,
        list[n].2.shared_futex is None,
    ensures
        exists|at: usize| #[trigger]
            is_asked_for(
                platform,
                (list[n].0, list[n].1),
                list[n].2,
                false,
                FixedAddressBehavior::Replace,
                Ok::<usize, AllocationError>(at),
            ),
    decreases list.len(),
{
    reveal(pieces_reset);
    let (start, end, area) = list[0];
    let rest = list.drop_first();
    let result = Ok::<(), VmemResetError>(());
    lemma_single_flag(area.flags.bits);
    lemma_single_flag(list[n].2.flags.bits);
    let bits: u32 = area.flags.bits;
    let wanted: u32 = list[n].2.flags.bits;
    assert(wanted & 0x208 == 0 <==> wanted & 0x8 == 0 && wanted & 0x200 == 0) by (bit_vector);
    assert forall|i: int| 0 <= i < rest.len() implies 0 <= (#[trigger] rest[i]).0 < rest[i].1
        <= usize::MAX && end <= rest[i].0 && rest[i] == list[i + 1] by {
        assert(list[0].1 <= list[i + 1].0);
    }
    if bits & 0x8 != 0 || bits & 0x200 != 0 {
        assert(n > 0);
        assert(super::listed(before.areas, rest)) by {
            assert forall|i: int, j: int| 0 <= i < j < rest.len() implies (#[trigger] rest[i]).1 <= (
            #[trigger] rest[j]).0 by {
                assert(list[i + 1].1 <= list[j + 1].0);
            }
        }
        lemma_pieces_asked(platform, before, rest, after, n - 1);
    } else {
        let (middle, answer) = choose|middle: VmemModel, answer: Result<usize, AllocationError>| #[trigger]
            inserted(
                platform,
                before,
                (start, end),
                area,
                false,
                FixedAddressBehavior::Replace,
                middle,
                answer,
            ) && match answer {
                Ok(_) => pieces_reset(platform, middle, rest, after, result),
                Err(error) => after == middle && result == Err::<(), VmemResetError>(
                    VmemResetError::Platform(error),
                ),
            };
        let at = answer->Ok_0;
        assert(answer == Ok::<usize, AllocationError>(at));
        if n == 0 {
            assert(lookup(before.areas, start) == Some(area));
            lemma_insertion_asks_for_the_range(
                platform,
                before,
                (start, end),
                area,
                false,
                FixedAddressBehavior::Replace,
                middle,
                at,
            );
            assert(!is_free(before.areas, start, end)) by {
                assert(!(lookup(before.areas, start) is None));
            }
        } else {
            let reached = super::lemma_insertion_is_confined(
                platform,
                before,
                (start, end),
                area,
                false,
                FixedAddressBehavior::Replace,
                middle,
                answer,
            );
            assert(super::listed(middle.areas, rest)) by {
                assert forall|i: int| 0 <= i < rest.len() implies (#[trigger] rest[i]).0 < rest[i].1
                    && uniform(middle.areas, rest[i].0, rest[i].1, rest[i].2) by {
                    assert(rest[i] == list[i + 1]);
                    assert(list[0].1 <= list[i + 1].0);
                    assert forall|k: int| rest[i].0 <= k < rest[i].1 implies #[trigger] lookup(
                        middle.areas,
                        k,
                    ) == Some(rest[i].2) by {
                        assert(lookup(before.areas, k) == Some(list[i + 1].2));
                    }
                }
                assert forall|i: int, j: int| 0 <= i < j < rest.len() implies (#[trigger] rest[i]).1 <= (
                #[trigger] rest[j]).0 by {
                    assert(list[i + 1].1 <= list[j + 1].0);
                }
            }
            lemma_pieces_asked(platform, middle, rest, after, n - 1);
        }
    }
}

/// Renewing a range that succeeds gets every private anonymous page of it anew: the platform was asked
/// to replace it by fresh pages with the same access.
pub proof fn lemma_renewal_asks_for_fresh_pages<P: PageManagementProvider<ALIGN>, const ALIGN: usize>(
    platform: &P,
    before: VmemModel,
    start: int,
    end: int,
    after: VmemModel,
    k: int,
)
    requires
        0 <= start <= k < end <= usize::MAX,
        reset(platform, before, start, end, after, Ok::<(), VmemResetError>(())),
        is_renewable(before.areas, k),
        before.areas[k].shared_futex is None,
    ensures
        exists|from: int, to: int, at: usize|
            start <= from <= k < to <= end && #[trigger] is_asked_for(
                platform,
                (from, to),
                before.areas[k],
                false,
                FixedAddressBehavior::Replace,
                Ok::<usize, AllocationError>(at),
            ),
{
    let list = pieces(before.areas, start, end);
    lemma_pieces(before.areas, start, end);
    assert(covered(list, k));
    let n = choose|i: int| 0 <= i < list.len() && (#[trigger] list[i]).0 <= k < list[i].1;
    assert(lookup(before.areas, k) == Some(list[n].2));
    let walked = choose|walked: Result<(), VmemResetError>| #[trigger]
        pieces_reset(platform, before, list, after, walked) && Ok::<(), VmemResetError>(()) == (
        if walked is Ok && holed(before.areas, start, end) {
            Err(VmemResetError::AlreadyUnallocated)
        } else {
            walked
        });
    lemma_pieces_asked(platform, before, list, after, n);
    let at = choose|at: usize| #[trigger]
        is_asked_for(
            platform,
            (list[n].0, list[n].1),
            list[n].2,
            false,
            FixedAddressBehavior::Replace,
            Ok::<usize, AllocationError>(at),
        );
    let (from, to) = (list[n].0, list[n].1);
    assert(is_asked_for(
        platform,
        (from, to),
        before.areas[k],
        false,
        FixedAddressBehavior::Replace,
        Ok::<usize, AllocationError>(at),
    ));
}

} // verus!
