//! What holds of the address space's operations taken together: each changes only the range it was
//! given, and does there what it reports.
pub mod asking;
pub mod creating;
pub mod flagging;
pub mod moving;
pub mod owning;
pub mod placing;
pub mod reading;
pub mod resizing;

use crate::ids::VmViewId;
use crate::mm::area::VmArea;
use crate::mm::errors::{VmemMoveError, VmemProtectError, VmemUnmapError};
use crate::mm::flags::{CreatePagesFlags, MemoryRegionPermissions, VmFlags};
use crate::platform::page_mgmt::{AllocationError, FixedAddressBehavior, PageManagementProvider};
use vstd::prelude::*;

verus! {

use crate::mm::flags::{access_of, carries8, within_ceiling};
use crate::mm::vmem::create::{address_behavior, mapped};
use crate::mm::vmem::effects::{
    anchored, backed, deferred, insert_admission, inserted, lemma_stretches_reach, occupied, removed,
    settled, stretches_inserted,
};
use crate::mm::vmem::initialization::next_after;
use crate::mm::vmem::placement::{lemma_flexible_placement, unmapped_area};
use crate::mm::vmem::protect::{
    all_have_access, materialized, piece_answered, piece_protected, pieces_protected, protect_walk,
    protected, reach_protected, reflagged, with_access,
};
use crate::mm::vmem::remap::relocated;
use crate::mm::vmem::{paged, task_range_ok, VmemModel};
use crate::range_map::{covered, lemma_pieces, lookup, pieces, uniform};

broadcast use {
    crate::range_map::lemma_lookup_put,
    crate::range_map::lemma_lookup_cut,
    crate::range_map::lemma_lookup_revise,
};

/// Everything outside a range is as it was: what is mapped, and who initializes it.
pub open spec fn same_outside(before: VmemModel, after: VmemModel, start: int, end: int) -> bool {
    forall|k: int|
        !(start <= k < end) ==> #[trigger] lookup(after.areas, k) == lookup(before.areas, k) && lookup(
            after.pending,
            k,
        ) == lookup(before.pending, k)
}

/// An address is mapped with these flags.
pub open spec fn flagged(areas: Map<int, VmArea>, address: int, flags: VmFlags) -> bool {
    lookup(areas, address) matches Some(area) && area.flags == flags
}

/// An address is mapped with the flags of an area, and to a file if the area is.
pub open spec fn mapped_like(areas: Map<int, VmArea>, address: int, like: VmArea) -> bool {
    lookup(areas, address) matches Some(area) && area.flags == like.flags && area.is_file_backed
        == like.is_file_backed
}

/// An address is mapped with exactly this access.
pub open spec fn grants(areas: Map<int, VmArea>, address: int, access: u32) -> bool {
    lookup(areas, address) matches Some(area) && access_in(area) == access
}

/// A removal leaves every address outside its range alone; where it succeeds nothing inside is
/// mapped or being initialized, and where it fails nothing has changed at all.
pub proof fn lemma_removal_is_confined<P: PageManagementProvider<ALIGN>, const ALIGN: usize>(
    platform: &P,
    before: VmemModel,
    start: int,
    end: int,
    after: VmemModel,
    result: Result<(), VmemUnmapError>,
)
    requires
        removed(platform, before, start, end, after, result),
    ensures
        same_outside(before, after, start, end),
        after.brk == before.brk,
        after.reserved == before.reserved,
        result is Ok ==> forall|k: int|
            start <= k < end ==> (#[trigger] lookup(after.areas, k)) is None && lookup(after.pending, k) is None,
        result is Err ==> after == before,
{
}

/// A replacement is taken apart: the range is mapped in part.
pub open spec fn taken_apart(
    task: (int, int),
    areas: Map<int, VmArea>,
    range: (int, int),
    area: VmArea,
    behavior: FixedAddressBehavior,
) -> bool {
    insert_admission(task, areas, range.0, range.1, area, behavior) is AskEach
}

/// Every address of a range is mapped like an area.
pub open spec fn all_mapped_like(areas: Map<int, VmArea>, start: int, end: int, like: VmArea) -> bool {
    forall|k: int| start <= k < end ==> #[trigger] mapped_like(areas, k, like)
}

/// An insertion leaves every address outside the place it reports alone; where it succeeds the
/// whole place is mapped with the flags it was given, whatever was mapped there. Where it fails what
/// is mapped has not changed, unless the range was mapped in part: the part of it before some address
/// is then mapped as it was asked for, and all the rest has not changed.
pub proof fn lemma_insertion_is_confined<P: PageManagementProvider<ALIGN>, const ALIGN: usize>(
    platform: &P,
    before: VmemModel,
    range: (int, int),
    area: VmArea,
    populate: bool,
    behavior: FixedAddressBehavior,
    after: VmemModel,
    result: Result<usize, AllocationError>,
) -> (reached: int)
    requires
        inserted(platform, before, range, area, populate, behavior, after, result),
        0 <= range.0 < range.1 <= usize::MAX,
    ensures
        match result {
            Ok(at) => {
                &&& same_outside(before, after, at as int, at + (range.1 - range.0))
                &&& all_mapped_like(after.areas, at as int, at + (range.1 - range.0), area)
            },
            Err(_) => {
                &&& range.0 <= reached < range.1
                &&& same_outside(before, after, range.0, reached)
                &&& all_mapped_like(after.areas, range.0, reached, area)
                &&& !taken_apart(
                    (P::TASK_ADDR_MIN as int, P::TASK_ADDR_MAX as int),
                    before.areas,
                    range,
                    area,
                    behavior,
                ) ==> after.areas == before.areas && after.pending == before.pending
            },
        },
        result matches Ok(at) ==> behavior != FixedAddressBehavior::Hint ==> at == range.0,
        after.brk == before.brk,
        after.reserved == before.reserved,
{
    reveal(inserted);
    let task = (P::TASK_ADDR_MIN as int, P::TASK_ADDR_MAX as int);
    if taken_apart(task, before.areas, range, area, behavior) {
        let whole = anchored(backed(area, before.next_futex), range.0 as usize);
        let ready = VmemModel { next_futex: next_after(area, before.next_futex), ..before };
        let ended = choose|ended: Result<(), AllocationError>| #[trigger]
            stretches_inserted(platform, ready, range.0, range.1, whole, populate, after, ended)
                && result == (match ended {
                Ok(()) => Ok(range.0 as usize),
                Err(error) => Err(error),
            });
        let reached = lemma_stretches_reach(
            platform,
            ready,
            range.0,
            range.1,
            whole,
            populate,
            after,
            ended,
        );
        assert forall|k: int| range.0 <= k < reached implies #[trigger] mapped_like(after.areas, k, area) by {
            assert(lookup(after.areas, k) == Some(settled(whole)));
        }
        reached
    } else {
        range.0
    }
}

/// A creation at a fixed address that may replace what is there, and that the platform grants, maps
/// the whole range as it was asked for, however much of it was mapped before, and leaves every other
/// address alone.
pub proof fn lemma_fixed_creation_replaces<P: PageManagementProvider<ALIGN>, const ALIGN: usize>(
    platform: &P,
    before: VmemModel,
    start: int,
    size: int,
    area: VmArea,
    flags: CreatePagesFlags,
    owner: Option<VmViewId>,
    after: VmemModel,
    at: usize,
)
    requires
        0 <= start < start + size <= usize::MAX,
        carries8(flags.bits, CreatePagesFlags::FIXED_ADDR),
        mapped(
            platform,
            before,
            Some(start),
            size,
            area,
            flags,
            owner,
            after,
            Ok::<usize, AllocationError>(at),
        ),
    ensures
        at == start,
        same_outside(before, after, start, start + size),
        all_mapped_like(after.areas, start, start + size, area),
{
    let reached = lemma_insertion_is_confined(
        platform,
        before,
        (start, start + size),
        area,
        carries8(flags.bits, CreatePagesFlags::POPULATE_PAGES_IMMEDIATELY),
        address_behavior(flags),
        after,
        Ok::<usize, AllocationError>(at),
    );
}

/// The platform is the only one that can refuse a creation at a fixed address that may replace what
/// is there, inside the task range: the mapping table itself never does.
pub proof fn lemma_fixed_creation_is_asked_for(
    task: (int, int),
    areas: Map<int, VmArea>,
    start: int,
    end: int,
    area: VmArea,
)
    requires
        task.0 <= start,
        end <= task.1,
        !deferred(area),
    ensures
        insert_admission(task, areas, start, end, area, FixedAddressBehavior::Replace) !is Refuse,
{
}

/// An insertion that must not replace anything does not: it succeeds at the requested address only
/// where nothing was mapped.
pub proof fn lemma_no_replace<P: PageManagementProvider<ALIGN>, const ALIGN: usize>(
    platform: &P,
    before: VmemModel,
    range: (int, int),
    area: VmArea,
    populate: bool,
    after: VmemModel,
    result: Result<usize, AllocationError>,
)
    requires
        inserted(
            platform,
            before,
            range,
            area,
            populate,
            FixedAddressBehavior::NoReplace,
            after,
            result,
        ),
        occupied(before.areas, range.0, range.1),
    ensures
        result is Err,
        after == before,
{
    reveal(inserted);
}

/// Removing what was inserted over free addresses restores what was mapped.
pub proof fn lemma_removal_undoes_insertion<P: PageManagementProvider<ALIGN>, const ALIGN: usize>(
    platform: &P,
    before: VmemModel,
    range: (int, int),
    area: VmArea,
    populate: bool,
    behavior: FixedAddressBehavior,
    middle: VmemModel,
    at: usize,
    after: VmemModel,
)
    requires
        0 <= range.0 < range.1 <= usize::MAX,
        inserted(
            platform,
            before,
            range,
            area,
            populate,
            behavior,
            middle,
            Ok::<usize, AllocationError>(at),
        ),
        !occupied(before.areas, at as int, at + (range.1 - range.0)),
        removed(
            platform,
            middle,
            at as int,
            at + (range.1 - range.0),
            after,
            Ok::<(), VmemUnmapError>(()),
        ),
    ensures
        after.areas == before.areas,
{
    let reached = lemma_insertion_is_confined(
        platform,
        before,
        range,
        area,
        populate,
        behavior,
        middle,
        Ok::<usize, AllocationError>(at),
    );
    let end = at + (range.1 - range.0);
    assert forall|k: int| #[trigger] lookup(after.areas, k) == lookup(before.areas, k) by {
        if at <= k < end {
            assert(lookup(before.areas, k) is None);
        } else {
            assert(lookup(middle.areas, k) == lookup(before.areas, k));
        }
    }
    crate::range_map::lemma_same_lookups(after.areas, before.areas);
}

/// An area as a protection change may leave it: the same, or with the access replaced and nothing
/// else. A reservation that is given an access is none any more.
pub open spec fn reprotected(before: VmArea, after: VmArea, access: u32) -> bool {
    ||| after == before
    ||| !deferred(before) && after == reflagged(before, with_access(before.flags.bits, access))
    ||| deferred(before) && after == reflagged(before, materialized(before.flags.bits, access))
}

/// The access of an area.
pub open spec fn access_in(area: VmArea) -> u32 {
    area.flags.bits & VmFlags::VM_ACCESS_FLAGS
}

/// Replacing the access of flags gives them that access.
pub proof fn lemma_access_replaced(bits: u32, permissions: MemoryRegionPermissions)
    ensures
        with_access(bits, access_of(permissions)) & VmFlags::VM_ACCESS_FLAGS == access_of(permissions),
        materialized(bits, access_of(permissions)) & VmFlags::VM_ACCESS_FLAGS == access_of(permissions),
{
    let given: u8 = permissions.bits;
    let access: u32 = access_of(permissions);
    assert(access == (given & 7) as u32);
    assert(access & 7 == access) by (bit_vector)
        requires
            access == (given & 7) as u32,
    ;
    assert(((bits & !7u32) | access) & 7 == access) by (bit_vector)
        requires
            access & 7 == access,
    ;
    let deferred: u32 = VmFlags::VM_DEFERRED;
    assert(((bits & !7u32 & !deferred) | access) & 7 == access) by (bit_vector)
        requires
            access & 7 == access,
    ;
}

/// What a list of pieces says of the areas: in order, apart, and each mapped as it says.
pub open spec fn listed(areas: Map<int, VmArea>, list: Seq<(int, int, VmArea)>) -> bool {
    &&& forall|i: int|
        0 <= i < list.len() ==> (#[trigger] list[i]).0 < list[i].1 && uniform(
            areas,
            list[i].0,
            list[i].1,
            list[i].2,
        )
    &&& forall|i: int, j: int|
        0 <= i < j < list.len() ==> (#[trigger] list[i]).1 <= (#[trigger] list[j]).0
}

/// What a protection change over a list of pieces leaves.
pub open spec fn list_protected(
    areas: Map<int, VmArea>,
    list: Seq<(int, int, VmArea)>,
    access: u32,
    after: Map<int, VmArea>,
    complete: bool,
) -> bool {
    forall|k: int|
        match #[trigger] lookup(areas, k) {
            None => lookup(after, k) is None,
            Some(area) => match lookup(after, k) {
                None => false,
                Some(now) => {
                    &&& reprotected(area, now, access)
                    &&& !covered(list, k) ==> now == area
                    &&& complete && covered(list, k) ==> access_in(now) == access
                },
            },
        }
}

proof fn lemma_pieces_protected<P: PageManagementProvider<ALIGN>, const ALIGN: usize>(
    platform: &P,
    areas: Map<int, VmArea>,
    list: Seq<(int, int, VmArea)>,
    permissions: MemoryRegionPermissions,
    after: Map<int, VmArea>,
    outcome: Result<(), VmemProtectError>,
)
    requires
        pieces_protected(platform, areas, list, permissions, after, outcome),
        listed(areas, list),
    ensures
        list_protected(areas, list, access_of(permissions), after, outcome is Ok),
    decreases list.len(),
{
    reveal(pieces_protected);
    let access = access_of(permissions);
    if list.len() > 0 {
        let first = list[0];
        let rest = list.drop_first();
        assert forall|i: int, j: int| 0 <= i < j < rest.len() implies (#[trigger] rest[i]).1 <= (
        #[trigger] rest[j]).0 by {
            assert(list[i + 1].1 <= list[j + 1].0);
        }
        assert forall|k: int| #[trigger] covered(list, k) implies covered(rest, k) || first.0 <= k < first.1 by {
            let i = choose|i: int| 0 <= i < list.len() && (#[trigger] list[i]).0 <= k < list[i].1;
            if i > 0 {
                assert(rest[i - 1].0 <= k < rest[i - 1].1);
            }
        }
        assert forall|k: int| #[trigger] covered(rest, k) implies covered(list, k) && !(first.0 <= k
            < first.1) by {
            let i = choose|i: int| 0 <= i < rest.len() && (#[trigger] rest[i]).0 <= k < rest[i].1;
            assert(list[i + 1].0 <= k < list[i + 1].1);
            assert(list[0].1 <= list[i + 1].0);
        }
        assert forall|k: int| first.0 <= k < first.1 implies #[trigger] lookup(areas, k) == Some(first.2)
            && covered(list, k) by {
            assert(list[0].0 <= k < list[0].1);
        }
        if access_in(first.2) == access {
            assert(listed(areas, rest)) by {
                assert forall|i: int| 0 <= i < rest.len() implies (#[trigger] rest[i]).0 < rest[i].1
                    && uniform(areas, rest[i].0, rest[i].1, rest[i].2) by {
                    assert(rest[i] == list[i + 1]);
                }
            }
            lemma_pieces_protected(platform, areas, rest, permissions, after, outcome);
            assert forall|k: int| first.0 <= k < first.1 implies lookup(after, k) == Some(first.2) by {
                assert(!covered(rest, k));
                assert(lookup(areas, k) == Some(first.2));
            }
        } else {
            let one = choose|one: Result<(), VmemProtectError>| #[trigger]
                piece_answered(platform, first, permissions, one) && match one {
                    Ok(()) => pieces_protected(
                        platform,
                        piece_protected(areas, first, access),
                        rest,
                        permissions,
                        after,
                        outcome,
                    ),
                    Err(_) => after == areas && outcome == one,
                };
            if one is Ok {
                let next = piece_protected(areas, first, access);
                lemma_access_replaced(first.2.flags.bits, permissions);
                assert(listed(next, rest)) by {
                    assert forall|i: int| 0 <= i < rest.len() implies (#[trigger] rest[i]).0 < rest[i].1
                        && uniform(next, rest[i].0, rest[i].1, rest[i].2) by {
                        assert(rest[i] == list[i + 1]);
                        assert(list[0].1 <= list[i + 1].0);
                        assert forall|k: int| rest[i].0 <= k < rest[i].1 implies #[trigger] lookup(next, k)
                            == Some(rest[i].2) by {
                            assert(lookup(areas, k) == Some(list[i + 1].2));
                        }
                    }
                }
                lemma_pieces_protected(platform, next, rest, permissions, after, outcome);
                assert forall|k: int|
                    match #[trigger] lookup(areas, k) {
                        None => lookup(after, k) is None,
                        Some(area) => match lookup(after, k) {
                            None => false,
                            Some(now) => {
                                &&& reprotected(area, now, access)
                                &&& !covered(list, k) ==> now == area
                                &&& outcome is Ok && covered(list, k) ==> access_in(now) == access
                            },
                        },
                    } by {
                    assert(lookup(next, k) is None == (lookup(areas, k) is None));
                    if first.0 <= k < first.1 {
                        assert(!covered(rest, k));
                        assert(lookup(areas, k) == Some(first.2));
                    } else {
                        assert(lookup(next, k) == lookup(areas, k));
                    }
                }
            }
        }
    }
}

/// A walk reaches pieces that lie without a gap from the start of the range; a walk that nothing
/// stops covers the whole range, and every piece it reaches allows the access.
proof fn lemma_walk(list: Seq<(int, int, VmArea)>, at: int, range: (int, int), access: u32)
    requires
        forall|i: int| 0 <= i < list.len() ==> (#[trigger] list[i]).0 < list[i].1 <= range.1,
        at <= range.1,
    ensures
        ({
            let (reach, stop) = protect_walk(list, at, range, access);
            &&& 0 <= reach <= list.len()
            &&& (stop is None ==> reach == list.len() && forall|k: int|
                at <= k < range.1 ==> #[trigger] covered(list, k))
            &&& forall|i: int|
                0 <= i < reach ==> within_ceiling((#[trigger] list[i]).2.flags.bits, access) && list[i].0
                    == (if i == 0 {
                    at
                } else {
                    list[i - 1].1
                })
        }),
    decreases list.len(),
{
    if list.len() > 0 && list[0].0 == at && within_ceiling(list[0].2.flags.bits, access) {
        let rest = list.drop_first();
        lemma_walk(rest, list[0].1, range, access);
        let (more, stop) = protect_walk(rest, list[0].1, range, access);
        let (reach, _) = protect_walk(list, at, range, access);
        assert(reach == more + 1);
        assert forall|i: int| 0 <= i < reach implies within_ceiling(
            (#[trigger] list[i]).2.flags.bits,
            access,
        ) && list[i].0 == (if i == 0 {
            at
        } else {
            list[i - 1].1
        }) by {
            if i > 0 {
                assert(list[i] == rest[i - 1]);
            }
            if i > 1 {
                assert(list[i - 1] == rest[i - 2]);
            }
        }
        if stop is None {
            assert forall|k: int| at <= k < range.1 implies #[trigger] covered(list, k) by {
                if k < list[0].1 {
                    assert(list[0].0 <= k < list[0].1);
                } else {
                    assert(covered(rest, k));
                    let i = choose|i: int| 0 <= i < rest.len() && (#[trigger] rest[i]).0 <= k < rest[i].1;
                    assert(list[i + 1].0 <= k < list[i + 1].1);
                }
            }
        }
    }
}

/// A protection change maps and unmaps nothing, leaves every address outside its range alone, and
/// changes nothing but the access inside. It grants an access only where the mapping's ceiling
/// allows it. Where it succeeds, the whole range is mapped with exactly the requested access.
#[verifier::spinoff_prover]
#[verifier::rlimit(40)]
pub proof fn lemma_protection_is_confined<P: PageManagementProvider<ALIGN>, const ALIGN: usize>(
    platform: &P,
    before: VmemModel,
    range: (int, int),
    permissions: MemoryRegionPermissions,
    after: VmemModel,
    result: Result<(), VmemProtectError>,
)
    requires
        range.0 < range.1,
        protected(platform, before, range, permissions, after, result),
    ensures
        forall|k: int|
            match #[trigger] lookup(before.areas, k) {
                None => lookup(after.areas, k) is None,
                Some(area) => lookup(after.areas, k) matches Some(now) && {
                    &&& reprotected(area, now, access_of(permissions))
                    &&& (now == area || range.0 <= k < range.1 && within_ceiling(
                        area.flags.bits,
                        access_of(permissions),
                    ))
                },
            },
        result is Ok ==> forall|k: int|
            range.0 <= k < range.1 ==> #[trigger] grants(after.areas, k, access_of(permissions)),
        after == (VmemModel { areas: after.areas, ..before }),
{
    let access = access_of(permissions);
    let found = pieces(before.areas, range.0, range.1);
    lemma_pieces(before.areas, range.0, range.1);
    let (reach, stop) = protect_walk(found, range.0, range, access);
    lemma_walk(found, range.0, range, access);
    let list = found.take(reach);
    let outcome = choose|outcome: Result<(), VmemProtectError>| #[trigger]
        reach_protected(platform, before.areas, list, permissions, after.areas, outcome) && after == (
        VmemModel { areas: after.areas, ..before }) && result == (if outcome is Ok {
            crate::mm::vmem::protect::walk_result(stop)
        } else {
            outcome
        });
    assert(listed(before.areas, list)) by {
        assert forall|i: int| 0 <= i < list.len() implies (#[trigger] list[i]).0 < list[i].1 && uniform(
            before.areas,
            list[i].0,
            list[i].1,
            list[i].2,
        ) by {
            assert(list[i] == found[i]);
        }
        assert forall|i: int, j: int| 0 <= i < j < list.len() implies (#[trigger] list[i]).1 <= (
        #[trigger] list[j]).0 by {
            assert(found[i].1 <= found[j].0);
        }
    }
    assert forall|k: int| #[trigger] covered(list, k) implies range.0 <= k < range.1 && lookup(
        before.areas,
        k,
    ) is Some && within_ceiling((lookup(before.areas, k)->0).flags.bits, access) by {
        let i = choose|i: int| 0 <= i < list.len() && (#[trigger] list[i]).0 <= k < list[i].1;
        assert(list[i] == found[i]);
        assert(lookup(before.areas, k) == Some(found[i].2));
    }
    assert(list_protected(before.areas, list, access, after.areas, outcome is Ok)) by {
        assert forall|i: int| 0 < i < list.len() implies (#[trigger] list[i]).0 == list[i - 1].1 by {
            assert(list[i] == found[i] && list[i - 1] == found[i - 1]);
        }
        lemma_reach_protected(platform, before.areas, list, permissions, after.areas, outcome);
    }
    if result is Ok {
        assert(list =~= found);
        assert forall|k: int| range.0 <= k < range.1 implies #[trigger] grants(after.areas, k, access) by {
            assert(covered(list, k));
            assert(lookup(before.areas, k) is Some);
        }
    }
    assert forall|k: int|
        match #[trigger] lookup(before.areas, k) {
            None => lookup(after.areas, k) is None,
            Some(area) => lookup(after.areas, k) matches Some(now) && {
                &&& reprotected(area, now, access)
                &&& (now == area || range.0 <= k < range.1 && within_ceiling(area.flags.bits, access))
            },
        } by {
        if covered(list, k) {
            assert(range.0 <= k < range.1);
        }
    }
}

#[verifier::spinoff_prover]
#[verifier::rlimit(40)]
proof fn lemma_reach_protected<P: PageManagementProvider<ALIGN>, const ALIGN: usize>(
    platform: &P,
    areas: Map<int, VmArea>,
    list: Seq<(int, int, VmArea)>,
    permissions: MemoryRegionPermissions,
    after: Map<int, VmArea>,
    outcome: Result<(), VmemProtectError>,
)
    requires
        reach_protected(platform, areas, list, permissions, after, outcome),
        listed(areas, list),
        forall|i: int| 0 < i < list.len() ==> (#[trigger] list[i]).0 == list[i - 1].1,
    ensures
        list_protected(areas, list, access_of(permissions), after, outcome is Ok),
{
    let access = access_of(permissions);
    if all_have_access(list, access) {
        assert forall|k: int| covered(list, k) implies #[trigger] grants(areas, k, access) by {
            let i = choose|i: int| 0 <= i < list.len() && (#[trigger] list[i]).0 <= k < list[i].1;
            assert(lookup(areas, k) == Some(list[i].2));
        }
    } else {
        let at_once = choose|at_once: bool| #[trigger]
            call_ensures(P::has_transactional_permission_updates, (platform,), at_once) && if at_once
                && !crate::mm::vmem::effects::any_deferred(list) {
                exists|answer: Result<(), crate::platform::page_mgmt::PermissionUpdateError>| #[trigger]
                    crate::mm::vmem::protect::update_asked(
                        platform,
                        list[0].0,
                        list.last().1,
                        permissions,
                        answer,
                    ) && outcome == crate::mm::vmem::protect::update_result(answer) && after == (if answer is Ok {
                        crate::mm::vmem::protect::changed_over(
                            areas,
                            list[0].0,
                            list.last().1,
                            crate::mm::vmem::protect::FlagChange::Access { access },
                        )
                    } else {
                        areas
                    })
            } else {
                pieces_protected(platform, areas, list, permissions, after, outcome)
            };
        if at_once && !crate::mm::vmem::effects::any_deferred(list) {
            lemma_gapless(list);
            assert forall|k: int|
                match #[trigger] lookup(areas, k) {
                    None => lookup(after, k) is None,
                    Some(area) => match lookup(after, k) {
                        None => false,
                        Some(now) => {
                            &&& reprotected(area, now, access)
                            &&& !covered(list, k) ==> now == area
                            &&& outcome is Ok && covered(list, k) ==> access_in(now) == access
                        },
                    },
                } by {
                if let Some(area) = lookup(areas, k) {
                    lemma_access_replaced(area.flags.bits, permissions);
                    if covered(list, k) {
                        let i = choose|i: int|
                            0 <= i < list.len() && (#[trigger] list[i]).0 <= k < list[i].1;
                        assert(lookup(areas, k) == Some(list[i].2));
                        assert(!deferred(list[i].2));
                    }
                }
            }
        } else {
            lemma_pieces_protected(platform, areas, list, permissions, after, outcome);
        }
    }
}

/// Pieces without a gap cover what lies between their ends.
proof fn lemma_gapless(list: Seq<(int, int, VmArea)>)
    requires
        list.len() > 0,
        forall|i: int| 0 <= i < list.len() ==> (#[trigger] list[i]).0 < list[i].1,
        forall|i: int| 0 < i < list.len() ==> (#[trigger] list[i]).0 == list[i - 1].1,
    ensures
        forall|k: int| #[trigger] covered(list, k) <==> list[0].0 <= k < list.last().1,
    decreases list.len(),
{
    if list.len() == 1 {
        assert forall|k: int| #[trigger] covered(list, k) <==> list[0].0 <= k < list.last().1 by {
            if list[0].0 <= k < list[0].1 {
                assert(covered(list, k));
            }
        }
    } else {
        let less = list.drop_last();
        lemma_gapless(less);
        let n = list.len() - 1;
        assert forall|k: int| #[trigger] covered(list, k) <==> list[0].0 <= k < list.last().1 by {
            if list[0].0 <= k < list.last().1 {
                if k < list[n - 1].1 {
                    assert(covered(less, k));
                    let i = choose|i: int| 0 <= i < less.len() && (#[trigger] less[i]).0 <= k < less[i].1;
                    assert(list[i].0 <= k < list[i].1);
                } else {
                    assert(list[n].0 <= k < list[n].1);
                }
            }
            if covered(list, k) {
                let i = choose|i: int| 0 <= i < list.len() && (#[trigger] list[i]).0 <= k < list[i].1;
                if i < n {
                    assert(less[i].0 <= k < less[i].1);
                    assert(covered(less, k));
                    assert(list[n].0 == list[n - 1].1);
                }
                assert(list[0].0 <= k) by {
                    if i == n {
                        assert(covered(less, less[n - 1].0));
                    }
                }
            }
        }
    }
}

/// A mapping that moved is gone from where it was and lies, with its flags, where its new address
/// says: at a place that was free. Everything else is as it was.
pub proof fn lemma_move_is_confined<P: PageManagementProvider<ALIGN>, const ALIGN: usize>(
    platform: &P,
    before: VmemModel,
    old_range: (int, int),
    suggested: Option<int>,
    size: int,
    after: VmemModel,
    result: Result<usize, VmemMoveError>,
)
    requires
        relocated(platform, before, old_range, suggested, size, after, result),
        task_range_ok(P::TASK_ADDR_MIN as int, P::TASK_ADDR_MAX as int, ALIGN as int),
        paged(before.areas, ALIGN as int),
        forall|k: int| #[trigger] lookup(before.areas, k) is Some ==> 0 <= k < usize::MAX,
        old_range.0 < old_range.1,
        size > 0,
        size % ALIGN as int == 0,
        suggested matches Some(address) ==> address % ALIGN as int == 0,
        lookup(before.areas, old_range.0) matches Some(area) && uniform(
            before.areas,
            old_range.0,
            old_range.1,
            area,
        ),
    ensures
        result is Err ==> after == before,
        result is Ok ==> exists|start: int| #[trigger]
            moved_to(before, old_range, start, size, after),
{
    let place = unmapped_area(
        (P::TASK_ADDR_MIN as int, P::TASK_ADDR_MAX as int),
        before,
        suggested,
        size,
        false,
        None,
        ALIGN as int,
    );
    if result is Ok {
        let start = place->0;
        lemma_flexible_placement(
            (P::TASK_ADDR_MIN as int, P::TASK_ADDR_MAX as int),
            before,
            suggested,
            size,
            None,
            ALIGN as int,
        );
        let area = before.areas[old_range.0];
        assert forall|k: int| start <= k < start + size implies (#[trigger] lookup(before.areas, k)) is None by {
            assert(!occupied(before.areas, start, start + size));
        }
        assert(uniform(before.areas, old_range.0, old_range.1, area));
        assert(moved_to(before, old_range, start, size, after));
    }
}

/// A mapping went from a range to a start address, and nothing else changed.
pub open spec fn moved_to(
    before: VmemModel,
    old_range: (int, int),
    start: int,
    size: int,
    after: VmemModel,
) -> bool {
    &&& !occupied(before.areas, start, start + size)
    &&& forall|k: int|
        old_range.0 <= k < old_range.1 ==> #[trigger] lookup(after.areas, k) is None
    &&& forall|k: int|
        start <= k < start + size ==> #[trigger] flagged(
            after.areas,
            k,
            before.areas[old_range.0].flags,
        )
    &&& forall|k: int|
        !(old_range.0 <= k < old_range.1) && !(start <= k < start + size) ==> #[trigger] lookup(
            after.areas,
            k,
        ) == lookup(before.areas, k)
}

} // verus!
