//! What a change of access does to every address, and what marking memory for a forked child does.
use crate::mm::area::VmArea;
use crate::mm::errors::{VmemDontForkError, VmemProtectError, VmemWipeOnForkError};
use crate::mm::flags::{MemoryRegionPermissions, VmFlags};
use crate::platform::page_mgmt::PageManagementProvider;
use vstd::prelude::*;

verus! {

use crate::mm::flags::{access_of, lemma_single_flag, within_ceiling};
use crate::mm::vmem::effects::{deferred, holed};
use crate::mm::vmem::protect::{
    all_have_access, changed_over, first_unwipeable, materialized, piece_answered, piece_protected,
    pieces_protected, protect_walk, protected, reach_protected, reflagged, unwipeable, update_result,
    walk_result, wipe_result, with_access, FlagChange,
};
use crate::mm::vmem::VmemModel;
use crate::range_map::{covered, lemma_pieces, lookup, pieces, pieces_of, uniform};

broadcast use crate::range_map::lemma_lookup_revise;

/// A mapping lets itself be given an access: what may ever be read, written or executed there is
/// fixed in the bits four above those of the access itself.
pub open spec fn allows(area: VmArea, wanted: u8) -> bool {
    &&& wanted & 0x1 != 0 ==> area.flags.bits & 0x10 != 0
    &&& wanted & 0x2 != 0 ==> area.flags.bits & 0x20 != 0
    &&& wanted & 0x4 != 0 ==> area.flags.bits & 0x40 != 0
}

/// A mapping has exactly the read, write and execute access that was asked for.
pub open spec fn offers(area: VmArea, wanted: u8) -> bool {
    &&& area.flags.bits & 0x1 != 0 <==> wanted & 0x1 != 0
    &&& area.flags.bits & 0x2 != 0 <==> wanted & 0x2 != 0
    &&& area.flags.bits & 0x4 != 0 <==> wanted & 0x4 != 0
}

/// A mapping was given an access, and nothing else of it changed, except that it is no reservation
/// any more.
pub open spec fn is_given(before: VmArea, after: VmArea, wanted: u8) -> bool {
    &&& after == (VmArea { flags: after.flags, ..before })
    &&& offers(after, wanted)
    &&& after.flags.bits & !0x207u32 == before.flags.bits & !0x207u32
    &&& after.flags.bits & 0x200 == 0
}

/// An address is mapped, and the mapping allows an access.
pub open spec fn is_allowed_at(areas: Map<int, VmArea>, k: int, wanted: u8) -> bool {
    lookup(areas, k) matches Some(area) && allows(area, wanted)
}

/// An address is mapped with exactly this access.
pub open spec fn is_offered_at(areas: Map<int, VmArea>, k: int, wanted: u8) -> bool {
    lookup(areas, k) matches Some(area) && offers(area, wanted)
}

/// A request was stopped at an address: the first of its range that is not mapped, or whose mapping
/// does not allow the access. The error says which.
pub open spec fn is_stopped_at(
    areas: Map<int, VmArea>,
    range: (int, int),
    wanted: u8,
    error: VmemProtectError,
    stop: int,
) -> bool {
    &&& range.0 <= stop < range.1
    &&& forall|k: int| range.0 <= k < stop ==> #[trigger] is_allowed_at(areas, k, wanted)
    &&& match lookup(areas, stop) {
        None => error matches VmemProtectError::InvalidRange(named) && named.start == range.0
            && named.end == range.1,
        Some(area) => !allows(area, wanted) && (error matches VmemProtectError::NoAccess { old, new }
            && old == area.flags && new.bits == (wanted & 7) as u32),
    }
}

/// The verdict on a request to change the access of a range.
pub open spec fn is_verdict(
    areas: Map<int, VmArea>,
    range: (int, int),
    wanted: u8,
    result: Result<(), VmemProtectError>,
) -> bool {
    match result {
        Ok(()) => forall|k: int|
            range.0 <= k < range.1 ==> #[trigger] is_allowed_at(areas, k, wanted),
        Err(error) => exists|stop: int| #[trigger]
            is_stopped_at(areas, range, wanted, error, stop),
    }
}

/// The bits of an access, of the ceiling on it, and of flags whose access was replaced.
proof fn lemma_access_bits(bits: u32, permissions: MemoryRegionPermissions)
    ensures
        ({
            let wanted = permissions.bits;
            let access = access_of(permissions);
            let plain = with_access(bits, access);
            let made = materialized(bits, access);
            &&& within_ceiling(bits, access) <==> {
                &&& wanted & 0x1 != 0 ==> bits & 0x10 != 0
                &&& wanted & 0x2 != 0 ==> bits & 0x20 != 0
                &&& wanted & 0x4 != 0 ==> bits & 0x40 != 0
            }
            &&& (bits & VmFlags::VM_ACCESS_FLAGS == access) <==> {
                &&& bits & 0x1 != 0 <==> wanted & 0x1 != 0
                &&& bits & 0x2 != 0 <==> wanted & 0x2 != 0
                &&& bits & 0x4 != 0 <==> wanted & 0x4 != 0
            }
            &&& plain & 0x1 != 0 <==> wanted & 0x1 != 0
            &&& plain & 0x2 != 0 <==> wanted & 0x2 != 0
            &&& plain & 0x4 != 0 <==> wanted & 0x4 != 0
            &&& made & 0x1 != 0 <==> wanted & 0x1 != 0
            &&& made & 0x2 != 0 <==> wanted & 0x2 != 0
            &&& made & 0x4 != 0 <==> wanted & 0x4 != 0
            &&& plain & !0x7u32 == bits & !0x7u32
            &&& made & !0x207u32 == bits & !0x207u32
            &&& made & 0x200 == 0
            &&& plain & 0x200 == bits & 0x200
            &&& plain & !0x207u32 == bits & !0x207u32
        }),
{
    let wanted: u8 = permissions.bits;
    let access: u32 = (wanted & 7) as u32;
    let deferral: u32 = 0x200;
    let plain: u32 = (bits & !7u32) | access;
    let made: u32 = (bits & !7u32 & !deferral) | access;
    assert(((!(bits >> 4) & access) & 7 == 0) == ((wanted & 1 == 0 || bits & 0x10 != 0) && (wanted & 2
        == 0 || bits & 0x20 != 0) && (wanted & 4 == 0 || bits & 0x40 != 0))) by (bit_vector)
        requires
            access == (wanted & 7) as u32,
    ;
    assert((bits & 7 == access) == (((bits & 1 != 0) == (wanted & 1 != 0)) && ((bits & 2 != 0) == (
    wanted & 2 != 0)) && ((bits & 4 != 0) == (wanted & 4 != 0)))) by (bit_vector)
        requires
            access == (wanted & 7) as u32,
    ;
    assert(((plain & 1 != 0) == (wanted & 1 != 0)) && ((plain & 2 != 0) == (wanted & 2 != 0)) && ((
    plain & 4 != 0) == (wanted & 4 != 0)) && plain & !7u32 == bits & !7u32 && plain & 0x200 == bits
        & 0x200 && plain & !0x207u32 == bits & !0x207u32) by (bit_vector)
        requires
            access == (wanted & 7) as u32,
            plain == (bits & !7u32) | access,
    ;
    assert(((made & 1 != 0) == (wanted & 1 != 0)) && ((made & 2 != 0) == (wanted & 2 != 0)) && ((made
        & 4 != 0) == (wanted & 4 != 0)) && made & 0x200 == 0 && made & !0x207u32 == bits & !0x207u32)
        by (bit_vector)
        requires
            access == (wanted & 7) as u32,
            deferral == 0x200,
            made == (bits & !7u32 & !deferral) | access,
    ;
}

/// A walk over the pieces of a range stops at the first address that is not mapped or does not allow
/// the access.
proof fn lemma_walk_stops(
    areas: Map<int, VmArea>,
    list: Seq<(int, int, VmArea)>,
    at: int,
    range: (int, int),
    access: u32,
) -> (stop: int)
    requires
        pieces_of(list, areas, at, range.1),
        at <= range.1,
        protect_walk(list, at, range, access).1 is Some,
    ensures
        ({
            let (reach, error) = protect_walk(list, at, range, access);
            &&& 0 <= reach <= list.len()
            &&& at <= stop < range.1
            &&& stop == (if reach == 0 {
                at
            } else {
                list[reach - 1].1
            })
            &&& forall|k: int|
                at <= k < stop ==> ((#[trigger] lookup(areas, k)) matches Some(area) && within_ceiling(
                    area.flags.bits,
                    access,
                ))
            &&& match lookup(areas, stop) {
                None => error == Some(
                    VmemProtectError::InvalidRange(
                        crate::mm::vmem::initialization::span(range.0, range.1),
                    ),
                ),
                Some(area) => !within_ceiling(area.flags.bits, access) && error == Some(
                    VmemProtectError::NoAccess { old: area.flags, new: VmFlags { bits: access } },
                ),
            }
        }),
    decreases list.len(),
{
    if list.len() == 0 {
        assert(lookup(areas, at) is None) by {
            if lookup(areas, at) is Some {
                assert(covered(list, at));
            }
        }
        at
    } else if list[0].0 != at {
        assert(lookup(areas, at) is None) by {
            if lookup(areas, at) is Some {
                assert(covered(list, at));
                let i = choose|i: int| 0 <= i < list.len() && (#[trigger] list[i]).0 <= at < list[i].1;
                assert(list[0].0 <= list[i].0);
            }
        }
        at
    } else if !within_ceiling(list[0].2.flags.bits, access) {
        assert(lookup(areas, at) == Some(list[0].2));
        at
    } else {
        let rest = list.drop_first();
        let next = list[0].1;
        assert(pieces_of(rest, areas, next, range.1)) by {
            assert forall|i: int| 0 <= i < rest.len() implies next <= (#[trigger] rest[i]).0 < rest[i].1
                <= range.1 && uniform(areas, rest[i].0, rest[i].1, rest[i].2) && (rest[i].0 == next
                || lookup(areas, rest[i].0 - 1) != Some(rest[i].2)) && (rest[i].1 == range.1 || lookup(
                areas,
                rest[i].1,
            ) != Some(rest[i].2)) by {
                assert(rest[i] == list[i + 1]);
                assert(list[0].1 <= list[i + 1].0);
            }
            assert forall|i: int, j: int| 0 <= i < j < rest.len() implies (#[trigger] rest[i]).1 <= (
            #[trigger] rest[j]).0 by {
                assert(list[i + 1].1 <= list[j + 1].0);
            }
            assert forall|k: int| next <= k < range.1 && #[trigger] lookup(areas, k) is Some implies covered(
                rest,
                k,
            ) by {
                assert(covered(list, k));
                let i = choose|i: int| 0 <= i < list.len() && (#[trigger] list[i]).0 <= k < list[i].1;
                assert(rest[i - 1].0 <= k < rest[i - 1].1);
            }
        }
        let stop = lemma_walk_stops(areas, rest, next, range, access);
        assert forall|k: int| at <= k < stop implies ((#[trigger] lookup(areas, k)) matches Some(area)
            && within_ceiling(area.flags.bits, access)) by {
            if k < next {
                assert(lookup(areas, k) == Some(list[0].2));
            }
        }
        let (more, error) = protect_walk(rest, next, range, access);
        assert(protect_walk(list, at, range, access) == (more + 1, error));
        if more > 0 {
            assert(rest[more - 1] == list[more]);
        }
        stop
    }
}

/// A request to change the access of a range is admitted exactly if the whole range is mapped and
/// every mapping in it allows the access. Otherwise the error tells of the first address at which
/// that fails: the range if nothing is mapped there, and the flags if they do not allow it.
#[verifier::spinoff_prover]
#[verifier::rlimit(40)]
pub proof fn lemma_verdict_is_lawful(
    areas: Map<int, VmArea>,
    range: (int, int),
    permissions: MemoryRegionPermissions,
)
    requires
        0 <= range.0 < range.1 <= usize::MAX,
    ensures
        is_verdict(
            areas,
            range,
            permissions.bits,
            walk_result(
                protect_walk(
                    pieces(areas, range.0, range.1),
                    range.0,
                    range,
                    access_of(permissions),
                ).1,
            ),
        ),
{
    let (list, wanted, access) = (
        pieces(areas, range.0, range.1),
        permissions.bits,
        access_of(permissions),
    );
    let (reach, stopped) = protect_walk(list, range.0, range, access);
    lemma_pieces(areas, range.0, range.1);
    super::lemma_walk(list, range.0, range, access);
    match stopped {
        None => {
            assert forall|k: int| range.0 <= k < range.1 implies #[trigger] is_allowed_at(
                areas,
                k,
                wanted,
            ) by {
                assert(covered(list, k));
                let i = choose|i: int| 0 <= i < list.len() && (#[trigger] list[i]).0 <= k < list[i].1;
                assert(lookup(areas, k) == Some(list[i].2));
                lemma_access_bits(list[i].2.flags.bits, permissions);
            }
        },
        Some(error) => {
            let stop = lemma_walk_stops(areas, list, range.0, range, access);
            assert forall|k: int| range.0 <= k < stop implies #[trigger] is_allowed_at(
                areas,
                k,
                wanted,
            ) by {
                lemma_access_bits((lookup(areas, k)->0).flags.bits, permissions);
            }
            if let Some(area) = lookup(areas, stop) {
                lemma_access_bits(area.flags.bits, permissions);
            }
            assert(is_stopped_at(areas, range, wanted, error, stop));
        },
    }
}

/// A protection change over pieces fails only where the platform refuses.
proof fn lemma_refusal_is_the_platforms<P: PageManagementProvider<ALIGN>, const ALIGN: usize>(
    platform: &P,
    areas: Map<int, VmArea>,
    list: Seq<(int, int, VmArea)>,
    permissions: MemoryRegionPermissions,
    after: Map<int, VmArea>,
    outcome: Result<(), VmemProtectError>,
)
    requires
        pieces_protected(platform, areas, list, permissions, after, outcome),
    ensures
        outcome matches Err(error) ==> error is ProtectError || error is DeferredAllocate,
    decreases list.len(),
{
    reveal(pieces_protected);
    let access = access_of(permissions);
    if list.len() > 0 {
        if list[0].2.flags.bits & VmFlags::VM_ACCESS_FLAGS == access {
            lemma_refusal_is_the_platforms(
                platform,
                areas,
                list.drop_first(),
                permissions,
                after,
                outcome,
            );
        } else {
            let one = choose|one: Result<(), VmemProtectError>| #[trigger]
                piece_answered(platform, list[0], permissions, one) && match one {
                    Ok(()) => pieces_protected(
                        platform,
                        piece_protected(areas, list[0], access),
                        list.drop_first(),
                        permissions,
                        after,
                        outcome,
                    ),
                    Err(_) => after == areas && outcome == one,
                };
            if one is Ok {
                lemma_refusal_is_the_platforms(
                    platform,
                    piece_protected(areas, list[0], access),
                    list.drop_first(),
                    permissions,
                    after,
                    outcome,
                );
            }
        }
    }
}

/// What a change of access leaves of one address.
pub open spec fn is_reprotected(
    before: Map<int, VmArea>,
    after: Map<int, VmArea>,
    range: (int, int),
    wanted: u8,
    k: int,
) -> bool {
    match lookup(before, k) {
        None => lookup(after, k) is None,
        Some(area) => lookup(after, k) matches Some(now) && (now == area || range.0 <= k < range.1
            && allows(area, wanted) && is_given(area, now, wanted)),
    }
}

/// A change of access maps and unmaps nothing. It changes only addresses of its range whose mapping
/// allows the access, and of those nothing but the access, each to exactly what was asked for; a
/// reservation that it changes is one no more. Where it succeeds the whole range was mapped, allowed
/// the access, and has it now. Where it fails, and the platform refused nothing, everything before
/// the first address that is not mapped or does not allow the access has it now, and everything from
/// there on is as it was; the error tells what is the matter with that address.
#[verifier::spinoff_prover]
#[verifier::rlimit(40)]
pub proof fn lemma_protection_is_lawful<P: PageManagementProvider<ALIGN>, const ALIGN: usize>(
    platform: &P,
    before: VmemModel,
    range: (int, int),
    permissions: MemoryRegionPermissions,
    after: VmemModel,
    result: Result<(), VmemProtectError>,
)
    requires
        0 <= range.0 < range.1 <= usize::MAX,
        protected(platform, before, range, permissions, after, result),
    ensures
        forall|k: int| #[trigger]
            is_reprotected(before.areas, after.areas, range, permissions.bits, k),
        result is Ok ==> forall|k: int|
            range.0 <= k < range.1 ==> #[trigger] is_allowed_at(before.areas, k, permissions.bits)
                && is_offered_at(after.areas, k, permissions.bits),
        result matches Err(error) ==> error is ProtectError || error is DeferredAllocate || exists|stop: int|
            {
                &&& #[trigger] is_stopped_at(before.areas, range, permissions.bits, error, stop)
                &&& forall|k: int|
                    range.0 <= k < stop ==> #[trigger] is_offered_at(after.areas, k, permissions.bits)
                &&& forall|k: int|
                    stop <= k ==> #[trigger] lookup(after.areas, k) == lookup(before.areas, k)
            },
        after == (VmemModel { areas: after.areas, ..before }),
{
    let (access, wanted) = (access_of(permissions), permissions.bits);
    let found = pieces(before.areas, range.0, range.1);
    lemma_pieces(before.areas, range.0, range.1);
    let (reach, stop) = protect_walk(found, range.0, range, access);
    super::lemma_walk(found, range.0, range, access);
    let list = found.take(reach);
    let outcome = choose|outcome: Result<(), VmemProtectError>| #[trigger]
        reach_protected(platform, before.areas, list, permissions, after.areas, outcome) && after == (
        VmemModel { areas: after.areas, ..before }) && result == (if outcome is Ok {
            walk_result(stop)
        } else {
            outcome
        });
    assert(super::listed(before.areas, list)) by {
        assert forall|i: int| 0 <= i < list.len() implies (#[trigger] list[i]).0 < list[i].1 && uniform(
            before.areas,
            list[i].0,
            list[i].1,
            list[i].2,
        ) by {
            assert(list[i] == found[i]);
        }
        assert forall|i: int, j: int| 0 <= i < j < list.len() implies (#[trigger] list[i]).1 <= (
        #[trigger] list[j]).0 by {
            assert(found[i].1 <= found[j].0);
        }
    }
    assert forall|i: int| 0 < i < list.len() implies (#[trigger] list[i]).0 == list[i - 1].1 by {
        assert(list[i] == found[i] && list[i - 1] == found[i - 1]);
    }
    super::lemma_reach_protected(platform, before.areas, list, permissions, after.areas, outcome);
    assert(super::list_protected(before.areas, list, access, after.areas, outcome is Ok));
    assert forall|k: int| #[trigger] covered(list, k) implies range.0 <= k < range.1 && lookup(
        before.areas,
        k,
    ) is Some && within_ceiling((lookup(before.areas, k)->0).flags.bits, access) by {
        let i = choose|i: int| 0 <= i < list.len() && (#[trigger] list[i]).0 <= k < list[i].1;
        assert(list[i] == found[i]);
        assert(lookup(before.areas, k) == Some(found[i].2));
    }
    assert forall|k: int| #[trigger] is_reprotected(before.areas, after.areas, range, wanted, k) by {
        if let Some(area) = lookup(before.areas, k) {
            lemma_access_bits(area.flags.bits, permissions);
            lemma_single_flag(area.flags.bits);
            assert(area.flags.bits & 0x200 == 0 || area.flags.bits & 0x200 != 0);
            if !covered(list, k) {
                assert(lookup(after.areas, k) == Some(area));
            }
        }
    }
    assert forall|k: int| outcome is Ok && covered(list, k) implies #[trigger] is_offered_at(
        after.areas,
        k,
        wanted,
    ) by {
        assert(lookup(before.areas, k) is Some);
        lemma_access_bits((lookup(after.areas, k)->0).flags.bits, permissions);
    }
    if outcome is Err {
        lemma_reach_refusal(platform, before.areas, list, permissions, after.areas, outcome);
    } else if stop is None {
        assert(list =~= found);
        assert forall|k: int| range.0 <= k < range.1 implies #[trigger] is_allowed_at(
            before.areas,
            k,
            wanted,
        ) && is_offered_at(after.areas, k, wanted) by {
            assert(covered(list, k));
            lemma_access_bits((lookup(before.areas, k)->0).flags.bits, permissions);
        }
    } else {
        let error = stop->0;
        let edge = lemma_walk_stops(before.areas, found, range.0, range, access);
        assert forall|k: int| range.0 <= k < edge implies #[trigger] is_allowed_at(
            before.areas,
            k,
            wanted,
        ) by {
            lemma_access_bits((lookup(before.areas, k)->0).flags.bits, permissions);
        }
        if let Some(area) = lookup(before.areas, edge) {
            lemma_access_bits(area.flags.bits, permissions);
        }
        assert(is_stopped_at(before.areas, range, wanted, error, edge));
        if list.len() > 0 {
            super::lemma_gapless(list);
            assert(list[0].0 == range.0);
            assert(list.last() == found[reach - 1]);
        }
        assert forall|k: int| range.0 <= k < edge implies #[trigger] is_offered_at(after.areas, k, wanted) by {
            assert(covered(list, k));
        }
        assert forall|k: int| edge <= k implies #[trigger] lookup(after.areas, k) == lookup(
            before.areas,
            k,
        ) by {
            assert(!covered(list, k)) by {
                if covered(list, k) {
                    assert(list[0].0 <= k < list.last().1);
                }
            }
            assert(lookup(before.areas, k) is None || lookup(before.areas, k) is Some);
        }
    }
}

/// A protection change over what it reaches fails only where the platform refuses.
proof fn lemma_reach_refusal<P: PageManagementProvider<ALIGN>, const ALIGN: usize>(
    platform: &P,
    areas: Map<int, VmArea>,
    list: Seq<(int, int, VmArea)>,
    permissions: MemoryRegionPermissions,
    after: Map<int, VmArea>,
    outcome: Result<(), VmemProtectError>,
)
    requires
        reach_protected(platform, areas, list, permissions, after, outcome),
        outcome is Err,
    ensures
        outcome matches Err(error) && (error is ProtectError || error is DeferredAllocate),
{
    if pieces_protected(platform, areas, list, permissions, after, outcome) {
        lemma_refusal_is_the_platforms(platform, areas, list, permissions, after, outcome);
    }
}

/// A flag of every mapping in a range was turned on or off, and nothing else changed anywhere.
pub open spec fn is_marked(
    before: Map<int, VmArea>,
    after: Map<int, VmArea>,
    range: (int, int),
    flag: u32,
    on: bool,
) -> bool {
    forall|k: int|
        match #[trigger] lookup(before, k) {
            None => lookup(after, k) is None,
            Some(area) => lookup(after, k) matches Some(now) && now == (VmArea {
                flags: now.flags,
                ..area
            }) && (if range.0 <= k < range.1 {
                &&& now.flags.bits & flag == (if on {
                    flag
                } else {
                    0
                })
                &&& now.flags.bits & !flag == area.flags.bits & !flag
            } else {
                now == area
            }),
        }
}

/// Memory that several processes see, or that a file backs, at an address.
pub open spec fn is_seen_elsewhere(areas: Map<int, VmArea>, k: int) -> bool {
    lookup(areas, k) matches Some(area) && (area.is_file_backed || area.flags.bits & 0x8 != 0)
}

/// What marking a range to be wiped in a forked child must do. It fails exactly if the range is not
/// mapped throughout, or if the mark goes on memory that is not private and anonymous: the error then
/// names the lowest such stretch. A failure changes nothing; a success sets or clears the mark on the
/// whole range and changes nothing else.
pub open spec fn is_wipe_mark(
    before: VmemModel,
    range: (int, int),
    enable: bool,
    after: VmemModel,
    result: Result<(), VmemWipeOnForkError>,
) -> bool {
    &&& after == (VmemModel { areas: after.areas, ..before })
    &&& match result {
        Ok(()) => {
            &&& forall|k: int|
                range.0 <= k < range.1 ==> (#[trigger] lookup(before.areas, k)) is Some && !(enable
                    && is_seen_elsewhere(before.areas, k))
            &&& is_marked(before.areas, after.areas, range, 0x400, enable)
        },
        Err(VmemWipeOnForkError::NotPrivateAnonymous(named)) => {
            &&& after == before
            &&& enable
            &&& range.0 <= named.start < named.end <= range.1
            &&& forall|k: int|
                named.start <= k < named.end ==> #[trigger] is_seen_elsewhere(before.areas, k)
            &&& forall|k: int|
                range.0 <= k < named.start ==> !#[trigger] is_seen_elsewhere(before.areas, k)
        },
        Err(VmemWipeOnForkError::Unmapped(named)) => {
            &&& after == before
            &&& named.start == range.0
            &&& named.end == range.1
            &&& exists|k: int| range.0 <= k < range.1 && (#[trigger] lookup(before.areas, k)) is None
            &&& enable ==> forall|k: int|
                range.0 <= k < range.1 ==> !#[trigger] is_seen_elsewhere(before.areas, k)
        },
        Err(VmemWipeOnForkError::UnAligned) => false,
    }
}

/// What marking a range to be absent from a forked child must do. It fails exactly if the range is
/// not mapped throughout, and then changes nothing; a success sets or clears the mark on the whole
/// range and changes nothing else.
pub open spec fn is_absence_mark(
    before: VmemModel,
    range: (int, int),
    enable: bool,
    after: VmemModel,
    result: Result<(), VmemDontForkError>,
) -> bool {
    &&& after == (VmemModel { areas: after.areas, ..before })
    &&& match result {
        Ok(()) => {
            &&& forall|k: int|
                range.0 <= k < range.1 ==> (#[trigger] lookup(before.areas, k)) is Some
            &&& is_marked(before.areas, after.areas, range, 0x800, enable)
        },
        Err(VmemDontForkError::Unmapped(named)) => {
            &&& after == before
            &&& named.start == range.0
            &&& named.end == range.1
            &&& exists|k: int| range.0 <= k < range.1 && (#[trigger] lookup(before.areas, k)) is None
        },
        Err(VmemDontForkError::UnAligned) => false,
    }
}

/// Recording an access over a range gives every mapping there exactly that access, and changes
/// nothing else. A reservation stays one exactly if it was given no access at all.
pub open spec fn is_recorded(
    before: Map<int, VmArea>,
    after: Map<int, VmArea>,
    range: (int, int),
    wanted: u8,
) -> bool {
    forall|k: int|
        match #[trigger] lookup(before, k) {
            None => lookup(after, k) is None,
            Some(area) => lookup(after, k) matches Some(now) && now == (VmArea {
                flags: now.flags,
                ..area
            }) && (if range.0 <= k < range.1 {
                &&& offers(now, wanted)
                &&& now.flags.bits & !0x207u32 == area.flags.bits & !0x207u32
                &&& now.flags.bits & 0x200 == (if wanted & 0x7 == 0 {
                    area.flags.bits & 0x200
                } else {
                    0
                })
            } else {
                now == area
            }),
        }
}

/// Turning a flag on or off, bit by bit.
proof fn lemma_mark(
    before: Map<int, VmArea>,
    range: (int, int),
    flag: u32,
    on: bool,
)
    ensures
        is_marked(
            before,
            changed_over(before, range.0, range.1, FlagChange::Mark { mask: flag, on }),
            range,
            flag,
            on,
        ),
{
    let after = changed_over(before, range.0, range.1, FlagChange::Mark { mask: flag, on });
    assert forall|k: int|
        match #[trigger] lookup(before, k) {
            None => lookup(after, k) is None,
            Some(area) => lookup(after, k) matches Some(now) && now == (VmArea {
                flags: now.flags,
                ..area
            }) && (if range.0 <= k < range.1 {
                &&& now.flags.bits & flag == (if on {
                    flag
                } else {
                    0
                })
                &&& now.flags.bits & !flag == area.flags.bits & !flag
            } else {
                now == area
            }),
        } by {
        if let Some(area) = lookup(before, k) {
            let bits: u32 = area.flags.bits;
            assert((bits | flag) & flag == flag && (bits | flag) & !flag == bits & !flag && (bits
                & !flag) & flag == 0 && (bits & !flag) & !flag == bits & !flag) by (bit_vector);
            assert(lookup(after, k) is Some);
        }
    }
}

/// Recording an access, bit by bit.
pub proof fn lemma_record(
    before: Map<int, VmArea>,
    range: (int, int),
    permissions: MemoryRegionPermissions,
)
    ensures
        is_recorded(
            before,
            changed_over(
                before,
                range.0,
                range.1,
                FlagChange::Record { access: access_of(permissions) },
            ),
            range,
            permissions.bits,
        ),
{
    let wanted: u8 = permissions.bits;
    let access = access_of(permissions);
    let after = changed_over(before, range.0, range.1, FlagChange::Record { access });
    assert forall|k: int|
        match #[trigger] lookup(before, k) {
            None => lookup(after, k) is None,
            Some(area) => lookup(after, k) matches Some(now) && now == (VmArea {
                flags: now.flags,
                ..area
            }) && (if range.0 <= k < range.1 {
                &&& offers(now, wanted)
                &&& now.flags.bits & !0x207u32 == area.flags.bits & !0x207u32
                &&& now.flags.bits & 0x200 == (if wanted & 0x7 == 0 {
                    area.flags.bits & 0x200
                } else {
                    0
                })
            } else {
                now == area
            }),
        } by {
        if let Some(area) = lookup(before, k) {
            let bits: u32 = area.flags.bits;
            lemma_access_bits(bits, permissions);
            assert(bits & !7u32 | 0 == bits & !7u32 && ((wanted & 7) as u32 == 0) == (wanted & 7 == 0))
                by (bit_vector);
            assert(lookup(after, k) is Some);
        }
    }
}

/// The first piece that is seen elsewhere.
proof fn lemma_first_seen_elsewhere(
    areas: Map<int, VmArea>,
    list: Seq<(int, int, VmArea)>,
    at: int,
    end: int,
)
    requires
        at <= end,
        forall|i: int|
            0 <= i < list.len() ==> at <= (#[trigger] list[i]).0 < list[i].1 <= end && uniform(
                areas,
                list[i].0,
                list[i].1,
                list[i].2,
            ),
        forall|i: int, j: int|
            0 <= i < j < list.len() ==> (#[trigger] list[i]).1 <= (#[trigger] list[j]).0,
        forall|k: int| at <= k < end && #[trigger] lookup(areas, k) is Some ==> covered(list, k),
    ensures
        match first_unwipeable(list) {
            Some((s, e)) => {
                &&& at <= s < e <= end
                &&& forall|k: int| s <= k < e ==> #[trigger] is_seen_elsewhere(areas, k)
                &&& forall|k: int| at <= k < s ==> !#[trigger] is_seen_elsewhere(areas, k)
            },
            None => forall|k: int| at <= k < end ==> !#[trigger] is_seen_elsewhere(areas, k),
        },
    decreases list.len(),
{
    if list.len() == 0 {
        assert forall|k: int| at <= k < end implies !#[trigger] is_seen_elsewhere(areas, k) by {
            if lookup(areas, k) is Some {
                assert(covered(list, k));
            }
        }
    } else {
        let (s, e, area) = list[0];
        lemma_single_flag(area.flags.bits);
        assert forall|k: int| at <= k < s implies !#[trigger] is_seen_elsewhere(areas, k) by {
            if lookup(areas, k) is Some {
                assert(covered(list, k));
                let i = choose|i: int| 0 <= i < list.len() && (#[trigger] list[i]).0 <= k < list[i].1;
                assert(list[0].0 <= list[i].0);
            }
        }
        assert forall|k: int| s <= k < e implies #[trigger] is_seen_elsewhere(areas, k) == unwipeable(
            area,
        ) by {
            assert(lookup(areas, k) == Some(area));
        }
        if !unwipeable(area) {
            let rest = list.drop_first();
            assert forall|i: int| 0 <= i < rest.len() implies e <= (#[trigger] rest[i]).0 < rest[i].1
                <= end && uniform(areas, rest[i].0, rest[i].1, rest[i].2) by {
                assert(rest[i] == list[i + 1]);
                assert(list[0].1 <= list[i + 1].0);
            }
            assert forall|i: int, j: int| 0 <= i < j < rest.len() implies (#[trigger] rest[i]).1 <= (
            #[trigger] rest[j]).0 by {
                assert(list[i + 1].1 <= list[j + 1].0);
            }
            assert forall|k: int| e <= k < end && #[trigger] lookup(areas, k) is Some implies covered(
                rest,
                k,
            ) by {
                assert(covered(list, k));
                let i = choose|i: int| 0 <= i < list.len() && (#[trigger] list[i]).0 <= k < list[i].1;
                assert(rest[i - 1].0 <= k < rest[i - 1].1);
            }
            lemma_first_seen_elsewhere(areas, rest, e, end);
        }
    }
}

/// Marking a range to be wiped in a forked child does what it must.
pub proof fn lemma_wipe_mark_is_lawful(
    before: VmemModel,
    range: (int, int),
    enable: bool,
    after: VmemModel,
)
    requires
        0 <= range.0 < range.1 <= usize::MAX,
        after == (if wipe_result(before.areas, range.0, range.1, enable) is Ok {
            VmemModel {
                areas: changed_over(
                    before.areas,
                    range.0,
                    range.1,
                    FlagChange::Mark { mask: VmFlags::VM_WIPEONFORK, on: enable },
                ),
                ..before
            }
        } else {
            before
        }),
    ensures
        is_wipe_mark(
            before,
            range,
            enable,
            after,
            wipe_result(before.areas, range.0, range.1, enable),
        ),
{
    let list = pieces(before.areas, range.0, range.1);
    lemma_pieces(before.areas, range.0, range.1);
    lemma_first_seen_elsewhere(before.areas, list, range.0, range.1);
    lemma_mark(before.areas, range, 0x400, enable);
    if holed(before.areas, range.0, range.1) {
        let k = choose|k: int|
            range.0 <= k < range.1 && #[trigger] lookup(before.areas, k) is None;
        assert(lookup(before.areas, k) is None);
    } else {
        assert forall|k: int| range.0 <= k < range.1 implies #[trigger] lookup(before.areas, k) is Some
            && (enable && first_unwipeable(list) is None ==> !is_seen_elsewhere(before.areas, k)) by {
            assert(enable && first_unwipeable(list) is None ==> !is_seen_elsewhere(before.areas, k));
        }
    }
}

/// Marking a range to be absent from a forked child does what it must.
pub proof fn lemma_absence_mark_is_lawful(
    before: VmemModel,
    range: (int, int),
    enable: bool,
    after: VmemModel,
    result: Result<(), VmemDontForkError>,
)
    requires
        0 <= range.0 < range.1 <= usize::MAX,
        result == (if holed(before.areas, range.0, range.1) {
            Err(VmemDontForkError::Unmapped(crate::mm::vmem::initialization::span(range.0, range.1)))
        } else {
            Ok(())
        }),
        after == (if result is Ok {
            VmemModel {
                areas: changed_over(
                    before.areas,
                    range.0,
                    range.1,
                    FlagChange::Mark { mask: VmFlags::VM_DONTCOPY, on: enable },
                ),
                ..before
            }
        } else {
            before
        }),
    ensures
        is_absence_mark(before, range, enable, after, result),
{
    lemma_mark(before.areas, range, 0x800, enable);
    if holed(before.areas, range.0, range.1) {
        let k = choose|k: int|
            range.0 <= k < range.1 && #[trigger] lookup(before.areas, k) is None;
        assert(lookup(before.areas, k) is None);
    } else {
        assert forall|k: int| range.0 <= k < range.1 implies (#[trigger] lookup(before.areas, k)) is Some by {
            assert(!(lookup(before.areas, k) is None));
        }
    }
}

/// A list of the stretches of memory that carry a flag: in order and apart, each mapped throughout
/// with the flags it names, among them the flag; and no memory that carries the flag is left out.
pub open spec fn names_all_marked(
    list: Seq<(core::ops::Range<usize>, VmFlags)>,
    areas: Map<int, VmArea>,
    flag: u32,
) -> bool {
    &&& forall|i: int, k: int|
        0 <= i < list.len() && (#[trigger] list[i]).0.start <= k < list[i].0.end ==> ((
        #[trigger] lookup(areas, k)) matches Some(area) && area.flags == list[i].1 && area.flags.bits
            & flag != 0)
    &&& forall|i: int| 0 <= i < list.len() ==> (#[trigger] list[i]).0.start < list[i].0.end
    &&& forall|i: int, j: int|
        0 <= i < j < list.len() ==> (#[trigger] list[i]).0.end <= (#[trigger] list[j]).0.start
    &&& forall|k: int|
        0 <= k < usize::MAX && ((#[trigger] lookup(areas, k)) matches Some(area) && area.flags.bits & flag
            != 0) ==> exists|i: int|
            0 <= i < list.len() && (#[trigger] list[i]).0.start <= k < list[i].0.end
}

/// Picking the runs that carry a flag keeps their order and forgets none.
proof fn lemma_picked(runs: Seq<(int, int, VmArea)>, mask: u32)
    requires
        forall|i: int, j: int|
            0 <= i < j < runs.len() ==> (#[trigger] runs[i]).1 <= (#[trigger] runs[j]).0,
        forall|i: int| 0 <= i < runs.len() ==> (#[trigger] runs[i]).0 < runs[i].1,
    ensures
        ({
            let picked = runs.filter(crate::mm::vmem::protect::marked_with(mask));
            &&& forall|i: int|
                0 <= i < picked.len() ==> runs.contains(#[trigger] picked[i]) && picked[i].2.flags.bits
                    & mask == mask
            &&& forall|i: int, j: int|
                0 <= i < j < picked.len() ==> (#[trigger] picked[i]).1 <= (#[trigger] picked[j]).0
            &&& forall|j: int|
                0 <= j < runs.len() && (#[trigger] runs[j]).2.flags.bits & mask == mask
                    ==> picked.contains(runs[j])
        }),
    decreases runs.len(),
{
    reveal(Seq::filter);
    let pick = crate::mm::vmem::protect::marked_with(mask);
    if runs.len() > 0 {
        let less = runs.drop_last();
        lemma_picked(less, mask);
        let (before, picked) = (less.filter(pick), runs.filter(pick));
        assert forall|i: int| 0 <= i < before.len() implies runs.contains(#[trigger] before[i])
            && before[i].1 <= runs.last().0 by {
            let j = choose|j: int| 0 <= j < less.len() && less[j] == before[i];
            assert(runs[j] == before[i]);
        }
        assert forall|j: int|
            0 <= j < runs.len() && (#[trigger] runs[j]).2.flags.bits & mask == mask implies picked.contains(
            runs[j],
        ) by {
            if j < less.len() {
                assert(less[j] == runs[j]);
                assert(before.contains(less[j]));
                let i = choose|i: int| 0 <= i < before.len() && before[i] == less[j];
                assert(picked[i] == before[i]);
            } else {
                assert(picked == before.push(runs[j]));
                assert(picked[before.len() as int] == runs[j]);
            }
        }
        assert forall|i: int| 0 <= i < picked.len() implies runs.contains(#[trigger] picked[i])
            && picked[i].2.flags.bits & mask == mask by {
            if i < before.len() {
                assert(picked[i] == before[i]);
            } else {
                assert(runs[runs.len() - 1] == picked[i]);
            }
        }
        assert forall|i: int, j: int| 0 <= i < j < picked.len() implies (#[trigger] picked[i]).1 <= (
        #[trigger] picked[j]).0 by {
            assert(picked[i] == before[i]);
            if j < before.len() {
                assert(picked[j] == before[j]);
            }
        }
    }
}

/// The mappings listed for a forked child are exactly the memory that carries the flag.
pub proof fn lemma_marked_list_is_complete(
    list: Seq<(core::ops::Range<usize>, VmFlags)>,
    areas: Map<int, VmArea>,
    flag: u32,
)
    requires
        crate::mm::vmem::protect::lists_marked(list, areas, flag),
        flag == 0x400 || flag == 0x800,
    ensures
        names_all_marked(list, areas, flag),
{
    let runs = choose|runs: Seq<(int, int, VmArea)>| #[trigger]
        crate::range_map::runs_of(runs, areas, 0, usize::MAX as int)
            && crate::mm::vmem::protect::marked_entries(list)
            == crate::mm::vmem::protect::plain_runs(
            runs.filter(crate::mm::vmem::protect::marked_with(flag)),
        );
    lemma_picked(runs, flag);
    let picked = runs.filter(crate::mm::vmem::protect::marked_with(flag));
    let (shown, kept) = (
        crate::mm::vmem::protect::marked_entries(list),
        crate::mm::vmem::protect::plain_runs(picked),
    );
    assert(shown.len() == kept.len());
    assert(list.len() == picked.len());
    assert forall|i: int| 0 <= i < list.len() implies (#[trigger] list[i]).0.start == picked[i].0
        && list[i].0.end == picked[i].1 && list[i].1 == picked[i].2.flags && picked[i].0 < picked[i].1
        && uniform(areas, picked[i].0, picked[i].1, picked[i].2) by {
        assert(shown[i] == kept[i]);
        let j = choose|j: int| 0 <= j < runs.len() && runs[j] == picked[i];
        assert(crate::range_map::is_run(areas, runs[j].0, runs[j].1, runs[j].2));
    }
    assert forall|i: int, k: int|
        0 <= i < list.len() && (#[trigger] list[i]).0.start <= k < list[i].0.end implies ((
    #[trigger] lookup(areas, k)) matches Some(area) && area.flags == list[i].1 && area.flags.bits & flag
        != 0) by {
        assert(lookup(areas, k) == Some(picked[i].2));
    }
    assert forall|i: int, j: int| 0 <= i < j < list.len() implies (#[trigger] list[i]).0.end <= (
    #[trigger] list[j]).0.start by {
        assert(picked[i].1 <= picked[j].0);
    }
    assert forall|k: int|
        0 <= k < usize::MAX && ((#[trigger] lookup(areas, k)) matches Some(area) && area.flags.bits & flag
            != 0) implies exists|i: int|
        0 <= i < list.len() && (#[trigger] list[i]).0.start <= k < list[i].0.end by {
        assert(covered(runs, k));
        let j = choose|j: int| 0 <= j < runs.len() && (#[trigger] runs[j]).0 <= k < runs[j].1;
        assert(lookup(areas, k) == Some(runs[j].2));
        lemma_single_flag(runs[j].2.flags.bits);
        assert(picked.contains(runs[j]));
        let i = choose|i: int| 0 <= i < picked.len() && picked[i] == runs[j];
        assert(list[i].0.start <= k < list[i].0.end);
    }
}

} // verus!
