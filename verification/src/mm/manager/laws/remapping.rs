//! What resizing or moving a guest's memory may touch.
use crate::mm::errors::{VmemMoveError, VmemResizeError, VmemUnmapError};
use crate::mm::manager::GuestAccess;
use crate::platform::page_mgmt::{PageManagementProvider, RemapError};
use vstd::prelude::*;

verus! {

use crate::mm::domain::lookup::custody_via_lineage;
use crate::mm::domain::registry::family_of;
use crate::mm::domain::DomainModel;
use crate::mm::manager::laws::lemma_removal_for_a_view_is_confined;
use crate::mm::manager::remap::{
    lineage_materialized, mapping_moved, mapping_remapped, pages_remapped, shared_remapped, view_remapped,
};
use crate::mm::manager::views::{foreign_held, removed_for_view};
use crate::mm::manager::ManagerModel;
use crate::mm::vmem::laws::resizing::{lemma_only_growth_is_in_the_way, lemma_resize_is_confined};
use crate::mm::vmem::laws::{flagged, lemma_move_is_confined, moved_to};
use crate::mm::vmem::remap::{relocated, resized};
use crate::mm::vmem::{paged, task_range_ok, VmemModel};
use crate::range_map::{lookup, uniform};

/// What a remapping may have done to the table. Where it failed, everything is mapped as it was, but
/// for the tail of a shrink that was let go of in parts. Where it succeeded in place, what the mapping
/// keeps is as it was; where it did not, it was allowed to move and grew. Never is another mapping
/// touched.
pub open spec fn is_lawful_remap(
    before: ManagerModel,
    access: Option<GuestAccess>,
    range: (int, int),
    size: int,
    may_move: bool,
    after: ManagerModel,
    result: Result<usize, RemapError>,
) -> bool {
    &&& result is Err ==> forall|k: int|
        access is None || !(range.0 + size <= k < range.1) ==> #[trigger] lookup(after.vmem.areas, k)
            == lookup(before.vmem.areas, k)
    &&& !may_move || size <= range.1 - range.0 ==> (result matches Ok(at) ==> at == range.0)
    &&& !may_move || size <= range.1 - range.0 ==> forall|k: int|
        range.0 <= k < range.1 && k < range.0 + size ==> #[trigger] lookup(after.vmem.areas, k) == lookup(
            before.vmem.areas,
            k,
        )
    &&& forall|k: int|
        !(range.0 <= k < range.1) && lookup(before.vmem.areas, k) is Some ==> #[trigger] lookup(
            after.vmem.areas,
            k,
        ) == lookup(before.vmem.areas, k)
    &&& after.vmem.brk == before.vmem.brk
}

proof fn lemma_mapping_remapped<P: PageManagementProvider<ALIGN>, const ALIGN: usize>(
    platform: &P,
    before: ManagerModel,
    access: Option<GuestAccess>,
    range: (int, int),
    size: int,
    may_move: bool,
    after: ManagerModel,
    result: Result<usize, RemapError>,
)
    requires
        mapping_remapped(platform, before, access, range, size, may_move, after, result),
        task_range_ok(P::TASK_ADDR_MIN as int, P::TASK_ADDR_MAX as int, ALIGN as int),
        paged(before.vmem.areas, ALIGN as int),
        forall|k: int| #[trigger] lookup(before.vmem.areas, k) is Some ==> 0 <= k < usize::MAX,
        0 <= range.0 < range.1 <= usize::MAX,
        0 <= size,
        range.0 + size <= usize::MAX,
    ensures
        is_lawful_remap(before, None, range, size, may_move, after, result),
{
    if after != before || result is Ok {
        let (mid, outcome) = choose|mid: VmemModel, outcome: Result<(), VmemResizeError>| #[trigger]
            resized(platform, before.vmem, range, size, mid, outcome) && {
                let resized_model = ManagerModel { vmem: mid, ..before };
                match outcome {
                    Ok(()) => {
                        &&& result == Ok::<usize, RemapError>(range.0 as usize)
                        &&& after.vmem == mid
                    },
                    Err(error) => if error is RangeOccupied && may_move {
                        mapping_moved(platform, resized_model, access, range, size, after, result)
                    } else {
                        after == resized_model && result is Err
                    },
                }
            };
        lemma_resize_is_confined(platform, before.vmem, range, size, mid, outcome);
        assert forall|k: int|
            !(range.0 <= k < range.1) && lookup(before.vmem.areas, k) is Some implies #[trigger] lookup(
            mid.areas,
            k,
        ) == lookup(before.vmem.areas, k) by {}
        if outcome is Err && after.vmem != mid {
            lemma_only_growth_is_in_the_way(platform, before.vmem, range, size, mid, outcome);
            let moving = ManagerModel { vmem: mid, ..before };
            let (landed, told) = choose|landed: VmemModel, told: Result<usize, VmemMoveError>| #[trigger]
                relocated(platform, moving.vmem, range, None, size, landed, told) && after.vmem == landed
                    && (told is Ok <==> result is Ok);
            crate::range_map::lemma_same_lookups(mid.areas, before.vmem.areas);
            assert(uniform(mid.areas, range.0, range.1, lookup(mid.areas, range.0)->0));
            lemma_move_is_confined(platform, mid, range, None, size, landed, told);
            if told is Ok {
                let start = choose|start: int| #[trigger] moved_to(mid, range, start, size, landed);
                assert forall|k: int|
                    !(range.0 <= k < range.1) && lookup(before.vmem.areas, k) is Some implies #[trigger] lookup(
                    landed.areas,
                    k,
                ) == lookup(before.vmem.areas, k) by {
                    if start <= k < start + size {
                        assert(crate::mm::vmem::effects::occupied(mid.areas, start, start + size));
                    }
                }
            }
        }
    }
}

/// A remapping that may not move does not: the mapping stays where it is or the call fails. A shrink
/// never moves. Where a remapping fails everything is mapped as it was, and wherever it ends no other
/// mapping is touched.
pub proof fn lemma_remap_is_lawful<P: PageManagementProvider<ALIGN>, const ALIGN: usize>(
    platform: &P,
    before: ManagerModel,
    access: Option<GuestAccess>,
    range: (int, int),
    size: int,
    may_move: bool,
    after: ManagerModel,
    result: Result<usize, RemapError>,
)
    requires
        pages_remapped(platform, before, access, range, size, may_move, after, result),
        task_range_ok(P::TASK_ADDR_MIN as int, P::TASK_ADDR_MAX as int, ALIGN as int),
        paged(before.vmem.areas, ALIGN as int),
        forall|k: int| #[trigger] lookup(before.vmem.areas, k) is Some ==> 0 <= k < usize::MAX,
        0 <= range.0 < range.1 <= usize::MAX,
        0 <= size,
        range.0 + size <= usize::MAX,
    ensures
        is_lawful_remap(before, access, range, size, may_move, after, result),
{
    match access {
        None => {
            lemma_mapping_remapped(platform, before, None, range, size, may_move, after, result);
        },
        Some(guest) => {
            if after != before || result is Ok {
                let (mid, complete) = choose|mid: DomainModel, complete: bool| #[trigger]
                    lineage_materialized::<P, ALIGN>(before, guest.view, range, mid, complete) && {
                        let own = ManagerModel { domain: mid, ..before };
                        if !complete {
                            after == own && result is Err
                        } else {
                            exists|independent: bool| #[trigger]
                                call_ensures(P::has_independent_view_space, (guest.view,), independent)
                                    && view_remapped(
                                    platform,
                                    own,
                                    guest,
                                    range,
                                    size,
                                    may_move,
                                    independent,
                                    after,
                                    result,
                                )
                        }
                    };
                if complete {
                    let own = ManagerModel { domain: mid, ..before };
                    let independent = choose|independent: bool| #[trigger]
                        call_ensures(P::has_independent_view_space, (guest.view,), independent)
                            && view_remapped(
                            platform,
                            own,
                            guest,
                            range,
                            size,
                            may_move,
                            independent,
                            after,
                            result,
                        );
                    if foreign_held(own.domain, guest.view, range.0, range.1, independent) {
                        assert(shared_remapped(
                            platform,
                            own,
                            guest.view,
                            range,
                            size,
                            independent,
                            after,
                            result,
                        ));
                        if after != own && range.0 + size < range.1 {
                            let outcome = choose|outcome: Result<(), VmemUnmapError>| #[trigger]
                                removed_for_view(
                                    platform,
                                    own,
                                    guest.view,
                                    (range.0 + size, range.1),
                                    independent,
                                    after,
                                    outcome,
                                ) && (outcome is Ok <==> result is Ok);
                            lemma_removal_for_a_view_is_confined(
                                platform,
                                own,
                                guest.view,
                                (range.0 + size, range.1),
                                independent,
                                after,
                                outcome,
                            );
                        }
                    } else {
                        lemma_mapping_remapped(
                            platform,
                            own,
                            Some(guest),
                            range,
                            size,
                            may_move,
                            after,
                            result,
                        );
                    }
                }
            }
        },
    }
}

/// A mapping that another live holder relies on does not grow, whatever else is free.
pub proof fn lemma_shared_mapping_does_not_grow<P: PageManagementProvider<ALIGN>, const ALIGN: usize>(
    platform: &P,
    before: ManagerModel,
    guest: GuestAccess,
    range: (int, int),
    size: int,
    may_move: bool,
    independent: bool,
    after: ManagerModel,
    result: Result<usize, RemapError>,
)
    requires
        view_remapped(platform, before, guest, range, size, may_move, independent, after, result),
        foreign_held(before.domain, guest.view, range.0, range.1, independent),
        size > range.1 - range.0,
    ensures
        result == Err::<usize, RemapError>(RemapError::OutOfMemory),
        after == before,
{
}

/// A guest remaps only what its lineage has present throughout: a range with any other address in it is
/// refused as not allocated, and nothing at all is done. A mapping that moves is reported where it was moved to, and a move that
/// fails is reported as failed and leaves the domain as it was.
pub proof fn lemma_remap_is_answered<P: PageManagementProvider<ALIGN>, const ALIGN: usize>(
    platform: &P,
    before: ManagerModel,
    access: Option<GuestAccess>,
    range: (int, int),
    size: int,
    may_move: bool,
    after: ManagerModel,
    result: Result<usize, RemapError>,
    k: int,
)
    ensures
        pages_remapped(platform, before, access, range, size, may_move, after, result) ==> (
        access matches Some(guest) ==> range.0 <= k < range.1 && custody_via_lineage(
            before.domain,
            guest.view,
            k,
        ) !is Present ==> after == before && result == Err::<usize, RemapError>(
            RemapError::AlreadyUnallocated,
        )),
        mapping_moved(platform, before, access, range, size, after, result) ==> exists|
            outcome: Result<usize, VmemMoveError>,
        | #[trigger]
            relocated(platform, before.vmem, range, None, size, after.vmem, outcome) && match outcome {
                Ok(at) => result == Ok::<usize, RemapError>(at),
                Err(_) => result is Err && after.domain == before.domain,
            },
{
    if mapping_moved(platform, before, access, range, size, after, result) {
        let (mid, outcome) = choose|mid: VmemModel, outcome: Result<usize, VmemMoveError>| #[trigger]
            relocated(platform, before.vmem, range, None, size, mid, outcome) && match outcome {
                Ok(start) => after.vmem == mid && result == Ok::<usize, RemapError>(start),
                Err(_) => after == (ManagerModel { vmem: mid, ..before }) && result is Err,
            };
        assert(relocated(platform, before.vmem, range, None, size, after.vmem, outcome));
    }
}

} // verus!
