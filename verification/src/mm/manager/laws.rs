//! What holds of the manager's operations taken together.
pub mod access;
pub mod creation;
pub mod flipping;
pub mod growth;
pub mod heap;
pub mod protection;
pub mod remapping;
pub mod restoring;
pub mod unmapping;
pub mod wiping;

use crate::ids::VmViewId;
use crate::mm::area::VmArea;
use crate::mm::errors::VmemUnmapError;
use crate::platform::page_mgmt::{DeallocationError, PageManagementProvider};
use vstd::prelude::*;

verus! {

use crate::mm::addr::{lemma_page_of, page_of};
use crate::mm::domain::foreign::{foreign_at, foreign_map};
use crate::mm::domain::publish::present_confirmed;
use crate::mm::domain::registry::family_of;
use crate::mm::domain::DomainModel;
use crate::mm::manager::release::each_published;
use crate::mm::manager::views::{
    all_removed, all_retired, drop_asked, foreign_spans, free_spans, gaps, held_spans, is_inherited_from,
    removed_for_view, whole_pages,
};
use crate::mm::manager::{needed, pages_grant, ManagerModel};
use crate::mm::vmas::granted_at;
use crate::mm::vmem::effects::removed;
use crate::mm::vmem::initialization::span;
use crate::mm::vmem::laws::lemma_removal_is_confined;
use crate::mm::vmem::VmemModel;
use crate::range_map::{covered, lemma_pieces, lookup, pieces, uniform};

/// An access is granted exactly where every address of the pages it touches is mapped with at least
/// the permissions that it needs, be it by one mapping or by several.
pub proof fn lemma_granted_access_is_mapped(
    areas: Map<int, VmArea>,
    start: int,
    end: int,
    write: bool,
    align: int,
)
    requires
        align > 0,
        start < end,
    ensures
        pages_grant(areas, start, end, write, align) is Ok <==> forall|k: int|
            page_of(start, align) <= k < page_of(end + align - 1, align) ==> #[trigger] granted_at(
                areas,
                k,
                needed(write),
            ),
        pages_grant(areas, start, end, write, align) is Ok ==> forall|k: int|
            start <= k < end ==> #[trigger] granted_at(areas, k, needed(write)),
{
    lemma_page_of(start, align);
    lemma_page_of(end + align - 1, align);
}

/// A list of ranges in order and apart, between two bounds.
pub open spec fn in_order(list: Seq<(int, int)>, start: int, end: int) -> bool {
    &&& forall|i: int|
        0 <= i < list.len() ==> start <= (#[trigger] list[i]).0 < list[i].1 <= end
    &&& forall|i: int, j: int|
        0 <= i < j < list.len() ==> (#[trigger] list[i]).1 <= (#[trigger] list[j]).0
}

/// Some range of a list holds an address.
pub open spec fn within(list: Seq<(int, int)>, address: int) -> bool {
    exists|i: int| 0 <= i < list.len() && (#[trigger] list[i]).0 <= address < list[i].1
}

/// What is held for others and what is free share a range out: every address of it is in exactly one
/// of the two.
pub proof fn lemma_gaps(held: Seq<(int, int)>, cursor: int, end: int, k: int)
    requires
        in_order(held, cursor, end),
        cursor <= end,
    ensures
        within(gaps(held, cursor, end), k) <==> cursor <= k < end && !within(held, k),
    decreases held.len(),
{
    let list = gaps(held, cursor, end);
    if held.len() == 0 {
        if cursor <= k < end {
            assert(list[0].0 <= k < list[0].1);
        }
    } else {
        let first = held[0];
        let rest = held.drop_first();
        assert(in_order(rest, first.1, end)) by {
            assert forall|i: int| 0 <= i < rest.len() implies first.1 <= (#[trigger] rest[i]).0 < rest[i].1
                <= end by {
                assert(held[0].1 <= held[i + 1].0);
            }
            assert forall|i: int, j: int| 0 <= i < j < rest.len() implies (#[trigger] rest[i]).1 <= (
            #[trigger] rest[j]).0 by {
                assert(held[i + 1].1 <= held[j + 1].0);
            }
        }
        lemma_gaps(rest, first.1, end, k);
        let tail = gaps(rest, first.1, end);
        let shift: int = if cursor < first.0 { 1 } else { 0 };
        assert(forall|i: int| 0 <= i < tail.len() ==> list[i + shift] == #[trigger] tail[i]);
        if within(tail, k) {
            let i = choose|i: int| 0 <= i < tail.len() && (#[trigger] tail[i]).0 <= k < tail[i].1;
            assert(list[i + shift].0 <= k < list[i + shift].1);
        }
        if within(rest, k) {
            let i = choose|i: int| 0 <= i < rest.len() && (#[trigger] rest[i]).0 <= k < rest[i].1;
            assert(held[i + 1].0 <= k < held[i + 1].1);
        }
        if within(held, k) {
            let i = choose|i: int| 0 <= i < held.len() && (#[trigger] held[i]).0 <= k < held[i].1;
            if i > 0 {
                assert(rest[i - 1].0 <= k < rest[i - 1].1);
                assert(held[0].1 <= held[i].0);
            }
        }
        if within(list, k) {
            let i = choose|i: int| 0 <= i < list.len() && (#[trigger] list[i]).0 <= k < list[i].1;
            if i >= shift {
                assert(list[i] == tail[i - shift]);
                assert(within(tail, k));
            } else {
                assert(list[0] == (cursor, first.0));
            }
        }
        if cursor <= k < first.0 {
            assert(list[0].0 <= k < list[0].1);
        }
        if first.0 <= k < first.1 {
            assert(held[0].0 <= k < held[0].1);
        }
    }
}

/// What lies outside every range of a list stays mapped as it is when the list is removed.
proof fn lemma_all_removed<P: PageManagementProvider<ALIGN>, const ALIGN: usize>(
    platform: &P,
    before: ManagerModel,
    list: Seq<(int, int)>,
    view: VmViewId,
    after: ManagerModel,
    result: Result<(), VmemUnmapError>,
    k: int,
)
    requires
        all_removed(platform, before, list, view, after, result),
        !within(list, k),
    ensures
        lookup(after.vmem.areas, k) == lookup(before.vmem.areas, k),
    decreases list.len(),
{
    if list.len() > 0 {
        let rest = list.drop_first();
        assert(!within(rest, k)) by {
            if within(rest, k) {
                let i = choose|i: int| 0 <= i < rest.len() && (#[trigger] rest[i]).0 <= k < rest[i].1;
                assert(list[i + 1].0 <= k < list[i + 1].1);
            }
        }
        assert(!(list[0].0 <= k < list[0].1));
        if !whole_pages(list[0].0, list[0].1, ALIGN as int) {
            lemma_all_removed(platform, before, rest, view, after, result, k);
        } else {
            let (mid, outcome) = choose|mid: VmemModel, outcome: Result<(), VmemUnmapError>| #[trigger]
                removed(platform, before.vmem, list[0].0, list[0].1, mid, outcome) && match outcome {
                    Err(error) => after == (ManagerModel { vmem: mid, ..before }) && result == Err::<
                        (),
                        VmemUnmapError,
                    >(error),
                    Ok(()) => all_removed(
                        platform,
                        (ManagerModel {
                            vmem: mid,
                            domain: crate::mm::manager::views::own_custody_retired(
                                before.domain,
                                view,
                                list[0].0,
                                list[0].1,
                            ),
                        }),
                        rest,
                        view,
                        after,
                        result,
                    ),
                };
            lemma_removal_is_confined(platform, before.vmem, list[0].0, list[0].1, mid, outcome);
            assert(lookup(mid.areas, k) == lookup(before.vmem.areas, k));
            if outcome is Ok {
                lemma_all_removed(
                    platform,
                    (ManagerModel {
                        vmem: mid,
                        domain: crate::mm::manager::views::own_custody_retired(
                            before.domain,
                            view,
                            list[0].0,
                            list[0].1,
                        ),
                    }),
                    rest,
                    view,
                    after,
                    result,
                    k,
                );
            }
        }
    }
}

/// The parts of a range that another live family holds are in order, and hold just the addresses
/// that another live family holds.
pub proof fn lemma_foreign_spans(m: ManagerModel, view: VmViewId, start: int, end: int, k: int)
    requires
        start < end,
        family_of(m.domain, view) is Some,
    ensures
        in_order(foreign_spans(m.domain, view, start, end), start, end),
        within(foreign_spans(m.domain, view, start, end), k) <==> start <= k < end && foreign_at(
            m.domain,
            family_of(m.domain, view)->0.raw,
            k,
        ),
{
    let own = family_of(m.domain, view)->0.raw;
    let map = foreign_map(m.domain, own, start, end);
    let found = pieces(map, start, end);
    lemma_pieces(map, start, end);
    let list = foreign_spans(m.domain, view, start, end);
    assert forall|i: int| 0 <= i < list.len() implies start <= (#[trigger] list[i]).0 < list[i].1 <= end by {
        assert(start <= found[i].0 < found[i].1 <= end);
    }
    assert forall|i: int, j: int| 0 <= i < j < list.len() implies (#[trigger] list[i]).1 <= (
    #[trigger] list[j]).0 by {
        assert(found[i].1 <= found[j].0);
    }
    if within(list, k) {
        let i = choose|i: int| 0 <= i < list.len() && (#[trigger] list[i]).0 <= k < list[i].1;
        assert(lookup(map, k) == Some(found[i].2));
    }
    if start <= k < end && foreign_at(m.domain, own, k) {
        assert(lookup(map, k) is Some);
        assert(covered(found, k));
        let i = choose|i: int| 0 <= i < found.len() && (#[trigger] found[i]).0 <= k < found[i].1;
        assert(list[i].0 <= k < list[i].1);
    }
}

/// Letting go of a range on behalf of a view touches no address outside it, nor the program break.
/// Nothing is mapped anew: an address of the range is unmapped or as it was.
pub proof fn lemma_removal_for_a_view_is_confined<P: PageManagementProvider<ALIGN>, const ALIGN: usize>(
    platform: &P,
    before: ManagerModel,
    view: VmViewId,
    range: (int, int),
    independent: bool,
    after: ManagerModel,
    result: Result<(), VmemUnmapError>,
)
    requires
        range.0 < range.1,
        removed_for_view(platform, before, view, range, independent, after, result),
    ensures
        forall|k: int|
            !(range.0 <= k < range.1) ==> #[trigger] lookup(after.vmem.areas, k) == lookup(
                before.vmem.areas,
                k,
            ),
        forall|k: int|
            lookup(after.vmem.areas, k) is Some ==> #[trigger] lookup(after.vmem.areas, k) == lookup(
                before.vmem.areas,
                k,
            ),
        after.vmem.brk == before.vmem.brk,
        result is Ok && !independent && range.0 % ALIGN as int == 0 && range.1 % ALIGN as int == 0 && ALIGN
            > 0 ==> forall|k: int|
            range.0 <= k < range.1 ==> #[trigger] lookup(after.vmem.areas, k) is None,
{
    let (start, end) = range;
    let held = held_spans(before.domain, view, start, end, independent);
    let free = free_spans(before.domain, view, start, end, independent);
    let mid = ManagerModel { domain: all_retired(before.domain, held, view), ..before };
    assert forall|k: int| !(start <= k < end) implies #[trigger] lookup(after.vmem.areas, k) == lookup(
        before.vmem.areas,
        k,
    ) by {
        assert(!within(free, k)) by {
            if independent && !is_inherited_from(before.domain, view) {
                if family_of(before.domain, view) is Some {
                    lemma_foreign_spans(before, view, start, end, k);
                }
                lemma_gaps(foreign_spans(before.domain, view, start, end), start, end, k);
            } else if within(free, k) {
                let i = choose|i: int| 0 <= i < free.len() && (#[trigger] free[i]).0 <= k < free[i].1;
                assert(free[i] == (start, end));
            }
        }
        lemma_all_removed(platform, mid, free, view, after, result, k);
    }
    assert forall|k: int| lookup(after.vmem.areas, k) is Some implies #[trigger] lookup(after.vmem.areas, k)
        == lookup(before.vmem.areas, k) by {
        lemma_all_removed_only_removes(platform, mid, free, view, after, result, k);
    }
    lemma_all_removed_only_removes(platform, mid, free, view, after, result, 0);
    if result is Ok && !independent && start % ALIGN as int == 0 && end % ALIGN as int == 0 && ALIGN > 0 {
        reveal_with_fuel(all_removed, 2);
        assert(free[0] == (start, end));
        assert forall|k: int| start <= k < end implies #[trigger] lookup(after.vmem.areas, k) is None by {
            assert(free[0].0 <= k < free[0].1);
            lemma_all_removed_only_removes(platform, mid, free, view, after, result, k);
            assert(whole_pages(start, end, ALIGN as int));
            assert(free.drop_first().len() == 0);
            let (vmem, outcome) = choose|vmem: VmemModel, outcome: Result<(), VmemUnmapError>| #[trigger]
                removed(platform, mid.vmem, start, end, vmem, outcome) && (outcome is Ok ==> after.vmem
                    == vmem) && (outcome is Err ==> result is Err);
            lemma_removal_is_confined(platform, mid.vmem, start, end, vmem, outcome);
        }
    }
}

/// Removing a list of ranges maps nothing anew and leaves the program break.
proof fn lemma_all_removed_only_removes<P: PageManagementProvider<ALIGN>, const ALIGN: usize>(
    platform: &P,
    before: ManagerModel,
    list: Seq<(int, int)>,
    view: VmViewId,
    after: ManagerModel,
    result: Result<(), VmemUnmapError>,
    k: int,
)
    requires
        all_removed(platform, before, list, view, after, result),
    ensures
        lookup(after.vmem.areas, k) is Some ==> lookup(after.vmem.areas, k) == lookup(
            before.vmem.areas,
            k,
        ),
        after.vmem.brk == before.vmem.brk,
    decreases list.len(),
{
    if list.len() > 0 {
        let rest = list.drop_first();
        if !whole_pages(list[0].0, list[0].1, ALIGN as int) {
            lemma_all_removed_only_removes(platform, before, rest, view, after, result, k);
        } else {
            let (mid, outcome) = choose|mid: VmemModel, outcome: Result<(), VmemUnmapError>| #[trigger]
                removed(platform, before.vmem, list[0].0, list[0].1, mid, outcome) && match outcome {
                    Err(error) => after.vmem == mid,
                    Ok(()) => all_removed(
                        platform,
                        (ManagerModel {
                            vmem: mid,
                            domain: crate::mm::manager::views::own_custody_retired(
                                before.domain,
                                view,
                                list[0].0,
                                list[0].1,
                            ),
                        }),
                        rest,
                        view,
                        after,
                        result,
                    ),
                };
            lemma_removal_is_confined(platform, before.vmem, list[0].0, list[0].1, mid, outcome);
            if outcome is Ok {
                lemma_all_removed_only_removes(
                    platform,
                    (ManagerModel {
                        vmem: mid,
                        domain: crate::mm::manager::views::own_custody_retired(
                            before.domain,
                            view,
                            list[0].0,
                            list[0].1,
                        ),
                    }),
                    rest,
                    view,
                    after,
                    result,
                    k,
                );
            }
        }
    }
}

/// What others rely on stays: when a view with an address space of its own lets go of a range, the
/// mapping of an address is kept wherever another live family has real pages, and everywhere while
/// a live descendant still inherits from the view's family. Outside the range nothing is removed.
pub proof fn lemma_shared_memory_stays<P: PageManagementProvider<ALIGN>, const ALIGN: usize>(
    platform: &P,
    before: ManagerModel,
    view: VmViewId,
    range: (int, int),
    independent: bool,
    after: ManagerModel,
    result: Result<(), VmemUnmapError>,
    k: int,
)
    requires
        range.0 < range.1,
        family_of(before.domain, view) is Some,
        removed_for_view(platform, before, view, range, independent, after, result),
        !(range.0 <= k < range.1) || independent && (is_inherited_from(before.domain, view) || foreign_at(
            before.domain,
            family_of(before.domain, view)->0.raw,
            k,
        )),
    ensures
        lookup(after.vmem.areas, k) == lookup(before.vmem.areas, k),
{
    let (start, end) = range;
    let held = held_spans(before.domain, view, start, end, independent);
    let free = free_spans(before.domain, view, start, end, independent);
    assert(!within(free, k)) by {
        if independent && !is_inherited_from(before.domain, view) {
            lemma_foreign_spans(before, view, start, end, k);
            lemma_gaps(foreign_spans(before.domain, view, start, end), start, end, k);
        } else if within(free, k) {
            let i = choose|i: int| 0 <= i < free.len() && (#[trigger] free[i]).0 <= k < free[i].1;
            assert(free[i] == (start, end));
        }
    }
    let mid = ManagerModel { domain: all_retired(before.domain, held, view), ..before };
    lemma_all_removed(platform, mid, free, view, after, result, k);
}

/// What is held for another is not removed but given up towards the platform: it is asked to let go of each
/// such part of the range.
pub proof fn lemma_held_pages_are_let_go<P: PageManagementProvider<ALIGN>, const ALIGN: usize>(
    platform: &P,
    before: ManagerModel,
    view: VmViewId,
    range: (int, int),
    independent: bool,
    after: ManagerModel,
    result: Result<(), VmemUnmapError>,
    i: int,
)
    requires
        removed_for_view(platform, before, view, range, independent, after, result),
        0 <= i < held_spans(before.domain, view, range.0, range.1, independent).len(),
    ensures
        ({
            let part = held_spans(before.domain, view, range.0, range.1, independent)[i];
            exists|answer: Result<(), DeallocationError>| #[trigger]
                call_ensures(P::deallocate_pages, (platform, span(part.0, part.1)), answer)
        }),
{
    let held = held_spans(before.domain, view, range.0, range.1, independent);
    assert(drop_asked(platform, held[i].0, held[i].1));
}

/// Ranges are published one after another: publishing none changes nothing, one is published as by
/// itself, and a list that goes on goes on from where the first part left the domain.
pub proof fn lemma_publishing_goes_on(m: DomainModel, first: Seq<(int, int)>, more: Seq<(int, int)>, view: VmViewId)
    ensures
        each_published(m, Seq::empty(), view) == m,
        first.len() == 1 ==> each_published(m, first, view) == present_confirmed(
            m,
            view,
            first[0].0,
            first[0].1,
        ).0,
        each_published(m, first + more, view) == each_published(each_published(m, first, view), more, view),
    decreases first.len(),
{
    reveal_with_fuel(each_published, 2);
    if first.len() == 0 {
        assert(first + more =~= more);
    } else {
        let next = present_confirmed(m, view, first[0].0, first[0].1).0;
        assert((first + more).drop_first() =~= first.drop_first() + more);
        lemma_publishing_goes_on(next, first.drop_first(), more, view);
    }
}

} // verus!
