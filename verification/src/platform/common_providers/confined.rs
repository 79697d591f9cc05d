//! Guest-memory access that is confined to the calling guest's own view.
//!
//! Every access is checked against the view's mappings, the platform brings the pages into a state
//! that the host may use, and each page is accessed where the host keeps it for the view. What is
//! not wholly mapped, or that the platform refuses, is not accessed at all.
use crate::ids::VmViewId;
use crate::mm::manager::PageManager;
use crate::platform::page_mgmt::{GuestAccessPreparation, PageManagementProvider};
use core::marker::PhantomData;
use core::ops::Range;
use vstd::prelude::*;

verus! {

use crate::mm::domain::admission::lease_released;
use crate::mm::domain::lineage::has_live_descendant;
use crate::mm::domain::lookup::lineage_fragments;
use crate::mm::domain::registry::family_of;
use crate::mm::domain::DomainModel;
use crate::mm::manager::fault::page_of;
use crate::mm::manager::release::each_published;
use crate::mm::manager::views::{holder_models, holders_of, spans};
use crate::mm::manager::{access_checked, ManagerModel};
use crate::mm::vmem::initialization::span;

/// How often the rest of a range is split anew where a run could not be served.
pub const RUN_REPLANS: u32 = 2;

/// A range was checked for a view. The lease that the check takes is given back at once.
pub open spec fn range_admitted<P: PageManagementProvider<ALIGN>, const ALIGN: usize>(
    m: ManagerModel,
    view: VmViewId,
    start: int,
    end: int,
    write: bool,
) -> (DomainModel, bool) {
    match access_checked(
        (P::TASK_ADDR_MIN as int, P::TASK_ADDR_MAX as int),
        m,
        view,
        start,
        end,
        write,
        ALIGN as int,
    ) {
        (domain, Ok(lease)) => (lease_released(domain, lease), true),
        (domain, Err(_)) => (domain, false),
    }
}

/// The ranges of pages.
pub open spec fn page_ranges(pages: Seq<usize>, align: usize) -> Seq<(int, int)> {
    Seq::new(pages.len(), |i: int| (pages[i] as int, pages[i].wrapping_add(align) as int))
}

/// The domain after pages were promoted into a view's own: they are published as the view's, unless
/// the view has descendants that must still reach what they inherited.
pub open spec fn promoted(m: DomainModel, view: VmViewId, pages: Seq<usize>, align: usize) -> DomainModel {
    if pages.len() > 0 && !(family_of(m, view) matches Some(family) && has_live_descendant(
        m,
        family,
    )) {
        each_published(m, page_ranges(pages, align), view)
    } else {
        m
    }
}

/// The platform was asked to prepare an access, told who holds the range by lineage.
pub open spec fn pages_prepared<P: PageManagementProvider<ALIGN>, const ALIGN: usize>(
    before: DomainModel,
    view: VmViewId,
    range: (int, int),
    write: bool,
    after: DomainModel,
    allowed: bool,
) -> bool {
    exists|holders: Vec<(Range<usize>, VmViewId)>, done: GuestAccessPreparation| #[trigger]
        call_ensures(
            P::prepare_guest_access,
            (view, span(range.0, range.1), write, &holders),
            done,
        ) && holder_models(holders@) == holders_of(
            lineage_fragments(before, view, range.0, range.1),
        ) && after == promoted(before, view, done.promoted@, ALIGN) && allowed == !done.refused
}

/// By how much a page is moved.
pub open spec fn moved_by(target: Option<usize>, page: int) -> Option<usize> {
    match target {
        Some(target) => Some(target.wrapping_sub(page as usize)),
        None => None,
    }
}

/// The target of a page in a list that may be short.
pub open spec fn target_at(targets: Seq<Option<usize>>, index: int) -> Option<usize> {
    if 0 <= index < targets.len() {
        targets[index]
    } else {
        None
    }
}

/// An address, moved.
pub open spec fn moved(addr: usize, delta: Option<usize>) -> usize {
    match delta {
        Some(delta) => addr.wrapping_add(delta),
        None => addr,
    }
}

/// The pages of a list from an index on are all moved by the same amount, and end inside the
/// address space.
pub open spec fn moved_alike(
    targets: Seq<Option<usize>>,
    index: int,
    page: int,
    align: int,
    delta: Option<usize>,
) -> bool
    decreases targets.len() - index,
{
    if index >= targets.len() {
        true
    } else {
        moved_by(targets[index], page) == delta && page + align <= usize::MAX && moved_alike(
            targets,
            index + 1,
            page + align,
            align,
            delta,
        )
    }
}

/// Where an access over pages with these targets goes: one place for all of it, or nowhere.
pub open spec fn single_place(addr: usize, page: int, targets: Seq<Option<usize>>, align: int) -> Option<usize> {
    let delta = moved_by(target_at(targets, 0), page);
    if moved_alike(targets, 0, page, align, delta) {
        Some(moved(addr, delta))
    } else {
        None
    }
}

/// The platform was asked where the pages of an access are, and the access goes to one place or
/// nowhere.
pub open spec fn redirected<P: PageManagementProvider<ALIGN>, const ALIGN: usize>(
    view: VmViewId,
    addr: usize,
    end: int,
    host: Option<usize>,
) -> bool {
    let first = page_of(addr as int, ALIGN as int);
    let last = page_of(end - 1, ALIGN as int);
    if first == last {
        exists|target: Option<usize>| #[trigger]
            call_ensures(P::resolve_promoted_host_page, (view, first as usize), target) && host
                == Some(moved(addr, moved_by(target, first)))
    } else {
        exists|targets: Vec<Option<usize>>| #[trigger]
            call_ensures(
                P::resolve_promoted_host_pages,
                (view, first as usize, last as usize),
                targets,
            ) && host == single_place(addr, first, targets@, ALIGN as int)
    }
}

/// Where an approved access goes was settled.
pub open spec fn placed_at<P: PageManagementProvider<ALIGN>, const ALIGN: usize>(
    view: VmViewId,
    addr: usize,
    end: int,
    host: Option<usize>,
) -> bool {
    exists|active: bool| #[trigger]
        call_ensures(P::any_host_redirect_active, (), active) && if active {
            redirected::<P, ALIGN>(view, addr, end, host)
        } else {
            host == Some(addr)
        }
}

/// An access that passed the check was prepared and placed.
pub open spec fn prepared_and_placed<P: PageManagementProvider<ALIGN>, const ALIGN: usize>(
    before: DomainModel,
    view: VmViewId,
    addr: usize,
    end: int,
    write: bool,
    after: DomainModel,
    host: Option<usize>,
) -> bool {
    exists|allowed: bool| #[trigger]
        pages_prepared::<P, ALIGN>(before, view, (addr as int, end), write, after, allowed)
            && if allowed {
            placed_at::<P, ALIGN>(view, addr, end, host)
        } else {
            host is None
        }
}

/// An access was checked, prepared and placed.
pub open spec fn checked_at<P: PageManagementProvider<ALIGN>, const ALIGN: usize>(
    before: ManagerModel,
    view: VmViewId,
    addr: usize,
    size: usize,
    write: bool,
    after: ManagerModel,
    host: Option<usize>,
) -> bool {
    let end = addr + size;
    if size == 0 {
        after == before && host == Some(addr)
    } else if end > usize::MAX {
        after == before && host is None
    } else {
        let (domain, admitted) = range_admitted::<P, ALIGN>(before, view, addr as int, end, write);
        &&& after.vmem == before.vmem
        &&& if !admitted {
            after.domain == domain && host is None
        } else {
            prepared_and_placed::<P, ALIGN>(domain, view, addr, end, write, after.domain, host)
        }
    }
}

/// An access is only ever let through where the pages around it grant it and the view admits it.
pub proof fn lemma_confined<P: PageManagementProvider<ALIGN>, const ALIGN: usize>(
    before: ManagerModel,
    view: VmViewId,
    addr: usize,
    size: usize,
    write: bool,
    after: ManagerModel,
    host: usize,
)
    requires
        size > 0,
        checked_at::<P, ALIGN>(before, view, addr, size, write, after, Some(host)),
    ensures
        P::TASK_ADDR_MIN <= addr,
        addr + size <= P::TASK_ADDR_MAX,
        crate::mm::manager::pages_grant(
            before.vmem.areas,
            addr as int,
            addr + size,
            write,
            ALIGN as int,
        ) is Ok,
        crate::mm::domain::admission::lease_acquired(before.domain, view).1 is Ok,
{
}

/// How far it is from a page to the last one, itself counted.
pub open spec fn pages_left(page: int, last: int) -> int {
    if page > last {
        0
    } else {
        last - page + 1
    }
}

/// The runs of a range from a page on: a new one begins at every page that is moved by another
/// amount than the page before it.
pub open spec fn split_at(
    targets: Seq<Option<usize>>,
    align: int,
    run_start: int,
    index: int,
    page: int,
    last: int,
    end: int,
) -> Seq<(int, int)>
    decreases pages_left(page, last),
{
    if align <= 0 || page > last {
        seq![(run_start, end)]
    } else {
        let here = moved_by(target_at(targets, index), page);
        let before = moved_by(target_at(targets, index - 1), page - align);
        if here != before {
            seq![(run_start, page)] + split_at(
                targets,
                align,
                page,
                index + 1,
                page + align,
                last,
                end,
            )
        } else {
            split_at(targets, align, run_start, index + 1, page + align, last, end)
        }
    }
}

/// The runs of a range, given where its pages are.
pub open spec fn runs_over(targets: Seq<Option<usize>>, align: int, addr: int, end: int) -> Seq<(int, int)> {
    let first = page_of(addr, align);
    split_at(targets, align, addr, 1, first + align, page_of(end - 1, align), end)
}

/// Runs that tile a range: each begins where the one before it ends, and none is empty.
pub open spec fn tiles(runs: Seq<(int, int)>, start: int, end: int) -> bool {
    &&& runs.len() > 0
    &&& runs[0].0 == start
    &&& runs.last().1 == end
    &&& forall|i: int| 0 <= i < runs.len() ==> (#[trigger] runs[i]).0 < runs[i].1
    &&& forall|i: int, j: int|
        0 <= i < runs.len() && j == i + 1 && j < runs.len() ==> (#[trigger] runs[i]).1 == (
        #[trigger] runs[j]).0
}

proof fn lemma_split_tiles(
    targets: Seq<Option<usize>>,
    align: int,
    run_start: int,
    index: int,
    page: int,
    last: int,
    end: int,
)
    requires
        align > 0,
        run_start < page || page > last,
        run_start < end,
        last < end,
    ensures
        tiles(split_at(targets, align, run_start, index, page, last, end), run_start, end),
    decreases pages_left(page, last),
{
    if page <= last {
        let here = moved_by(target_at(targets, index), page);
        let before = moved_by(target_at(targets, index - 1), page - align);
        if here != before {
            lemma_split_tiles(targets, align, page, index + 1, page + align, last, end);
            let rest = split_at(targets, align, page, index + 1, page + align, last, end);
            let all = seq![(run_start, page)] + rest;
            assert forall|i: int| 0 <= i < all.len() implies (#[trigger] all[i]).0 < all[i].1 by {
                if i > 0 {
                    assert(all[i] == rest[i - 1]);
                }
            }
            assert forall|i: int, j: int|
                0 <= i < all.len() && j == i + 1 && j < all.len() implies (#[trigger] all[i]).1 == (
            #[trigger] all[j]).0 by {
                if i > 0 {
                    assert(all[i] == rest[i - 1] && all[j] == rest[j - 1]);
                } else {
                    assert(all[j] == rest[0]);
                }
            }
            assert(all.last() == rest.last());
        } else {
            lemma_split_tiles(targets, align, run_start, index + 1, page + align, last, end);
        }
    }
}

/// The runs that an access is served in tile its range.
pub proof fn lemma_runs_tile(targets: Seq<Option<usize>>, align: int, addr: int, end: int)
    requires
        align > 0,
        0 <= addr < end,
    ensures
        tiles(runs_over(targets, align, addr, end), addr, end),
{
    let first = page_of(addr, align);
    vstd::arithmetic::div_mod::lemma_mod_bound(addr, align);
    vstd::arithmetic::div_mod::lemma_mod_bound(end - 1, align);
    lemma_split_tiles(
        targets,
        align,
        addr,
        1,
        first + align,
        page_of(end - 1, align),
        end,
    );
}

/// A run other than the first begins at an address.
pub open spec fn begins_at(runs: Seq<(int, int)>, at: int) -> bool {
    exists|i: int| 0 < i < runs.len() && (#[trigger] runs[i]).0 == at
}

proof fn lemma_split_parts(
    targets: Seq<Option<usize>>,
    align: int,
    run_start: int,
    index: int,
    page: int,
    last: int,
    end: int,
    j: int,
    at: int,
)
    requires
        align > 0,
        index <= j,
        at == page + (j - index) * align,
        at <= last,
    ensures
        ({
            let runs = split_at(targets, align, run_start, index, page, last, end);
            &&& runs.len() > 0
            &&& runs[0].0 == run_start
            &&& forall|i: int| 0 < i < runs.len() ==> (#[trigger] runs[i]).0 >= page
            &&& begins_at(runs, at) <==> moved_by(target_at(targets, j), at) != moved_by(
                target_at(targets, j - 1),
                at - align,
            )
        }),
    decreases pages_left(page, last),
{
    let runs = split_at(targets, align, run_start, index, page, last, end);
    assert(page <= at) by (nonlinear_arith)
        requires
            at == page + (j - index) * align,
            index <= j,
            align > 0,
    ;
    let here = moved_by(target_at(targets, index), page);
    let before = moved_by(target_at(targets, index - 1), page - align);
    let next_start = if here != before {
        page
    } else {
        run_start
    };
    let rest = split_at(targets, align, next_start, index + 1, page + align, last, end);
    lemma_split_starts(targets, align, next_start, index + 1, page + align, last, end);
    if here != before {
        assert(runs == seq![(run_start, page)] + rest);
        assert forall|i: int| 0 < i < runs.len() implies (#[trigger] runs[i]).0 >= page by {
            assert(runs[i] == rest[i - 1]);
        }
        assert(runs[1] == rest[0]);
    }
    if j == index {
        assert(at == page) by (nonlinear_arith)
            requires
                at == page + (j - index) * align,
                j == index,
        ;
    } else {
        assert(at == page + align + (j - (index + 1)) * align) by (nonlinear_arith)
            requires
                at == page + (j - index) * align,
        ;
        assert(at > page) by (nonlinear_arith)
            requires
                at == page + align + (j - (index + 1)) * align,
                j >= index + 1,
                align > 0,
        ;
        lemma_split_parts(targets, align, next_start, index + 1, page + align, last, end, j, at);
        if here != before {
            if begins_at(runs, at) {
                let i = choose|i: int| 0 < i < runs.len() && (#[trigger] runs[i]).0 == at;
                assert(runs[i] == rest[i - 1]);
                assert(i != 1);
            }
            if begins_at(rest, at) {
                let i = choose|i: int| 0 < i < rest.len() && (#[trigger] rest[i]).0 == at;
                assert(runs[i + 1] == rest[i]);
            }
        }
    }
}

proof fn lemma_split_starts(
    targets: Seq<Option<usize>>,
    align: int,
    run_start: int,
    index: int,
    page: int,
    last: int,
    end: int,
)
    requires
        align > 0,
    ensures
        ({
            let runs = split_at(targets, align, run_start, index, page, last, end);
            &&& runs.len() > 0
            &&& runs[0].0 == run_start
            &&& forall|i: int| 0 < i < runs.len() ==> (#[trigger] runs[i]).0 >= page
        }),
    decreases pages_left(page, last),
{
    if page <= last {
        let here = moved_by(target_at(targets, index), page);
        let before = moved_by(target_at(targets, index - 1), page - align);
        let next_start = if here != before {
            page
        } else {
            run_start
        };
        lemma_split_starts(targets, align, next_start, index + 1, page + align, last, end);
        if here != before {
            let rest = split_at(targets, align, page, index + 1, page + align, last, end);
            let runs = seq![(run_start, page)] + rest;
            assert forall|i: int| 0 < i < runs.len() implies (#[trigger] runs[i]).0 >= page by {
                assert(runs[i] == rest[i - 1]);
            }
        }
    }
}

/// A range is split exactly where it must be: a run begins at a page if and only if the host keeps that
/// page at another distance than the page before it. `j` counts the pages of the range from the first.
pub proof fn lemma_runs_part_where_pages_do(
    targets: Seq<Option<usize>>,
    align: int,
    addr: int,
    end: int,
    j: int,
    at: int,
)
    requires
        align > 0,
        0 <= addr < end,
        1 <= j,
        at == page_of(addr, align) + j * align,
        at <= page_of(end - 1, align),
    ensures
        begins_at(runs_over(targets, align, addr, end), at) <==> moved_by(target_at(targets, j), at)
            != moved_by(target_at(targets, j - 1), at - align),
{
    let first = page_of(addr, align);
    assert(at == first + align + (j - 1) * align) by (nonlinear_arith)
        requires
            at == first + j * align,
    ;
    lemma_split_parts(targets, align, addr, 1, first + align, page_of(end - 1, align), end, j, at);
}

/// Two addresses are as far apart as two others, around the address space.
pub open spec fn as_far(from: usize, to: usize, other_from: int, other_to: usize) -> bool {
    let difference = (to - from) - (other_to - other_from);
    difference == 0 || difference == usize::MAX + 1 || difference == -(usize::MAX + 1)
}

proof fn lemma_alike_serves(
    targets: Seq<Option<usize>>,
    index: int,
    page: int,
    align: int,
    delta: Option<usize>,
    i: int,
    at: int,
)
    requires
        align > 0,
        0 <= index <= i < targets.len(),
        at == page + (i - index) * align,
        moved_alike(targets, index, page, align, delta),
    ensures
        moved_by(targets[i], at) == delta,
        at + align <= usize::MAX,
    decreases targets.len() - index,
{
    if i == index {
        assert(at == page) by (nonlinear_arith)
            requires
                at == page + (i - index) * align,
                i == index,
        ;
    } else {
        assert(at == page + align + (i - (index + 1)) * align) by (nonlinear_arith)
            requires
                at == page + (i - index) * align,
        ;
        lemma_alike_serves(targets, index + 1, page + align, align, delta, i, at);
    }
}

/// An access that goes to one place is served there by every page it touches: each page is as far from
/// where the host keeps it as the access from where it goes, and the access stays where it is if the host
/// keeps none of the pages elsewhere. `i` counts the pages.
pub proof fn lemma_one_place_serves_every_page(
    addr: usize,
    page: int,
    targets: Seq<Option<usize>>,
    align: int,
    host: usize,
    i: int,
    at: int,
)
    requires
        align > 0,
        0 <= page <= addr,
        0 <= i < targets.len(),
        at == page + i * align,
        single_place(addr, page, targets, align) == Some(host),
    ensures
        match targets[i] {
            Some(target) => as_far(addr, host, at, target),
            None => host == addr,
        },
{
    let delta = moved_by(target_at(targets, 0), page);
    lemma_alike_serves(targets, 0, page, align, delta, i, at);
    assert(at >= 0) by (nonlinear_arith)
        requires
            at == page + i * align,
            page >= 0,
            i >= 0,
            align > 0,
    ;
}

/// An access that goes nowhere touches two pages that the host keeps at different distances, or reaches
/// the end of the address space.
pub proof fn lemma_no_place_for_pages_apart(addr: usize, page: int, targets: Seq<Option<usize>>, align: int)
    requires
        align > 0,
        page >= 0,
        single_place(addr, page, targets, align) is None,
    ensures
        exists|i: int|
            #![trigger targets[i]]
            0 <= i < targets.len() && (moved_by(targets[i], page + i * align) != moved_by(targets[0], page)
                || page + i * align + align > usize::MAX),
{
    let delta = moved_by(target_at(targets, 0), page);
    lemma_parted_page_exists(targets, 0, page, align, delta);
    let i = choose|i: int|
        #![trigger targets[i]]
        0 <= i < targets.len() && (moved_by(targets[i], page + (i - 0) * align) != delta || page + (i - 0)
            * align + align > usize::MAX);
    assert(0 <= i < targets.len() && (moved_by(targets[i], page + i * align) != delta || page + i * align
        + align > usize::MAX));
}

proof fn lemma_parted_page_exists(
    targets: Seq<Option<usize>>,
    index: int,
    page: int,
    align: int,
    delta: Option<usize>,
)
    requires
        0 <= index,
        !moved_alike(targets, index, page, align, delta),
    ensures
        exists|i: int|
            #![trigger targets[i]]
            index <= i < targets.len() && (moved_by(targets[i], page + (i - index) * align) != delta || page
                + (i - index) * align + align > usize::MAX),
    decreases targets.len() - index,
{
    if moved_by(targets[index], page) != delta || page + align > usize::MAX {
        assert((index - index) * align == 0) by (nonlinear_arith);
        assert(index <= index < targets.len() && (moved_by(targets[index], page + (index - index) * align)
            != delta || page + (index - index) * align + align > usize::MAX));
    } else {
        lemma_parted_page_exists(targets, index + 1, page + align, align, delta);
        let i = choose|i: int|
            #![trigger targets[i]]
            index + 1 <= i < targets.len() && (moved_by(targets[i], page + align + (i - (index + 1)) * align)
                != delta || page + align + (i - (index + 1)) * align + align > usize::MAX);
        assert(page + align + (i - (index + 1)) * align == page + (i - index) * align) by (nonlinear_arith);
        assert(index <= i < targets.len() && (moved_by(targets[i], page + (i - index) * align) != delta
            || page + (i - index) * align + align > usize::MAX));
    }
}

/// Pages that become a view's own are published as such only if there are any and no living descendant
/// must still reach what it inherited; else the domain stays as it is.
pub proof fn lemma_promotion_spares_descendants(m: DomainModel, view: VmViewId, pages: Seq<usize>, align: usize)
    ensures
        pages.len() == 0 ==> promoted(m, view, pages, align) == m,
        family_of(m, view) matches Some(family) && has_live_descendant(m, family) ==> promoted(
            m,
            view,
            pages,
            align,
        ) == m,
{
}

/// The platform was asked where the pages of a range are, and the range was split into runs; not
/// where it reaches the end of the address space.
pub open spec fn runs_planned<P: PageManagementProvider<ALIGN>, const ALIGN: usize>(
    view: VmViewId,
    addr: int,
    end: int,
    runs: Option<Seq<(int, int)>>,
) -> bool {
    let first = page_of(addr, ALIGN as int);
    let last = page_of(end - 1, ALIGN as int);
    exists|targets: Vec<Option<usize>>| #[trigger]
        call_ensures(
            P::resolve_promoted_host_pages,
            (view, first as usize, last as usize),
            targets,
        ) && runs == (if last + ALIGN > usize::MAX {
            None
        } else {
            Some(runs_over(targets@, ALIGN as int, addr, end))
        })
}

/// Accesses that are confined to a view of a manager's memory.
pub struct ViewConfinedAccess<P, const ALIGN: usize> {
    platform: PhantomData<P>,
}

impl<P: PageManagementProvider<ALIGN> + 'static, const ALIGN: usize> ViewConfinedAccess<P, ALIGN> {
    /// Brings the pages of a range into a state that the host may use, and publishes what became
    /// the view's own on the way. `false` if the access must not be made.
    pub fn prepare_pages(
        manager: &mut PageManager<P, ALIGN>,
        view: VmViewId,
        start: usize,
        end: usize,
        write: bool,
    ) -> (allowed: bool)
        requires
            old(manager).wf(),
        ensures
            final(manager).follows(old(manager)),
            final(manager)@.vmem == old(manager)@.vmem,
            pages_prepared::<P, ALIGN>(
                old(manager)@.domain,
                view,
                (start as int, end as int),
                write,
                final(manager)@.domain,
                allowed,
            ),
    {
        let holders = manager.lineage_holders(view, start, end);
        let done = P::prepare_guest_access(view, start..end, write, &holders);
        proof {
            assert(call_ensures(
                P::prepare_guest_access,
                (view, span(start as int, end as int), write, &holders),
                done,
            ));
        }
        let descends = manager.guest_va_domain().family_has_live_descendant_of(view);
        if done.promoted.len() > 0 && !descends {
            let mut list: Vec<Range<usize>> = Vec::new();
            let ghost all = page_ranges(done.promoted@, ALIGN);
            let mut i: usize = 0;
            proof {
                assert(spans(list@) =~= all.take(0));
            }
            while i < done.promoted.len()
                invariant
                    i <= done.promoted@.len(),
                    all == page_ranges(done.promoted@, ALIGN),
                    spans(list@) == all.take(i as int),
                decreases done.promoted@.len() - i,
            {
                let page: usize = done.promoted[i];
                let ghost before = spans(list@);
                list.push(page..page.wrapping_add(ALIGN));
                proof {
                    assert(spans(list@) =~= before.push(all[i as int]));
                    assert(all.take(i + 1) =~= all.take(i as int).push(all[i as int]));
                }
                i += 1;
            }
            proof {
                assert(all.take(i as int) =~= all);
            }
            manager.publish_each(view, &list);
        }
        !done.refused
    }

    /// Where an access goes, if all of it goes to one place.
    pub fn resolve_redirect(view: VmViewId, addr: usize, end: usize) -> (host: Option<usize>)
        requires
            ALIGN > 0,
            addr < end,
        ensures
            redirected::<P, ALIGN>(view, addr, end as int, host),
    {
        proof {
            vstd::arithmetic::div_mod::lemma_mod_decreases(addr as nat, ALIGN as nat);
            vstd::arithmetic::div_mod::lemma_mod_decreases((end - 1) as nat, ALIGN as nat);
        }
        let first: usize = addr - addr % ALIGN;
        let last: usize = (end - 1) - (end - 1) % ALIGN;
        if first == last {
            let target = P::resolve_promoted_host_page(view, first);
            proof {
                assert(call_ensures(P::resolve_promoted_host_page, (view, first), target));
            }
            return match target {
                Some(shadow) => Some(addr.wrapping_add(shadow.wrapping_sub(first))),
                None => Some(addr),
            };
        }
        let targets = P::resolve_promoted_host_pages(view, first, last);
        let host = Self::place(addr, first, &targets);
        proof {
            assert(call_ensures(P::resolve_promoted_host_pages, (view, first, last), targets));
        }
        host
    }

    /// Where an access over pages with these targets goes.
    pub fn place(addr: usize, first: usize, targets: &Vec<Option<usize>>) -> (host: Option<usize>)
        ensures
            host == single_place(addr, first as int, targets@, ALIGN as int),
    {
        let ghost list = targets@;
        let delta: Option<usize> = if targets.len() > 0 {
            match targets[0] {
                Some(shadow) => Some(shadow.wrapping_sub(first)),
                None => None,
            }
        } else {
            None
        };
        let mut page: usize = first;
        let mut i: usize = 0;
        while i < targets.len()
            invariant
                i <= targets@.len(),
                list == targets@,
                delta == moved_by(target_at(list, 0), first as int),
                moved_alike(list, 0, first as int, ALIGN as int, delta) == moved_alike(
                    list,
                    i as int,
                    page as int,
                    ALIGN as int,
                    delta,
                ),
            decreases targets@.len() - i,
        {
            let here: Option<usize> = match targets[i] {
                Some(shadow) => Some(shadow.wrapping_sub(page)),
                None => None,
            };
            proof {
                assert(here == moved_by(list[i as int], page as int));
            }
            if here != delta {
                return None;
            }
            page = match page.checked_add(ALIGN) {
                Some(next) => next,
                None => {
                    return None;
                },
            };
            i += 1;
        }
        match delta {
            Some(delta) => Some(addr.wrapping_add(delta)),
            None => Some(addr),
        }
    }

    /// Checks, prepares and places an access. Nothing is accessed where this gives `None`.
    pub fn checked(
        manager: &mut PageManager<P, ALIGN>,
        view: VmViewId,
        addr: usize,
        size: usize,
        write: bool,
    ) -> (host: Option<usize>)
        requires
            old(manager).wf(),
        ensures
            final(manager).follows(old(manager)),
            checked_at::<P, ALIGN>(
                old(manager)@,
                view,
                addr,
                size,
                write,
                final(manager)@,
                host,
            ),
    {
        if size == 0 {
            return Some(addr);
        }
        let end = match addr.checked_add(size) {
            Some(end) => end,
            None => {
                return None;
            },
        };
        if !Self::let_in(manager, view, addr, end, write) {
            return None;
        }
        let ghost admitted = manager@.domain;
        let allowed = Self::prepare_pages(manager, view, addr, end, write);
        proof {
            assert(pages_prepared::<P, ALIGN>(
                admitted,
                view,
                (addr as int, addr + size),
                write,
                manager@.domain,
                allowed,
            ));
        }
        if !allowed {
            proof {
                assert(prepared_and_placed::<P, ALIGN>(
                    admitted,
                    view,
                    addr,
                    addr + size,
                    write,
                    manager@.domain,
                    None,
                ));
            }
            return None;
        }
        let active = P::any_host_redirect_active();
        let host = if active {
            proof {
                manager.lemma_wf();
            }
            Self::resolve_redirect(view, addr, end)
        } else {
            Some(addr)
        };
        proof {
            assert(call_ensures(P::any_host_redirect_active, (), active));
            assert(placed_at::<P, ALIGN>(view, addr, addr + size, host));
            assert(prepared_and_placed::<P, ALIGN>(
                admitted,
                view,
                addr,
                addr + size,
                write,
                manager@.domain,
                host,
            ));
        }
        host
    }

    /// Checks a range for a view.
    pub(crate) fn let_in(
        manager: &mut PageManager<P, ALIGN>,
        view: VmViewId,
        start: usize,
        end: usize,
        write: bool,
    ) -> (admitted: bool)
        requires
            old(manager).wf(),
        ensures
            final(manager).follows(old(manager)),
            final(manager)@.vmem == old(manager)@.vmem,
            (final(manager)@.domain, admitted) == range_admitted::<P, ALIGN>(
                old(manager)@,
                view,
                start as int,
                end as int,
                write,
            ),
    {
        match manager.checked_guest_range(view, start..end, write) {
            Ok(lease) => {
                manager.release_lease(lease);
                true
            },
            Err(_) => false,
        }
    }

    /// The runs of a range whose pages all are moved by one amount, in address order.
    pub fn delta_runs(view: VmViewId, addr: usize, end: usize) -> (runs: Option<Vec<(usize, usize)>>)
        requires
            ALIGN > 0,
            addr < end,
        ensures
            runs_planned::<P, ALIGN>(view, addr as int, end as int, runs_model(runs)),
            runs matches Some(list) ==> tiles(run_models(list@), addr as int, end as int),
    {
        proof {
            vstd::arithmetic::div_mod::lemma_mod_decreases(addr as nat, ALIGN as nat);
            vstd::arithmetic::div_mod::lemma_mod_decreases((end - 1) as nat, ALIGN as nat);
        }
        let first: usize = addr - addr % ALIGN;
        let last: usize = (end - 1) - (end - 1) % ALIGN;
        let targets = P::resolve_promoted_host_pages(view, first, last);
        proof {
            assert(call_ensures(P::resolve_promoted_host_pages, (view, first, last), targets));
        }
        let beyond = last.checked_add(ALIGN);
        if beyond.is_none() {
            return None;
        }
        proof {
            lemma_runs_tile(targets@, ALIGN as int, addr as int, end as int);
            lemma_pages_in_order(addr as int, end as int, ALIGN as int);
        }
        Some(Self::split(addr, end, first, last, &targets))
    }

    /// Splits a range where its pages stop being moved by the same amount.
    pub fn split(addr: usize, end: usize, first: usize, last: usize, targets: &Vec<Option<usize>>) -> (runs: Vec<
        (usize, usize),
    >)
        requires
            ALIGN > 0,
            addr < end,
            first == page_of(addr as int, ALIGN as int),
            last == page_of(end - 1, ALIGN as int),
            first <= last,
            last + ALIGN <= usize::MAX,
        ensures
            run_models(runs@) == runs_over(targets@, ALIGN as int, addr as int, end as int),
    {
        let ghost list = targets@;
        let ghost goal = runs_over(list, ALIGN as int, addr as int, end as int);
        let mut runs: Vec<(usize, usize)> = Vec::new();
        let mut run_start: usize = addr;
        let mut run_delta: Option<usize> = Self::delta_at(targets, 0, first);
        let mut page: usize = first + ALIGN;
        let mut i: usize = 1;
        proof {
            assert(run_models(runs@) + goal =~= goal);
        }
        while page <= last
            invariant
                ALIGN > 0,
                list == targets@,
                last + ALIGN <= usize::MAX,
                first <= page - ALIGN,
                i <= page,
                run_delta == moved_by(target_at(list, i - 1), page - ALIGN),
                run_models(runs@) + split_at(
                    list,
                    ALIGN as int,
                    run_start as int,
                    i as int,
                    page as int,
                    last as int,
                    end as int,
                ) == goal,
            decreases pages_left(page as int, last as int),
        {
            let delta = Self::delta_at(targets, i, page);
            let ghost before = run_models(runs@);
            if delta != run_delta {
                runs.push((run_start, page));
                proof {
                    assert(run_models(runs@) =~= before.push((run_start as int, page as int)));
                    let rest = split_at(
                        list,
                        ALIGN as int,
                        page as int,
                        i + 1,
                        page + ALIGN,
                        last as int,
                        end as int,
                    );
                    assert(before + (seq![(run_start as int, page as int)] + rest) =~= run_models(
                        runs@,
                    ) + rest);
                }
                run_start = page;
            }
            run_delta = delta;
            page = page + ALIGN;
            i += 1;
        }
        let ghost before = run_models(runs@);
        runs.push((run_start, end));
        proof {
            assert(run_models(runs@) =~= before + seq![(run_start as int, end as int)]);
        }
        runs
    }

    /// By how much a page is moved, in a list that may be short.
    fn delta_at(targets: &Vec<Option<usize>>, index: usize, page: usize) -> (delta: Option<usize>)
        ensures
            delta == moved_by(target_at(targets@, index as int), page as int),
    {
        if index < targets.len() {
            match targets[index] {
                Some(shadow) => Some(shadow.wrapping_sub(page)),
                None => None,
            }
        } else {
            None
        }
    }
}

/// The first page of a range is not above the last.
proof fn lemma_pages_in_order(addr: int, end: int, align: int)
    requires
        align > 0,
        0 <= addr < end,
    ensures
        0 <= page_of(addr, align) <= page_of(end - 1, align),
{
    let (a, b) = (addr / align, (end - 1) / align);
    vstd::arithmetic::div_mod::lemma_fundamental_div_mod(addr, align);
    vstd::arithmetic::div_mod::lemma_fundamental_div_mod(end - 1, align);
    vstd::arithmetic::div_mod::lemma_div_is_ordered(addr, end - 1, align);
    vstd::arithmetic::div_mod::lemma_div_pos_is_pos(addr, align);
    assert(0 <= align * a <= align * b) by (nonlinear_arith)
        requires
            0 <= a <= b,
            align > 0,
    ;
}

/// Runs, as mathematical values.
pub open spec fn run_models(list: Seq<(usize, usize)>) -> Seq<(int, int)> {
    Seq::new(list.len(), |i: int| (list[i].0 as int, list[i].1 as int))
}

/// Runs that were planned or not.
pub open spec fn runs_model(runs: Option<Vec<(usize, usize)>>) -> Option<Seq<(int, int)>> {
    match runs {
        Some(list) => Some(run_models(list@)),
        None => None,
    }
}

} // verus!
