//! What a view may do to memory that other views share or that it only inherited.
//!
//! The mapping table knows nothing of views. A mapping that some other live holder relies on stays
//! in the table when one view lets go of it; only that view's own pages go.
use crate::ids::VmViewId;
use crate::mm::addr::PageRange;
use crate::mm::custody::{Custody, CustodyModel};
use crate::mm::errors::VmemUnmapError;
use crate::mm::flags::MemoryRegionPermissions;
use crate::mm::manager::PageManager;
use crate::platform::page_mgmt::{DeallocationError, PageManagementProvider, PermissionUpdateError};
use core::ops::Range;
use vstd::prelude::*;

verus! {

use crate::mm::domain::foreign::{foreign_map, span_models};
use crate::mm::domain::lineage::has_inheriting_descendant;
use crate::mm::domain::lookup::{
    custody_via_lineage, fragments, lemma_lineage_fragments_agree, lineage_fragments, lineage_models,
};
use crate::mm::domain::publish::owns_retired;
use crate::mm::domain::registry::family_of;
use crate::mm::domain::DomainModel;
use crate::mm::manager::ManagerModel;
use crate::mm::vmem::effects::removed;
use crate::mm::vmem::initialization::span;
use crate::mm::vmem::VmemModel;
use crate::range_map::pieces;

/// Ranges, as mathematical values.
pub open spec fn spans(list: Seq<Range<usize>>) -> Seq<(int, int)> {
    Seq::new(list.len(), |i: int| (list[i].start as int, list[i].end as int))
}

/// A view has live descendants that still inherit its family's pages.
pub open spec fn is_inherited_from(m: DomainModel, view: VmViewId) -> bool {
    family_of(m, view) matches Some(family) && has_inheriting_descendant(m, family)
}

/// The parts of a range that some other live family holds.
pub open spec fn foreign_spans(m: DomainModel, view: VmViewId, start: int, end: int) -> Seq<(int, int)> {
    match family_of(m, view) {
        Some(family) if start < end => {
            let found = pieces(foreign_map(m, family.raw, start, end), start, end);
            Seq::new(found.len(), |i: int| (found[i].0, found[i].1))
        },
        _ => Seq::empty(),
    }
}

/// The parts of a range that a view must leave in place for another holder: none without an
/// address space of its own, all of it while descendants inherit from it, else what other families
/// hold.
pub open spec fn held_spans(m: DomainModel, view: VmViewId, start: int, end: int, independent: bool) -> Seq<
    (int, int),
> {
    if !independent {
        Seq::empty()
    } else if is_inherited_from(m, view) {
        seq![(start, end)]
    } else {
        foreign_spans(m, view, start, end)
    }
}

/// What is left of `[cursor, end)` between the spans of a list in address order.
pub open spec fn gaps(held: Seq<(int, int)>, cursor: int, end: int) -> Seq<(int, int)>
    decreases held.len(),
{
    if held.len() == 0 {
        if cursor < end {
            seq![(cursor, end)]
        } else {
            Seq::empty()
        }
    } else {
        let before = if cursor < held[0].0 {
            seq![(cursor, held[0].0)]
        } else {
            Seq::empty()
        };
        before + gaps(held.drop_first(), held[0].1, end)
    }
}

/// The rest of a range: what a view may change for real.
pub open spec fn free_spans(m: DomainModel, view: VmViewId, start: int, end: int, independent: bool) -> Seq<
    (int, int),
> {
    if !independent {
        seq![(start, end)]
    } else if is_inherited_from(m, view) {
        Seq::empty()
    } else {
        gaps(foreign_spans(m, view, start, end), start, end)
    }
}

/// Some part of a range is held for another.
pub open spec fn foreign_held(m: DomainModel, view: VmViewId, start: int, end: int, independent: bool) -> bool {
    independent && (is_inherited_from(m, view) || crate::mm::session::foreign_in(m, view, start, end))
}

/// The platform was asked to drop a view's own pages of a range.
pub open spec fn drop_asked<P: PageManagementProvider<ALIGN>, const ALIGN: usize>(
    platform: &P,
    start: int,
    end: int,
) -> bool {
    exists|answer: Result<(), DeallocationError>| #[trigger]
        call_ensures(P::deallocate_pages, (platform, span(start, end)), answer)
}

/// The platform was asked to drop each of a list of ranges.
pub open spec fn all_dropped<P: PageManagementProvider<ALIGN>, const ALIGN: usize>(
    platform: &P,
    list: Seq<(int, int)>,
) -> bool {
    forall|i: int|
        0 <= i < list.len() ==> drop_asked(platform, (#[trigger] list[i]).0, list[i].1)
}

/// The domain after a view's own custody of a range was retired.
pub open spec fn own_custody_retired(m: DomainModel, view: VmViewId, start: int, end: int) -> DomainModel {
    owns_retired(m, fragments(m, view, start, end), view)
}

/// The domain after a view's own custody of each of a list of ranges was retired.
pub open spec fn all_retired(m: DomainModel, list: Seq<(int, int)>, view: VmViewId) -> DomainModel
    decreases list.len(),
{
    if list.len() == 0 {
        m
    } else {
        all_retired(
            own_custody_retired(m, view, list[0].0, list[0].1),
            list.drop_first(),
            view,
        )
    }
}

/// A whole-page range.
pub open spec fn whole_pages(start: int, end: int, align: int) -> bool {
    start < end && crate::mm::addr::multiple_of(start, align) && crate::mm::addr::multiple_of(end, align)
}

/// Each of a list of ranges was removed for real, in order, until one could not be. What is no
/// whole-page range is passed over.
pub open spec fn all_removed<P: PageManagementProvider<ALIGN>, const ALIGN: usize>(
    platform: &P,
    before: ManagerModel,
    list: Seq<(int, int)>,
    view: VmViewId,
    after: ManagerModel,
    result: Result<(), VmemUnmapError>,
) -> bool
    decreases list.len(),
{
    if list.len() == 0 {
        after == before && result == Ok::<(), VmemUnmapError>(())
    } else if !whole_pages(list[0].0, list[0].1, ALIGN as int) {
        all_removed(platform, before, list.drop_first(), view, after, result)
    } else {
        exists|mid: VmemModel, outcome: Result<(), VmemUnmapError>| #[trigger]
            removed(platform, before.vmem, list[0].0, list[0].1, mid, outcome) && match outcome {
                Err(error) => after == (ManagerModel { vmem: mid, ..before }) && result == Err::<
                    (),
                    VmemUnmapError,
                >(error),
                Ok(()) => all_removed(
                    platform,
                    (ManagerModel {
                        vmem: mid,
                        domain: own_custody_retired(before.domain, view, list[0].0, list[0].1),
                    }),
                    list.drop_first(),
                    view,
                    after,
                    result,
                ),
            }
    }
}

/// What removing a range on behalf of a view did: what is held for another is dropped from the
/// view's own space only, the rest is removed for real, and the view's custody is retired.
pub open spec fn removed_for_view<P: PageManagementProvider<ALIGN>, const ALIGN: usize>(
    platform: &P,
    before: ManagerModel,
    view: VmViewId,
    range: (int, int),
    independent: bool,
    after: ManagerModel,
    result: Result<(), VmemUnmapError>,
) -> bool {
    let held = held_spans(before.domain, view, range.0, range.1, independent);
    let free = free_spans(before.domain, view, range.0, range.1, independent);
    &&& all_dropped(platform, held)
    &&& all_removed(
        platform,
        (ManagerModel { domain: all_retired(before.domain, held, view), ..before }),
        free,
        view,
        after,
        result,
    )
}

/// The lineage of a view has real pages at every address of a range.
pub open spec fn wholly_present(m: DomainModel, view: VmViewId, start: int, end: int) -> bool {
    start < end && forall|k: int|
        start <= k < end ==> (#[trigger] custody_via_lineage(m, view, k)) is Present
}

/// A list of spans with one more at its end, joined to the last one if it touches it.
pub open spec fn joined_span(list: Seq<(int, int)>, start: int, end: int) -> Seq<(int, int)> {
    if list.len() > 0 && list.last().1 == start {
        list.drop_last().push((list.last().0, end))
    } else {
        list.push((start, end))
    }
}

/// Whether a view may change a fragment: its own pages, or pages that it inherited and has an
/// address space of its own for.
pub open spec fn may_act_on(fragment: (int, int, CustodyModel, bool), view: VmViewId, independent: bool) -> bool {
    match fragment.2 {
        CustodyModel::Present { view: holder, .. } => if fragment.3 {
            independent
        } else {
            holder == view
        },
        CustodyModel::Retiring { .. } => fragment.3 && independent,
        _ => false,
    }
}

/// How far a view may act, from `at` on through fragments that follow each other without a gap, and
/// which parts of that it only inherited.
pub open spec fn prefix_from(
    list: Seq<(int, int, CustodyModel, bool)>,
    view: VmViewId,
    independent: bool,
    at: int,
    inherited: Seq<(int, int)>,
) -> (int, Seq<(int, int)>)
    decreases list.len(),
{
    if list.len() == 0 || list[0].0 != at || !may_act_on(list[0], view, independent) {
        (at, inherited)
    } else {
        prefix_from(
            list.drop_first(),
            view,
            independent,
            list[0].1,
            if list[0].3 {
                joined_span(inherited, list[0].0, list[0].1)
            } else {
                inherited
            },
        )
    }
}

/// The prefix of a range that a view may change, and which parts of it the view only inherited.
pub open spec fn actor_prefix_of(m: DomainModel, view: VmViewId, start: int, end: int, independent: bool) -> (
    int,
    Seq<(int, int)>,
) {
    prefix_from(lineage_fragments(m, view, start, end), view, independent, start, Seq::empty())
}

/// Who holds each part of a list of fragments with real pages.
pub open spec fn holders_of(list: Seq<(int, int, CustodyModel, bool)>) -> Seq<(int, int, VmViewId)>
    decreases list.len(),
{
    if list.len() == 0 {
        Seq::empty()
    } else {
        let rest = holders_of(list.drop_last());
        match list.last().2 {
            CustodyModel::Present { view, .. } => rest.push((list.last().0, list.last().1, view)),
            CustodyModel::Retiring { view, .. } => rest.push((list.last().0, list.last().1, view)),
            _ => rest,
        }
    }
}

/// A list of holders, as mathematical values.
pub open spec fn holder_models(list: Seq<(Range<usize>, VmViewId)>) -> Seq<(int, int, VmViewId)> {
    Seq::new(list.len(), |i: int| (list[i].0.start as int, list[i].0.end as int, list[i].1))
}

/// The platform was asked to give a view pages of its own over a range, told who holds it by
/// lineage.
pub open spec fn materialize_asked<P: PageManagementProvider<ALIGN>, const ALIGN: usize>(
    holders: Seq<(int, int, VmViewId)>,
    view: VmViewId,
    range: (int, int),
    permissions: MemoryRegionPermissions,
    answer: Result<(), PermissionUpdateError>,
) -> bool {
    exists|list: Vec<(Range<usize>, VmViewId)>| #[trigger]
        call_ensures(
            P::materialize_inherited_range,
            (view, span(range.0, range.1), permissions, &list),
            answer,
        ) && holder_models(list@) == holders
}

impl<P: PageManagementProvider<ALIGN> + 'static, const ALIGN: usize> PageManager<P, ALIGN> {
    /// Whether every address of a range has real pages of the view's lineage.
    pub fn whole_range_is_own_or_lineage_present(&self, view: VmViewId, range: Range<usize>) -> (yes: bool)
        requires
            self.wf(),
        ensures
            yes == wholly_present(self@.domain, view, range.start as int, range.end as int),
    {
        let (start, end) = (range.start, range.end);
        if start >= end {
            return false;
        }
        let found = self.domain.custody_fragments_via_lineage(view, start..end);
        let ghost m = self@.domain;
        let ghost list = lineage_fragments(m, view, start as int, end as int);
        let mut pos: usize = start;
        let mut i: usize = 0;
        proof {
            Self::lemma_lineage_order(m, view, start as int, end as int);
        }
        while i < found.len()
            invariant
                i <= found@.len(),
                m == self@.domain,
                start == range.start,
                end == range.end,
                start < end,
                list == lineage_models(found@),
                list == lineage_fragments(m, view, start as int, end as int),
                Self::lineage_ordered(list, start as int, end as int),
                list.len() > 0 ==> family_of(m, view) is Some,
                start <= pos <= end,
                i > 0 ==> pos == list[i - 1].1,
                i == 0 ==> pos == start,
                forall|k: int|
                    start <= k < pos ==> (#[trigger] custody_via_lineage(m, view, k)) is Present,
            decreases found@.len() - i,
        {
            let (from, to) = (found[i].0.start, found[i].0.end);
            let present = match &found[i].1 {
                Custody::Present { .. } => true,
                _ => false,
            };
            proof {
                assert(list[i as int] == (
                    from as int,
                    to as int,
                    found@[i as int].1@,
                    found@[i as int].2,
                ));
                assert(present == (list[i as int].2 is Present));
            }
            if from != pos || !present {
                proof {
                    if from != pos {
                        lemma_lineage_fragments_agree(m, view, start as int, end as int, pos as int);
                        assert forall|j: int| 0 <= j < list.len() implies !((#[trigger] list[j]).0
                            <= pos < list[j].1) by {
                            if j < i {
                                if j < i - 1 {
                                    assert(list[j].1 <= list[i - 1].0);
                                }
                            } else if j > i {
                                assert(list[i as int].1 <= list[j].0);
                            }
                        }
                        assert(!(custody_via_lineage(m, view, pos as int) is Present));
                    } else {
                        lemma_lineage_fragments_agree(m, view, start as int, end as int, from as int);
                        assert(list[i as int].0 <= from < list[i as int].1);
                        assert(!(custody_via_lineage(m, view, from as int) is Present));
                    }
                }
                return false;
            }
            proof {
                assert forall|k: int| start <= k < to implies (#[trigger] custody_via_lineage(
                    m,
                    view,
                    k,
                )) is Present by {
                    if k >= pos {
                        lemma_lineage_fragments_agree(m, view, start as int, end as int, k);
                        assert(list[i as int].0 <= k < list[i as int].1);
                    }
                }
            }
            pos = to;
            i += 1;
        }
        proof {
            if pos < end {
                if family_of(m, view) is Some {
                    lemma_lineage_fragments_agree(m, view, start as int, end as int, pos as int);
                    assert forall|j: int| 0 <= j < list.len() implies !((#[trigger] list[j]).0 <= pos
                        < list[j].1) by {
                        if j < list.len() - 1 {
                            assert(list[j].1 <= list[list.len() - 1].0);
                        }
                    }
                }
                assert(!(custody_via_lineage(m, view, pos as int) is Present));
            }
        }
        pos == end
    }

    /// Fragments inside a range, in address order, without overlap.
    pub open spec fn lineage_ordered(list: Seq<(int, int, CustodyModel, bool)>, start: int, end: int) -> bool {
        &&& forall|i: int|
            0 <= i < list.len() ==> start <= (#[trigger] list[i]).0 < list[i].1 <= end
        &&& forall|i: int, j: int|
            0 <= i < j < list.len() ==> (#[trigger] list[i]).1 <= (#[trigger] list[j]).0
    }

    pub proof fn lemma_lineage_order(m: DomainModel, view: VmViewId, start: int, end: int)
        ensures
            Self::lineage_ordered(lineage_fragments(m, view, start, end), start, end),
            lineage_fragments(m, view, start, end).len() > 0 ==> family_of(m, view) is Some,
    {
        let list = lineage_fragments(m, view, start, end);
        if let Some(family) = family_of(m, view) {
            if start < end {
                let map = crate::mm::domain::lookup::lineage_map(m, family.raw, 0);
                let found = pieces(map, start, end);
                crate::range_map::lemma_pieces(map, start, end);
                assert forall|i: int| 0 <= i < list.len() implies start <= (#[trigger] list[i]).0
                    < list[i].1 <= end by {
                    assert(list[i].0 == found[i].0 && list[i].1 == found[i].1);
                }
                assert forall|i: int, j: int| 0 <= i < j < list.len() implies (#[trigger] list[i]).1
                    <= (#[trigger] list[j]).0 by {
                    assert(found[i].1 <= found[j].0);
                }
            }
        }
    }

    /// Whether some part of a range is held for another.
    pub(crate) fn range_is_foreign_held(
        &self,
        view: VmViewId,
        start: usize,
        end: usize,
        independent: bool,
    ) -> (yes: bool)
        requires
            self.wf(),
        ensures
            yes == foreign_held(self@.domain, view, start as int, end as int, independent),
    {
        independent && (self.domain.family_has_live_inheriting_descendant_of(view)
            || self.domain.foreign_family_present(view, start..end))
    }

    /// Splits a range into what is held for another and the rest.
    pub(crate) fn foreign_held_split(&self, view: VmViewId, start: usize, end: usize, independent: bool) -> (split: (
        Vec<Range<usize>>,
        Vec<Range<usize>>,
    ))
        requires
            self.wf(),
        ensures
            spans(split.0@) == held_spans(
                self@.domain,
                view,
                start as int,
                end as int,
                independent,
            ),
            spans(split.1@) == free_spans(
                self@.domain,
                view,
                start as int,
                end as int,
                independent,
            ),
    {
        let mut whole: Vec<Range<usize>> = Vec::new();
        whole.push(start..end);
        let none: Vec<Range<usize>> = Vec::new();
        proof {
            assert(spans(none@) =~= Seq::empty());
            assert(spans(whole@) =~= seq![(start as int, end as int)]);
        }
        if !independent {
            return (none, whole);
        }
        if self.domain.family_has_live_inheriting_descendant_of(view) {
            return (whole, none);
        }
        let held = self.domain.foreign_family_present_fragments(view, start..end);
        let ghost list = foreign_spans(self@.domain, view, start as int, end as int);
        proof {
            assert(span_models(held@).len() == held@.len());
            assert forall|i: int| 0 <= i < held@.len() implies #[trigger] spans(held@)[i] == list[i] by {
                assert(span_models(held@)[i].0 == held@[i].start);
            }
            assert(spans(held@) =~= list);
        }
        let mut free: Vec<Range<usize>> = Vec::new();
        let mut cursor: usize = start;
        let mut i: usize = 0;
        proof {
            assert(list.skip(0) =~= list);
            assert(spans(free@) + gaps(list, start as int, end as int) =~= gaps(
                list,
                start as int,
                end as int,
            ));
        }
        while i < held.len()
            invariant
                i <= held@.len(),
                spans(held@) == list,
                spans(free@) + gaps(list.skip(i as int), cursor as int, end as int) == gaps(
                    list,
                    start as int,
                    end as int,
                ),
            decreases held@.len() - i,
        {
            let ghost before = spans(free@);
            proof {
                assert(list.skip(i as int)[0] == list[i as int]);
                assert(list.skip(i as int).drop_first() =~= list.skip(i + 1));
                assert(spans(held@)[i as int] == list[i as int]);
            }
            if cursor < held[i].start {
                free.push(cursor..held[i].start);
                proof {
                    assert(spans(free@) =~= before.push((cursor as int, held@[i as int].start as int)));
                }
            }
            proof {
                assert(spans(free@) + gaps(
                    list.skip(i + 1),
                    held@[i as int].end as int,
                    end as int,
                ) =~= before + gaps(list.skip(i as int), cursor as int, end as int));
            }
            cursor = held[i].end;
            i += 1;
        }
        let ghost before = spans(free@);
        if cursor < end {
            free.push(cursor..end);
            proof {
                assert(spans(free@) =~= before.push((cursor as int, end as int)));
            }
        }
        proof {
            assert(spans(free@) =~= before + gaps(
                list.skip(i as int),
                cursor as int,
                end as int,
            ));
        }
        (held, free)
    }

    /// Drops a range from the view's own space only. The mapping stays in the table for whoever
    /// still holds it.
    pub(crate) fn unmap_own_view_only(&self, start: usize, end: usize)
        requires
            self.wf(),
        ensures
            drop_asked(self.platform(), start as int, end as int),
    {
        let _answer = self.vmem.backend().deallocate_pages(start..end);
    }

    /// Removes a range on behalf of a view.
    pub(crate) fn remove_range_for_view(
        &mut self,
        view: VmViewId,
        start: usize,
        end: usize,
        independent: bool,
    ) -> (result: Result<(), VmemUnmapError>)
        requires
            old(self).wf(),
        ensures
            final(self).follows(old(self)),
            removed_for_view(
                final(self).platform(),
                old(self)@,
                view,
                (start as int, end as int),
                independent,
                final(self)@,
                result,
            ),
    {
        let (held, free) = self.foreign_held_split(view, start, end, independent);
        let ghost platform = self.platform();
        let ghost held_list = held_spans(
            self@.domain,
            view,
            start as int,
            end as int,
            independent,
        );
        let ghost free_list = free_spans(
            self@.domain,
            view,
            start as int,
            end as int,
            independent,
        );
        let mut i: usize = 0;
        proof {
            assert(held_list.skip(0) =~= held_list);
        }
        while i < held.len()
            invariant
                self.follows(old(self)),
                platform == self.platform(),
                i <= held@.len(),
                spans(held@) == held_list,
                self@.vmem == old(self)@.vmem,
                all_retired(self@.domain, held_list.skip(i as int), view) == all_retired(
                    old(self)@.domain,
                    held_list,
                    view,
                ),
                forall|j: int|
                    0 <= j < i ==> drop_asked(platform, (#[trigger] held_list[j]).0, held_list[j].1),
            decreases held@.len() - i,
        {
            let (from, to) = (held[i].start, held[i].end);
            proof {
                assert(held_list.skip(i as int)[0] == held_list[i as int]);
                assert(held_list.skip(i as int).drop_first() =~= held_list.skip(i + 1));
                assert(spans(held@)[i as int] == (from as int, to as int));
            }
            self.unmap_own_view_only(from, to);
            self.domain.confirm_retired_or_reconcile(view, from..to);
            i += 1;
        }
        let ghost first = self@;
        proof {
            assert(all_retired(self@.domain, held_list.skip(i as int), view) == self@.domain);
            assert(first == (ManagerModel {
                domain: all_retired(old(self)@.domain, held_list, view),
                ..old(self)@
            }));
        }
        let mut k: usize = 0;
        proof {
            assert(free_list.skip(0) =~= free_list);
        }
        while k < free.len()
            invariant
                self.follows(old(self)),
                platform == self.platform(),
                k <= free@.len(),
                spans(free@) == free_list,
                held_list == held_spans(
                    old(self)@.domain,
                    view,
                    start as int,
                    end as int,
                    independent,
                ),
                free_list == free_spans(
                    old(self)@.domain,
                    view,
                    start as int,
                    end as int,
                    independent,
                ),
                all_dropped(platform, held_list),
                first == (ManagerModel {
                    domain: all_retired(old(self)@.domain, held_list, view),
                    ..old(self)@
                }),
                forall|after: ManagerModel, result: Result<(), VmemUnmapError>| #[trigger]
                    all_removed(platform, self@, free_list.skip(k as int), view, after, result)
                        ==> all_removed(platform, first, free_list, view, after, result),
            decreases free@.len() - k,
        {
            let (from, to) = (free[k].start, free[k].end);
            let ghost here = self@;
            let ghost rest = free_list.skip(k as int);
            proof {
                assert(rest[0] == free_list[k as int]);
                assert(rest.drop_first() =~= free_list.skip(k + 1));
                assert(spans(free@)[k as int] == (from as int, to as int));
            }
            if let Some(range) = PageRange::<ALIGN>::new(from, to) {
                let outcome = self.vmem.remove_mapping(range);
                self.sync();
                let ghost mid = self@.vmem;
                let ghost given = outcome;
                proof {
                    assert(removed(platform, here.vmem, rest[0].0, rest[0].1, mid, given));
                }
                if let Err(error) = outcome {
                    proof {
                        assert(self@ == (ManagerModel { vmem: mid, ..here }));
                        assert(all_removed(
                            platform,
                            here,
                            rest,
                            view,
                            self@,
                            Err::<(), VmemUnmapError>(error),
                        ));
                    }
                    return Err(error);
                }
                self.domain.confirm_retired_or_reconcile(view, from..to);
                proof {
                    assert forall|after: ManagerModel, result: Result<(), VmemUnmapError>| #[trigger]
                        all_removed(platform, self@, free_list.skip(k + 1), view, after, result) implies all_removed(
                        platform,
                        first,
                        free_list,
                        view,
                        after,
                        result,
                    ) by {
                        assert(removed(platform, here.vmem, rest[0].0, rest[0].1, mid, given));
                        assert(all_removed(platform, here, rest, view, after, result));
                    }
                }
            } else {
                proof {
                    assert forall|after: ManagerModel, result: Result<(), VmemUnmapError>| #[trigger]
                        all_removed(platform, self@, free_list.skip(k + 1), view, after, result) implies all_removed(
                        platform,
                        first,
                        free_list,
                        view,
                        after,
                        result,
                    ) by {
                        assert(all_removed(platform, here, rest, view, after, result));
                    }
                }
            }
            k += 1;
        }
        proof {
            assert(all_removed(
                platform,
                self@,
                free_list.skip(k as int),
                view,
                self@,
                Ok::<(), VmemUnmapError>(()),
            ));
        }
        Ok(())
    }

    /// The prefix of a range that a view may change, and which parts of it the view only
    /// inherited.
    pub(crate) fn actor_prefix(&self, view: VmViewId, start: usize, end: usize, independent: bool) -> (prefix: (
        usize,
        Vec<Range<usize>>,
    ))
        requires
            self.wf(),
        ensures
            (prefix.0 as int, spans(prefix.1@)) == actor_prefix_of(
                self@.domain,
                view,
                start as int,
                end as int,
                independent,
            ),
            start <= prefix.0,
            start <= end ==> prefix.0 <= end,
    {
        let found = self.domain.custody_fragments_via_lineage(view, start..end);
        let ghost list = lineage_fragments(self@.domain, view, start as int, end as int);
        let ghost goal = actor_prefix_of(
            self@.domain,
            view,
            start as int,
            end as int,
            independent,
        );
        let mut at: usize = start;
        let mut inherited: Vec<Range<usize>> = Vec::new();
        let mut i: usize = 0;
        proof {
            Self::lemma_lineage_order(self@.domain, view, start as int, end as int);
            assert(list.skip(0) =~= list);
            assert(spans(inherited@) =~= Seq::empty());
        }
        while i < found.len()
            invariant
                i <= found@.len(),
                list == lineage_models(found@),
                Self::lineage_ordered(list, start as int, end as int),
                start <= at,
                start <= end ==> at <= end,
                prefix_from(list.skip(i as int), view, independent, at as int, spans(inherited@)) == goal,
                goal == actor_prefix_of(
                    self@.domain,
                    view,
                    start as int,
                    end as int,
                    independent,
                ),
            decreases found@.len() - i,
        {
            let (from, to) = (found[i].0.start, found[i].0.end);
            let by_lineage = found[i].2;
            let accepted = match &found[i].1 {
                Custody::Present { view: holder, .. } => if by_lineage {
                    independent
                } else {
                    *holder == view
                },
                Custody::Retiring { .. } => by_lineage && independent,
                _ => false,
            };
            proof {
                assert(list.skip(i as int)[0] == list[i as int]);
                assert(list.skip(i as int).drop_first() =~= list.skip(i + 1));
                assert(list[i as int] == (
                    from as int,
                    to as int,
                    found@[i as int].1@,
                    found@[i as int].2,
                ));
                assert(accepted == may_act_on(list[i as int], view, independent));
            }
            if from != at || !accepted {
                return (at, inherited);
            }
            if by_lineage {
                Self::join_span(&mut inherited, from, to);
            }
            at = to;
            i += 1;
        }
        (at, inherited)
    }

    /// Adds a span at the end of a list, joined to the last one if it touches it.
    pub(crate) fn join_span(list: &mut Vec<Range<usize>>, start: usize, end: usize)
        ensures
            spans(final(list)@) == joined_span(spans(old(list)@), start as int, end as int),
    {
        let n: usize = list.len();
        if n > 0 {
            let (last_start, last_end) = (list[n - 1].start, list[n - 1].end);
            proof {
                assert(spans(old(list)@).last() == (last_start as int, last_end as int));
            }
            if last_end == start {
                list.set(n - 1, last_start..end);
                proof {
                    assert(spans(list@) =~= joined_span(spans(old(list)@), start as int, end as int));
                }
                return;
            }
        }
        list.push(start..end);
        proof {
            assert(spans(list@) =~= joined_span(spans(old(list)@), start as int, end as int));
        }
    }

    /// Who holds each part of a range with real pages, by the view's lineage.
    pub(crate) fn lineage_holders(&self, view: VmViewId, start: usize, end: usize) -> (holders: Vec<
        (Range<usize>, VmViewId),
    >)
        requires
            self.wf(),
        ensures
            holder_models(holders@) == holders_of(
                lineage_fragments(self@.domain, view, start as int, end as int),
            ),
    {
        let found = self.domain.custody_fragments_via_lineage(view, start..end);
        let ghost list = lineage_fragments(self@.domain, view, start as int, end as int);
        let mut holders: Vec<(Range<usize>, VmViewId)> = Vec::new();
        let mut i: usize = 0;
        proof {
            assert(holder_models(holders@) =~= holders_of(list.take(0)));
        }
        while i < found.len()
            invariant
                i <= found@.len(),
                list == lineage_models(found@),
                holder_models(holders@) == holders_of(list.take(i as int)),
            decreases found@.len() - i,
        {
            let (from, to) = (found[i].0.start, found[i].0.end);
            let holder: Option<VmViewId> = match &found[i].1 {
                Custody::Present { view, .. } => Some(*view),
                Custody::Retiring { view, .. } => Some(*view),
                _ => None,
            };
            let ghost before = holder_models(holders@);
            proof {
                assert(list.take(i + 1).drop_last() =~= list.take(i as int));
                assert(list.take(i + 1).last() == list[i as int]);
                assert(list[i as int] == (
                    from as int,
                    to as int,
                    found@[i as int].1@,
                    found@[i as int].2,
                ));
            }
            if let Some(view) = holder {
                holders.push((from..to, view));
                proof {
                    assert(holder_models(holders@) =~= before.push((from as int, to as int, view)));
                }
            }
            i += 1;
        }
        proof {
            assert(list.take(list.len() as int) =~= list);
        }
        holders
    }

    /// Asks the platform to give a view pages of its own over a range.
    pub(crate) fn materialize(
        view: VmViewId,
        start: usize,
        end: usize,
        permissions: MemoryRegionPermissions,
        holders: Vec<(Range<usize>, VmViewId)>,
    ) -> (answer: Result<(), PermissionUpdateError>)
        ensures
            materialize_asked::<P, ALIGN>(
                holder_models(holders@),
                view,
                (start as int, end as int),
                permissions,
                answer,
            ),
    {
        P::materialize_inherited_range(view, start..end, permissions, &holders)
    }
}

} // verus!
