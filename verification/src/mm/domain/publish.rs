//! Publishing spans, reconciling what a real effect left behind, and placing new ones.
use crate::ids::{FamilyId, MutationId, VmViewId};
use crate::mm::custody::{Custody, CustodyModel, SpanKind};
use crate::mm::domain::{DomainConflict, GuestVaDomain};
use core::ops::Range;
use vstd::prelude::*;

verus! {

use crate::ids::HoleGenerationId;
use crate::mm::domain::backing::{
    installs_backed, lemma_confirming_keeps_backing, lemma_publishing_keeps_backing,
};
use crate::mm::domain::holes::{
    generation_issued, mutation_issued, other_installed, retire_begun, retire_finished,
    with_custody, with_installed, with_span,
};
use crate::mm::domain::lookup::{custody_of, custody_within, fragment_models, fragments, uniform_custody};
use crate::mm::domain::registry::family_of;
use crate::mm::custody::BlockOrigin;
use crate::mm::domain::{
    lemma_kept, range_validity, DomainModel, FamilyModel, IssuedIds, ViewModel,
};
use crate::range_map::{covered, is_run, lookup, put, runs_of};
use crate::range_table::{modelled, touched};

broadcast use {
    crate::range_map::lemma_lookup_put,
    crate::range_map::lemma_lookup_cut,
    crate::id_map::lemma_modelled_insert,
    crate::id_map::lemma_modelled_remove,
};

/// How often a placement is tried before it is given up.
pub const MAX_ATTEMPTS: usize = 8;

/// The domain after an effect epoch was handed out.
pub open spec fn epoch_issued(m: DomainModel) -> DomainModel {
    DomainModel { issued: IssuedIds { epoch: (m.issued.epoch + 1) as u64, ..m.issued }, ..m }
}

/// A mutation and an epoch are handed out, in this order; the mutation is spent even where the
/// epochs are exhausted.
pub open spec fn publish_ids(m: DomainModel) -> (DomainModel, Result<MutationId, DomainConflict>) {
    if m.issued.mutation >= m.limits.mutation {
        (m, Err(DomainConflict::IdentityExhausted))
    } else if m.issued.epoch >= m.limits.epoch {
        (mutation_issued(m), Err(DomainConflict::IdentityExhausted))
    } else {
        let after = epoch_issued(mutation_issued(m));
        (after, Ok(MutationId { raw: after.issued.mutation }))
    }
}

/// What publishing a present span does and answers: the range is the view's own in its topology,
/// in its family's installed set, and in custody under a fresh generation. Nothing is published
/// over a blocked address, whenever it was blocked.
pub open spec fn present_published(m: DomainModel, view: VmViewId, start: int, end: int) -> (
    DomainModel,
    Result<MutationId, DomainConflict>,
) {
    match range_validity(m, start, end) {
        Err(error) => (m, Err(error)),
        Ok(()) => if touched(m.blocked, start, end) {
            (m, Err(DomainConflict::Blocked))
        } else {
            match family_of(m, view) {
                None => (m, Err(DomainConflict::NotFound)),
                Some(family) => match other_installed(m, family, view, start, end) {
                    Some(other) => (m, Err(DomainConflict::InstalledOverlap(other))),
                    None => match publish_ids(m) {
                        (after, Err(error)) => (after, Err(error)),
                        (after, Ok(mutation)) => if after.issued.generation >= after.limits.generation {
                            (after, Err(DomainConflict::IdentityExhausted))
                        } else {
                            let issued = generation_issued(after);
                            let generation = HoleGenerationId { raw: issued.issued.generation };
                            (
                                with_custody(
                                    with_installed(
                                        with_span(issued, view, start, end, true),
                                        family,
                                        start,
                                        end,
                                        view,
                                    ),
                                    family,
                                    start,
                                    end,
                                    CustodyModel::Present { generation, view },
                                ),
                                Ok(mutation),
                            )
                        },
                    },
                },
            }
        },
    }
}

/// The domain with a reserved span in a view's topology.
pub open spec fn with_reserved_span(m: DomainModel, view: VmViewId, start: int, end: int) -> DomainModel {
    let entry = m.views[view.raw];
    DomainModel {
        views: m.views.insert(
            view.raw,
            ViewModel { topology: put(entry.topology, start, end, SpanKind::Reserved), ..entry },
        ),
        ..m
    }
}

/// The views that share a reservation once `view` joined it.
pub open spec fn joined(views: Seq<VmViewId>, view: VmViewId) -> Seq<VmViewId> {
    if views.contains(view) {
        views
    } else {
        views.push(view)
    }
}

/// The custody of an address of a family once `view` reserved it: a reservation joins other
/// reservations, takes what is unclaimed, and gives way to anything else.
pub open spec fn reservation(found: Option<CustodyModel>, view: VmViewId) -> CustodyModel {
    match found {
        Some(CustodyModel::Reserved { views }) => CustodyModel::Reserved {
            views: joined(views, view),
        },
        Some(CustodyModel::Unclaimed) | None => CustodyModel::Reserved { views: seq![view] },
        Some(custody) => custody,
    }
}

/// The custody of a family once `view` reserved a range. A blocked address of which the family
/// records nothing, or only that nobody claimed it, stays so.
pub open spec fn reserved_over(
    custody: Map<int, CustodyModel>,
    blocked: Map<int, BlockOrigin>,
    view: VmViewId,
    start: int,
    end: int,
) -> Map<int, CustodyModel> {
    Map::new(
        |k: int| custody.dom().contains(k) || (start <= k < end && !blocked.dom().contains(k)),
        |k: int|
            if start <= k < end && !(blocked.dom().contains(k) && lookup(custody, k) == Some(
                CustodyModel::Unclaimed,
            )) {
                reservation(lookup(custody, k), view)
            } else {
                custody[k]
            },
    )
}

/// The domain with a range reserved in the custody of a family, if the family is known.
pub open spec fn with_reservation(m: DomainModel, family: FamilyId, view: VmViewId, start: int, end: int) -> DomainModel {
    if m.maps.dom().contains(family.raw) {
        let maps = m.maps[family.raw];
        DomainModel {
            maps: m.maps.insert(
                family.raw,
                FamilyModel {
                    custody: reserved_over(maps.custody, m.blocked, view, start, end),
                    ..maps
                },
            ),
            ..m
        }
    } else {
        m
    }
}

/// What publishing a reserved span does and answers.
pub open spec fn reserved_published(m: DomainModel, view: VmViewId, start: int, end: int) -> (
    DomainModel,
    Result<MutationId, DomainConflict>,
) {
    match range_validity(m, start, end) {
        Err(error) => (m, Err(error)),
        Ok(()) => match family_of(m, view) {
            None => (m, Err(DomainConflict::NotFound)),
            Some(family) => match publish_ids(m) {
                (after, Err(error)) => (after, Err(error)),
                (after, Ok(mutation)) => (
                    with_reservation(
                        with_reserved_span(after, view, start, end),
                        family,
                        view,
                        start,
                        end,
                    ),
                    Ok(mutation),
                ),
            },
        },
    }
}

/// The domain after a retirement that asks nothing of the host, and whether it took place.
pub open spec fn retired_in_domain(m: DomainModel, view: VmViewId, start: int, end: int) -> (
    DomainModel,
    Result<(), DomainConflict>,
) {
    match retire_begun(m, view, start, end) {
        (after, Err(error)) => (after, Err(error)),
        (after, Ok(retire)) => (retire_finished(after, retire, Ok(())).0, Ok(())),
    }
}

/// The domain after every listed span that is present for a view other than `view` was retired.
pub open spec fn strangers_retired(
    m: DomainModel,
    spans: Seq<(int, int, CustodyModel)>,
    view: VmViewId,
) -> DomainModel
    decreases spans.len(),
{
    if spans.len() == 0 {
        m
    } else {
        strangers_retired(stranger_retired(m, spans[0], view), spans.drop_first(), view)
    }
}

/// The domain after a span was retired that is present for a view other than `view`.
pub open spec fn stranger_retired(m: DomainModel, span: (int, int, CustodyModel), view: VmViewId) -> DomainModel {
    match span.2 {
        CustodyModel::Present { view: stale, .. } => if stale != view {
            retired_in_domain(m, stale, span.0, span.1).0
        } else {
            m
        },
        _ => m,
    }
}

/// The domain after one more effect was counted whose custody could not be made authoritative.
pub open spec fn untracked_counted(m: DomainModel) -> DomainModel {
    DomainModel {
        untracked: if m.untracked == u64::MAX {
            0
        } else {
            (m.untracked + 1) as u64
        },
        ..m
    }
}

/// A publish that is counted where it fails.
pub open spec fn present_counted(m: DomainModel, view: VmViewId, start: int, end: int) -> (
    DomainModel,
    Result<MutationId, DomainConflict>,
) {
    match present_published(m, view, start, end) {
        (after, Err(error)) => (untracked_counted(after), Err(error)),
        (after, Ok(mutation)) => (after, Ok(mutation)),
    }
}

/// What confirming a present span does and answers: where another view is installed there, what is
/// stale is retired and the span is published once more.
pub open spec fn present_confirmed(m: DomainModel, view: VmViewId, start: int, end: int) -> (
    DomainModel,
    Result<MutationId, DomainConflict>,
) {
    match present_published(m, view, start, end) {
        (after, Err(DomainConflict::InstalledOverlap(_))) => present_counted(
            strangers_retired(after, fragments(after, view, start, end), view),
            view,
            start,
            end,
        ),
        _ => present_counted(m, view, start, end),
    }
}

/// The domain after a span was retired that is present for `view`: tried again once if it is still
/// present, and counted if that fails too.
pub open spec fn own_retired(m: DomainModel, span: (int, int, CustodyModel), view: VmViewId) -> DomainModel {
    if is_present_for(span.2, view) {
        match retired_in_domain(m, view, span.0, span.1) {
            (after, Ok(())) => after,
            (after, Err(_)) => if is_present_for(custody_within(after, view, span.0), view) {
                match retired_in_domain(after, view, span.0, span.1) {
                    (last, Ok(())) => last,
                    (last, Err(_)) => untracked_counted(last),
                }
            } else {
                after
            },
        }
    } else {
        m
    }
}

pub open spec fn is_present_for(custody: CustodyModel, view: VmViewId) -> bool {
    custody matches CustodyModel::Present { view: holder, .. } && holder == view
}

/// The domain after every listed span that is present for `view` was retired.
pub open spec fn owns_retired(m: DomainModel, spans: Seq<(int, int, CustodyModel)>, view: VmViewId) -> DomainModel
    decreases spans.len(),
{
    if spans.len() == 0 {
        m
    } else {
        owns_retired(own_retired(m, spans[0], view), spans.drop_first(), view)
    }
}

/// `address` is the start of a recorded run that reaches into a range.
pub open spec fn starts_conflict(m: DomainModel, family: FamilyId, start: int, end: int, address: int) -> bool {
    ||| exists|stop: int, custody: CustodyModel| #[trigger]
        is_run(custody_of(m, family), address, stop, custody) && address < end && start < stop
    ||| exists|stop: int, origin: BlockOrigin| #[trigger]
        is_run(m.blocked, address, stop, origin) && address < end && start < stop
}

/// What an address and the one below it both map to, if it is the same: the address lies inside a
/// run, not at its start.
pub open spec fn inside<M>(map: Map<int, M>, address: int) -> Option<M> {
    if lookup(map, address) == lookup(map, address - 1) {
        lookup(map, address)
    } else {
        None
    }
}

/// Some recorded run reaches into a range. An empty range is reached by a run that it lies inside.
pub open spec fn is_reached(m: DomainModel, family: FamilyId, start: int, end: int) -> bool {
    if start < end {
        touched(custody_of(m, family), start, end) || touched(m.blocked, start, end)
    } else {
        inside(custody_of(m, family), start) is Some || inside(m.blocked, start) is Some
    }
}

/// A range can be placed: it is unclaimed in the family as a whole. An empty range is what the run
/// is that it lies inside.
pub open spec fn is_placeable(m: DomainModel, family: FamilyId, start: int, end: int) -> bool {
    if start < end {
        uniform_custody(m, family, start, end) == Some(CustodyModel::Unclaimed)
    } else {
        match inside(custody_of(m, family), start) {
            Some(custody) => custody == CustodyModel::Unclaimed,
            None => inside(m.blocked, start) is None,
        }
    }
}

/// `address` is the lowest start of a recorded run that reaches into a range, or the range's own
/// start if none does.
pub open spec fn lowest_conflict(m: DomainModel, family: FamilyId, start: int, end: int, address: int) -> bool {
    if is_reached(m, family, start, end) {
        &&& starts_conflict(m, family, start, end, address)
        &&& forall|other: int| #[trigger]
            starts_conflict(m, family, start, end, other) ==> address <= other
    } else {
        address == start
    }
}

/// The ceiling for the next try, once a run that starts at `conflict` was in the way.
pub open spec fn next_ceiling(conflict: int, len: usize) -> usize {
    if conflict < len {
        0
    } else {
        (conflict - len) as usize
    }
}

/// Whether `result` is what a placement may answer that still has `attempts` tries: a search
/// result is taken if the whole candidate is unclaimed in the family; else the search goes on
/// below the lowest conflict.
pub open spec fn placed<F: Fn(Option<usize>) -> Option<usize>>(
    m: DomainModel,
    family: FamilyId,
    len: usize,
    hint: Option<usize>,
    attempts: nat,
    search: F,
    result: Result<Range<usize>, DomainConflict>,
) -> bool
    decreases attempts,
{
    if attempts == 0 {
        result == Err::<Range<usize>, DomainConflict>(DomainConflict::Occupied)
    } else {
        exists|answer: Option<usize>| #[trigger]
            call_ensures(search, (hint,), answer) && match answer {
                None => result == Err::<Range<usize>, DomainConflict>(DomainConflict::Occupied),
                Some(start) => if is_placeable(m, family, start as int, start + len) {
                    result == Ok::<Range<usize>, DomainConflict>(
                        Range { start, end: (start + len) as usize },
                    )
                } else {
                    exists|conflict: int| #[trigger]
                        lowest_conflict(m, family, start as int, start + len, conflict) && if next_ceiling(
                            conflict,
                            len,
                        ) >= start {
                            result == Err::<Range<usize>, DomainConflict>(DomainConflict::Occupied)
                        } else {
                            placed(
                                m,
                                family,
                                len,
                                Some(next_ceiling(conflict, len)),
                                (attempts - 1) as nat,
                                search,
                                result,
                            )
                        }
                },
            }
    }
}

/// [`placed`], for a search that is a function of the ceiling.
pub open spec fn found_place(
    m: DomainModel,
    family: FamilyId,
    len: usize,
    hint: Option<usize>,
    attempts: nat,
    search: spec_fn(Option<usize>) -> Option<usize>,
    result: Result<Range<usize>, DomainConflict>,
) -> bool
    decreases attempts,
{
    if attempts == 0 {
        result == Err::<Range<usize>, DomainConflict>(DomainConflict::Occupied)
    } else {
        match search(hint) {
            None => result == Err::<Range<usize>, DomainConflict>(DomainConflict::Occupied),
            Some(start) => if is_placeable(m, family, start as int, start + len) {
                result == Ok::<Range<usize>, DomainConflict>(
                    Range { start, end: (start + len) as usize },
                )
            } else {
                exists|conflict: int| #[trigger]
                    lowest_conflict(m, family, start as int, start + len, conflict) && if next_ceiling(
                        conflict,
                        len,
                    ) >= start {
                        result == Err::<Range<usize>, DomainConflict>(DomainConflict::Occupied)
                    } else {
                        found_place(
                            m,
                            family,
                            len,
                            Some(next_ceiling(conflict, len)),
                            (attempts - 1) as nat,
                            search,
                            result,
                        )
                    }
            },
        }
    }
}

/// A placement whose search is a function finds what that function leads to.
pub proof fn lemma_placed_by_function<F: Fn(Option<usize>) -> Option<usize>>(
    m: DomainModel,
    family: FamilyId,
    len: usize,
    hint: Option<usize>,
    attempts: nat,
    search: F,
    function: spec_fn(Option<usize>) -> Option<usize>,
    result: Result<Range<usize>, DomainConflict>,
)
    requires
        placed(m, family, len, hint, attempts, search, result),
        forall|ceiling: Option<usize>, answer: Option<usize>| #[trigger]
            call_ensures(search, (ceiling,), answer) ==> answer == function(ceiling),
    ensures
        found_place(m, family, len, hint, attempts, function, result),
    decreases attempts,
{
    if attempts > 0 {
        if let Some(start) = function(hint) {
            if !is_placeable(m, family, start as int, start + len) {
                let conflict = choose|conflict: int| #[trigger]
                    lowest_conflict(m, family, start as int, start + len, conflict) && if next_ceiling(
                        conflict,
                        len,
                    ) >= start {
                        result == Err::<Range<usize>, DomainConflict>(DomainConflict::Occupied)
                    } else {
                        placed(
                            m,
                            family,
                            len,
                            Some(next_ceiling(conflict, len)),
                            (attempts - 1) as nat,
                            search,
                            result,
                        )
                    };
                if next_ceiling(conflict, len) < start {
                    lemma_placed_by_function(
                        m,
                        family,
                        len,
                        Some(next_ceiling(conflict, len)),
                        (attempts - 1) as nat,
                        search,
                        function,
                        result,
                    );
                }
            }
        }
    }
}

/// A place that was found is unclaimed in the family.
pub proof fn lemma_found_place_is_unclaimed(
    m: DomainModel,
    family: FamilyId,
    len: usize,
    hint: Option<usize>,
    attempts: nat,
    search: spec_fn(Option<usize>) -> Option<usize>,
    range: Range<usize>,
)
    requires
        found_place(
            m,
            family,
            len,
            hint,
            attempts,
            search,
            Ok::<Range<usize>, DomainConflict>(range),
        ),
        forall|ceiling: Option<usize>|
            (#[trigger] search(ceiling)) matches Some(start) ==> start + len <= usize::MAX,
    ensures
        range.end == range.start + len,
        uniform_custody(m, family, range.start as int, range.end as int) == Some(
            CustodyModel::Unclaimed,
        ),
    decreases attempts,
{
    if attempts > 0 {
        if let Some(start) = search(hint) {
            if !is_placeable(m, family, start as int, start + len) {
                let conflict = choose|conflict: int| #[trigger]
                    lowest_conflict(m, family, start as int, start + len, conflict) && next_ceiling(
                        conflict,
                        len,
                    ) < start && found_place(
                        m,
                        family,
                        len,
                        Some(next_ceiling(conflict, len)),
                        (attempts - 1) as nat,
                        search,
                        Ok::<Range<usize>, DomainConflict>(range),
                    );
                lemma_found_place_is_unclaimed(
                    m,
                    family,
                    len,
                    Some(next_ceiling(conflict, len)),
                    (attempts - 1) as nat,
                    search,
                    range,
                );
            }
        }
    }
}

impl GuestVaDomain {
    fn next_epoch(&mut self) -> (issued: bool)
        requires
            old(self).wf(),
        ensures
            final(self).wf(),
            issued <==> old(self)@.issued.epoch < old(self)@.limits.epoch,
            final(self)@ == (if issued {
                epoch_issued(old(self)@)
            } else {
                old(self)@
            }),
    {
        let issued = self.epochs.next().is_some();
        proof {
            lemma_kept(old(self)@, self@);
        }
        issued
    }

    fn take_publish_ids(&mut self) -> (result: Result<MutationId, DomainConflict>)
        requires
            old(self).wf(),
        ensures
            final(self).wf(),
            (final(self)@, result) == publish_ids(old(self)@),
    {
        let mutation = match self.next_mutation() {
            Some(mutation) => mutation,
            None => {
                return Err(DomainConflict::IdentityExhausted);
            },
        };
        if !self.next_epoch() {
            return Err(DomainConflict::IdentityExhausted);
        }
        Ok(mutation)
    }

    /// Publishes `range` as a present span of `view`, installing it into its family's
    /// pairwise-disjoint installed set. A collision with another view's installed span is refused
    /// at once.
    pub fn publish_present(&mut self, view: VmViewId, range: Range<usize>) -> (result: Result<
        MutationId,
        DomainConflict,
    >)
        requires
            old(self).wf(),
        ensures
            final(self).wf(),
            (final(self)@, result) == present_published(
                old(self)@,
                view,
                range.start as int,
                range.end as int,
            ),
            installs_backed(old(self)@) ==> installs_backed(final(self)@),
    {
        proof {
            if installs_backed(self@) {
                lemma_publishing_keeps_backing(self@, view, range.start as int, range.end as int);
            }
        }
        let (start, end) = (range.start, range.end);
        if let Err(error) = self.validate_range(start, end) {
            return Err(error);
        }
        if self.domain_blocked.overlaps(start, end) {
            return Err(DomainConflict::Blocked);
        }
        let family = match self.family_of_view(view) {
            Some(family) => family,
            None => {
                return Err(DomainConflict::NotFound);
            },
        };
        proof {
            assert(self@.views.dom().contains(view.raw));
        }
        if let Some(maps) = self.per_family.get(family.raw) {
            if let Some(other) = maps.find_other(view, start, end) {
                return Err(DomainConflict::InstalledOverlap(other));
            }
        }
        let mutation = match self.take_publish_ids() {
            Ok(mutation) => mutation,
            Err(error) => {
                return Err(error);
            },
        };
        let generation = match self.next_generation() {
            Some(generation) => generation,
            None => {
                return Err(DomainConflict::IdentityExhausted);
            },
        };
        self.set_span(view, start, end, true);
        self.set_installed(family, start, end, view);
        self.set_custody(family, start, end, &Custody::Present { generation, view });
        Ok(mutation)
    }

    /// Publishes `range` as a reserved span of `view`: purely logical custody that is never checked
    /// against the installed set. Unrelated views may claim identical addresses this way.
    pub fn publish_reserved(&mut self, view: VmViewId, range: Range<usize>) -> (result: Result<
        MutationId,
        DomainConflict,
    >)
        requires
            old(self).wf(),
        ensures
            final(self).wf(),
            (final(self)@, result) == reserved_published(
                old(self)@,
                view,
                range.start as int,
                range.end as int,
            ),
            installs_backed(old(self)@) ==> installs_backed(final(self)@),
    {
        proof {
            if installs_backed(self@) {
                lemma_publishing_keeps_backing(self@, view, range.start as int, range.end as int);
            }
        }
        let (start, end) = (range.start, range.end);
        if let Err(error) = self.validate_range(start, end) {
            return Err(error);
        }
        let family = match self.family_of_view(view) {
            Some(family) => family,
            None => {
                return Err(DomainConflict::NotFound);
            },
        };
        let mutation = match self.take_publish_ids() {
            Ok(mutation) => mutation,
            Err(error) => {
                return Err(error);
            },
        };
        let ghost before = self@;
        let entry = self.views.get_mut(view.raw);
        entry.topology.insert(start, end, &SpanKind::Reserved);
        proof {
            assert(self@.views.dom() =~= before.views.dom());
            lemma_kept(before, self@);
        }
        self.reserve_custody(family, view, start, end);
        Ok(mutation)
    }

    /// The views that share a reservation once `view` joined it.
    fn join(views: Vec<VmViewId>, view: VmViewId) -> (all: Vec<VmViewId>)
        ensures
            all@ == joined(views@, view),
    {
        let mut all = views;
        let mut present = false;
        let mut i: usize = 0;
        while i < all.len()
            invariant
                i <= all@.len(),
                all@ == views@,
                present <==> exists|j: int| 0 <= j < i && #[trigger] all@[j] == view,
            decreases all@.len() - i,
        {
            if all[i] == view {
                present = true;
            }
            i += 1;
        }
        if !present {
            all.push(view);
        }
        all
    }

    /// Reserves a range in the custody of a family, if the family is known.
    fn reserve_custody(&mut self, family: FamilyId, view: VmViewId, start: usize, end: usize)
        requires
            old(self).wf(),
            start < end,
        ensures
            final(self).wf(),
            final(self)@ == with_reservation(
                old(self)@,
                family,
                view,
                start as int,
                end as int,
            ),
    {
        if !self.per_family.contains(family.raw) {
            return;
        }
        let ghost first = self@;
        let ghost before = first.maps[family.raw].custody;
        let ghost goal = reserved_over(before, first.blocked, view, start as int, end as int);
        let mut cursor: usize = start;
        proof {
            assert(first.maps.insert(family.raw, first.maps[family.raw]) =~= first.maps);
        }
        while cursor < end
            invariant
                self.wf(),
                start <= cursor <= end,
                first.maps.dom().contains(family.raw),
                self@.maps.dom().contains(family.raw),
                before == first.maps[family.raw].custody,
                goal == reserved_over(before, first.blocked, view, start as int, end as int),
                self@ == (DomainModel {
                    maps: first.maps.insert(
                        family.raw,
                        FamilyModel {
                            custody: self@.maps[family.raw].custody,
                            ..first.maps[family.raw]
                        },
                    ),
                    ..first
                }),
                forall|k: int| #[trigger]
                    lookup(self@.maps[family.raw].custody, k) == (if start <= k < cursor {
                        lookup(goal, k)
                    } else {
                        lookup(before, k)
                    }),
            decreases end - cursor,
        {
            let ghost here = self@;
            let (recorded, own_stop) = match self.per_family.get(family.raw) {
                Some(maps) => maps.custody.segment(cursor, end),
                None => (None, end),
            };
            let (origin, blocked_stop) = self.domain_blocked.segment(cursor, end);
            let stop: usize = if own_stop < blocked_stop {
                own_stop
            } else {
                blocked_stop
            };
            let views: Option<Vec<VmViewId>> = match recorded {
                Some(Custody::Reserved { views }) => Some(Self::join(views, view)),
                Some(Custody::Unclaimed) | None => match origin {
                    Some(_) => None,
                    None => Some(Self::join(Vec::new(), view)),
                },
                Some(_) => None,
            };
            proof {
                assert(Seq::<VmViewId>::empty().push(view) =~= seq![view]);
                assert(!Seq::<VmViewId>::empty().contains(view));
                assert forall|k: int| cursor <= k < stop implies #[trigger] lookup(goal, k) == (match views {
                    Some(list) => Some(CustodyModel::Reserved { views: list@ }),
                    None => lookup(before, k),
                }) by {
                    assert(lookup(here.maps[family.raw].custody, k) == lookup(before, k));
                    assert(lookup(here.blocked, k) == lookup(first.blocked, k));
                }
            }
            if let Some(views) = views {
                self.set_custody(family, cursor, stop, &Custody::Reserved { views });
            }
            proof {
                assert(self@.maps =~= first.maps.insert(
                    family.raw,
                    FamilyModel {
                        custody: self@.maps[family.raw].custody,
                        ..first.maps[family.raw]
                    },
                ));
            }
            cursor = stop;
        }
        proof {
            assert(self@.maps[family.raw].custody =~= goal) by {
                assert forall|k: int| lookup(self@.maps[family.raw].custody, k) == lookup(goal, k) by {}
                crate::range_map::lemma_same_lookups(self@.maps[family.raw].custody, goal);
            }
        }
    }

    /// Retires a present span in the domain alone: nothing is asked of the host.
    fn retire_in_domain(&mut self, view: VmViewId, range: Range<usize>) -> (result: Result<(), DomainConflict>)
        requires
            old(self).wf(),
        ensures
            final(self).wf(),
            (final(self)@, result) == retired_in_domain(
                old(self)@,
                view,
                range.start as int,
                range.end as int,
            ),
    {
        let started = match self.begin_retire(view, range) {
            Ok(started) => started,
            Err(error) => {
                return Err(error);
            },
        };
        match self.finish_retire(started, Ok(())) {
            Ok(_) => Ok(()),
            Err(error) => Err(error),
        }
    }

    fn count_untracked(&mut self)
        requires
            old(self).wf(),
        ensures
            final(self).wf(),
            final(self)@ == untracked_counted(old(self)@),
    {
        self.untracked_present_events = self.untracked_present_events.wrapping_add(1);
        proof {
            lemma_kept(old(self)@, self@);
        }
    }

    /// Publishes a present span that a real effect has already made, with one bounded repair: where
    /// another view of the family is still installed there, its stale spans are retired in the
    /// domain and the publish is tried once more. A conflict that remains is counted.
    pub fn confirm_present_or_reconcile(&mut self, view: VmViewId, range: Range<usize>) -> (result: Result<
        MutationId,
        DomainConflict,
    >)
        requires
            old(self).wf(),
        ensures
            final(self).wf(),
            (final(self)@, result) == present_confirmed(
                old(self)@,
                view,
                range.start as int,
                range.end as int,
            ),
            installs_backed(old(self)@) ==> installs_backed(final(self)@),
    {
        proof {
            if installs_backed(self@) {
                lemma_confirming_keeps_backing(self@, view, range.start as int, range.end as int, Seq::empty());
            }
        }
        let (start, end) = (range.start, range.end);
        let first = self.publish_present(view, start..end);
        match first {
            Err(DomainConflict::InstalledOverlap(_)) => {},
            Err(error) => {
                self.count_untracked();
                return Err(error);
            },
            Ok(mutation) => {
                return Ok(mutation);
            },
        }
        let ghost overlapped = self@;
        let spans = self.custody_fragments(view, start..end);
        let ghost list = fragment_models(spans@);
        let mut i: usize = 0;
        proof {
            assert(list.skip(0) =~= list);
        }
        while i < spans.len()
            invariant
                i <= spans@.len(),
                list == fragment_models(spans@),
                self.wf(),
                strangers_retired(self@, list.skip(i as int), view) == strangers_retired(
                    overlapped,
                    list,
                    view,
                ),
            decreases spans@.len() - i,
        {
            proof {
                assert(list.skip(i as int)[0] == list[i as int]);
                assert(list.skip(i as int).drop_first() =~= list.skip(i + 1));
            }
            let (from, to) = (spans[i].0.start, spans[i].0.end);
            if let Custody::Present { view: stale, .. } = &spans[i].1 {
                if *stale != view {
                    let _ = self.retire_in_domain(*stale, from..to);
                }
            }
            i += 1;
        }
        let retried = self.publish_present(view, start..end);
        if retried.is_err() {
            self.count_untracked();
        }
        retried
    }

    /// Retires every part of a range that is still present for `view`, once a real effect has
    /// already unmapped it, with one bounded repair. What cannot be retired is counted.
    pub fn confirm_retired_or_reconcile(&mut self, view: VmViewId, range: Range<usize>)
        requires
            old(self).wf(),
        ensures
            final(self).wf(),
            final(self)@ == owns_retired(
                old(self)@,
                fragments(old(self)@, view, range.start as int, range.end as int),
                view,
            ),
            installs_backed(old(self)@) ==> installs_backed(final(self)@),
    {
        proof {
            if installs_backed(self@) {
                lemma_confirming_keeps_backing(self@, view, range.start as int, range.end as int, fragments(self@, view, range.start as int, range.end as int));
            }
        }
        let (start, end) = (range.start, range.end);
        let spans = self.custody_fragments(view, start..end);
        let ghost list = fragment_models(spans@);
        let ghost first = self@;
        let mut i: usize = 0;
        proof {
            assert(list.skip(0) =~= list);
        }
        while i < spans.len()
            invariant
                i <= spans@.len(),
                list == fragment_models(spans@),
                self.wf(),
                owns_retired(self@, list.skip(i as int), view) == owns_retired(first, list, view),
            decreases spans@.len() - i,
        {
            proof {
                assert(list.skip(i as int)[0] == list[i as int]);
                assert(list.skip(i as int).drop_first() =~= list.skip(i + 1));
            }
            let (from, to) = (spans[i].0.start, spans[i].0.end);
            if Self::present_for(&spans[i].1, view) {
                if self.retire_in_domain(view, from..to).is_err() {
                    let now = self.custody_at(view, from);
                    if Self::present_for(&now, view) {
                        if self.retire_in_domain(view, from..to).is_err() {
                            self.count_untracked();
                        }
                    }
                }
            }
            i += 1;
        }
    }

    fn present_for(custody: &Custody, view: VmViewId) -> (yes: bool)
        ensures
            yes == is_present_for(custody@, view),
    {
        match custody {
            Custody::Present { view: holder, .. } => *holder == view,
            _ => false,
        }
    }

    /// How many conflicts remained after the repair of [`Self::confirm_present_or_reconcile`] and
    /// [`Self::confirm_retired_or_reconcile`] since the domain was made.
    pub fn untracked_present_events(&self) -> (count: u64)
        ensures
            count == self@.untracked,
    {
        self.untracked_present_events
    }

    /// The lowest start of a recorded run that reaches into a range, or the range's own start.
    fn conflict_start(&self, family: FamilyId, start: usize, end: usize) -> (address: usize)
        requires
            self.wf(),
            start < end,
        ensures
            lowest_conflict(self@, family, start as int, end as int, address as int),
    {
        let mut lowest: Option<usize> = None;
        proof {
            assert forall|k: int| !self@.maps.dom().contains(family.raw) implies #[trigger] lookup(
                custody_of(self@, family),
                k,
            ) is None by {}
        }
        if let Some(maps) = self.per_family.get(family.raw) {
            let runs = maps.custody.overlapping(start, end);
            proof {
                Self::lemma_first_run(modelled(runs@), custody_of(self@, family), start as int, end as int);
            }
            if runs.len() > 0 {
                proof {
                    assert(modelled(runs@)[0] == (runs@[0].0 as int, runs@[0].1 as int, runs@[0].2@));
                }
                lowest = Some(runs[0].0);
            }
        }
        let ghost own = lowest;
        let runs = self.domain_blocked.overlapping(start, end);
        proof {
            Self::lemma_first_run(modelled(runs@), self@.blocked, start as int, end as int);
        }
        if runs.len() > 0 {
            proof {
                assert(modelled(runs@)[0] == (runs@[0].0 as int, runs@[0].1 as int, runs@[0].2));
            }
            let other: usize = runs[0].0;
            lowest = match lowest {
                Some(address) => if address <= other {
                    Some(address)
                } else {
                    Some(other)
                },
                None => Some(other),
            };
        }
        proof {
            let custody = custody_of(self@, family);
            if own is None {
                assert(!touched(custody, start as int, end as int));
                assert forall|from: int, to: int, value: CustodyModel| #[trigger]
                    is_run(custody, from, to, value) implies !(from < end && start < to) by {
                    let k = if start < from {
                        from
                    } else {
                        start as int
                    };
                    if from < end && start < to {
                        assert(lookup(custody, k) == Some(value));
                    }
                }
            }
            if runs.len() == 0 {
                assert forall|from: int, to: int, value: BlockOrigin| #[trigger]
                    is_run(self@.blocked, from, to, value) implies !(from < end && start < to) by {
                    let k = if start < from {
                        from
                    } else {
                        start as int
                    };
                    if from < end && start < to {
                        assert(lookup(self@.blocked, k) == Some(value));
                    }
                }
            }
        }
        match lowest {
            Some(address) => address,
            None => start,
        }
    }

    /// The first of the runs that reach into a range starts lowest.
    proof fn lemma_first_run<M>(list: Seq<(int, int, M)>, map: Map<int, M>, start: int, end: int)
        requires
            runs_of(list, map, start, end),
            start < end,
        ensures
            list.len() == 0 <==> !touched(map, start, end),
            list.len() > 0 ==> is_run(map, list[0].0, list[0].1, list[0].2) && list[0].0 < end && start
                < list[0].1,
            list.len() > 0 ==> forall|from: int, to: int, value: M| #[trigger]
                is_run(map, from, to, value) && from < end && start < to ==> list[0].0 <= from,
    {
        if list.len() > 0 {
            let k = if start < list[0].0 {
                list[0].0
            } else {
                start
            };
            assert(lookup(map, k) == Some(list[0].2));
        }
        assert forall|from: int, to: int, value: M| #[trigger]
            is_run(map, from, to, value) && from < end && start < to && list.len() > 0 implies list[0].0
            <= from by {
            let k = if start < from {
                from
            } else {
                start
            };
            assert(lookup(map, k) == Some(value));
            assert(covered(list, k));
            let i = choose|i: int| 0 <= i < list.len() && (#[trigger] list[i]).0 <= k < list[i].1;
            assert(lookup(map, k) == Some(list[i].2));
            if from < list[i].0 {
                assert(lookup(map, list[i].0 - 1) == Some(value));
            }
            if i > 0 {
                assert(list[0].1 <= list[i].0);
            }
        }
    }

    /// Whether a range can be placed in a family.
    fn can_place(&self, family: FamilyId, start: usize, end: usize) -> (yes: bool)
        requires
            self.wf(),
            start <= end,
        ensures
            yes == is_placeable(self@, family, start as int, end as int),
    {
        if start < end {
            return matches!(self.custody_lookup(family, start, end), Some(Custody::Unclaimed));
        }
        proof {
            assert forall|k: int| !self@.maps.dom().contains(family.raw) implies #[trigger] lookup(
                custody_of(self@, family),
                k,
            ) is None by {}
        }
        if let Some(maps) = self.per_family.get(family.raw) {
            if let Some((from, _, custody)) = maps.custody.get_key_value(start) {
                if from < start {
                    proof {
                        assert(lookup(maps.custody@, start as int) == Some(custody@));
                        assert(lookup(maps.custody@, start - 1) == Some(custody@));
                    }
                    return matches!(custody, Custody::Unclaimed);
                }
            }
        }
        match self.domain_blocked.get_key_value(start) {
            Some((from, _, origin)) => {
                proof {
                    if from < start {
                        assert(lookup(self@.blocked, start - 1) == Some(origin));
                    }
                }
                from >= start
            },
            None => true,
        }
    }

    /// The lowest start of a recorded run that an empty range lies inside, or its own address.
    fn conflict_around(&self, family: FamilyId, address: usize) -> (lowest: usize)
        requires
            self.wf(),
        ensures
            lowest_conflict(self@, family, address as int, address as int, lowest as int),
    {
        let mut lowest: usize = address;
        let ghost custody = custody_of(self@, family);
        let ghost k = address as int;
        proof {
            assert forall|k: int| !self@.maps.dom().contains(family.raw) implies #[trigger] lookup(
                custody,
                k,
            ) is None by {}
        }
        if let Some(maps) = self.per_family.get(family.raw) {
            if let Some((from, _, _)) = maps.custody.get_key_value(address) {
                lowest = from;
            }
        }
        let ghost own = lowest;
        if let Some((from, _, _)) = self.domain_blocked.get_key_value(address) {
            if from < lowest {
                lowest = from;
            }
        }
        proof {
            assert forall|from: int, to: int, value: CustodyModel| #[trigger]
                is_run(custody, from, to, value) && from < k < to implies from == own
                && inside(custody, k) is Some by {
                assert(lookup(custody, k) == Some(value));
                assert(lookup(custody, k - 1) == Some(value));
                if own < from {
                    assert(lookup(custody, from - 1) == Some(value));
                }
                if from < own {
                    assert(lookup(custody, own - 1) == Some(value));
                }
            }
        }
        lowest
    }

    /// Finds a place for `len` bytes that is free both for the caller and in the view's family.
    /// `search` is the caller's own search, which answers a candidate at or below a ceiling; it is
    /// asked again, below the lowest conflict, while its candidates are not unclaimed. Nothing is
    /// published.
    pub fn place<F: Fn(Option<usize>) -> Option<usize>>(
        &self,
        view: VmViewId,
        len: usize,
        hint: Option<usize>,
        search: F,
    ) -> (result: Result<Range<usize>, DomainConflict>)
        requires
            self.wf(),
            forall|ceiling: Option<usize>| #[trigger] call_requires(search, (ceiling,)),
            forall|ceiling: Option<usize>, start: usize| #[trigger]
                call_ensures(search, (ceiling,), Some(start)) ==> start + len <= usize::MAX,
        ensures
            match family_of(self@, view) {
                None => result == Err::<Range<usize>, DomainConflict>(DomainConflict::NotFound),
                Some(family) => placed(
                    self@,
                    family,
                    len,
                    hint,
                    MAX_ATTEMPTS as nat,
                    search,
                    result,
                ),
            },
    {
        match self.family_of_view(view) {
            None => Err(DomainConflict::NotFound),
            Some(family) => self.place_within(family, len, hint, MAX_ATTEMPTS, search),
        }
    }

    fn place_within<F: Fn(Option<usize>) -> Option<usize>>(
        &self,
        family: FamilyId,
        len: usize,
        hint: Option<usize>,
        attempts: usize,
        search: F,
    ) -> (result: Result<Range<usize>, DomainConflict>)
        requires
            self.wf(),
            forall|ceiling: Option<usize>| #[trigger] call_requires(search, (ceiling,)),
            forall|ceiling: Option<usize>, start: usize| #[trigger]
                call_ensures(search, (ceiling,), Some(start)) ==> start + len <= usize::MAX,
        ensures
            placed(self@, family, len, hint, attempts as nat, search, result),
        decreases attempts,
    {
        if attempts == 0 {
            return Err(DomainConflict::Occupied);
        }
        let answer = search(hint);
        match answer {
            None => Err(DomainConflict::Occupied),
            Some(start) => {
                if self.can_place(family, start, start + len) {
                    return Ok(start..start + len);
                }
                let conflict: usize = if len == 0 {
                    self.conflict_around(family, start)
                } else {
                    self.conflict_start(family, start, start + len)
                };
                let ceiling = conflict.saturating_sub(len);
                proof {
                    assert(lowest_conflict(
                        self@,
                        family,
                        start as int,
                        start + len,
                        conflict as int,
                    ));
                    assert(ceiling == next_ceiling(conflict as int, len));
                }
                if ceiling >= start {
                    return Err(DomainConflict::Occupied);
                }
                self.place_within(family, len, Some(ceiling), attempts - 1, search)
            },
        }
    }
}

} // verus!
