//! Claiming, installing, replacing, retiring and releasing ranges.
//!
//! Each of these asks the host for something. What is decided before the host is asked and what
//! its answer changes are functions of their own, so that nothing has to be held in between; the
//! combined function takes the host's part as a closure.
use crate::ids::{FamilyId, HoleGenerationId, MutationId, VmViewId};
use crate::mm::custody::{BlockOrigin, Custody, CustodyModel, HoleToken, SpanKind};
use crate::mm::domain::{ClaimHostError, DomainConflict, FamilyMaps, GuestVaDomain, ViewOverlay};
use core::ops::Range;
use vstd::prelude::*;

verus! {

use crate::mm::custody::TokenModel;
use crate::mm::domain::backing::{
    claim_made, install_made, installs_backed, lemma_claim_keeps_backing, lemma_replacing_keeps_backing,
    lemma_tokens_keep_backing, release_made, replacement_made, retirement_made,
};
use crate::mm::domain::lineage::{filled, has_live_descendant};
use crate::mm::domain::lookup::uniform_custody;
use crate::mm::domain::registry::family_of;
use crate::mm::domain::{
    lemma_kept, range_validity, DomainModel, FamilyModel, IssuedIds, ViewModel,
};
use crate::range_map::{cut, pieces, put};
use crate::range_table::modelled;

broadcast use {
    crate::range_map::lemma_lookup_put,
    crate::range_map::lemma_lookup_cut,
    crate::id_map::lemma_modelled_insert,
    crate::id_map::lemma_modelled_remove,
};

/// A claim whose host part is running.
pub struct ClaimInFlight {
    pub start: usize,
    pub end: usize,
    pub family: FamilyId,
    pub generation: HoleGenerationId,
}

/// An install or a replacement whose host part is running.
pub struct InstallInFlight {
    pub start: usize,
    pub end: usize,
    pub family: FamilyId,
    pub view: VmViewId,
    /// The generation the range had, and has again if the host refuses.
    pub held: HoleGenerationId,
    /// The generation the range gets.
    pub fresh: HoleGenerationId,
    pub mutation: MutationId,
}

/// A retirement whose host part is running.
pub struct RetireInFlight {
    pub start: usize,
    pub end: usize,
    pub family: FamilyId,
    pub view: VmViewId,
    /// The generation the range had, and has again if the host refuses.
    pub held: HoleGenerationId,
    /// The generation the hole gets.
    pub fresh: HoleGenerationId,
}

/// A release whose host part is running.
pub struct ReleaseInFlight {
    pub start: usize,
    pub end: usize,
    pub family: FamilyId,
    pub held: HoleGenerationId,
}

/// The first view other than `view` among installed spans.
pub open spec fn first_other(spans: Seq<(int, int, VmViewId)>, view: VmViewId) -> Option<VmViewId>
    decreases spans.len(),
{
    if spans.len() == 0 {
        None
    } else if spans[0].2 != view {
        Some(spans[0].2)
    } else {
        first_other(spans.drop_first(), view)
    }
}

/// The lowest other view installed in a range of a family.
pub open spec fn other_installed(m: DomainModel, family: FamilyId, view: VmViewId, start: int, end: int) -> Option<
    VmViewId,
> {
    first_other(pieces(m.maps[family.raw].installed, start, end), view)
}

/// The domain after a generation was handed out.
pub open spec fn generation_issued(m: DomainModel) -> DomainModel {
    DomainModel {
        issued: IssuedIds { generation: (m.issued.generation + 1) as u64, ..m.issued },
        ..m
    }
}

/// The domain after a mutation was handed out.
pub open spec fn mutation_issued(m: DomainModel) -> DomainModel {
    DomainModel { issued: IssuedIds { mutation: (m.issued.mutation + 1) as u64, ..m.issued }, ..m }
}

/// The domain with another custody recorded for a range of a family, if the family is known.
pub open spec fn with_custody(
    m: DomainModel,
    family: FamilyId,
    start: int,
    end: int,
    custody: CustodyModel,
) -> DomainModel {
    if m.maps.dom().contains(family.raw) {
        let maps = m.maps[family.raw];
        DomainModel {
            maps: m.maps.insert(
                family.raw,
                FamilyModel { custody: put(maps.custody, start, end, custody), ..maps },
            ),
            ..m
        }
    } else {
        m
    }
}

/// The domain with no custody recorded for a range of a family, if the family is known.
pub open spec fn without_custody(m: DomainModel, family: FamilyId, start: int, end: int) -> DomainModel {
    if m.maps.dom().contains(family.raw) {
        let maps = m.maps[family.raw];
        DomainModel {
            maps: m.maps.insert(
                family.raw,
                FamilyModel { custody: cut(maps.custody, start, end), ..maps },
            ),
            ..m
        }
    } else {
        m
    }
}

/// The domain with a view installed in a range of a family, if the family is known.
pub open spec fn with_installed(
    m: DomainModel,
    family: FamilyId,
    start: int,
    end: int,
    view: VmViewId,
) -> DomainModel {
    if m.maps.dom().contains(family.raw) {
        let maps = m.maps[family.raw];
        DomainModel {
            maps: m.maps.insert(
                family.raw,
                FamilyModel { installed: put(maps.installed, start, end, view), ..maps },
            ),
            ..m
        }
    } else {
        m
    }
}

/// The domain with a present span in a view's topology, if the view is registered. A view that was
/// only registered so far becomes active where `activate` says so.
pub open spec fn with_span(m: DomainModel, view: VmViewId, start: int, end: int, activate: bool) -> DomainModel {
    if m.views.dom().contains(view.raw) {
        let entry = m.views[view.raw];
        DomainModel {
            views: m.views.insert(
                view.raw,
                ViewModel {
                    topology: put(entry.topology, start, end, SpanKind::Present),
                    overlay: if activate && entry.overlay == ViewOverlay::Installing {
                        ViewOverlay::Active
                    } else {
                        entry.overlay
                    },
                    ..entry
                },
            ),
            ..m
        }
    } else {
        m
    }
}

/// The domain without a range in a view's topology, if the view is registered.
pub open spec fn without_span(m: DomainModel, view: VmViewId, start: int, end: int) -> DomainModel {
    if m.views.dom().contains(view.raw) {
        let entry = m.views[view.raw];
        DomainModel {
            views: m.views.insert(
                view.raw,
                ViewModel { topology: cut(entry.topology, start, end), ..entry },
            ),
            ..m
        }
    } else {
        m
    }
}

/// What the start of a claim does and answers.
pub open spec fn claim_begun(m: DomainModel, view: VmViewId, start: int, end: int) -> (
    DomainModel,
    Result<ClaimInFlight, DomainConflict>,
) {
    let after = generation_issued(m);
    match range_validity(m, start, end) {
        Err(error) => (m, Err(error)),
        Ok(()) => if m.issued.generation >= m.limits.generation {
            (m, Err(DomainConflict::IdentityExhausted))
        } else {
            match family_of(m, view) {
                None => (after, Err(DomainConflict::NotFound)),
                Some(family) => match uniform_custody(m, family, start, end) {
                    Some(CustodyModel::Unclaimed) => {
                        let generation = HoleGenerationId { raw: after.issued.generation };
                        (
                            with_custody(
                                after,
                                family,
                                start,
                                end,
                                CustodyModel::Installing { generation },
                            ),
                            Ok(
                                ClaimInFlight {
                                    start: start as usize,
                                    end: end as usize,
                                    family,
                                    generation,
                                },
                            ),
                        )
                    },
                    Some(CustodyModel::DomainBlocked(_)) => (after, Err(DomainConflict::Blocked)),
                    _ => (after, Err(DomainConflict::Occupied)),
                },
            }
        },
    }
}

/// What the host's answer to a claim changes. A range that the host holds for somebody else is
/// blocked for good; any other refusal leaves it unclaimed.
pub open spec fn claim_finished(
    m: DomainModel,
    claim: ClaimInFlight,
    answer: Result<(), ClaimHostError>,
) -> (DomainModel, Result<TokenModel, DomainConflict>) {
    let (start, end) = (claim.start as int, claim.end as int);
    let ClaimInFlight { family, generation, .. } = claim;
    match answer {
        Ok(()) => (
            with_custody(m, family, start, end, CustodyModel::Hole { generation }),
            Ok(TokenModel { start, end, generation, family }),
        ),
        Err(ClaimHostError::ForeignHost) => {
            let gone = without_custody(m, family, start, end);
            (
                DomainModel {
                    blocked: put(gone.blocked, start, end, BlockOrigin::ForeignHost),
                    ..gone
                },
                Err(DomainConflict::Blocked),
            )
        },
        Err(ClaimHostError::Other) => (
            with_custody(m, family, start, end, CustodyModel::Unclaimed),
            Err(DomainConflict::Occupied),
        ),
    }
}

/// A mutation and a generation are handed out, in this order; the mutation is spent even where the
/// generations are exhausted.
pub open spec fn install_ids(m: DomainModel) -> (DomainModel, Result<(), DomainConflict>) {
    if m.issued.mutation >= m.limits.mutation {
        (m, Err(DomainConflict::IdentityExhausted))
    } else if m.issued.generation >= m.limits.generation {
        (mutation_issued(m), Err(DomainConflict::IdentityExhausted))
    } else {
        (generation_issued(mutation_issued(m)), Ok(()))
    }
}

/// An install or replacement that is let through: the identities are handed out and the range is
/// marked.
pub open spec fn install_started(
    m: DomainModel,
    family: FamilyId,
    view: VmViewId,
    start: int,
    end: int,
    held: HoleGenerationId,
) -> (DomainModel, Result<InstallInFlight, DomainConflict>) {
    let (after, ids) = install_ids(m);
    match ids {
        Err(error) => (after, Err(error)),
        Ok(()) => (
            with_custody(after, family, start, end, CustodyModel::Installing { generation: held }),
            Ok(
                InstallInFlight {
                    start: start as usize,
                    end: end as usize,
                    family,
                    view,
                    held,
                    fresh: HoleGenerationId { raw: after.issued.generation },
                    mutation: MutationId { raw: after.issued.mutation },
                },
            ),
        ),
    }
}

/// What the start of an install into a hole does and answers. A token that does not match the
/// range's live generation, or another family's, is not honored.
pub open spec fn install_begun(m: DomainModel, token: TokenModel, view: VmViewId) -> (
    DomainModel,
    Result<InstallInFlight, DomainConflict>,
) {
    let TokenModel { start, end, generation, family } = token;
    if family_of(m, view) != Some(family) || uniform_custody(m, family, start, end) != Some(
        CustodyModel::Hole { generation },
    ) {
        (m, Err(DomainConflict::NotFound))
    } else {
        match other_installed(m, family, view, start, end) {
            Some(other) => (m, Err(DomainConflict::InstalledOverlap(other))),
            None => install_started(m, family, view, start, end, generation),
        }
    }
}

/// What the host's answer to an install changes.
pub open spec fn install_finished(m: DomainModel, install: InstallInFlight, answer: Result<(), ()>) -> (
    DomainModel,
    Result<MutationId, DomainConflict>,
) {
    let (start, end) = (install.start as int, install.end as int);
    let InstallInFlight { family, view, held, fresh, mutation, .. } = install;
    match answer {
        Ok(()) => (
            with_span(
                with_custody(
                    with_installed(m, family, start, end, view),
                    family,
                    start,
                    end,
                    CustodyModel::Present { generation: fresh, view },
                ),
                view,
                start,
                end,
                true,
            ),
            Ok(mutation),
        ),
        Err(()) => (
            with_custody(m, family, start, end, CustodyModel::Hole { generation: held }),
            Err(DomainConflict::Occupied),
        ),
    }
}

/// The generation under which a view has a whole range present, if it does.
pub open spec fn present_generation(m: DomainModel, family: FamilyId, view: VmViewId, start: int, end: int) -> Option<
    HoleGenerationId,
> {
    match uniform_custody(m, family, start, end) {
        Some(CustodyModel::Present { generation, view: holder }) => if holder == view {
            Some(generation)
        } else {
            None
        },
        _ => None,
    }
}

/// What the start of a replacement does and answers.
pub open spec fn replace_begun(m: DomainModel, view: VmViewId, start: int, end: int) -> (
    DomainModel,
    Result<InstallInFlight, DomainConflict>,
) {
    match range_validity(m, start, end) {
        Err(error) => (m, Err(error)),
        Ok(()) => match family_of(m, view) {
            None => (m, Err(DomainConflict::NotFound)),
            Some(family) => match other_installed(m, family, view, start, end) {
                Some(_) => (m, Err(DomainConflict::Occupied)),
                None => match present_generation(m, family, view, start, end) {
                    None => (m, Err(DomainConflict::Occupied)),
                    Some(held) => install_started(m, family, view, start, end, held),
                },
            },
        },
    }
}

/// What the host's answer to a replacement changes.
pub open spec fn replace_finished(m: DomainModel, install: InstallInFlight, answer: Result<(), ()>) -> (
    DomainModel,
    Result<MutationId, DomainConflict>,
) {
    let (start, end) = (install.start as int, install.end as int);
    let InstallInFlight { family, view, held, fresh, mutation, .. } = install;
    match answer {
        Ok(()) => (
            with_span(
                with_custody(
                    m,
                    family,
                    start,
                    end,
                    CustodyModel::Present { generation: fresh, view },
                ),
                view,
                start,
                end,
                false,
            ),
            Ok(mutation),
        ),
        Err(()) => (
            with_custody(m, family, start, end, CustodyModel::Present { generation: held, view }),
            Err(DomainConflict::Occupied),
        ),
    }
}

/// What the start of a retirement does and answers.
pub open spec fn retire_begun(m: DomainModel, view: VmViewId, start: int, end: int) -> (
    DomainModel,
    Result<RetireInFlight, DomainConflict>,
) {
    let after = generation_issued(m);
    match range_validity(m, start, end) {
        Err(error) => (m, Err(error)),
        Ok(()) => match family_of(m, view) {
            None => (m, Err(DomainConflict::NotFound)),
            Some(family) => match present_generation(m, family, view, start, end) {
                None => (m, Err(DomainConflict::Occupied)),
                Some(held) => if m.issued.generation >= m.limits.generation {
                    (m, Err(DomainConflict::IdentityExhausted))
                } else {
                    (
                        with_custody(
                            after,
                            family,
                            start,
                            end,
                            CustodyModel::Retiring { generation: held, view },
                        ),
                        Ok(
                            RetireInFlight {
                                start: start as usize,
                                end: end as usize,
                                family,
                                view,
                                held,
                                fresh: HoleGenerationId { raw: after.issued.generation },
                            },
                        ),
                    )
                },
            },
        },
    }
}

/// The tables of a family once a present range was retired to a hole.
pub open spec fn family_retired(
    maps: FamilyModel,
    start: int,
    end: int,
    kept: Option<CustodyModel>,
    fresh: HoleGenerationId,
) -> FamilyModel {
    FamilyModel {
        installed: cut(maps.installed, start, end),
        custody: put(maps.custody, start, end, CustodyModel::Hole { generation: fresh }),
        snapshot: match kept {
            Some(custody) => filled(maps.snapshot, start, end, custody),
            None => maps.snapshot,
        },
    }
}

/// What the host's answer to a retirement changes. Where a live family descends from this one,
/// what the range held is kept for it, unless something older is kept already.
pub open spec fn retire_finished(m: DomainModel, retire: RetireInFlight, answer: Result<(), ()>) -> (
    DomainModel,
    Result<TokenModel, DomainConflict>,
) {
    let (start, end) = (retire.start as int, retire.end as int);
    let RetireInFlight { family, view, held, fresh, .. } = retire;
    match answer {
        Ok(()) => {
            let kept = if has_live_descendant(m, family) {
                Some(CustodyModel::Present { generation: held, view })
            } else {
                None
            };
            let retired = if m.maps.dom().contains(family.raw) {
                DomainModel {
                    maps: m.maps.insert(
                        family.raw,
                        family_retired(m.maps[family.raw], start, end, kept, fresh),
                    ),
                    ..m
                }
            } else {
                m
            };
            (
                without_span(retired, view, start, end),
                Ok(TokenModel { start, end, generation: fresh, family }),
            )
        },
        Err(()) => (
            with_custody(m, family, start, end, CustodyModel::Present { generation: held, view }),
            Err(DomainConflict::Occupied),
        ),
    }
}

/// What the start of a release does and answers.
pub open spec fn release_begun(m: DomainModel, token: TokenModel) -> (
    DomainModel,
    Result<ReleaseInFlight, DomainConflict>,
) {
    let TokenModel { start, end, generation, family } = token;
    if uniform_custody(m, family, start, end) != Some(CustodyModel::Hole { generation }) {
        (m, Err(DomainConflict::NotFound))
    } else {
        (
            with_custody(m, family, start, end, CustodyModel::Installing { generation }),
            Ok(
                ReleaseInFlight { start: start as usize, end: end as usize, family, held: generation },
            ),
        )
    }
}

/// What the host's answer to a release changes.
pub open spec fn release_finished(m: DomainModel, release: ReleaseInFlight, answer: Result<(), ()>) -> (
    DomainModel,
    Result<(), DomainConflict>,
) {
    let (start, end) = (release.start as int, release.end as int);
    let ReleaseInFlight { family, held, .. } = release;
    match answer {
        Ok(()) => (without_custody(m, family, start, end), Ok(())),
        Err(()) => (
            with_custody(m, family, start, end, CustodyModel::Hole { generation: held }),
            Err(DomainConflict::Occupied),
        ),
    }
}

/// A result of tokens, as mathematical values.
pub open spec fn token_result(result: Result<HoleToken, DomainConflict>) -> Result<TokenModel, DomainConflict> {
    match result {
        Ok(token) => Ok(token@),
        Err(error) => Err(error),
    }
}

impl FamilyMaps {
    /// The lowest other view installed in a range.
    pub(crate) fn find_other(&self, view: VmViewId, start: usize, end: usize) -> (found: Option<VmViewId>)
        requires
            self.wf(),
            start < end,
        ensures
            found == first_other(pieces(self@.installed, start as int, end as int), view),
    {
        let spans = self.installed.pieces(start, end);
        let ghost list = modelled(spans@);
        let mut i: usize = 0;
        proof {
            assert(list.skip(0) =~= list);
        }
        while i < spans.len()
            invariant
                i <= spans@.len(),
                list == modelled(spans@),
                list == pieces(self@.installed, start as int, end as int),
                first_other(list, view) == first_other(list.skip(i as int), view),
            decreases spans@.len() - i,
        {
            proof {
                assert(list.skip(i as int)[0] == list[i as int]);
                assert(list.skip(i as int).drop_first() =~= list.skip(i + 1));
            }
            if spans[i].2 != view {
                return Some(spans[i].2);
            }
            i += 1;
        }
        None
    }
}

impl GuestVaDomain {
    /// Records a custody for a range of a family, if the family is known.
    pub(crate) fn set_custody(&mut self, family: FamilyId, start: usize, end: usize, custody: &Custody)
        requires
            old(self).wf(),
            start < end,
        ensures
            final(self).wf(),
            final(self)@ == with_custody(old(self)@, family, start as int, end as int, custody@),
    {
        if self.per_family.contains(family.raw) {
            let maps = self.per_family.get_mut(family.raw);
            maps.custody.insert(start, end, custody);
            proof {
                assert(self@.maps.dom() =~= old(self)@.maps.dom());
                lemma_kept(old(self)@, self@);
            }
        }
    }

    /// Forgets the custody of a range of a family, if the family is known.
    fn clear_custody(&mut self, family: FamilyId, start: usize, end: usize)
        requires
            old(self).wf(),
            start < end,
        ensures
            final(self).wf(),
            final(self)@ == without_custody(old(self)@, family, start as int, end as int),
    {
        if self.per_family.contains(family.raw) {
            let maps = self.per_family.get_mut(family.raw);
            maps.custody.remove(start, end);
            proof {
                assert(self@.maps.dom() =~= old(self)@.maps.dom());
                lemma_kept(old(self)@, self@);
            }
        }
    }

    /// Enters a view into the installed set of a family, if the family is known.
    pub(crate) fn set_installed(&mut self, family: FamilyId, start: usize, end: usize, view: VmViewId)
        requires
            old(self).wf(),
            start < end,
        ensures
            final(self).wf(),
            final(self)@ == with_installed(old(self)@, family, start as int, end as int, view),
    {
        if self.per_family.contains(family.raw) {
            let maps = self.per_family.get_mut(family.raw);
            maps.installed.insert(start, end, &view);
            proof {
                assert(self@.maps.dom() =~= old(self)@.maps.dom());
                lemma_kept(old(self)@, self@);
            }
        }
    }

    /// Enters a present span into a view's topology, if the view is registered.
    pub(crate) fn set_span(&mut self, view: VmViewId, start: usize, end: usize, activate: bool)
        requires
            old(self).wf(),
            start < end,
        ensures
            final(self).wf(),
            final(self)@ == with_span(old(self)@, view, start as int, end as int, activate),
    {
        if self.views.contains(view.raw) {
            let entry = self.views.get_mut(view.raw);
            entry.topology.insert(start, end, &SpanKind::Present);
            if activate && entry.overlay == ViewOverlay::Installing {
                entry.overlay = ViewOverlay::Active;
            }
            proof {
                assert(self@.views.dom() =~= old(self)@.views.dom());
                lemma_kept(old(self)@, self@);
            }
        }
    }

    pub(crate) fn next_generation(&mut self) -> (id: Option<HoleGenerationId>)
        requires
            old(self).wf(),
        ensures
            final(self).wf(),
            match id {
                Some(generation) => old(self)@.issued.generation < old(self)@.limits.generation && final(self)@
                    == generation_issued(old(self)@) && generation.raw == final(self)@.issued.generation,
                None => old(self)@.issued.generation >= old(self)@.limits.generation && final(self)@ == old(self)@,
            },
    {
        match self.generations.next() {
            Some(raw) => {
                proof {
                    lemma_kept(old(self)@, self@);
                }
                Some(HoleGenerationId { raw })
            },
            None => None,
        }
    }

    pub(crate) fn next_mutation(&mut self) -> (id: Option<MutationId>)
        requires
            old(self).wf(),
        ensures
            final(self).wf(),
            match id {
                Some(mutation) => old(self)@.issued.mutation < old(self)@.limits.mutation && final(self)@
                    == mutation_issued(old(self)@) && mutation.raw == final(self)@.issued.mutation,
                None => old(self)@.issued.mutation >= old(self)@.limits.mutation && final(self)@ == old(self)@,
            },
    {
        match self.mutation_ids.next() {
            Some(raw) => {
                proof {
                    lemma_kept(old(self)@, self@);
                }
                Some(MutationId { raw })
            },
            None => None,
        }
    }

    /// The start of a claim: everything before the host is asked.
    pub fn begin_claim(&mut self, view: VmViewId, range: Range<usize>) -> (result: Result<
        ClaimInFlight,
        DomainConflict,
    >)
        requires
            old(self).wf(),
        ensures
            final(self).wf(),
            (final(self)@, result) == claim_begun(
                old(self)@,
                view,
                range.start as int,
                range.end as int,
            ),
            result matches Ok(claim) ==> claim.start < claim.end,
    {
        let (start, end) = (range.start, range.end);
        if let Err(error) = self.validate_range(start, end) {
            return Err(error);
        }
        let generation = match self.next_generation() {
            Some(generation) => generation,
            None => {
                return Err(DomainConflict::IdentityExhausted);
            },
        };
        let family = match self.family_of_view(view) {
            Some(family) => family,
            None => {
                return Err(DomainConflict::NotFound);
            },
        };
        match self.custody_lookup(family, start, end) {
            Some(Custody::Unclaimed) => {},
            Some(Custody::DomainBlocked(_)) => {
                return Err(DomainConflict::Blocked);
            },
            _ => {
                return Err(DomainConflict::Occupied);
            },
        }
        self.set_custody(family, start, end, &Custody::Installing { generation });
        Ok(ClaimInFlight { start, end, family, generation })
    }

    /// The end of a claim: what the host's answer changes.
    pub fn finish_claim(&mut self, claim: ClaimInFlight, answer: Result<(), ClaimHostError>) -> (result: Result<
        HoleToken,
        DomainConflict,
    >)
        requires
            old(self).wf(),
            claim.start < claim.end,
        ensures
            final(self).wf(),
            (final(self)@, token_result(result)) == claim_finished(old(self)@, claim, answer),
    {
        let ClaimInFlight { start, end, family, generation } = claim;
        match answer {
            Ok(()) => {
                self.set_custody(family, start, end, &Custody::Hole { generation });
                Ok(HoleToken::mint(start, end, generation, family))
            },
            Err(ClaimHostError::ForeignHost) => {
                self.clear_custody(family, start, end);
                let ghost gone = self@;
                self.domain_blocked.insert(start, end, &BlockOrigin::ForeignHost);
                proof {
                    lemma_kept(gone, self@);
                }
                Err(DomainConflict::Blocked)
            },
            Err(ClaimHostError::Other) => {
                self.set_custody(family, start, end, &Custody::Unclaimed);
                Err(DomainConflict::Occupied)
            },
        }
    }

    /// Claims a range as a domain-owned hole: reserved from the host but not yet backing any view.
    pub fn claim_hole<F: FnOnce(Range<usize>) -> Result<(), ClaimHostError>>(
        &mut self,
        view: VmViewId,
        range: Range<usize>,
        host_reserve: F,
    ) -> (result: Result<HoleToken, DomainConflict>)
        requires
            old(self).wf(),
            call_requires(host_reserve, (range,)),
        ensures
            final(self).wf(),
            match claim_begun(old(self)@, view, range.start as int, range.end as int) {
                (after, Err(error)) => final(self)@ == after && result == Err::<HoleToken, DomainConflict>(
                    error,
                ),
                (after, Ok(claim)) => exists|answer: Result<(), ClaimHostError>| #[trigger]
                    call_ensures(host_reserve, (range,), answer) && (
                        final(self)@,
                        token_result(result),
                    ) == claim_finished(after, claim, answer),
            },
            installs_backed(old(self)@) ==> installs_backed(final(self)@),
    {
        proof {
            if installs_backed(self@) {
                assert forall|answer: Result<(), ClaimHostError>| #[trigger]
                    installs_backed(claim_made(old(self)@, view, range.start as int, range.end as int, answer).0) by {
                    lemma_claim_keeps_backing(old(self)@, view, range.start as int, range.end as int, answer);
                }
            }
        }
        let claim = match self.begin_claim(view, range.start..range.end) {
            Ok(claim) => claim,
            Err(error) => {
                return Err(error);
            },
        };
        let answer = host_reserve(range);
        let result = self.finish_claim(claim, answer);
        proof {
            assert(self@ == claim_made(old(self)@, view, range.start as int, range.end as int, answer).0);
        }
        result
    }

    /// An install or replacement that is let through.
    fn start_install(
        &mut self,
        family: FamilyId,
        view: VmViewId,
        start: usize,
        end: usize,
        held: HoleGenerationId,
    ) -> (result: Result<InstallInFlight, DomainConflict>)
        requires
            old(self).wf(),
            start < end,
        ensures
            final(self).wf(),
            (final(self)@, result) == install_started(
                old(self)@,
                family,
                view,
                start as int,
                end as int,
                held,
            ),
    {
        let mutation = match self.next_mutation() {
            Some(mutation) => mutation,
            None => {
                return Err(DomainConflict::IdentityExhausted);
            },
        };
        let fresh = match self.next_generation() {
            Some(fresh) => fresh,
            None => {
                return Err(DomainConflict::IdentityExhausted);
            },
        };
        self.set_custody(family, start, end, &Custody::Installing { generation: held });
        Ok(InstallInFlight { start, end, family, view, held, fresh, mutation })
    }

    /// The start of an install into a hole: everything before the host is asked.
    pub fn begin_install(&mut self, token: &HoleToken, view: VmViewId) -> (result: Result<
        InstallInFlight,
        DomainConflict,
    >)
        requires
            old(self).wf(),
            token.wf(),
        ensures
            final(self).wf(),
            (final(self)@, result) == install_begun(old(self)@, token@, view),
            result matches Ok(install) ==> install.start < install.end,
    {
        let (start, end, generation, family) = token.parts();
        let view_family = match self.family_of_view(view) {
            Some(view_family) => view_family,
            None => {
                return Err(DomainConflict::NotFound);
            },
        };
        if view_family != family {
            return Err(DomainConflict::NotFound);
        }
        proof {
            assert(self@.views.dom().contains(view.raw));
        }
        match self.custody_lookup(family, start, end) {
            Some(Custody::Hole { generation: live }) => {
                if live != generation {
                    return Err(DomainConflict::NotFound);
                }
            },
            _ => {
                return Err(DomainConflict::NotFound);
            },
        }
        if let Some(maps) = self.per_family.get(family.raw) {
            if let Some(other) = maps.find_other(view, start, end) {
                return Err(DomainConflict::InstalledOverlap(other));
            }
        }
        self.start_install(family, view, start, end, generation)
    }

    /// The end of an install: what the host's answer changes.
    pub fn finish_install(&mut self, install: InstallInFlight, answer: Result<(), ()>) -> (result: Result<
        MutationId,
        DomainConflict,
    >)
        requires
            old(self).wf(),
            install.start < install.end,
        ensures
            final(self).wf(),
            (final(self)@, result) == install_finished(old(self)@, install, answer),
    {
        let InstallInFlight { start, end, family, view, held, fresh, mutation } = install;
        match answer {
            Ok(()) => {
                self.set_installed(family, start, end, view);
                self.set_custody(family, start, end, &Custody::Present { generation: fresh, view });
                self.set_span(view, start, end, true);
                Ok(mutation)
            },
            Err(()) => {
                self.set_custody(family, start, end, &Custody::Hole { generation: held });
                Err(DomainConflict::Occupied)
            },
        }
    }

    /// Installs a view's present span over the hole that a token authenticates, consuming it. On
    /// failure the range is a hole again under its original generation.
    pub fn install_into_owned_hole<F: FnOnce(Range<usize>) -> Result<(), ()>>(
        &mut self,
        token: HoleToken,
        view: VmViewId,
        install: F,
    ) -> (result: Result<MutationId, DomainConflict>)
        requires
            old(self).wf(),
            token.wf(),
            call_requires(
                install,
                (crate::mm::vmem::initialization::span(token@.start, token@.end),),
            ),
        ensures
            final(self).wf(),
            match install_begun(old(self)@, token@, view) {
                (after, Err(error)) => final(self)@ == after && result == Err::<
                    MutationId,
                    DomainConflict,
                >(error),
                (after, Ok(started)) => exists|answer: Result<(), ()>| #[trigger]
                    call_ensures(
                        install,
                        (crate::mm::vmem::initialization::span(token@.start, token@.end),),
                        answer,
                    ) && (final(self)@, result) == install_finished(after, started, answer),
            },
            installs_backed(old(self)@) ==> installs_backed(final(self)@),
    {
        proof {
            if installs_backed(self@) {
                assert forall|answer: Result<(), ()>| #[trigger]
                    installs_backed(install_made(old(self)@, token@, view, answer).0) by {
                    lemma_tokens_keep_backing(old(self)@, token@, view, answer);
                }
            }
        }
        let started = match self.begin_install(&token, view) {
            Ok(started) => started,
            Err(error) => {
                return Err(error);
            },
        };
        let answer = install(token.range());
        let result = self.finish_install(started, answer);
        proof {
            assert(self@ == install_made(old(self)@, token@, view, answer).0);
        }
        result
    }

    /// The start of a replacement: everything before the host is asked.
    pub fn begin_replace(&mut self, view: VmViewId, range: Range<usize>) -> (result: Result<
        InstallInFlight,
        DomainConflict,
    >)
        requires
            old(self).wf(),
        ensures
            final(self).wf(),
            (final(self)@, result) == replace_begun(
                old(self)@,
                view,
                range.start as int,
                range.end as int,
            ),
            result matches Ok(install) ==> install.start < install.end,
    {
        let (start, end) = (range.start, range.end);
        if let Err(error) = self.validate_range(start, end) {
            return Err(error);
        }
        let family = match self.family_of_view(view) {
            Some(family) => family,
            None => {
                return Err(DomainConflict::NotFound);
            },
        };
        proof {
            assert(self@.views.dom().contains(view.raw));
        }
        if let Some(maps) = self.per_family.get(family.raw) {
            if maps.find_other(view, start, end).is_some() {
                return Err(DomainConflict::Occupied);
            }
        }
        let held = match self.custody_lookup(family, start, end) {
            Some(Custody::Present { generation, view: holder }) => {
                if holder != view {
                    return Err(DomainConflict::Occupied);
                }
                generation
            },
            _ => {
                return Err(DomainConflict::Occupied);
            },
        };
        self.start_install(family, view, start, end, held)
    }

    /// The end of a replacement: what the host's answer changes.
    pub fn finish_replace(&mut self, install: InstallInFlight, answer: Result<(), ()>) -> (result: Result<
        MutationId,
        DomainConflict,
    >)
        requires
            old(self).wf(),
            install.start < install.end,
        ensures
            final(self).wf(),
            (final(self)@, result) == replace_finished(old(self)@, install, answer),
    {
        let InstallInFlight { start, end, family, view, held, fresh, mutation } = install;
        match answer {
            Ok(()) => {
                self.set_custody(family, start, end, &Custody::Present { generation: fresh, view });
                self.set_span(view, start, end, false);
                Ok(mutation)
            },
            Err(()) => {
                self.set_custody(family, start, end, &Custody::Present { generation: held, view });
                Err(DomainConflict::Occupied)
            },
        }
    }

    /// Re-mutates a view's own already-installed present span in place. Only legal where the whole
    /// range is present for the view itself.
    pub fn replace_present<F: FnOnce(Range<usize>) -> Result<(), ()>>(
        &mut self,
        view: VmViewId,
        range: Range<usize>,
        replace: F,
    ) -> (result: Result<MutationId, DomainConflict>)
        requires
            old(self).wf(),
            call_requires(replace, (range,)),
        ensures
            final(self).wf(),
            match replace_begun(old(self)@, view, range.start as int, range.end as int) {
                (after, Err(error)) => final(self)@ == after && result == Err::<
                    MutationId,
                    DomainConflict,
                >(error),
                (after, Ok(started)) => exists|answer: Result<(), ()>| #[trigger]
                    call_ensures(replace, (range,), answer) && (final(self)@, result)
                        == replace_finished(after, started, answer),
            },
            installs_backed(old(self)@) ==> installs_backed(final(self)@),
    {
        proof {
            if installs_backed(self@) {
                assert forall|answer: Result<(), ()>| #[trigger]
                    installs_backed(replacement_made(old(self)@, view, range.start as int, range.end as int, answer).0) by {
                    lemma_replacing_keeps_backing(old(self)@, view, range.start as int, range.end as int, answer);
                }
            }
        }
        let started = match self.begin_replace(view, range.start..range.end) {
            Ok(started) => started,
            Err(error) => {
                return Err(error);
            },
        };
        let answer = replace(range);
        let result = self.finish_replace(started, answer);
        proof {
            assert(self@ == replacement_made(old(self)@, view, range.start as int, range.end as int, answer).0);
        }
        result
    }

    /// The start of a retirement: everything before the host is asked.
    pub fn begin_retire(&mut self, view: VmViewId, range: Range<usize>) -> (result: Result<
        RetireInFlight,
        DomainConflict,
    >)
        requires
            old(self).wf(),
        ensures
            final(self).wf(),
            (final(self)@, result) == retire_begun(
                old(self)@,
                view,
                range.start as int,
                range.end as int,
            ),
            result matches Ok(retire) ==> retire.start < retire.end,
    {
        let (start, end) = (range.start, range.end);
        if let Err(error) = self.validate_range(start, end) {
            return Err(error);
        }
        let family = match self.family_of_view(view) {
            Some(family) => family,
            None => {
                return Err(DomainConflict::NotFound);
            },
        };
        let held = match self.custody_lookup(family, start, end) {
            Some(Custody::Present { generation, view: holder }) => {
                if holder != view {
                    return Err(DomainConflict::Occupied);
                }
                generation
            },
            _ => {
                return Err(DomainConflict::Occupied);
            },
        };
        let fresh = match self.next_generation() {
            Some(fresh) => fresh,
            None => {
                return Err(DomainConflict::IdentityExhausted);
            },
        };
        self.set_custody(family, start, end, &Custody::Retiring { generation: held, view });
        Ok(RetireInFlight { start, end, family, view, held, fresh })
    }

    /// The end of a retirement: what the host's answer changes.
    pub fn finish_retire(&mut self, retire: RetireInFlight, answer: Result<(), ()>) -> (result: Result<
        HoleToken,
        DomainConflict,
    >)
        requires
            old(self).wf(),
            retire.start < retire.end,
        ensures
            final(self).wf(),
            (final(self)@, token_result(result)) == retire_finished(old(self)@, retire, answer),
    {
        let RetireInFlight { start, end, family, view, held, fresh } = retire;
        match answer {
            Ok(()) => {
                let keep = self.family_has_live_descendant(family);
                if self.per_family.contains(family.raw) {
                    let maps = self.per_family.get_mut(family.raw);
                    if keep {
                        maps.capture_lineage_snapshot(
                            start,
                            end,
                            &Custody::Present { generation: held, view },
                        );
                    }
                    maps.installed.remove(start, end);
                    maps.custody.insert(start, end, &Custody::Hole { generation: fresh });
                    proof {
                        assert(self@.maps.dom() =~= old(self)@.maps.dom());
                        lemma_kept(old(self)@, self@);
                    }
                }
                if self.views.contains(view.raw) {
                    let ghost before = self@;
                    let entry = self.views.get_mut(view.raw);
                    entry.topology.remove(start, end);
                    proof {
                        assert(self@.views.dom() =~= before.views.dom());
                        lemma_kept(before, self@);
                    }
                }
                Ok(HoleToken::mint(start, end, fresh, family))
            },
            Err(()) => {
                self.set_custody(family, start, end, &Custody::Present { generation: held, view });
                Err(DomainConflict::Occupied)
            },
        }
    }

    /// Retires a view's present span back to a domain-owned hole. What it held is kept for
    /// descendants that still inherit it.
    pub fn retire_to_owned_hole<F: FnOnce(Range<usize>) -> Result<(), ()>>(
        &mut self,
        view: VmViewId,
        range: Range<usize>,
        host_reset: F,
    ) -> (result: Result<HoleToken, DomainConflict>)
        requires
            old(self).wf(),
            call_requires(host_reset, (range,)),
        ensures
            final(self).wf(),
            match retire_begun(old(self)@, view, range.start as int, range.end as int) {
                (after, Err(error)) => final(self)@ == after && result == Err::<HoleToken, DomainConflict>(
                    error,
                ),
                (after, Ok(started)) => exists|answer: Result<(), ()>| #[trigger]
                    call_ensures(host_reset, (range,), answer) && (final(self)@, token_result(result))
                        == retire_finished(after, started, answer),
            },
            installs_backed(old(self)@) ==> installs_backed(final(self)@),
    {
        proof {
            if installs_backed(self@) {
                assert forall|answer: Result<(), ()>| #[trigger]
                    installs_backed(retirement_made(old(self)@, view, range.start as int, range.end as int, answer).0) by {
                    lemma_replacing_keeps_backing(old(self)@, view, range.start as int, range.end as int, answer);
                }
            }
        }
        let started = match self.begin_retire(view, range.start..range.end) {
            Ok(started) => started,
            Err(error) => {
                return Err(error);
            },
        };
        let answer = host_reset(range);
        let result = self.finish_retire(started, answer);
        proof {
            assert(self@ == retirement_made(old(self)@, view, range.start as int, range.end as int, answer).0);
        }
        result
    }

    /// The start of a release: everything before the host is asked.
    pub fn begin_release(&mut self, token: &HoleToken) -> (result: Result<ReleaseInFlight, DomainConflict>)
        requires
            old(self).wf(),
            token.wf(),
        ensures
            final(self).wf(),
            (final(self)@, result) == release_begun(old(self)@, token@),
            result matches Ok(release) ==> release.start < release.end,
    {
        let (start, end, generation, family) = token.parts();
        match self.custody_lookup(family, start, end) {
            Some(Custody::Hole { generation: live }) => {
                if live != generation {
                    return Err(DomainConflict::NotFound);
                }
            },
            _ => {
                return Err(DomainConflict::NotFound);
            },
        }
        self.set_custody(family, start, end, &Custody::Installing { generation });
        Ok(ReleaseInFlight { start, end, family, held: generation })
    }

    /// The end of a release: what the host's answer changes.
    pub fn finish_release(&mut self, release: ReleaseInFlight, answer: Result<(), ()>) -> (result: Result<
        (),
        DomainConflict,
    >)
        requires
            old(self).wf(),
            release.start < release.end,
        ensures
            final(self).wf(),
            (final(self)@, result) == release_finished(old(self)@, release, answer),
    {
        let ReleaseInFlight { start, end, family, held } = release;
        match answer {
            Ok(()) => {
                self.clear_custody(family, start, end);
                Ok(())
            },
            Err(()) => {
                self.set_custody(family, start, end, &Custody::Hole { generation: held });
                Err(DomainConflict::Occupied)
            },
        }
    }

    /// Releases a domain-owned hole back to unclaimed, consuming its token.
    pub fn release_hole<F: FnOnce(Range<usize>) -> Result<(), ()>>(
        &mut self,
        token: HoleToken,
        host_release: F,
    ) -> (result: Result<(), DomainConflict>)
        requires
            old(self).wf(),
            token.wf(),
            call_requires(
                host_release,
                (crate::mm::vmem::initialization::span(token@.start, token@.end),),
            ),
        ensures
            final(self).wf(),
            match release_begun(old(self)@, token@) {
                (after, Err(error)) => final(self)@ == after && result == Err::<(), DomainConflict>(error),
                (after, Ok(started)) => exists|answer: Result<(), ()>| #[trigger]
                    call_ensures(
                        host_release,
                        (crate::mm::vmem::initialization::span(token@.start, token@.end),),
                        answer,
                    ) && (final(self)@, result) == release_finished(after, started, answer),
            },
            installs_backed(old(self)@) ==> installs_backed(final(self)@),
    {
        proof {
            if installs_backed(self@) {
                assert forall|answer: Result<(), ()>| #[trigger]
                    installs_backed(release_made(old(self)@, token@, answer).0) by {
                    lemma_tokens_keep_backing(old(self)@, token@, VmViewId { raw: 0 }, answer);
                }
            }
        }
        let started = match self.begin_release(&token) {
            Ok(started) => started,
            Err(error) => {
                return Err(error);
            },
        };
        let answer = host_release(token.range());
        let result = self.finish_release(started, answer);
        proof {
            assert(self@ == release_made(old(self)@, token@, answer).0);
        }
        result
    }
}

} // verus!
