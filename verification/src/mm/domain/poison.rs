//! Poisoned and quarantined families, and what is owed for them.
use crate::ids::{FailureId, FamilyId};
use crate::mm::domain::{DomainConflict, GuestVaDomain, PoisonObligation, ViewOverlay};
use vstd::prelude::*;

verus! {

use crate::mm::domain::{lemma_kept, DomainModel, FamilyRecord, ViewModel};

broadcast use {
    crate::id_map::lemma_modelled_insert,
    crate::id_map::lemma_modelled_remove,
};

/// Whether a scope takes a family in: one family, or all of them.
pub open spec fn in_scope(scope: Option<FamilyId>, family: FamilyId) -> bool {
    scope is None || scope == Some(family)
}

/// A view with another lifecycle state.
pub open spec fn overlaid(view: ViewModel, overlay: ViewOverlay) -> ViewModel {
    ViewModel { overlay, ..view }
}

/// The views once every view in scope got a lifecycle state.
pub open spec fn views_overlaid(
    views: Map<u64, ViewModel>,
    scope: Option<FamilyId>,
    overlay: ViewOverlay,
) -> Map<u64, ViewModel> {
    Map::new(
        |id: u64| views.dom().contains(id),
        |id: u64|
            if in_scope(scope, views[id].family) {
                overlaid(views[id], overlay)
            } else {
                views[id]
            },
    )
}

/// The domain after a registered family was poisoned.
pub open spec fn family_poisoned(m: DomainModel, family: FamilyId) -> DomainModel {
    DomainModel {
        families: m.families.insert(
            family.raw,
            FamilyRecord { poisoned: true, ..m.families[family.raw] },
        ),
        views: views_overlaid(m.views, Some(family), ViewOverlay::Poisoned),
        ..m
    }
}

/// The domain after a registered family was quarantined.
pub open spec fn family_quarantined(m: DomainModel, family: FamilyId) -> DomainModel {
    DomainModel {
        families: m.families.insert(
            family.raw,
            FamilyRecord { quarantined: true, ..m.families[family.raw] },
        ),
        views: views_overlaid(m.views, Some(family), ViewOverlay::Quarantined),
        ..m
    }
}

/// The failures recorded against a family, in capture order.
pub open spec fn failures_of(m: DomainModel, family: u64) -> Seq<FailureId> {
    if m.obligation_index.dom().contains(family) {
        m.obligation_index[family]
    } else {
        Seq::empty()
    }
}

/// The domain with one more failure recorded against a family.
pub open spec fn with_failure(m: DomainModel, family: u64, failure: FailureId) -> DomainModel {
    DomainModel {
        obligation_index: m.obligation_index.insert(family, failures_of(m, family).push(failure)),
        ..m
    }
}

/// The domain with an obligation stored under its own identity.
pub open spec fn with_obligation(m: DomainModel, obligation: PoisonObligation) -> DomainModel {
    DomainModel { obligations: m.obligations.insert(obligation.failure.raw, obligation), ..m }
}

/// The domain after every family was poisoned over one obligation.
pub open spec fn all_poisoned(m: DomainModel, obligation: PoisonObligation) -> DomainModel {
    DomainModel {
        families: Map::new(
            |id: u64| m.families.dom().contains(id),
            |id: u64| FamilyRecord { poisoned: true, ..m.families[id] },
        ),
        views: views_overlaid(m.views, None, ViewOverlay::Poisoned),
        obligation_index: Map::new(
            |id: u64| m.families.dom().contains(id) || m.obligation_index.dom().contains(id),
            |id: u64|
                if m.families.dom().contains(id) {
                    failures_of(m, id).push(obligation.failure)
                } else {
                    m.obligation_index[id]
                },
        ),
        obligations: m.obligations.insert(obligation.failure.raw, obligation),
        ..m
    }
}

/// The failures among a list that an obligation is stored for.
pub open spec fn stored_failures(m: DomainModel, failures: Seq<FailureId>) -> Seq<FailureId>
    decreases failures.len(),
{
    if failures.len() == 0 {
        Seq::empty()
    } else {
        let rest = stored_failures(m, failures.drop_last());
        if m.obligations.dom().contains(failures.last().raw) {
            rest.push(failures.last())
        } else {
            rest
        }
    }
}

/// Poisoning keeps every poison that is already there, and adds none but the one asked for.
pub proof fn lemma_poison_stays(m: DomainModel, family: FamilyId, other: u64)
    requires
        m.families.dom().contains(family.raw),
        m.families.dom().contains(other),
    ensures
        family_poisoned(m, family).families[other].poisoned == (m.families[other].poisoned || other
            == family.raw),
        family_quarantined(m, family).families[other].poisoned == m.families[other].poisoned,
        family_quarantined(m, family).families[other].quarantined == (m.families[other].quarantined
            || other == family.raw),
{
}

/// Poisoning one family leaves the views and tables of every other family alone.
pub proof fn lemma_poison_is_family_scoped(m: DomainModel, family: FamilyId, view: u64)
    requires
        m.views.dom().contains(view),
    ensures
        m.views[view].family != family ==> family_poisoned(m, family).views[view] == m.views[view],
        m.views[view].family == family ==> family_poisoned(m, family).views[view].overlay
            == ViewOverlay::Poisoned,
        family_poisoned(m, family).maps == m.maps,
{
}

impl GuestVaDomain {
    /// Sets the lifecycle state of every view in scope.
    fn overlay_views(&mut self, scope: Option<FamilyId>, overlay: ViewOverlay)
        requires
            old(self).wf(),
        ensures
            final(self).wf(),
            final(self)@ == (DomainModel {
                views: views_overlaid(old(self)@.views, scope, overlay),
                ..old(self)@
            }),
    {
        let ghost first = self@;
        let ghost order = self.views.order();
        let ghost goal = views_overlaid(first.views, scope, overlay);
        let n: usize = self.views.len();
        let mut i: usize = 0;
        proof {
            self.views.lemma_order();
        }
        while i < n
            invariant
                self.wf(),
                first.views.dom() == self@.views.dom(),
                n == order.len(),
                i <= n,
                order == self.views.order(),
                order.no_duplicates(),
                goal == views_overlaid(first.views, scope, overlay),
                self@ == (DomainModel { views: self@.views, ..first }),
                forall|j: int| 0 <= j < i ==> self@.views[#[trigger] order[j]] == goal[order[j]],
                forall|j: int|
                    i <= j < n ==> self@.views[#[trigger] order[j]] == first.views[order[j]],
            decreases n - i,
        {
            let id = self.views.id_at(i);
            let ghost before = *self;
            let entry = self.views.get_mut(id);
            let hit = match scope {
                None => true,
                Some(family) => entry.family == family,
            };
            if hit {
                entry.overlay = overlay;
            }
            proof {
                assert(before@.views[id] == first.views[id]);
                assert(self@.views.dom() =~= before@.views.dom());
                assert(self@.views == before@.views.insert(id, self@.views[id]));
                lemma_kept(before@, self@);
                assert forall|j: int| 0 <= j < n && j != i implies self@.views[#[trigger] order[j]]
                    == before@.views[order[j]] by {
                    assert(order[j] != order[i as int]);
                }
            }
            i += 1;
        }
        proof {
            self.views.lemma_order();
            assert forall|id: u64| self@.views.dom().contains(id) implies #[trigger] self@.views[id]
                == goal[id] by {
                assert(order.contains(id));
                let j = choose|j: int| 0 <= j < order.len() && order[j] == id;
                assert(self@.views[order[j]] == goal[order[j]]);
            }
            assert(self@.views =~= goal);
        }
    }

    /// Sets one of the two terminal marks of a registered family.
    fn mark_family(&mut self, family: FamilyId, poison: bool)
        requires
            old(self).wf(),
            old(self)@.families.dom().contains(family.raw),
        ensures
            final(self).wf(),
            final(self)@ == (if poison {
                family_poisoned(old(self)@, family)
            } else {
                family_quarantined(old(self)@, family)
            }),
    {
        let record = self.families.get_mut(family.raw);
        if poison {
            record.poisoned = true;
        } else {
            record.quarantined = true;
        }
        proof {
            assert(self@.families.dom() =~= old(self)@.families.dom());
            lemma_kept(old(self)@, self@);
        }
        self.overlay_views(
            Some(family),
            if poison {
                ViewOverlay::Poisoned
            } else {
                ViewOverlay::Quarantined
            },
        );
    }

    /// Marks a family poisoned, and every view of it. The record survives whatever its member
    /// count.
    pub fn mark_poison(&mut self, family: FamilyId) -> (result: Result<(), DomainConflict>)
        requires
            old(self).wf(),
        ensures
            final(self).wf(),
            if old(self)@.families.dom().contains(family.raw) {
                result is Ok && final(self)@ == family_poisoned(old(self)@, family)
            } else {
                result == Err::<(), DomainConflict>(DomainConflict::NotFound) && final(self)@ == old(
                    self,
                )@
            },
    {
        if !self.families.contains(family.raw) {
            return Err(DomainConflict::NotFound);
        }
        self.mark_family(family, true);
        Ok(())
    }

    /// Marks a family quarantined, and every view of it. The record survives whatever its member
    /// count.
    pub fn mark_quarantine(&mut self, family: FamilyId) -> (result: Result<(), DomainConflict>)
        requires
            old(self).wf(),
        ensures
            final(self).wf(),
            if old(self)@.families.dom().contains(family.raw) {
                result is Ok && final(self)@ == family_quarantined(old(self)@, family)
            } else {
                result == Err::<(), DomainConflict>(DomainConflict::NotFound) && final(self)@ == old(
                    self,
                )@
            },
    {
        if !self.families.contains(family.raw) {
            return Err(DomainConflict::NotFound);
        }
        self.mark_family(family, false);
        Ok(())
    }

    /// Records one more failure against a family.
    fn push_failure(&mut self, family: u64, failure: FailureId)
        requires
            old(self).wf(),
        ensures
            final(self).wf(),
            final(self)@ == with_failure(old(self)@, family, failure),
            final(self).families == old(self).families,
    {
        if !self.family_obligation_index.contains(family) {
            self.family_obligation_index.insert(family, Vec::new());
        }
        let ghost between = self.family_obligation_index@;
        let failures = self.family_obligation_index.get_mut(family);
        failures.push(failure);
        proof {
            assert(self@.obligation_index =~= old(self)@.obligation_index.insert(
                family,
                failures_of(old(self)@, family).push(failure),
            ));
            lemma_kept(old(self)@, self@);
        }
    }

    fn store_obligation(&mut self, obligation: PoisonObligation)
        requires
            old(self).wf(),
        ensures
            final(self).wf(),
            final(self)@ == with_obligation(old(self)@, obligation),
    {
        let failure = obligation.failure;
        self.obligations.insert(failure.raw, obligation);
        proof {
            lemma_kept(old(self)@, self@);
        }
    }

    /// Marks a family poisoned like [`Self::mark_poison`], and keeps a record of what was in
    /// flight. Answers the record's identity.
    pub fn mark_poison_with_obligation(&mut self, obligation: PoisonObligation) -> (result: Result<
        FailureId,
        DomainConflict,
    >)
        requires
            old(self).wf(),
        ensures
            final(self).wf(),
            if old(self)@.families.dom().contains(obligation.family.raw) {
                result == Ok::<FailureId, DomainConflict>(obligation.failure) && final(self)@
                    == with_obligation(
                    with_failure(
                        family_poisoned(old(self)@, obligation.family),
                        obligation.family.raw,
                        obligation.failure,
                    ),
                    obligation,
                )
            } else {
                result == Err::<FailureId, DomainConflict>(DomainConflict::NotFound) && final(self)@
                    == old(self)@
            },
    {
        let family = obligation.family;
        let failure = obligation.failure;
        if !self.families.contains(family.raw) {
            return Err(DomainConflict::NotFound);
        }
        self.mark_family(family, true);
        self.push_failure(family.raw, failure);
        self.store_obligation(obligation);
        Ok(failure)
    }

    /// Marks every family poisoned, and keeps one record against all of them. Answers the record's
    /// identity.
    pub fn mark_process_global_terminal(&mut self, obligation: PoisonObligation) -> (failure: FailureId)
        requires
            old(self).wf(),
        ensures
            final(self).wf(),
            final(self)@ == all_poisoned(old(self)@, obligation),
            failure == obligation.failure,
    {
        let failure = obligation.failure;
        let ghost first = self@;
        let ghost order = self.families.order();
        let ghost goal = all_poisoned(first, obligation);
        let n: usize = self.families.len();
        let mut i: usize = 0;
        proof {
            self.families.lemma_order();
        }
        while i < n
            invariant
                self.wf(),
                first.families.dom() == self@.families.dom(),
                n == order.len(),
                i <= n,
                order == self.families.order(),
                order.no_duplicates(),
                forall|id: u64| #[trigger] order.contains(id) <==> first.families.dom().contains(id),
                goal == all_poisoned(first, obligation),
                failure == obligation.failure,
                self@ == (DomainModel {
                    families: self@.families,
                    obligation_index: self@.obligation_index,
                    ..first
                }),
                forall|j: int|
                    0 <= j < i ==> self@.families[#[trigger] order[j]] == goal.families[order[j]]
                        && self@.obligation_index.dom().contains(order[j])
                        && self@.obligation_index[order[j]] == goal.obligation_index[order[j]],
                forall|j: int|
                    i <= j < n ==> self@.families[#[trigger] order[j]] == first.families[order[j]]
                        && failures_of(self@, order[j]) == failures_of(first, order[j]),
                forall|id: u64|
                    !first.families.dom().contains(id) ==> (#[trigger] self@.obligation_index.dom().contains(
                        id,
                    ) <==> first.obligation_index.dom().contains(id)) && self@.obligation_index[id]
                        == first.obligation_index[id],
            decreases n - i,
        {
            let id = self.families.id_at(i);
            let ghost before = self@;
            let record = self.families.get_mut(id);
            record.poisoned = true;
            proof {
                assert(self@.families.dom() =~= before.families.dom());
                lemma_kept(before, self@);
            }
            self.push_failure(id, failure);
            proof {
                assert(failures_of(before, order[i as int]) == failures_of(first, order[i as int]));
                assert(order.contains(id));
                assert forall|j: int| 0 <= j < n && j != i implies self@.families[#[trigger] order[j]]
                    == before.families[order[j]] && self@.obligation_index.dom().contains(order[j])
                    == before.obligation_index.dom().contains(order[j])
                    && self@.obligation_index[order[j]] == before.obligation_index[order[j]] by {
                    assert(order[j] != order[i as int]);
                }
            }
            i += 1;
        }
        proof {
            assert forall|id: u64| first.families.dom().contains(id) implies #[trigger] self@.families[id]
                == goal.families[id] && self@.obligation_index.dom().contains(id)
                && self@.obligation_index[id] == goal.obligation_index[id] by {
                assert(order.contains(id));
                let j = choose|j: int| 0 <= j < order.len() && order[j] == id;
                assert(self@.families[order[j]] == goal.families[order[j]]);
            }
            assert(self@.families =~= goal.families);
            assert forall|id: u64| #[trigger]
                self@.obligation_index.dom().contains(id) == goal.obligation_index.dom().contains(id) by {
                if first.families.dom().contains(id) {
                    assert(self@.families[id] == goal.families[id]);
                }
            }
            assert(self@.obligation_index =~= goal.obligation_index);
        }
        self.overlay_views(None, ViewOverlay::Poisoned);
        self.store_obligation(obligation);
        failure
    }

    /// Reads the obligation recorded under an identity, if there is one.
    pub fn query_obligation<R, F: FnOnce(&PoisonObligation) -> R>(&self, id: FailureId, read: F) -> (result: Option<
        R,
    >)
        requires
            self.wf(),
            self@.obligations.dom().contains(id.raw) ==> call_requires(
                read,
                (&self@.obligations[id.raw],),
            ),
        ensures
            result is Some <==> self@.obligations.dom().contains(id.raw),
            result matches Some(value) ==> call_ensures(read, (&self@.obligations[id.raw],), value),
    {
        match self.obligations.get(id.raw) {
            Some(obligation) => Some(read(obligation)),
            None => None,
        }
    }

    /// Reads every obligation recorded against a family, in capture order.
    pub fn family_obligations<R, F: Fn(&PoisonObligation) -> R>(&self, family: FamilyId, read: F) -> (results:
        Vec<R>)
        requires
            self.wf(),
            forall|id: u64| #[trigger]
                self@.obligations.dom().contains(id) ==> call_requires(
                    read,
                    (&self@.obligations[id],),
                ),
        ensures
            results@.len() == stored_failures(self@, failures_of(self@, family.raw)).len(),
            forall|i: int|
                0 <= i < results@.len() ==> call_ensures(
                    read,
                    (&self@.obligations[stored_failures(self@, failures_of(self@, family.raw))[i].raw],),
                    #[trigger] results@[i],
                ),
    {
        let mut results: Vec<R> = Vec::new();
        let failures = match self.family_obligation_index.get(family.raw) {
            Some(failures) => failures,
            None => {
                return results;
            },
        };
        let mut i: usize = 0;
        while i < failures.len()
            invariant
                self.wf(),
                i <= failures@.len(),
                results@.len() == stored_failures(self@, failures@.take(i as int)).len(),
                forall|id: u64| #[trigger]
                    self@.obligations.dom().contains(id) ==> call_requires(
                        read,
                        (&self@.obligations[id],),
                    ),
                forall|j: int|
                    0 <= j < results@.len() ==> call_ensures(
                        read,
                        (&self@.obligations[stored_failures(self@, failures@.take(i as int))[j].raw],),
                        #[trigger] results@[j],
                    ),
            decreases failures@.len() - i,
        {
            proof {
                assert(failures@.take(i + 1).drop_last() =~= failures@.take(i as int));
                assert(failures@.take(i + 1).last() == failures@[i as int]);
            }
            let id: u64 = failures[i].raw;
            if let Some(obligation) = self.obligations.get(id) {
                results.push(read(obligation));
            }
            i += 1;
        }
        proof {
            assert(failures@.take(failures@.len() as int) =~= failures@);
        }
        results
    }
}

} // verus!
