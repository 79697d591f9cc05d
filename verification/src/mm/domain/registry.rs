//! Families and views: coming, going, and being asked about.
use crate::ids::{FamilyId, ProcessInstanceId, TaskInstanceId, VmViewId};
use crate::mm::domain::backing::{
    installs_backed, lemma_eviction_keeps_backing, lemma_new_family_is_backed,
};
use crate::mm::domain::{
    DomainConflict, FamilyMaps, FamilyRecord, GuestVaDomain, ViewOverlay, VmView, VmViewSnapshot,
};
use crate::range_table::RangeTable;
use vstd::prelude::*;

verus! {

use crate::mm::domain::{
    empty_family, lemma_same_census, lineage_ok, members_of, new_record, DomainModel, FamilyModel,
    IssuedIds, ViewModel,
};
use crate::range_map::{covered, lemma_same_lookups, lookup, runs_of};
use crate::range_table::modelled;

broadcast use {
    crate::range_map::lemma_lookup_put,
    crate::range_map::lemma_lookup_cut,
    crate::id_map::lemma_modelled_insert,
    crate::id_map::lemma_modelled_remove,
};

/// The domain once a family was registered under the next identity.
pub open spec fn family_added(m: DomainModel, parent: Option<FamilyId>) -> DomainModel {
    let id = (m.issued.family + 1) as u64;
    DomainModel {
        families: m.families.insert(id, new_record(parent)),
        maps: m.maps.insert(id, empty_family()),
        issued: IssuedIds { family: id, ..m.issued },
        ..m
    }
}

/// A view that was just registered.
pub open spec fn new_view(family: FamilyId, owner: (ProcessInstanceId, TaskInstanceId)) -> ViewModel {
    ViewModel {
        family,
        owner,
        overlay: ViewOverlay::Installing,
        topology: Map::empty(),
        admission: 0,
    }
}

/// The domain once a view was registered under the next identity.
pub open spec fn view_added(
    m: DomainModel,
    family: FamilyId,
    owner: (ProcessInstanceId, TaskInstanceId),
) -> DomainModel {
    let id = (m.issued.view + 1) as u64;
    let record = m.families[family.raw];
    DomainModel {
        families: m.families.insert(
            family.raw,
            FamilyRecord { members: (record.members + 1) as usize, ..record },
        ),
        views: m.views.insert(id, new_view(family, owner)),
        issued: IssuedIds { view: id, ..m.issued },
        ..m
    }
}

/// An installed set without one view.
pub open spec fn evicted(installed: Map<int, VmViewId>, view: VmViewId) -> Map<int, VmViewId> {
    Map::new(
        |k: int| installed.dom().contains(k) && installed[k] != view,
        |k: int| installed[k],
    )
}

/// The domain once a view has no installed spans any more.
pub open spec fn view_evicted(m: DomainModel, view: VmViewId, family: FamilyId) -> DomainModel {
    let maps = m.maps[family.raw];
    DomainModel {
        maps: m.maps.insert(
            family.raw,
            FamilyModel { installed: evicted(maps.installed, view), ..maps },
        ),
        ..m
    }
}

/// The domain with another lifecycle state for one view.
pub open spec fn with_overlay(m: DomainModel, view: VmViewId, overlay: ViewOverlay) -> DomainModel {
    DomainModel {
        views: m.views.insert(view.raw, ViewModel { overlay, ..m.views[view.raw] }),
        ..m
    }
}

/// The domain once a view is gone.
pub open spec fn view_gone(m: DomainModel, view: VmViewId) -> DomainModel {
    let family = m.views[view.raw].family;
    let record = m.families[family.raw];
    let without = view_evicted(m, view, family);
    DomainModel {
        views: m.views.remove(view.raw),
        families: m.families.insert(
            family.raw,
            FamilyRecord { members: (record.members - 1) as usize, ..record },
        ),
        ..without
    }
}

impl FamilyMaps {
    /// Takes a view out of the installed set.
    fn evict(&mut self, view: VmViewId)
        requires
            old(self).wf(),
        ensures
            final(self).wf(),
            final(self)@ == (FamilyModel { installed: evicted(old(self)@.installed, view), ..old(self)@ }),
    {
        let entries = self.installed.iter();
        let ghost runs = modelled(entries@);
        let ghost before = self.installed@;
        let mut i: usize = 0;
        while i < entries.len()
            invariant
                i <= entries@.len(),
                runs == modelled(entries@),
                before == old(self)@.installed,
                runs_of(runs, before, 0, usize::MAX as int),
                self.wf(),
                self@ == (FamilyModel { installed: self@.installed, ..old(self)@ }),
                forall|k: int| #[trigger]
                    lookup(self@.installed, k) == (if exists|j: int|
                        0 <= j < i && (#[trigger] runs[j]).0 <= k < runs[j].1 && runs[j].2 == view {
                        None
                    } else {
                        lookup(before, k)
                    }),
            decreases entries@.len() - i,
        {
            let (start, end, owner) = entries[i];
            let ghost middle = self@.installed;
            proof {
                assert(runs[i as int] == (start as int, end as int, owner));
            }
            if owner == view {
                self.installed.remove(start, end);
            }
            i += 1;
            proof {
                assert forall|k: int| #[trigger]
                    lookup(self@.installed, k) == (if exists|j: int|
                        0 <= j < i && (#[trigger] runs[j]).0 <= k < runs[j].1 && runs[j].2 == view {
                        None
                    } else {
                        lookup(before, k)
                    }) by {
                    assert(lookup(middle, k) == lookup(middle, k));
                    if start <= k < end && owner == view {
                        assert(runs[i - 1].0 <= k < runs[i - 1].1);
                    }
                }
            }
        }
        proof {
            old(self).installed.lemma_bounds();
            let goal = evicted(before, view);
            assert forall|k: int| #[trigger] lookup(self@.installed, k) == lookup(goal, k) by {
                if lookup(before, k) is Some {
                    assert(covered(runs, k));
                    let j = choose|j: int| 0 <= j < runs.len() && (#[trigger] runs[j]).0 <= k < runs[j].1;
                    assert(lookup(before, k) == Some(runs[j].2));
                }
                if exists|j: int|
                    0 <= j < i && (#[trigger] runs[j]).0 <= k < runs[j].1 && runs[j].2 == view {
                    let j = choose|j: int|
                        0 <= j < i && (#[trigger] runs[j]).0 <= k < runs[j].1 && runs[j].2 == view;
                    assert(lookup(before, k) == Some(runs[j].2));
                }
            }
            lemma_same_lookups(self@.installed, goal);
        }
    }
}

impl GuestVaDomain {
    /// Registers a new fork family, returning its identity.
    pub fn register_family(&mut self) -> (result: Result<FamilyId, DomainConflict>)
        requires
            old(self).wf(),
        ensures
            final(self).wf(),
            match result {
                Ok(id) => id.raw == old(self)@.issued.family + 1 && final(self)@ == family_added(
                    old(self)@,
                    None,
                ),
                Err(error) => error == DomainConflict::IdentityExhausted && final(self)@ == old(self)@,
            },
            result is Ok <==> old(self)@.issued.family < old(self)@.limits.family,
            installs_backed(old(self)@) ==> installs_backed(final(self)@),
    {
        proof {
            if installs_backed(self@) {
                lemma_new_family_is_backed(self@, None);
            }
        }
        self.add_family(None)
    }

    /// Registers a new fork family with a lineage link to the family it was forked from.
    pub fn register_family_from(&mut self, parent: FamilyId) -> (result: Result<FamilyId, DomainConflict>)
        requires
            old(self).wf(),
        ensures
            final(self).wf(),
            match result {
                Ok(id) => id.raw == old(self)@.issued.family + 1 && final(self)@ == family_added(
                    old(self)@,
                    Some(parent),
                ),
                Err(error) => final(self)@ == old(self)@ && error == (if !old(self)@.families.dom().contains(
                    parent.raw,
                ) {
                    DomainConflict::NotFound
                } else {
                    DomainConflict::IdentityExhausted
                }),
            },
            result is Ok <==> old(self)@.families.dom().contains(parent.raw) && old(self)@.issued.family
                < old(self)@.limits.family,
            installs_backed(old(self)@) ==> installs_backed(final(self)@),
    {
        proof {
            if installs_backed(self@) {
                lemma_new_family_is_backed(self@, Some(parent));
            }
        }
        if !self.families.contains(parent.raw) {
            return Err(DomainConflict::NotFound);
        }
        self.add_family(Some(parent))
    }

    fn add_family(&mut self, parent: Option<FamilyId>) -> (result: Result<FamilyId, DomainConflict>)
        requires
            old(self).wf(),
            parent matches Some(p) ==> old(self)@.families.dom().contains(p.raw),
        ensures
            final(self).wf(),
            match result {
                Ok(id) => id.raw == old(self)@.issued.family + 1 && final(self)@ == family_added(
                    old(self)@,
                    parent,
                ),
                Err(error) => error == DomainConflict::IdentityExhausted && final(self)@ == old(self)@,
            },
            result is Ok <==> old(self)@.issued.family < old(self)@.limits.family,
    {
        let id = match self.family_ids.next() {
            Some(id) => id,
            None => {
                return Err(DomainConflict::IdentityExhausted);
            },
        };
        let mut record = FamilyRecord::default();
        record.parent = parent;
        self.families.insert(id, record);
        self.per_family.insert(id, FamilyMaps::new());
        proof {
            let before = old(self)@;
            assert(self@.families.dom() =~= self@.maps.dom());
            assert forall|family: u64| #[trigger] self@.families.dom().contains(family) implies members_of(
                self@.views,
                family,
            ).finite() && members_of(self@.views, family).len() == self@.families[family].members by {
                if family == id {
                    assert(members_of(self@.views, family) =~= Set::empty()) by {
                        assert forall|view: u64| !members_of(self@.views, family).contains(view) by {
                            if before.views.dom().contains(view) {
                                assert(before.families.dom().contains(before.views[view].family.raw));
                            }
                        }
                    }
                } else {
                    assert(before.families.dom().contains(family));
                }
            }
            assert(lineage_ok(self@));
        }
        Ok(FamilyId { raw: id })
    }

    /// The family that a family was forked from, if it is registered and was forked.
    pub fn family_parent(&self, family: FamilyId) -> (parent: Option<FamilyId>)
        requires
            self.wf(),
        ensures
            parent == (if self@.families.dom().contains(family.raw) {
                self@.families[family.raw].parent
            } else {
                None
            }),
    {
        match self.families.get(family.raw) {
            Some(record) => record.parent,
            None => None,
        }
    }

    /// Registers a new, empty view under a family.
    pub fn register_view(&mut self, family: FamilyId, owner: (ProcessInstanceId, TaskInstanceId)) -> (result:
        Result<VmViewId, DomainConflict>)
        requires
            old(self).wf(),
            old(self)@.families.dom().contains(family.raw) ==> old(self)@.families[family.raw].members
                < usize::MAX,
        ensures
            final(self).wf(),
            match result {
                Ok(id) => id.raw == old(self)@.issued.view + 1 && final(self)@ == view_added(
                    old(self)@,
                    family,
                    owner,
                ),
                Err(error) => final(self)@ == old(self)@ && error == (if !old(self)@.families.dom().contains(
                    family.raw,
                ) {
                    DomainConflict::NotFound
                } else {
                    DomainConflict::IdentityExhausted
                }),
            },
            result is Ok <==> old(self)@.families.dom().contains(family.raw) && old(self)@.issued.view
                < old(self)@.limits.view,
            installs_backed(old(self)@) ==> installs_backed(final(self)@),
    {
        if !self.families.contains(family.raw) {
            return Err(DomainConflict::NotFound);
        }
        let id = match self.view_ids.next() {
            Some(id) => id,
            None => {
                return Err(DomainConflict::IdentityExhausted);
            },
        };
        let record = self.families.get_mut(family.raw);
        record.members = record.members + 1;
        self.views.insert(
            id,
            VmView {
                family,
                owner,
                overlay: ViewOverlay::Installing,
                topology: RangeTable::new(),
                admission: 0,
            },
        );
        proof {
            let before = old(self)@;
            assert(!before.views.dom().contains(id));
            assert(self@.families.dom() =~= before.families.dom());
            assert forall|f: u64| #[trigger] self@.families.dom().contains(f) implies members_of(
                self@.views,
                f,
            ).finite() && members_of(self@.views, f).len() == self@.families[f].members by {
                assert(before.families.dom().contains(f));
                if f == family.raw {
                    assert(members_of(self@.views, f) =~= members_of(before.views, f).insert(id));
                    assert(!members_of(before.views, f).contains(id));
                } else {
                    assert(members_of(self@.views, f) =~= members_of(before.views, f));
                }
            }
            assert(lineage_ok(self@)) by {
                assert forall|f: u64| #[trigger] self@.families.dom().contains(f) implies (
                self@.families[f].parent matches Some(parent) ==> parent.raw < f
                    && self@.families.dom().contains(parent.raw)) by {
                    assert(before.families.dom().contains(f));
                }
            }
        }
        Ok(VmViewId { raw: id })
    }

    /// Flips a freshly registered view straight to active. No change for a view that is past that.
    pub fn activate_view(&mut self, view: VmViewId) -> (result: Result<(), DomainConflict>)
        requires
            old(self).wf(),
        ensures
            final(self).wf(),
            result == (if old(self)@.views.dom().contains(view.raw) {
                Ok(())
            } else {
                Err(DomainConflict::NotFound)
            }),
            final(self)@ == (if result is Ok && old(self)@.views[view.raw].overlay == ViewOverlay::Installing {
                with_overlay(old(self)@, view, ViewOverlay::Active)
            } else {
                old(self)@
            }),
    {
        let overlay = match self.views.get(view.raw) {
            Some(entry) => entry.overlay,
            None => {
                return Err(DomainConflict::NotFound);
            },
        };
        if overlay == ViewOverlay::Installing {
            self.set_overlay(view, ViewOverlay::Active);
        }
        Ok(())
    }

    pub(crate) fn set_overlay(&mut self, view: VmViewId, overlay: ViewOverlay)
        requires
            old(self).wf(),
            old(self)@.views.dom().contains(view.raw),
        ensures
            final(self).wf(),
            final(self)@ == with_overlay(old(self)@, view, overlay),
    {
        let entry = self.views.get_mut(view.raw);
        entry.overlay = overlay;
        proof {
            lemma_same_census(old(self)@.families, old(self)@.views, self@.families, self@.views);
        }
    }

    /// Removes every installed span of a view, freeing those addresses for another view, and marks
    /// the view as retiring. Its identity and logical topology stay.
    pub fn retire_view(&mut self, view: VmViewId) -> (result: Result<(), DomainConflict>)
        requires
            old(self).wf(),
        ensures
            final(self).wf(),
            result == (if old(self)@.views.dom().contains(view.raw) {
                Ok(())
            } else {
                Err(DomainConflict::NotFound)
            }),
            final(self)@ == (if result is Ok {
                with_overlay(
                    view_evicted(old(self)@, view, old(self)@.views[view.raw].family),
                    view,
                    ViewOverlay::Retiring,
                )
            } else {
                old(self)@
            }),
            installs_backed(old(self)@) ==> installs_backed(final(self)@),
    {
        proof {
            if installs_backed(self@) {
                lemma_eviction_keeps_backing(self@, view);
            }
        }
        let family = match self.views.get(view.raw) {
            Some(entry) => entry.family,
            None => {
                return Err(DomainConflict::NotFound);
            },
        };
        proof {
            assert(self@.views.dom().contains(view.raw));
        }
        let maps = self.per_family.get_mut(family.raw);
        maps.evict(view);
        proof {
            assert(self@.families.dom() =~= self@.maps.dom());
        }
        self.set_overlay(view, ViewOverlay::Retiring);
        Ok(())
    }

    /// Removes a view entirely. The family record stays.
    pub fn unregister_view(&mut self, view: VmViewId) -> (result: Result<(), DomainConflict>)
        requires
            old(self).wf(),
        ensures
            final(self).wf(),
            result == (if old(self)@.views.dom().contains(view.raw) {
                Ok(())
            } else {
                Err(DomainConflict::NotFound)
            }),
            final(self)@ == (if result is Ok {
                view_gone(old(self)@, view)
            } else {
                old(self)@
            }),
            installs_backed(old(self)@) ==> installs_backed(final(self)@),
    {
        proof {
            if installs_backed(self@) {
                lemma_eviction_keeps_backing(self@, view);
            }
        }
        let family = match self.views.get(view.raw) {
            Some(entry) => entry.family,
            None => {
                return Err(DomainConflict::NotFound);
            },
        };
        let ghost before = self@;
        proof {
            assert(before.views.dom().contains(view.raw));
            assert(before.families.dom().contains(family.raw));
            assert(members_of(before.views, family.raw).contains(view.raw));
        }
        self.views.remove(view.raw);
        let maps = self.per_family.get_mut(family.raw);
        maps.evict(view);
        let record = self.families.get_mut(family.raw);
        if record.members > 0 {
            record.members = record.members - 1;
        }
        proof {
            assert(before.families[family.raw].members > 0) by {
                if members_of(before.views, family.raw).len() == 0 {
                    assert(members_of(before.views, family.raw) =~= Set::empty());
                }
            }
            assert(self@.families.dom() =~= before.families.dom());
            assert(self@.families.dom() =~= self@.maps.dom());
            assert forall|f: u64| #[trigger] self@.families.dom().contains(f) implies members_of(
                self@.views,
                f,
            ).finite() && members_of(self@.views, f).len() == self@.families[f].members by {
                assert(before.families.dom().contains(f));
                if f == family.raw {
                    assert(members_of(self@.views, f) =~= members_of(before.views, f).remove(view.raw));
                } else {
                    assert(members_of(self@.views, f) =~= members_of(before.views, f));
                }
            }
            assert(lineage_ok(self@)) by {
                assert forall|f: u64| #[trigger] self@.families.dom().contains(f) implies (
                self@.families[f].parent matches Some(parent) ==> parent.raw < f
                    && self@.families.dom().contains(parent.raw)) by {
                    assert(before.families.dom().contains(f));
                }
                assert forall|id: u64| #[trigger] self@.views.dom().contains(id) implies 0 < id
                    <= self@.issued.view && self@.families.dom().contains(self@.views[id].family.raw) by {
                    assert(before.views.dom().contains(id));
                }
            }
        }
        Ok(())
    }

    /// A snapshot of a view's identity and lifecycle state.
    pub fn query_view(&self, view: VmViewId) -> (snapshot: Option<VmViewSnapshot>)
        requires
            self.wf(),
        ensures
            snapshot == view_snapshot(self@, view),
    {
        match self.views.get(view.raw) {
            Some(entry) => Some(
                VmViewSnapshot {
                    id: view,
                    family: entry.family,
                    owner: entry.owner,
                    overlay: entry.overlay,
                },
            ),
            None => None,
        }
    }

    /// A family's current record, if it has been registered.
    pub fn query_family(&self, family: FamilyId) -> (record: Option<FamilyRecord>)
        requires
            self.wf(),
        ensures
            record == (if self@.families.dom().contains(family.raw) {
                Some(self@.families[family.raw])
            } else {
                None
            }),
    {
        match self.families.get(family.raw) {
            Some(record) => Some(*record),
            None => None,
        }
    }

    /// The family that a view is registered under, if it still is.
    pub fn family_of_view(&self, view: VmViewId) -> (family: Option<FamilyId>)
        requires
            self.wf(),
        ensures
            family == family_of(self@, view),
    {
        match self.views.get(view.raw) {
            Some(entry) => Some(entry.family),
            None => None,
        }
    }

    /// The view currently installed at an address within `view`'s own family, if any.
    pub fn lookup_installed_at(&self, view: VmViewId, addr: usize) -> (found: Option<VmViewId>)
        requires
            self.wf(),
        ensures
            found == (match family_of(self@, view) {
                Some(family) => lookup(self@.maps[family.raw].installed, addr as int),
                None => None,
            }),
    {
        match self.views.get(view.raw) {
            Some(entry) => {
                proof {
                    assert(self@.views.dom().contains(view.raw));
                }
                match self.per_family.get(entry.family.raw) {
                    Some(maps) => maps.installed.get(addr),
                    None => None,
                }
            },
            None => None,
        }
    }

    /// Marks a view's family as having replaced its image. No change for an unregistered view.
    pub fn mark_family_exec(&mut self, view: VmViewId)
        requires
            old(self).wf(),
        ensures
            final(self).wf(),
            final(self)@ == (match family_of(old(self)@, view) {
                Some(family) => DomainModel {
                    families: old(self)@.families.insert(
                        family.raw,
                        FamilyRecord { exec_severed: true, ..old(self)@.families[family.raw] },
                    ),
                    ..old(self)@
                },
                None => old(self)@,
            }),
    {
        if let Some(family) = self.family_of_view(view) {
            proof {
                assert(self@.views.dom().contains(view.raw));
            }
            let record = self.families.get_mut(family.raw);
            record.exec_severed = true;
            proof {
                assert(self@.families.dom() =~= old(self)@.families.dom());
                lemma_same_census(old(self)@.families, old(self)@.views, self@.families, self@.views);
                assert(lineage_ok(self@)) by {
                    assert forall|f: u64| #[trigger] self@.families.dom().contains(f) implies (
                    self@.families[f].parent matches Some(parent) ==> parent.raw < f
                        && self@.families.dom().contains(parent.raw)) by {
                        assert(old(self)@.families.dom().contains(f));
                    }
                }
            }
        }
    }
}

/// The family of a registered view.
pub open spec fn family_of(m: DomainModel, view: VmViewId) -> Option<FamilyId> {
    if m.views.dom().contains(view.raw) {
        Some(m.views[view.raw].family)
    } else {
        None
    }
}

/// A registered view's identity and lifecycle state.
pub open spec fn view_snapshot(m: DomainModel, view: VmViewId) -> Option<VmViewSnapshot> {
    if m.views.dom().contains(view.raw) {
        let entry = m.views[view.raw];
        Some(
            VmViewSnapshot {
                id: view,
                family: entry.family,
                owner: entry.owner,
                overlay: entry.overlay,
            },
        )
    } else {
        None
    }
}

} // verus!
