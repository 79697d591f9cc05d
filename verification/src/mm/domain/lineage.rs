//! Who descends from whom, and what a family keeps for its descendants.
use crate::ids::{FamilyId, VmViewId};
use crate::mm::custody::Custody;
use crate::mm::domain::{FamilyMaps, GuestVaDomain};
use vstd::prelude::*;

verus! {

use crate::mm::domain::registry::family_of;
use crate::mm::domain::{lineage_ok, DomainModel, FamilyModel};
use crate::range_map::{covered, lemma_same_lookups, lookup, pieces_of};
use crate::range_table::modelled;

broadcast use {crate::range_map::lemma_lookup_put, crate::range_map::lemma_lookup_cut};

/// A family was forked, directly or through others, from another.
pub open spec fn descends(m: DomainModel, family: u64, ancestor: u64) -> bool
    decreases family,
{
    match m.families[family].parent {
        Some(parent) if parent.raw < family => parent.raw == ancestor || descends(
            m,
            parent.raw,
            ancestor,
        ),
        _ => false,
    }
}

/// Lineage has no cycles: a family descends only from families that were there before it.
pub proof fn lemma_descends_from_older(m: DomainModel, family: u64, ancestor: u64)
    requires
        descends(m, family, ancestor),
    ensures
        ancestor < family,
    decreases family,
{
    let parent = m.families[family].parent->0;
    if parent.raw != ancestor {
        lemma_descends_from_older(m, parent.raw, ancestor);
    }
}

/// Some other family with members descends from a family.
pub open spec fn has_live_descendant(m: DomainModel, ancestor: FamilyId) -> bool {
    exists|family: u64| #[trigger]
        m.families.dom().contains(family) && m.families[family].members > 0 && descends(
            m,
            family,
            ancestor.raw,
        )
}

/// Some other family with members descends from a family and still runs the image it inherited. A
/// family in between that replaced its image does not matter: what was forked from it before
/// inherits the older image.
pub open spec fn has_inheriting_descendant(m: DomainModel, ancestor: FamilyId) -> bool {
    exists|family: u64| #[trigger]
        m.families.dom().contains(family) && m.families[family].members > 0
            && !m.families[family].exec_severed && descends(m, family, ancestor.raw)
}

/// A map with the gaps of a range filled; what it holds already stays.
pub open spec fn filled<M>(map: Map<int, M>, start: int, end: int, value: M) -> Map<int, M> {
    Map::new(
        |k: int| map.dom().contains(k) || start <= k < end,
        |k: int| if map.dom().contains(k) { map[k] } else { value },
    )
}

impl FamilyMaps {
    /// Keeps `custody` for every part of a range that nothing older is kept for.
    pub(crate) fn capture_lineage_snapshot(&mut self, start: usize, end: usize, custody: &Custody)
        requires
            old(self).wf(),
            start < end,
        ensures
            final(self).wf(),
            final(self)@ == (FamilyModel {
                snapshot: filled(old(self)@.snapshot, start as int, end as int, custody@),
                ..old(self)@
            }),
    {
        let kept = self.retired_lineage_snapshot.pieces(start, end);
        let ghost list = modelled(kept@);
        let ghost before = self.retired_lineage_snapshot@;
        let mut cursor: usize = start;
        let mut i: usize = 0;
        while i < kept.len()
            invariant
                i <= kept@.len(),
                list == modelled(kept@),
                before == old(self)@.snapshot,
                pieces_of(list, before, start as int, end as int),
                start <= cursor <= end,
                i > 0 ==> cursor == list[i - 1].1,
                i == 0 ==> cursor == start,
                self.wf(),
                self@ == (FamilyModel { snapshot: self@.snapshot, ..old(self)@ }),
                forall|k: int| #[trigger]
                    lookup(self@.snapshot, k) == (if start <= k < cursor && lookup(before, k) is None {
                        Some(custody@)
                    } else {
                        lookup(before, k)
                    }),
            decreases kept@.len() - i,
        {
            let (s, e) = (kept[i].0, kept[i].1);
            let ghost middle = self@.snapshot;
            let ghost from = cursor as int;
            proof {
                assert(list[i as int].0 == s && list[i as int].1 == e);
                if i > 0 {
                    assert(list[i - 1].1 <= list[i as int].0);
                }
            }
            if cursor < s {
                self.retired_lineage_snapshot.insert(cursor, s, custody);
            }
            cursor = e;
            proof {
                assert forall|k: int| #[trigger]
                    lookup(self@.snapshot, k) == (if start <= k < cursor && lookup(before, k) is None {
                        Some(custody@)
                    } else {
                        lookup(before, k)
                    }) by {
                    assert(lookup(middle, k) == lookup(middle, k));
                    if from <= k < s && lookup(before, k) is Some {
                        assert(covered(list, k));
                        let j = choose|j: int|
                            0 <= j < list.len() && (#[trigger] list[j]).0 <= k < list[j].1;
                        if j < i {
                            if j < i - 1 {
                                assert(list[j].1 <= list[i - 1].0);
                            }
                        } else if j > i {
                            assert(list[i as int].1 <= list[j].0);
                        }
                        assert(false);
                    }
                    if s <= k < e {
                        assert(lookup(before, k) == Some(list[i as int].2));
                    }
                }
            }
            i += 1;
        }
        let ghost middle = self@.snapshot;
        if cursor < end {
            self.retired_lineage_snapshot.insert(cursor, end, custody);
        }
        proof {
            let goal = filled(before, start as int, end as int, custody@);
            assert forall|k: int| #[trigger] lookup(self@.snapshot, k) == lookup(goal, k) by {
                assert(lookup(middle, k) == lookup(middle, k));
                assert(lookup(goal, k) == (if lookup(before, k) is Some {
                    lookup(before, k)
                } else if start <= k < end {
                    Some(custody@)
                } else {
                    None
                }));
                if cursor <= k < end && lookup(before, k) is Some {
                    assert(covered(list, k));
                    let j = choose|j: int| 0 <= j < list.len() && (#[trigger] list[j]).0 <= k < list[j].1;
                    if j < i - 1 {
                        assert(list[j].1 <= list[i - 1].0);
                    }
                    assert(false);
                }
            }
            lemma_same_lookups(self@.snapshot, goal);
        }
    }
}

impl GuestVaDomain {
    /// Whether a family was forked, directly or through others, from another.
    fn is_descendant(&self, family: FamilyId, ancestor: FamilyId) -> (yes: bool)
        requires
            self.wf(),
            self@.families.dom().contains(family.raw),
        ensures
            yes == descends(self@, family.raw, ancestor.raw),
    {
        let mut at = family;
        loop
            invariant
                self.wf(),
                lineage_ok(self@),
                self@.families.dom().contains(at.raw),
                descends(self@, family.raw, ancestor.raw) == descends(self@, at.raw, ancestor.raw),
            decreases at.raw,
        {
            match self.family_parent(at) {
                Some(parent) => {
                    if parent == ancestor {
                        return true;
                    }
                    at = parent;
                },
                None => {
                    return false;
                },
            }
        }
    }

    /// Whether some other, live family descends from a family.
    pub(crate) fn family_has_live_descendant(&self, ancestor: FamilyId) -> (yes: bool)
        requires
            self.wf(),
        ensures
            yes == has_live_descendant(self@, ancestor),
    {
        let n: usize = self.families.len();
        let mut i: usize = 0;
        while i < n
            invariant
                self.wf(),
                n == self.families.order().len(),
                i <= n,
                forall|j: int|
                    0 <= j < i ==> !(self@.families[#[trigger] self.families.order()[j]].members > 0
                        && descends(self@, self.families.order()[j], ancestor.raw)),
            decreases n - i,
        {
            let id = self.families.id_at(i);
            if let Some(record) = self.families.get(id) {
                if record.members > 0 && self.is_descendant(FamilyId { raw: id }, ancestor) {
                    proof {
                        assert(self@.families.dom().contains(id));
                    }
                    return true;
                }
            }
            i += 1;
        }
        proof {
            self.families.lemma_order();
            assert forall|family: u64| #[trigger] self@.families.dom().contains(family) implies !(
            self@.families[family].members > 0 && descends(self@, family, ancestor.raw)) by {
                assert(self.families.order().contains(family));
                let j = choose|j: int|
                    0 <= j < self.families.order().len() && self.families.order()[j] == family;
                assert(self.families.order()[j] == family);
            }
        }
        false
    }

    /// Whether some other, live family descends from a view's own. `false` for an unregistered
    /// view.
    pub fn family_has_live_descendant_of(&self, view: VmViewId) -> (yes: bool)
        requires
            self.wf(),
        ensures
            yes == (match family_of(self@, view) {
                Some(family) => has_live_descendant(self@, family),
                None => false,
            }),
    {
        match self.family_of_view(view) {
            Some(family) => self.family_has_live_descendant(family),
            None => false,
        }
    }

    /// Whether some other, live family descends from a view's own and still inherits its pages.
    /// `false` for an unregistered view.
    pub fn family_has_live_inheriting_descendant_of(&self, view: VmViewId) -> (yes: bool)
        requires
            self.wf(),
        ensures
            yes == (match family_of(self@, view) {
                Some(family) => has_inheriting_descendant(self@, family),
                None => false,
            }),
    {
        match self.family_of_view(view) {
            Some(family) => self.family_has_live_inheriting_descendant(family),
            None => false,
        }
    }

    /// Whether some other, live family descends from a family and still inherits its pages.
    pub fn family_has_live_inheriting_descendant(&self, ancestor: FamilyId) -> (yes: bool)
        requires
            self.wf(),
        ensures
            yes == has_inheriting_descendant(self@, ancestor),
    {
        let n: usize = self.families.len();
        let mut i: usize = 0;
        while i < n
            invariant
                self.wf(),
                n == self.families.order().len(),
                i <= n,
                forall|j: int|
                    0 <= j < i ==> !(self@.families[#[trigger] self.families.order()[j]].members > 0
                        && !self@.families[self.families.order()[j]].exec_severed && descends(
                        self@,
                        self.families.order()[j],
                        ancestor.raw,
                    )),
            decreases n - i,
        {
            let id = self.families.id_at(i);
            if let Some(record) = self.families.get(id) {
                if record.members > 0 && !record.exec_severed && self.is_descendant(
                    FamilyId { raw: id },
                    ancestor,
                ) {
                    proof {
                        assert(self@.families.dom().contains(id));
                    }
                    return true;
                }
            }
            i += 1;
        }
        proof {
            self.families.lemma_order();
            assert forall|family: u64| #[trigger] self@.families.dom().contains(family) implies !(
            self@.families[family].members > 0 && !self@.families[family].exec_severed && descends(
                self@,
                family,
                ancestor.raw,
            )) by {
                assert(self.families.order().contains(family));
                let j = choose|j: int|
                    0 <= j < self.families.order().len() && self.families.order()[j] == family;
                assert(self.families.order()[j] == family);
            }
        }
        false
    }

    /// Every registered view of a family that descends from `ancestor`, once each, in no
    /// particular order.
    pub fn live_descendant_views_of_family(&self, ancestor: FamilyId) -> (views: Vec<VmViewId>)
        requires
            self.wf(),
        ensures
            views@.no_duplicates(),
            forall|view: VmViewId| #[trigger]
                views@.contains(view) <==> self@.views.dom().contains(view.raw) && descends(
                    self@,
                    self@.views[view.raw].family.raw,
                    ancestor.raw,
                ),
    {
        let mut views: Vec<VmViewId> = Vec::new();
        let n: usize = self.views.len();
        let mut i: usize = 0;
        proof {
            self.views.lemma_order();
        }
        while i < n
            invariant
                self.wf(),
                lineage_ok(self@),
                n == self.views.order().len(),
                i <= n,
                self.views.order().no_duplicates(),
                views@.no_duplicates(),
                forall|view: VmViewId| #[trigger]
                    views@.contains(view) <==> (exists|j: int|
                        0 <= j < i && #[trigger] self.views.order()[j] == view.raw) && descends(
                        self@,
                        self@.views[view.raw].family.raw,
                        ancestor.raw,
                    ),
            decreases n - i,
        {
            let id = self.views.id_at(i);
            let ghost before = views@;
            proof {
                assert(self@.views.dom().contains(id));
            }
            if let Some(entry) = self.views.get(id) {
                if self.is_descendant(entry.family, ancestor) {
                    proof {
                        if views@.contains(VmViewId { raw: id }) {
                            let j = choose|j: int| 0 <= j < i && #[trigger] self.views.order()[j] == id;
                            assert(self.views.order()[j] == self.views.order()[i as int]);
                        }
                    }
                    views.push(VmViewId { raw: id });
                    proof {
                        assert(views@.last() == (VmViewId { raw: id }));
                    }
                }
            }
            proof {
                assert forall|view: VmViewId| #[trigger] views@.contains(view) <==> (exists|j: int|
                    0 <= j < i + 1 && #[trigger] self.views.order()[j] == view.raw) && descends(
                    self@,
                    self@.views[view.raw].family.raw,
                    ancestor.raw,
                ) by {
                    assert(before.contains(view) <==> (exists|j: int|
                        0 <= j < i && #[trigger] self.views.order()[j] == view.raw) && descends(
                        self@,
                        self@.views[view.raw].family.raw,
                        ancestor.raw,
                    ));
                    if before.contains(view) {
                        let p = choose|p: int| 0 <= p < before.len() && before[p] == view;
                        assert(views@[p] == view);
                    }
                    if view.raw == id {
                        assert(self.views.order()[i as int] == id);
                        if views@.len() > before.len() {
                            assert(views@[before.len() as int] == view);
                        }
                    }
                    if views@.contains(view) {
                        let p = choose|p: int| 0 <= p < views@.len() && views@[p] == view;
                        if p < before.len() {
                            assert(before[p] == view);
                        }
                    }
                }
            }
            i += 1;
        }
        proof {
            assert forall|view: VmViewId| #[trigger] views@.contains(view) <==> self@.views.dom().contains(
                view.raw,
            ) && descends(self@, self@.views[view.raw].family.raw, ancestor.raw) by {
                assert(self.views.order().contains(view.raw) <==> self.views@.dom().contains(view.raw));
                if self.views.order().contains(view.raw) {
                    let j = choose|j: int|
                        0 <= j < self.views.order().len() && self.views.order()[j] == view.raw;
                    assert(self.views.order()[j] == view.raw);
                }
            }
        }
        views
    }
}

} // verus!
