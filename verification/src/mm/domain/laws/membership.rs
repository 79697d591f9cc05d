//! What registering, draining and poisoning do to families and views.
use crate::ids::{FailureId, FamilyId, ProcessInstanceId, TaskInstanceId, VmViewId};
use crate::mm::domain::{DomainConflict, PoisonObligation, ViewOverlay};
use vstd::prelude::*;

verus! {

use crate::mm::domain::admission::{drain_begun, lease_acquired, lease_released, LeaseModel};
use crate::mm::domain::foreign::foreign_at;
use crate::mm::domain::lineage::{descends, filled, has_inheriting_descendant};
use crate::mm::domain::poison::{all_poisoned, failures_of, family_poisoned, family_quarantined};
use crate::mm::domain::registry::{family_added, view_added, view_evicted, view_gone, with_overlay};
use crate::mm::domain::{lineage_ok, DomainModel};
use crate::range_map::lookup;

/// A new family has the next identity, which nothing had before, the parent that it was given, no member, no
/// poison, and tables that say nothing. No other family and no view changes.
pub proof fn lemma_new_family_is_blank(m: DomainModel, parent: Option<FamilyId>, other: u64)
    requires
        lineage_ok(m),
        m.issued.family < u64::MAX,
    ensures
        ({
            let after = family_added(m, parent);
            let id = after.issued.family;
            &&& id == m.issued.family + 1
            &&& !m.families.dom().contains(id)
            &&& after.families.dom().contains(id)
            &&& after.families[id].parent == parent
            &&& after.families[id].members == 0
            &&& after.families[id].lease_survivors == 0
            &&& !after.families[id].poisoned
            &&& !after.families[id].quarantined
            &&& !after.families[id].exec_severed
            &&& forall|k: int|
                (#[trigger] lookup(after.maps[id].custody, k)) is None && lookup(
                    after.maps[id].installed,
                    k,
                ) is None && lookup(after.maps[id].snapshot, k) is None
            &&& other != id ==> after.families.dom().contains(other) == m.families.dom().contains(other)
                && after.families[other] == m.families[other] && after.maps[other] == m.maps[other]
            &&& after.views == m.views
            &&& after.blocked == m.blocked
        }),
{
    let id = (m.issued.family + 1) as u64;
    assert(!m.families.dom().contains(id));
}

/// A new view has an identity that no view had before, belongs to the family and the owner it was
/// registered for, and is one more member of the family. It holds no lease, and cannot get one before it
/// is active. Unregistering it again leaves every view and every family as they were.
pub proof fn lemma_new_view_is_one_more_member(
    m: DomainModel,
    family: FamilyId,
    owner: (ProcessInstanceId, TaskInstanceId),
    other: u64,
)
    requires
        lineage_ok(m),
        m.families.dom().contains(family.raw),
        m.families[family.raw].members < usize::MAX,
        m.issued.view < u64::MAX,
    ensures
        ({
            let after = view_added(m, family, owner);
            let id = VmViewId { raw: after.issued.view };
            let gone = view_gone(after, id);
            &&& !m.views.dom().contains(id.raw)
            &&& after.views.dom().contains(id.raw)
            &&& after.views[id.raw].family == family
            &&& after.views[id.raw].owner == owner
            &&& after.families[family.raw].members == m.families[family.raw].members + 1
            &&& lease_acquired(after, id).1 == Err::<LeaseModel, DomainConflict>(
                DomainConflict::NotInstalled,
            )
            &&& lease_acquired(with_overlay(after, id, ViewOverlay::Active), id).1 is Ok
            &&& other != id.raw ==> after.views.dom().contains(other) == m.views.dom().contains(other)
                && after.views[other] == m.views[other]
            &&& other != family.raw ==> after.families[other] == m.families[other]
            &&& gone.views == m.views
            &&& gone.families == m.families
        }),
{
    let after = view_added(m, family, owner);
    let id = VmViewId { raw: after.issued.view };
    let gone = view_gone(after, id);
    assert(!m.views.dom().contains(id.raw));
    assert(0u64 & 3 == 0) by (bit_vector);
    assert(gone.views =~= m.views);
    assert(gone.families =~= m.families);
}

/// A view that is taken out of the installed set is installed nowhere any more, and whatever another view
/// has installed stays. A view that is gone is no view any more, and its family has one member less.
pub proof fn lemma_eviction_takes_one_view(m: DomainModel, view: VmViewId, k: int)
    requires
        m.views.dom().contains(view.raw),
        m.families[m.views[view.raw].family.raw].members > 0,
    ensures
        ({
            let family = m.views[view.raw].family;
            let before = m.maps[family.raw];
            let after = view_evicted(m, view, family);
            let gone = view_gone(m, view);
            &&& lookup(after.maps[family.raw].installed, k) == (match lookup(before.installed, k) {
                Some(holder) if holder != view => Some(holder),
                _ => None,
            })
            &&& after.maps[family.raw].custody == before.custody
            &&& gone.maps == after.maps
            &&& !gone.views.dom().contains(view.raw)
            &&& gone.families[family.raw].members == m.families[family.raw].members - 1
            &&& forall|id: u64|
                id != view.raw ==> gone.views.dom().contains(id) == #[trigger] m.views.dom().contains(id)
                    && gone.views[id] == m.views[id]
            &&& forall|id: u64|
                id != family.raw ==> gone.families[id] == #[trigger] m.families[id] && gone.maps[id]
                    == m.maps[id]
        }),
{
}

/// A lease is granted exactly to a registered view that is active and whose admission word has its two
/// low bits clear; the refusal tells which of these fails. A grant adds one to the count above bit 33 of
/// the word and to the count of the family, and changes nothing else; a refusal changes nothing.
pub proof fn lemma_lease_is_admitted(m: DomainModel, view: VmViewId, other: u64)
    requires
        m.views.dom().contains(view.raw) ==> (m.views[view.raw].admission >> 34) < 0x3fff_ffff
            && m.families[m.views[view.raw].family.raw].lease_survivors < usize::MAX,
    ensures
        ({
            let (after, answer) = lease_acquired(m, view);
            let word = m.views[view.raw].admission;
            &&& answer is Ok <==> m.views.dom().contains(view.raw) && m.views[view.raw].overlay
                == ViewOverlay::Active && word & 3 == 0
            &&& answer matches Err(error) ==> after == m && error == (if !m.views.dom().contains(view.raw) {
                DomainConflict::NotFound
            } else if m.views[view.raw].overlay != ViewOverlay::Active {
                DomainConflict::NotInstalled
            } else {
                DomainConflict::Draining
            })
            &&& answer matches Ok(lease) ==> {
                let family = m.views[view.raw].family;
                let now = after.views[view.raw].admission;
                &&& lease.view == view
                &&& lease.family == family
                &&& now & 3 == 0
                &&& (now >> 2) & 0xffff_ffff == (word >> 2) & 0xffff_ffff
                &&& now >> 34 == (word >> 34) + 1
                &&& after.families[family.raw].lease_survivors == m.families[family.raw].lease_survivors
                    + 1
                &&& other != view.raw ==> after.views[other] == m.views[other]
                &&& other != family.raw ==> after.families[other] == m.families[other]
                &&& after.maps == m.maps
            }
        }),
{
    if m.views.dom().contains(view.raw) {
        let word: u64 = m.views[view.raw].admission;
        let (generation, count): (u64, u64) = ((word >> 2) & 0xffff_ffff, word >> 34);
        let more: u64 = (count + 1) as u64;
        let now: u64 = 0u64 | (generation << 2) | (more << 34);
        assert(generation <= 0xffff_ffff && word & 3 <= 3 && now & 3 == 0 && (now >> 2) & 0xffff_ffff == generation && now >> 34 == more) by (bit_vector)
            requires
                now == 0u64 | (generation << 2) | (more << 34),
                generation == (word >> 2) & 0xffff_ffff,
                more <= 0x3fff_ffff,
        ;
    }
}

/// A drain begins exactly for a registered view whose admission word has its two low bits clear and whose
/// generation can still be raised. It sets the low bit and raises the generation by one, which is what it
/// answers, and leaves the count of leases; a refusal changes nothing.
pub proof fn lemma_drain_is_begun(m: DomainModel, view: VmViewId, other: u64)
    ensures
        ({
            let (after, answer) = drain_begun(m, view);
            let word = m.views[view.raw].admission;
            &&& answer is Ok <==> m.views.dom().contains(view.raw) && word & 3 == 0 && (word >> 2)
                & 0xffff_ffff != 0xffff_ffff
            &&& answer is Err ==> after == m
            &&& answer == Err::<u32, DomainConflict>(DomainConflict::NotFound) <==> !m.views.dom().contains(
                view.raw,
            )
            &&& answer matches Ok(generation) ==> {
                let now = after.views[view.raw].admission;
                &&& now & 3 == 1
                &&& generation == ((word >> 2) & 0xffff_ffff) + 1
                &&& (now >> 2) & 0xffff_ffff == generation
                &&& now >> 34 == word >> 34
                &&& other != view.raw ==> after.views[other] == m.views[other]
                &&& after.families == m.families
            }
        }),
{
    if m.views.dom().contains(view.raw) {
        let word: u64 = m.views[view.raw].admission;
        let (generation, count): (u64, u64) = ((word >> 2) & 0xffff_ffff, word >> 34);
        assert(generation <= 0xffff_ffff && word & 3 <= 3 && count <= 0x3fff_ffff) by (bit_vector)
            requires
                generation == (word >> 2) & 0xffff_ffff,
                count == word >> 34,
        ;
        if generation < 0xffff_ffff {
            let next: u64 = (generation + 1) as u64;
            let now: u64 = 1u64 | (next << 2) | (count << 34);
            assert(now & 3 == 1 && (now >> 2) & 0xffff_ffff == next && now >> 34 == count) by (bit_vector)
                requires
                    now == 1u64 | (next << 2) | (count << 34),
                    next <= 0xffff_ffff,
                    count <= 0x3fff_ffff,
            ;
        }
    }
}

/// Poisoning or quarantining a family marks its record and every one of its views and nothing else; none
/// of these views is granted a lease any more.
pub proof fn lemma_poison_stops_a_family(m: DomainModel, family: FamilyId, view: VmViewId, other: u64)
    requires
        m.views.dom().contains(view.raw),
    ensures
        ({
            let (poisoned, shut) = (family_poisoned(m, family), family_quarantined(m, family));
            &&& poisoned.families[family.raw].poisoned
            &&& shut.families[family.raw].quarantined
            &&& m.views[view.raw].family == family ==> {
                &&& poisoned.views[view.raw].overlay == ViewOverlay::Poisoned
                &&& shut.views[view.raw].overlay == ViewOverlay::Quarantined
                &&& lease_acquired(poisoned, view).1 is Err
                &&& lease_acquired(shut, view).1 is Err
            }
            &&& m.views[view.raw].family != family ==> poisoned.views[view.raw] == m.views[view.raw]
                && shut.views[view.raw] == m.views[view.raw]
            &&& other != family.raw ==> poisoned.families[other] == m.families[other]
                && shut.families[other] == m.families[other]
            &&& poisoned.maps == m.maps
            &&& shut.maps == m.maps
        }),
{
}

/// Poisoning everything marks every family and every view, and records the failure last for each family;
/// what was recorded before stays before it.
pub proof fn lemma_poison_can_stop_everything(
    m: DomainModel,
    obligation: PoisonObligation,
    family: u64,
    view: VmViewId,
)
    requires
        m.families.dom().contains(family),
        m.views.dom().contains(view.raw),
    ensures
        ({
            let after = all_poisoned(m, obligation);
            &&& after.families[family].poisoned
            &&& after.views[view.raw].overlay == ViewOverlay::Poisoned
            &&& lease_acquired(after, view).1 is Err
            &&& after.obligations.dom().contains(obligation.failure.raw)
            &&& after.obligations[obligation.failure.raw] == obligation
            &&& after.obligation_index[family].last() == obligation.failure
            &&& after.obligation_index[family].drop_last() == (if m.obligation_index.dom().contains(family) {
                m.obligation_index[family]
            } else {
                Seq::<FailureId>::empty()
            })
            &&& after.maps == m.maps
        }),
{
    let after = all_poisoned(m, obligation);
    assert(after.obligation_index[family].drop_last() =~= failures_of(m, family));
}

/// Descent goes from parent to parent: a family descends from its parent and from whatever its parent
/// descends from, and from nothing else.
pub proof fn lemma_descent_follows_parents(m: DomainModel, family: u64, ancestor: u64)
    requires
        lineage_ok(m),
        m.families.dom().contains(family),
    ensures
        descends(m, family, ancestor) <==> (m.families[family].parent matches Some(parent) && (parent.raw
            == ancestor || descends(m, parent.raw, ancestor))),
{
}

/// What a family still owes its descendants ends with them: once no family with members that still runs
/// the image it inherited descends from it, nobody inherits from it.
pub proof fn lemma_inheritance_ends(m: DomainModel, ancestor: FamilyId, heir: u64)
    ensures
        m.families.dom().contains(heir) && m.families[heir].members > 0 && !m.families[heir].exec_severed
            && descends(m, heir, ancestor.raw) ==> has_inheriting_descendant(m, ancestor),
        (forall|family: u64| #[trigger]
            m.families.dom().contains(family) ==> m.families[family].members == 0
                || m.families[family].exec_severed || !descends(m, family, ancestor.raw))
            ==> !has_inheriting_descendant(m, ancestor),
{
}

/// Filling the gaps of a range keeps what is there.
pub proof fn lemma_filling_keeps<M>(map: Map<int, M>, start: int, end: int, value: M, k: int)
    ensures
        lookup(map, k) is Some ==> lookup(filled(map, start, end, value), k) == lookup(map, k),
        lookup(map, k) is None && start <= k < end ==> lookup(filled(map, start, end, value), k) == Some(
            value,
        ),
        lookup(map, k) is None && !(start <= k < end) ==> lookup(filled(map, start, end, value), k) is None,
{
}

/// What a family holds itself is not foreign to it, and what only families without a member hold is foreign
/// to nobody: an address is foreign exactly if another family, with a member, has real pages there, be they
/// about to retire.
pub proof fn lemma_own_pages_are_not_foreign(m: DomainModel, own: u64, k: int)
    ensures
        (forall|family: u64| #[trigger]
            m.maps.dom().contains(family) && family != own ==> m.families[family].members == 0 || lookup(
                m.maps[family].custody,
                k,
            ) is None) ==> !foreign_at(m, own, k),
        foreign_at(m, own, k) <==> exists|family: u64| #[trigger]
            m.maps.dom().contains(family) && family != own && m.families[family].members > 0 && (lookup(
                m.maps[family].custody,
                k,
            ) matches Some(custody) && (custody is Present || custody is Retiring)),
{
}

/// Giving a lease back undoes what granting it did: the count above bit 33 of the view's word and the count
/// of the family are each one less, and nothing else changes. A lease whose view is gone still counts
/// for its family.
pub proof fn lemma_lease_is_given_back(m: DomainModel, lease: LeaseModel, other: u64)
    requires
        m.families.dom().contains(lease.family.raw),
        m.families[lease.family.raw].lease_survivors > 0,
        m.views.dom().contains(lease.view.raw) ==> m.views[lease.view.raw].admission >> 34 > 0
            && m.views[lease.view.raw].admission & 3 != 3,
    ensures
        ({
            let after = lease_released(m, lease);
            let word = m.views[lease.view.raw].admission;
            let now = after.views[lease.view.raw].admission;
            &&& after.families[lease.family.raw].lease_survivors == m.families[lease.family.raw].lease_survivors
                - 1
            &&& m.views.dom().contains(lease.view.raw) ==> {
                &&& now >> 34 == (word >> 34) - 1
                &&& now & 3 == word & 3
                &&& (now >> 2) & 0xffff_ffff == (word >> 2) & 0xffff_ffff
            }
            &&& !m.views.dom().contains(lease.view.raw) ==> after.views == m.views
            &&& other != lease.view.raw ==> after.views[other] == m.views[other]
            &&& other != lease.family.raw ==> after.families[other] == m.families[other]
            &&& after.maps == m.maps
        }),
{
    if m.views.dom().contains(lease.view.raw) {
        let word: u64 = m.views[lease.view.raw].admission;
        let (generation, count, state): (u64, u64, u64) = ((word >> 2) & 0xffff_ffff, word >> 34, word & 3);
        let less: u64 = (count - 1) as u64;
        let now: u64 = state | (generation << 2) | (less << 34);
        assert(generation <= 0xffff_ffff && state <= 3 && count <= 0x3fff_ffff && (less < count ==> now & 3
            == state && (now >> 2) & 0xffff_ffff == generation && now >> 34 == less)) by (bit_vector)
            requires
                now == state | (generation << 2) | (less << 34),
                generation == (word >> 2) & 0xffff_ffff,
                count == word >> 34,
                state == word & 3,
        ;
    }
}

} // verus!
