//! The guest-address domain: families, views, custody, tokens, leases and poison.
use litebox::ids::{
    FailureId, FamilyId, MutationId, ProcessInstanceId, TaskInstanceId, VmViewId,
};
use litebox::mm::custody::{BlockOrigin, Custody};
use litebox::mm::domain::{
    AdmissionState, ClaimHostError, DomainBlocked, DomainConflict, DomainIds, GuestVaDomain, ObligationRollback,
    PoisonObligation, TerminalScope, ViewOverlay, VmViewSnapshot,
};

fn owner(n: u64) -> (ProcessInstanceId, TaskInstanceId) {
    (ProcessInstanceId { raw: n }, TaskInstanceId { raw: n })
}

fn domain() -> GuestVaDomain {
    let mut ids = DomainIds::new();
    GuestVaDomain::new(&mut ids, 0x1000..0x100000, vec![DomainBlocked(0x8000..0x9000)])
}

fn family_with_view(domain: &mut GuestVaDomain, n: u64) -> (FamilyId, VmViewId) {
    let family = domain.register_family().unwrap();
    let view = domain.register_view(family, owner(n)).unwrap();
    (family, view)
}

fn is_present_for(custody: &Custody, expected: VmViewId) -> bool {
    matches!(custody, Custody::Present { view, .. } if *view == expected)
}

fn is_unclaimed(custody: &Custody) -> bool {
    matches!(custody, Custody::Unclaimed)
}

#[test]
fn new_domain_reports_what_it_was_made_with() {
    let mut ids = DomainIds::new();
    let first = GuestVaDomain::new(&mut ids, 0x1000..0x2000, Vec::new());
    let second = GuestVaDomain::new(&mut ids, 0x3000..0x4000, vec![DomainBlocked(0x3000..0x3100)]);
    assert_eq!((first.id().raw, second.id().raw), (1, 2));
    assert_eq!(second.aperture(), 0x3000..0x4000);
    assert_eq!(second.blocked(), &vec![DomainBlocked(0x3000..0x3100)]);
    assert_eq!(first.untracked_present_events(), 0);
}

#[test]
fn families_count_their_views() {
    let mut domain = domain();
    let (family, view) = family_with_view(&mut domain, 1);
    let second = domain.register_view(family, owner(2)).unwrap();
    assert_eq!(domain.query_family(family).unwrap().members, 2);
    assert_eq!(domain.family_of_view(view), Some(family));
    domain.unregister_view(second).unwrap();
    assert_eq!(domain.query_family(family).unwrap().members, 1);
    assert_eq!(domain.unregister_view(second), Err(DomainConflict::NotFound));
    assert_eq!(
        domain.register_view(FamilyId { raw: 99 }, owner(1)),
        Err(DomainConflict::NotFound)
    );
    assert!(domain.query_view(second).is_none());
    assert_eq!(domain.query_view(view).unwrap().overlay, ViewOverlay::Installing);
}

#[test]
fn forked_family_names_its_parent() {
    let mut domain = domain();
    let (parent, _) = family_with_view(&mut domain, 1);
    let child = domain.register_family_from(parent).unwrap();
    assert_eq!(domain.family_parent(child), Some(parent));
    assert_eq!(domain.family_parent(parent), None);
    assert_eq!(
        domain.register_family_from(FamilyId { raw: 99 }),
        Err(DomainConflict::NotFound)
    );
}

#[test]
fn published_span_is_installed_and_present() {
    let mut domain = domain();
    let (_, view) = family_with_view(&mut domain, 1);
    let mutation = domain.publish_present(view, 0x2000..0x4000).unwrap();
    assert_eq!(mutation, MutationId { raw: 1 });
    assert_eq!(domain.lookup_installed_at(view, 0x3fff), Some(view));
    assert_eq!(domain.lookup_installed_at(view, 0x4000), None);
    assert!(is_present_for(&domain.custody_at(view, 0x2000), view));
    assert!(is_unclaimed(&domain.custody_at(view, 0x4000)));
    assert_eq!(domain.query_view(view).unwrap().overlay, ViewOverlay::Active);
}

#[test]
fn publish_refuses_what_it_must() {
    let mut domain = domain();
    let (family, view) = family_with_view(&mut domain, 1);
    let other = domain.register_view(family, owner(2)).unwrap();
    assert_eq!(domain.publish_present(view, 0x2000..0x2000), Err(DomainConflict::OutsideAperture));
    assert_eq!(domain.publish_present(view, 0x0..0x2000), Err(DomainConflict::OutsideAperture));
    assert_eq!(domain.publish_present(view, 0xff000..0x101000), Err(DomainConflict::OutsideAperture));
    assert_eq!(domain.publish_present(view, 0x7000..0x8001), Err(DomainConflict::Blocked));
    assert_eq!(
        domain.publish_present(VmViewId { raw: 99 }, 0x2000..0x3000),
        Err(DomainConflict::NotFound)
    );
    domain.publish_present(view, 0x2000..0x3000).unwrap();
    assert_eq!(
        domain.publish_present(other, 0x2800..0x3800),
        Err(DomainConflict::InstalledOverlap(view))
    );
    assert_eq!(domain.lookup_installed_at(other, 0x2800), Some(view));
}

#[test]
fn families_do_not_see_each_other() {
    let mut domain = domain();
    let (_, a) = family_with_view(&mut domain, 1);
    let (_, b) = family_with_view(&mut domain, 2);
    domain.publish_present(a, 0x2000..0x3000).unwrap();
    domain.publish_present(b, 0x2000..0x3000).unwrap();
    assert!(is_present_for(&domain.custody_at(a, 0x2000), a));
    assert!(is_present_for(&domain.custody_at(b, 0x2000), b));
    domain.retire_to_owned_hole(a, 0x2000..0x3000, |_| Ok(())).unwrap();
    assert!(matches!(domain.custody_at(a, 0x2000), Custody::Hole { .. }));
    assert!(is_present_for(&domain.custody_at(b, 0x2000), b));
}

#[test]
fn reservations_are_shared_within_a_family() {
    let mut domain = domain();
    let (family, a) = family_with_view(&mut domain, 1);
    let b = domain.register_view(family, owner(2)).unwrap();
    domain.publish_reserved(a, 0x2000..0x3000).unwrap();
    domain.publish_reserved(b, 0x2000..0x3000).unwrap();
    domain.publish_reserved(b, 0x2000..0x3000).unwrap();
    match domain.custody_at(a, 0x2fff) {
        Custody::Reserved { views } => assert_eq!(views, vec![a, b]),
        _ => panic!("the range is reserved"),
    }
    assert_eq!(domain.lookup_installed_at(a, 0x2000), None);
}

#[test]
fn reservation_gives_way_to_real_pages() {
    let mut domain = domain();
    let (_, view) = family_with_view(&mut domain, 1);
    domain.publish_present(view, 0x2000..0x3000).unwrap();
    domain.publish_reserved(view, 0x2000..0x3000).unwrap();
    assert!(is_present_for(&domain.custody_at(view, 0x2000), view));
}

#[test]
fn claim_then_release_leaves_nothing_behind() {
    let mut domain = domain();
    let (_, view) = family_with_view(&mut domain, 1);
    let token = domain.claim_hole(view, 0x2000..0x3000, |_| Ok(())).unwrap();
    assert_eq!(token.range(), 0x2000..0x3000);
    assert!(matches!(domain.custody_at(view, 0x2000), Custody::Hole { .. }));
    domain.release_hole(token, |_| Ok(())).unwrap();
    assert!(is_unclaimed(&domain.custody_at(view, 0x2000)));
}

#[test]
fn claim_marks_its_range_while_the_host_is_asked() {
    let mut domain = domain();
    let (_, view) = family_with_view(&mut domain, 1);
    let claim = domain.begin_claim(view, 0x2000..0x3000).unwrap();
    assert!(matches!(domain.custody_at(view, 0x2000), Custody::Installing { .. }));
    assert!(matches!(domain.begin_claim(view, 0x2800..0x3000), Err(DomainConflict::Occupied)));
    let token = domain.finish_claim(claim, Ok(())).unwrap();
    assert_eq!(token.range(), 0x2000..0x3000);
}

#[test]
fn refused_claim_is_rolled_back() {
    let mut domain = domain();
    let (_, view) = family_with_view(&mut domain, 1);
    assert_eq!(
        domain.claim_hole(view, 0x2000..0x3000, |_| Err(ClaimHostError::Other)).unwrap_err(),
        DomainConflict::Occupied
    );
    assert!(is_unclaimed(&domain.custody_at(view, 0x2000)));
    assert!(domain.claim_hole(view, 0x2000..0x3000, |_| Ok(())).is_ok());
}

#[test]
fn foreign_host_range_is_blocked_for_everybody() {
    let mut domain = domain();
    let (_, a) = family_with_view(&mut domain, 1);
    let (_, b) = family_with_view(&mut domain, 2);
    assert_eq!(
        domain.claim_hole(a, 0x2000..0x3000, |_| Err(ClaimHostError::ForeignHost)).unwrap_err(),
        DomainConflict::Blocked
    );
    assert!(matches!(
        domain.custody_at(b, 0x2500),
        Custody::DomainBlocked(BlockOrigin::ForeignHost)
    ));
    let asked = std::cell::Cell::new(false);
    let again = domain.claim_hole(b, 0x2000..0x3000, |_| {
        asked.set(true);
        Ok(())
    });
    assert_eq!(again.unwrap_err(), DomainConflict::Blocked);
    assert!(!asked.get());
    assert_eq!(
        domain.claim_hole(b, 0x2000..0x4000, |_| Ok(())).unwrap_err(),
        DomainConflict::Occupied
    );
}

#[test]
fn token_is_spent_by_an_install() {
    let mut domain = domain();
    let (_, view) = family_with_view(&mut domain, 1);
    let token = domain.claim_hole(view, 0x2000..0x3000, |_| Ok(())).unwrap();
    let spent = token.clone();
    domain.install_into_owned_hole(token, view, |_| Ok(())).unwrap();
    assert!(is_present_for(&domain.custody_at(view, 0x2000), view));
    assert_eq!(
        domain.install_into_owned_hole(spent.clone(), view, |_| Ok(())),
        Err(DomainConflict::NotFound)
    );
    assert_eq!(domain.release_hole(spent, |_| Ok(())), Err(DomainConflict::NotFound));
}

#[test]
fn failed_install_leaves_the_token_usable() {
    let mut domain = domain();
    let (_, view) = family_with_view(&mut domain, 1);
    let token = domain.claim_hole(view, 0x2000..0x3000, |_| Ok(())).unwrap();
    assert_eq!(
        domain.install_into_owned_hole(token.clone(), view, |_| Err(())),
        Err(DomainConflict::Occupied)
    );
    assert!(matches!(domain.custody_at(view, 0x2000), Custody::Hole { .. }));
    assert!(domain.install_into_owned_hole(token, view, |_| Ok(())).is_ok());
}

#[test]
fn token_of_another_family_is_not_honored() {
    let mut domain = domain();
    let (_, a) = family_with_view(&mut domain, 1);
    let (_, b) = family_with_view(&mut domain, 2);
    let token = domain.claim_hole(a, 0x2000..0x3000, |_| Ok(())).unwrap();
    assert_eq!(
        domain.install_into_owned_hole(token, b, |_| Ok(())),
        Err(DomainConflict::NotFound)
    );
}

#[test]
fn claim_install_retire_release_cycle() {
    let mut domain = domain();
    let (_, view) = family_with_view(&mut domain, 1);
    let token = domain.claim_hole(view, 0x2000..0x3000, |_| Ok(())).unwrap();
    domain.install_into_owned_hole(token, view, |_| Ok(())).unwrap();
    domain.replace_present(view, 0x2000..0x3000, |_| Ok(())).unwrap();
    let again = domain.retire_to_owned_hole(view, 0x2000..0x3000, |_| Ok(())).unwrap();
    assert_eq!(domain.lookup_installed_at(view, 0x2000), None);
    domain.release_hole(again, |_| Ok(())).unwrap();
    assert!(is_unclaimed(&domain.custody_at(view, 0x2000)));
}

#[test]
fn replace_and_retire_need_the_whole_range_present() {
    let mut domain = domain();
    let (_, view) = family_with_view(&mut domain, 1);
    domain.publish_present(view, 0x2000..0x3000).unwrap();
    assert_eq!(
        domain.replace_present(view, 0x2000..0x4000, |_| Ok(())),
        Err(DomainConflict::Occupied)
    );
    assert_eq!(
        domain.retire_to_owned_hole(view, 0x1000..0x3000, |_| Ok(())).unwrap_err(),
        DomainConflict::Occupied
    );
    assert_eq!(
        domain.retire_to_owned_hole(view, 0x2000..0x3000, |_| Err(())).unwrap_err(),
        DomainConflict::Occupied
    );
    assert!(is_present_for(&domain.custody_at(view, 0x2000), view));
}

#[test]
fn child_inherits_through_its_lineage() {
    let mut domain = domain();
    let (parent, a) = family_with_view(&mut domain, 1);
    domain.publish_present(a, 0x2000..0x4000).unwrap();
    let child = domain.register_family_from(parent).unwrap();
    let b = domain.register_view(child, owner(2)).unwrap();
    assert!(is_unclaimed(&domain.custody_at(b, 0x2000)));
    assert!(is_present_for(&domain.custody_at_via_lineage(b, 0x2000), a));
    let fragments = domain.custody_fragments_via_lineage(b, 0x1000..0x5000);
    assert_eq!(fragments.len(), 1);
    assert_eq!(fragments[0].0, 0x2000..0x4000);
    assert!(is_present_for(&fragments[0].1, a));
    assert!(fragments[0].2);
    domain.publish_present(b, 0x3000..0x4000).unwrap();
    let fragments = domain.custody_fragments_via_lineage(b, 0x1000..0x5000);
    assert_eq!(fragments.len(), 2);
    assert_eq!((fragments[0].0.clone(), fragments[0].2), (0x2000..0x3000, true));
    assert_eq!((fragments[1].0.clone(), fragments[1].2), (0x3000..0x4000, false));
}

#[test]
fn retirement_keeps_what_a_live_child_inherits() {
    let mut domain = domain();
    let (parent, a) = family_with_view(&mut domain, 1);
    domain.publish_present(a, 0x2000..0x3000).unwrap();
    let child = domain.register_family_from(parent).unwrap();
    let b = domain.register_view(child, owner(2)).unwrap();
    let before = domain.custody_at_via_lineage(b, 0x2000);
    domain.retire_to_owned_hole(a, 0x2000..0x3000, |_| Ok(())).unwrap();
    assert_eq!(domain.custody_at_via_lineage(b, 0x2000), before);
    domain.publish_present(a, 0x2000..0x3000).unwrap();
    domain.retire_to_owned_hole(a, 0x2000..0x3000, |_| Ok(())).unwrap();
    assert_eq!(domain.custody_at_via_lineage(b, 0x2000), before);
}

#[test]
fn retirement_without_a_child_keeps_nothing() {
    let mut domain = domain();
    let (parent, a) = family_with_view(&mut domain, 1);
    domain.publish_present(a, 0x2000..0x3000).unwrap();
    domain.retire_to_owned_hole(a, 0x2000..0x3000, |_| Ok(())).unwrap();
    let child = domain.register_family_from(parent).unwrap();
    let b = domain.register_view(child, owner(2)).unwrap();
    assert!(matches!(domain.custody_at_via_lineage(b, 0x2000), Custody::Hole { .. }));
}

#[test]
fn descendants_are_found_through_generations() {
    let mut domain = domain();
    let (root, a) = family_with_view(&mut domain, 1);
    let middle = domain.register_family_from(root).unwrap();
    let leaf = domain.register_family_from(middle).unwrap();
    assert!(!domain.family_has_live_descendant_of(a));
    let b = domain.register_view(leaf, owner(2)).unwrap();
    assert!(domain.family_has_live_descendant_of(a));
    assert!(domain.family_has_live_inheriting_descendant_of(a));
    assert_eq!(domain.live_descendant_views_of_family(root), vec![b]);
    domain.mark_family_exec(b);
    assert!(domain.family_has_live_descendant_of(a));
    assert!(!domain.family_has_live_inheriting_descendant_of(a));
    assert!(!domain.family_has_live_inheriting_descendant(root));
}

#[test]
fn foreign_families_are_seen_where_they_hold_pages() {
    let mut domain = domain();
    let (_, a) = family_with_view(&mut domain, 1);
    let (_, b) = family_with_view(&mut domain, 2);
    let (_, c) = family_with_view(&mut domain, 3);
    domain.publish_present(b, 0x2000..0x3000).unwrap();
    domain.publish_present(c, 0x2800..0x4000).unwrap();
    domain.publish_reserved(b, 0x6000..0x7000).unwrap();
    assert!(domain.foreign_family_present(a, 0x2fff..0x3000));
    assert!(!domain.foreign_family_present(a, 0x4000..0x8000));
    assert_eq!(domain.foreign_family_present_fragments(a, 0x1000..0x8000), vec![0x2000..0x4000]);
    assert_eq!(domain.foreign_family_present_fragments(b, 0x1000..0x8000), vec![0x2800..0x4000]);
    domain.unregister_view(c).unwrap();
    assert_eq!(domain.foreign_family_present_fragments(a, 0x1000..0x8000), vec![0x2000..0x3000]);
}

#[test]
fn fragments_are_listed_in_address_order() {
    let mut domain = domain();
    let (_, view) = family_with_view(&mut domain, 1);
    domain.publish_present(view, 0x9000..0xa000).unwrap();
    domain.publish_reserved(view, 0x2000..0x3000).unwrap();
    let ranges: Vec<_> = domain
        .custody_fragments(view, 0x1000..0x9800)
        .into_iter()
        .map(|(range, _)| range)
        .collect();
    assert_eq!(ranges, vec![0x2000..0x3000, 0x8000..0x9000, 0x9000..0x9800]);
    assert!(matches!(
        domain.custody_at(view, 0x8000),
        Custody::DomainBlocked(BlockOrigin::ConstructionStatic)
    ));
}

#[test]
fn confirming_a_span_retires_what_is_stale() {
    let mut domain = domain();
    let (family, a) = family_with_view(&mut domain, 1);
    let b = domain.register_view(family, owner(2)).unwrap();
    domain.publish_present(a, 0x2000..0x3000).unwrap();
    domain.confirm_present_or_reconcile(b, 0x2000..0x3000).unwrap();
    assert!(is_present_for(&domain.custody_at(b, 0x2000), b));
    assert_eq!(domain.untracked_present_events(), 0);
    assert_eq!(
        domain.confirm_present_or_reconcile(b, 0x8000..0x9000),
        Err(DomainConflict::Blocked)
    );
    assert_eq!(domain.untracked_present_events(), 1);
    domain.confirm_retired_or_reconcile(b, 0x2000..0x3000);
    assert!(matches!(domain.custody_at(b, 0x2000), Custody::Hole { .. }));
}

#[test]
fn placement_goes_below_what_is_in_the_way() {
    let mut domain = domain();
    let (_, view) = family_with_view(&mut domain, 1);
    domain.publish_present(view, 0x6000..0x8000).unwrap();
    let found = domain.place(view, 0x1000, None, |ceiling| Some(ceiling.unwrap_or(0x7000)));
    assert_eq!(found, Ok(0x5000..0x6000));
    assert_eq!(domain.place(view, 0x1000, None, |_| None), Err(DomainConflict::Occupied));
    assert_eq!(domain.place(view, 0x1000, None, |_| Some(0x7000)), Err(DomainConflict::Occupied));
}

#[test]
fn an_empty_range_is_placed_outside_what_is_recorded() {
    let mut domain = domain();
    let (_, view) = family_with_view(&mut domain, 1);
    domain.publish_present(view, 0x6000..0x8000).unwrap();
    let found = domain.place(view, 0, None, |ceiling| Some(ceiling.unwrap_or(0x7000)));
    assert_eq!(found, Ok(0x6000..0x6000));
    assert_eq!(domain.place(view, 0, None, |_| Some(0x2000)), Ok(0x2000..0x2000));
    assert_eq!(domain.place(view, 0, None, |_| Some(0x7000)), Err(DomainConflict::Occupied));
}

#[test]
fn drain_refuses_new_leases_and_keeps_old_ones() {
    let mut domain = domain();
    let (family, view) = family_with_view(&mut domain, 1);
    assert_eq!(domain.acquire_run_lease(view).err(), Some(DomainConflict::NotInstalled));
    domain.publish_present(view, 0x2000..0x3000).unwrap();
    let run = domain.acquire_run_lease(view).unwrap();
    let access = domain.acquire_access_lease(view).unwrap();
    assert_eq!(domain.admission_snapshot(view), Some((AdmissionState::Open, 0, 2)));
    assert_eq!(domain.query_family(family).unwrap().lease_survivors, 2);
    assert_eq!(domain.begin_drain(view), Ok(1));
    assert_eq!(domain.admission_snapshot(view), Some((AdmissionState::Draining, 1, 2)));
    assert_eq!(domain.begin_drain(view), Err(DomainConflict::Draining));
    assert_eq!(domain.acquire_access_lease(view).err(), Some(DomainConflict::Draining));
    domain.release_run_lease(run);
    domain.release_access_lease(access);
    let (state, _, count) = domain.admission_snapshot(view).unwrap();
    assert_eq!((state, count), (AdmissionState::Draining, 0));
    assert_eq!(domain.query_family(family).unwrap().lease_survivors, 0);
}

#[test]
fn activation_and_retirement_of_views() {
    let mut domain = domain();
    let (_, view) = family_with_view(&mut domain, 1);
    domain.activate_view(view).unwrap();
    assert_eq!(domain.query_view(view).unwrap().overlay, ViewOverlay::Active);
    domain.publish_present(view, 0x2000..0x3000).unwrap();
    domain.retire_view(view).unwrap();
    assert_eq!(domain.query_view(view).unwrap().overlay, ViewOverlay::Retiring);
    assert_eq!(domain.lookup_installed_at(view, 0x2000), None);
    assert_eq!(domain.retire_view(VmViewId { raw: 99 }), Err(DomainConflict::NotFound));
}

fn obligation(domain: &GuestVaDomain, view: VmViewId, failure: u64) -> PoisonObligation {
    let before: VmViewSnapshot = domain.query_view(view).unwrap();
    PoisonObligation {
        view,
        family: before.family,
        owner: before.owner,
        pre_op_snapshot: before,
        post_op_snapshot: None,
        touched_range: 0x2000..0x3000,
        touched_custody: Vec::new(),
        admission_snapshot: None,
        failure: FailureId { raw: failure },
        scope: TerminalScope::FamilyScoped,
        rollback: ObligationRollback::Terminal,
    }
}

#[test]
fn poison_marks_one_family_and_its_views() {
    let mut domain = domain();
    let (family, a) = family_with_view(&mut domain, 1);
    let (other, b) = family_with_view(&mut domain, 2);
    domain.mark_poison(family).unwrap();
    assert!(domain.query_family(family).unwrap().poisoned);
    assert!(!domain.query_family(other).unwrap().poisoned);
    assert_eq!(domain.query_view(a).unwrap().overlay, ViewOverlay::Poisoned);
    assert_eq!(domain.query_view(b).unwrap().overlay, ViewOverlay::Installing);
    domain.mark_quarantine(other).unwrap();
    assert_eq!(domain.query_view(b).unwrap().overlay, ViewOverlay::Quarantined);
    assert_eq!(domain.mark_poison(FamilyId { raw: 99 }), Err(DomainConflict::NotFound));
}

#[test]
fn obligations_are_kept_in_order() {
    let mut domain = domain();
    let (family, view) = family_with_view(&mut domain, 1);
    let (other, _) = family_with_view(&mut domain, 2);
    let first = obligation(&domain, view, 7);
    let second = obligation(&domain, view, 8);
    assert_eq!(domain.mark_poison_with_obligation(first), Ok(FailureId { raw: 7 }));
    assert_eq!(domain.mark_poison_with_obligation(second), Ok(FailureId { raw: 8 }));
    let failures = domain.family_obligations(family, |o| o.failure.raw);
    assert_eq!(failures, vec![7, 8]);
    assert_eq!(domain.query_obligation(FailureId { raw: 8 }, |o| o.touched_range.start), Some(0x2000));
    assert_eq!(domain.query_obligation(FailureId { raw: 9 }, |o| o.touched_range.start), None);
    assert!(!domain.query_family(other).unwrap().poisoned);
    let global = obligation(&domain, view, 9);
    assert_eq!(domain.mark_process_global_terminal(global), FailureId { raw: 9 });
    assert!(domain.query_family(other).unwrap().poisoned);
}

#[test]
fn domains_hand_out_different_identities() {
    let mut ids = DomainIds::new();
    let mut one = GuestVaDomain::new(&mut ids, 0x1000..0x100000, Vec::new());
    let mut two = GuestVaDomain::new(&mut ids, 0x1000..0x100000, Vec::new());
    let (family, view) = family_with_view(&mut one, 1);
    let (other_family, other_view) = family_with_view(&mut two, 1);
    assert_ne!(family, other_family);
    assert_ne!(view, other_view);
    assert_ne!(
        one.publish_present(view, 0x2000..0x3000),
        two.publish_present(other_view, 0x2000..0x3000)
    );
    let left = one.ids_left();
    one.renew_ids(&mut ids);
    assert!(one.ids_left() > left);
    let third = one.register_family().unwrap();
    assert!(third.raw > other_family.raw);
    assert_eq!(one.query_family(family).unwrap().members, 1);
    assert!(ids.can_serve());
}

#[test]
fn nothing_is_published_over_a_foreign_host_range() {
    let mut domain = domain();
    let (_, view) = family_with_view(&mut domain, 1);
    let _ = domain.claim_hole(view, 0x2000..0x3000, |_| Err(ClaimHostError::ForeignHost));
    assert_eq!(domain.publish_present(view, 0x2000..0x3000), Err(DomainConflict::Blocked));
    assert_eq!(domain.publish_present(view, 0x1000..0x2001), Err(DomainConflict::Blocked));
    assert!(matches!(
        domain.custody_at(view, 0x2000),
        Custody::DomainBlocked(BlockOrigin::ForeignHost)
    ));
    assert_eq!(domain.lookup_installed_at(view, 0x2000), None);
    assert!(domain.publish_present(view, 0x3000..0x4000).is_ok());
}

#[test]
fn reservation_takes_nothing_from_another_view() {
    let mut domain = domain();
    let (family, v) = family_with_view(&mut domain, 1);
    let w = domain.register_view(family, owner(2)).unwrap();
    domain.publish_present(v, 0x2000..0x3000).unwrap();
    assert!(domain.publish_reserved(w, 0x1000..0x3000).is_ok());
    assert!(is_present_for(&domain.custody_at(v, 0x2000), v));
    assert_eq!(domain.lookup_installed_at(v, 0x2000), Some(v));
    match domain.custody_at(w, 0x1fff) {
        Custody::Reserved { views } => assert_eq!(views, vec![w]),
        _ => panic!("the rest of the range is reserved"),
    }
}

#[test]
fn replacement_of_another_views_span_is_refused_before_the_host_is_asked() {
    let mut domain = domain();
    let (family, v) = family_with_view(&mut domain, 1);
    let w = domain.register_view(family, owner(2)).unwrap();
    domain.publish_present(v, 0x2000..0x3000).unwrap();
    let asked = std::cell::Cell::new(false);
    let got = domain.replace_present(w, 0x2000..0x3000, |_| {
        asked.set(true);
        Ok(())
    });
    assert_eq!(got, Err(DomainConflict::Occupied));
    assert!(!asked.get());
    assert!(is_present_for(&domain.custody_at(v, 0x2000), v));
}

#[test]
fn lease_outlives_its_view() {
    let mut domain = domain();
    let (family, view) = family_with_view(&mut domain, 1);
    let kept = domain.register_view(family, owner(2)).unwrap();
    domain.activate_view(view).unwrap();
    domain.activate_view(kept).unwrap();
    let before = domain.query_family(family).unwrap().lease_survivors;
    let run = domain.acquire_run_lease(view).unwrap();
    let access = domain.acquire_access_lease(view).unwrap();
    domain.unregister_view(view).unwrap();
    assert_eq!(domain.query_family(family).unwrap().lease_survivors, before + 2);
    domain.release_run_lease(run);
    domain.release_access_lease(access);
    assert_eq!(domain.query_family(family).unwrap().lease_survivors, before);
}

#[test]
fn foreign_host_range_is_not_asked_for_again_after_a_rollback() {
    let mut domain = domain();
    let (_, a) = family_with_view(&mut domain, 1);
    let (_, b) = family_with_view(&mut domain, 2);
    let _ = domain.claim_hole(b, 0x2000..0x3000, |_| Err(ClaimHostError::Other));
    let _ = domain.claim_hole(a, 0x2000..0x3000, |_| Err(ClaimHostError::ForeignHost));
    assert!(matches!(
        domain.custody_at(b, 0x2000),
        Custody::DomainBlocked(BlockOrigin::ForeignHost)
    ));
    let asked = std::cell::Cell::new(false);
    let again = domain.claim_hole(b, 0x2000..0x3000, |_| {
        asked.set(true);
        Ok(())
    });
    assert_eq!(again.unwrap_err(), DomainConflict::Blocked);
    assert!(!asked.get());
    domain.publish_reserved(b, 0x2000..0x4000).unwrap();
    assert!(matches!(domain.custody_at(b, 0x2fff), Custody::DomainBlocked(_)));
    assert!(matches!(domain.custody_at(b, 0x3000), Custody::Reserved { .. }));
}

#[test]
fn retired_range_is_a_hole_for_its_own_family_and_present_for_the_child() {
    let mut domain = domain();
    let (parent, a) = family_with_view(&mut domain, 1);
    domain.publish_present(a, 0x2000..0x3000).unwrap();
    let child = domain.register_family_from(parent).unwrap();
    let b = domain.register_view(child, owner(2)).unwrap();
    let token = domain.retire_to_owned_hole(a, 0x2000..0x3000, |_| Ok(())).unwrap();
    assert!(matches!(domain.custody_at_via_lineage(a, 0x2000), Custody::Hole { .. }));
    assert!(is_present_for(&domain.custody_at_via_lineage(b, 0x2000), a));
    let own = domain.custody_fragments_via_lineage(a, 0x2000..0x3000);
    assert!(own.iter().all(|(_, custody, _)| matches!(custody, Custody::Hole { .. })));
    domain.install_into_owned_hole(token, a, |_| Ok(())).unwrap();
    let fresh = domain.custody_at(a, 0x2000);
    assert_eq!(domain.custody_at_via_lineage(a, 0x2000), fresh);
    assert_ne!(domain.custody_at_via_lineage(b, 0x2000), fresh);
    domain.retire_to_owned_hole(a, 0x2000..0x3000, |_| Ok(())).unwrap();
    assert!(matches!(domain.custody_at_via_lineage(a, 0x2fff), Custody::Hole { .. }));
}

#[test]
fn claim_can_be_made_again_only_where_it_left_nothing() {
    let mut domain = domain();
    let (_, view) = family_with_view(&mut domain, 1);
    let asked = std::cell::Cell::new(0);
    let agree = |_: core::ops::Range<usize>| {
        asked.set(asked.get() + 1);
        Ok(())
    };
    let token = domain.claim_hole(view, 0x2000..0x3000, agree).unwrap();
    assert_eq!(domain.claim_hole(view, 0x2000..0x3000, agree).err(), Some(DomainConflict::Occupied));
    assert_eq!(asked.get(), 1);
    domain.release_hole(token, |_| Ok(())).unwrap();
    assert!(domain.claim_hole(view, 0x2000..0x3000, agree).is_ok());
    let refuse = |_: core::ops::Range<usize>| Err(ClaimHostError::Other);
    assert!(domain.claim_hole(view, 0x4000..0x5000, refuse).is_err());
    assert!(domain.claim_hole(view, 0x4000..0x5000, agree).is_ok());
}

#[test]
fn failed_install_can_be_made_again_once() {
    let mut domain = domain();
    let (_, view) = family_with_view(&mut domain, 1);
    let token = domain.claim_hole(view, 0x2000..0x3000, |_| Ok(())).unwrap();
    assert!(domain.install_into_owned_hole(token.clone(), view, |_| Err(())).is_err());
    assert_eq!(domain.lookup_installed_at(view, 0x2000), None);
    domain.install_into_owned_hole(token.clone(), view, |_| Ok(())).unwrap();
    assert_eq!(
        domain.install_into_owned_hole(token, view, |_| Ok(())),
        Err(DomainConflict::NotFound)
    );
    assert_eq!(domain.lookup_installed_at(view, 0x2000), Some(view));
}

#[test]
fn installed_pages_are_always_in_custody() {
    let mut domain = domain();
    let (_, view) = family_with_view(&mut domain, 1);
    let backed = |domain: &GuestVaDomain| {
        (0x1000..0x7000).step_by(0x1000).all(|address| {
            match domain.lookup_installed_at(view, address) {
                Some(holder) => is_present_for(&domain.custody_at(view, address), holder),
                None => true,
            }
        })
    };
    domain.publish_present(view, 0x2000..0x4000).unwrap();
    assert!(backed(&domain));
    let hole = domain.retire_to_owned_hole(view, 0x3000..0x4000, |_| Ok(())).unwrap();
    assert!(backed(&domain));
    domain.install_into_owned_hole(hole, view, |_| Ok(())).unwrap();
    domain.replace_present(view, 0x3000..0x4000, |_| Ok(())).unwrap();
    assert!(backed(&domain));
    domain.unregister_view(view).unwrap();
    assert!(backed(&domain));
}
