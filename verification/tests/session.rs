//! Effect sessions, and how tasks take turns at them.
use litebox::ids::{IdCounter, ProcessInstanceId, TaskInstanceId, VmViewId};
use litebox::mm::custody::Custody;
use litebox::mm::domain::{
    DomainConflict, DomainIds, GuestVaDomain, ObligationRollback, TerminalScope, ViewOverlay,
};
use litebox::mm::session::{EffectGate, MemoryEffectSession, SessionOpening};

struct World {
    domain: GuestVaDomain,
    gate: EffectGate,
    sessions: IdCounter,
    failures: IdCounter,
}

fn task(n: u64) -> TaskInstanceId {
    TaskInstanceId { raw: n }
}

fn world() -> World {
    let mut ids = DomainIds::new();
    World {
        domain: GuestVaDomain::new(&mut ids, 0x1000..0x100000, Vec::new()),
        gate: EffectGate::new(),
        sessions: IdCounter::new(),
        failures: IdCounter::new(),
    }
}

impl World {
    fn view(&mut self) -> VmViewId {
        let family = self.domain.register_family().unwrap();
        let owner = (ProcessInstanceId { raw: 1 }, task(1));
        let view = self.domain.register_view(family, owner).unwrap();
        self.domain.activate_view(view).unwrap();
        view
    }

    fn open(&mut self, view: VmViewId, n: u64) -> MemoryEffectSession {
        match self.try_open(view, n) {
            Ok(SessionOpening::Opened(session)) => session,
            _ => panic!("the session opens"),
        }
    }

    fn try_open(&mut self, view: VmViewId, n: u64) -> Result<SessionOpening, DomainConflict> {
        MemoryEffectSession::open(
            &self.domain,
            &mut self.gate,
            &mut self.sessions,
            &mut self.failures,
            view,
            task(n),
        )
    }
}

#[test]
fn gate_nests_for_its_owner_and_excludes_others() {
    let mut w = world();
    let view = w.view();
    let outer = w.open(view, 5);
    assert_eq!((outer.depth(), w.gate.current_owner_raw()), (1, 5));
    let inner = w.open(view, 5);
    assert_eq!(inner.depth(), 2);
    assert!(matches!(w.try_open(view, 6), Ok(SessionOpening::Busy)));
    inner.close(&mut w.gate);
    assert_eq!(w.gate.current_owner_raw(), 5);
    outer.close(&mut w.gate);
    assert_eq!((w.gate.current_owner_raw(), w.gate.wakes()), (0, 1));
    let next = w.open(view, 6);
    assert_eq!((next.id().raw, next.task(), next.pinned_view()), (3, task(6), view));
}

#[test]
fn session_needs_an_active_view() {
    let mut w = world();
    let family = w.domain.register_family().unwrap();
    let owner = (ProcessInstanceId { raw: 1 }, task(1));
    let idle = w.domain.register_view(family, owner).unwrap();
    assert_eq!(w.try_open(idle, 1).err(), Some(DomainConflict::NotInstalled));
    assert_eq!(w.try_open(VmViewId { raw: 99 }, 1).err(), Some(DomainConflict::NotFound));
    assert_eq!(w.gate.current_owner_raw(), 0);
}

#[test]
fn abandoned_gate_is_stolen_only_from_its_owner() {
    let mut gate = EffectGate::new();
    assert!(gate.acquire(task(3)));
    assert!(!gate.acquire(task(4)));
    assert!(!gate.steal_if_abandoned(task(4)));
    assert!(gate.steal_if_abandoned(task(3)));
    assert_eq!(gate.current_owner_raw(), 0);
    assert!(gate.acquire(task(4)));
}

#[test]
fn session_carries_effects_to_the_domain() {
    let mut w = world();
    let view = w.view();
    let mut session = w.open(view, 1);
    let token = session.claim_hole(&mut w.domain, 0x2000..0x3000, |_| Ok(())).unwrap();
    session.install_into_owned_hole(&mut w.domain, token, view, |_| Ok(())).unwrap();
    session.replace_present(&mut w.domain, view, 0x2000..0x3000, |_| Ok(())).unwrap();
    let hole = session.retire_to_owned_hole(&mut w.domain, view, 0x2000..0x3000, |_| Ok(())).unwrap();
    session.release_hole(&mut w.domain, hole, |_| Ok(())).unwrap();
    assert!(matches!(w.domain.custody_at(view, 0x2000), Custody::Unclaimed));
    session.close(&mut w.gate);
    assert_eq!(w.domain.query_view(view).unwrap().overlay, ViewOverlay::Active);
}

#[test]
fn untouched_session_poisons_nothing() {
    let mut w = world();
    let view = w.view();
    let family = w.domain.family_of_view(view).unwrap();
    let session = w.open(view, 1);
    session.abandon(&mut w.domain, &mut w.gate);
    assert!(!w.domain.query_family(family).unwrap().poisoned);
    assert_eq!(w.gate.current_owner_raw(), 0);
}

#[test]
fn abandoned_claim_is_recoverable() {
    let mut w = world();
    let view = w.view();
    let other = w.view();
    let family = w.domain.family_of_view(view).unwrap();
    let stranger = w.domain.family_of_view(other).unwrap();
    let mut session = w.open(view, 1);
    let _ = session.claim_hole(&mut w.domain, 0x2000..0x3000, |_| Ok(())).unwrap();
    session.abandon(&mut w.domain, &mut w.gate);
    assert!(w.domain.query_family(family).unwrap().poisoned);
    assert!(!w.domain.query_family(stranger).unwrap().poisoned);
    let kept = w.domain.family_obligations(family, |o| {
        let token = match &o.rollback {
            ObligationRollback::Recoverable { token } => Some(token.clone()),
            ObligationRollback::Terminal => None,
        };
        (o.touched_range.clone(), o.scope, token)
    });
    assert_eq!(kept.len(), 1);
    assert_eq!((kept[0].0.clone(), kept[0].1), (0x2000..0x3000, TerminalScope::FamilyScoped));
    let token = kept[0].2.clone().unwrap();
    w.domain.release_hole(token, |_| Ok(())).unwrap();
    assert!(matches!(w.domain.custody_at(view, 0x2000), Custody::Unclaimed));
}

#[test]
fn abandoned_replacement_is_terminal() {
    let mut w = world();
    let view = w.view();
    let family = w.domain.family_of_view(view).unwrap();
    w.domain.publish_present(view, 0x2000..0x3000).unwrap();
    let mut session = w.open(view, 1);
    session.replace_present(&mut w.domain, view, 0x2000..0x3000, |_| Ok(())).unwrap();
    session.abandon(&mut w.domain, &mut w.gate);
    let kinds = w.domain.family_obligations(family, |o| {
        (matches!(o.rollback, ObligationRollback::Terminal), o.touched_custody.len())
    });
    assert_eq!(kinds, vec![(true, 1)]);
}

#[test]
fn hand_off_is_confined_to_own_or_untracked_memory() {
    let mut w = world();
    let mine = w.view();
    let theirs = w.view();
    w.domain.publish_present(mine, 0x2000..0x3000).unwrap();
    w.domain.publish_present(theirs, 0x4000..0x5000).unwrap();
    let session = w.open(mine, 1);
    assert_eq!(session.switch_write(&w.domain, 0x2000..0x3000, || Some(1)), Some(1));
    assert_eq!(session.switch_write(&w.domain, 0x6000..0x7000, || Some(2)), Some(2));
    assert_eq!(session.switch_write(&w.domain, 0x3800..0x4001, || Some(3)), None);
    assert_eq!(session.divergence_save_read(&w.domain, 0x4800..0x4900, || Some(4)), None);
    assert_eq!(session.divergence_save_read(&w.domain, 0x2800..0x2900, || None::<u8>), None);
    assert!(session.own_or_untracked(&w.domain, 0x4000..0x4000));
}

#[test]
fn given_up_session_adds_one_obligation_at_the_end() {
    let mut w = world();
    let view = w.view();
    let family = w.domain.family_of_view(view).unwrap();
    let sibling = w.domain.register_view(family, (ProcessInstanceId { raw: 2 }, task(2))).unwrap();
    let mut outer = w.open(view, 1);
    let mut inner = w.open(view, 1);
    let _ = inner.claim_hole(&mut w.domain, 0x2000..0x3000, |_| Ok(())).unwrap();
    let _ = outer.claim_hole(&mut w.domain, 0x4000..0x5000, |_| Ok(())).unwrap();
    inner.abandon(&mut w.domain, &mut w.gate);
    let read = |w: &World| {
        w.domain.family_obligations(family, |o| (o.view, o.scope, o.touched_range.start))
    };
    let first = (view, TerminalScope::FamilyScoped, 0x2000);
    assert_eq!(read(&w), vec![first]);
    assert_eq!(w.gate.current_owner_raw(), 0);
    outer.abandon(&mut w.domain, &mut w.gate);
    assert_eq!(read(&w), vec![first, (view, TerminalScope::FamilyScoped, 0x4000)]);
    assert!(w.domain.query_family(family).unwrap().poisoned);
    for member in [view, sibling] {
        assert_eq!(w.domain.query_view(member).unwrap().overlay, ViewOverlay::Poisoned);
    }
}

#[test]
fn install_that_was_interrupted_is_terminal() {
    let mut w = world();
    let view = w.view();
    let family = w.domain.family_of_view(view).unwrap();
    let mut session = w.open(view, 1);
    let token = session.claim_hole(&mut w.domain, 0x2000..0x3000, |_| Ok(())).unwrap();
    assert!(session.begin_install(&mut w.domain, &token, view).is_ok());
    session.abandon(&mut w.domain, &mut w.gate);
    let kinds = w.domain.family_obligations(family, |o| {
        (matches!(o.rollback, ObligationRollback::Terminal), o.touched_custody.len())
    });
    assert_eq!(kinds, vec![(true, 1)]);
    assert!(matches!(w.domain.custody_at(view, 0x2000), Custody::Installing { .. }));
    assert_eq!(w.domain.release_hole(token, |_| Ok(())), Err(DomainConflict::NotFound));
}

#[test]
fn open_sessions_have_failures_of_their_own() {
    let mut w = world();
    let view = w.view();
    let family = w.domain.family_of_view(view).unwrap();
    let mut sessions: Vec<_> = (0..3).map(|_| w.open(view, 1)).collect();
    for (i, session) in sessions.iter_mut().enumerate() {
        let start = 0x2000 + i * 0x2000;
        let _ = session.claim_hole(&mut w.domain, start..start + 0x1000, |_| Ok(())).unwrap();
    }
    for (i, session) in sessions.into_iter().enumerate() {
        assert_eq!(w.domain.family_obligations(family, |o| o.touched_range.start).len(), i);
        session.abandon(&mut w.domain, &mut w.gate);
    }
    let kept = w.domain.family_obligations(family, |o| (o.failure.raw, o.touched_range.start));
    assert_eq!(kept, vec![(1, 0x2000), (2, 0x4000), (3, 0x6000)]);
}

#[test]
fn task_may_come_to_the_gate_unless_it_is_inside_too_often() {
    let mut w = world();
    let view = w.view();
    assert!(w.gate.can_enter(task(5)));
    let inside = w.open(view, 5);
    assert!(w.gate.can_enter(task(5)) && w.gate.can_enter(task(6)));
    inside.close(&mut w.gate);
}
