//! The memory-effect transaction protocol: an admission gate, and a session that brackets one
//! `prepare, effect, apply` cycle against a domain.
use crate::ids::{FailureId, IdCounter, MemorySessionId, MutationId, TaskInstanceId, VmViewId};
use crate::mm::custody::{Custody, CustodyModel, HoleToken};
use crate::mm::domain::{
    ClaimHostError, DomainConflict, GuestVaDomain, ObligationRollback, PoisonObligation,
    TerminalScope, ViewOverlay, VmViewSnapshot,
};
use crate::mm::domain::holes::InstallInFlight;
use core::ops::Range;
use vstd::prelude::*;

verus! {

use crate::mm::custody::TokenModel;
use crate::mm::domain::admission::unpacked;
use crate::mm::domain::foreign::foreign_at;
use crate::mm::domain::holes::{
    claim_begun, claim_finished, install_begun, install_finished, release_begun, release_finished,
    replace_begun, replace_finished, retire_begun, retire_finished, token_result, ClaimInFlight,
    ReleaseInFlight, RetireInFlight,
};
use crate::mm::domain::lookup::{as_custody, custody_of, fragment_models, fragments, merged};
use crate::mm::domain::poison::{
    failures_of, family_poisoned, overlaid, stored_failures, with_failure, with_obligation,
};
use crate::mm::domain::registry::{family_of, view_snapshot};
use crate::mm::domain::publish::{present_published, reserved_published};
use crate::mm::domain::{is_fresh_domain, DomainModel, FamilyRecord, IssuedIds};
use crate::mm::vmem::initialization::span;
use crate::range_map::{covered, lemma_pieces, lookup, pieces};

/// A process-global mutual-exclusion gate over memory effects: who holds it, how deep it is
/// nested, and how often it was handed back, which is what a waiter watches.
pub struct EffectGate {
    owner: u64,
    depth: u32,
    wakes: u32,
}

/// The mathematical value of a gate.
pub struct GateModel {
    /// The holder's raw identity, or 0.
    pub owner: u64,
    pub depth: u32,
    pub wakes: u32,
}

impl View for EffectGate {
    type V = GateModel;

    closed spec fn view(&self) -> GateModel {
        GateModel { owner: self.owner, depth: self.depth, wakes: self.wakes }
    }
}

/// The next count of hand-backs.
pub open spec fn woken(wakes: u32) -> u32 {
    if wakes == u32::MAX {
        0
    } else {
        (wakes + 1) as u32
    }
}

/// A gate that was handed back.
pub open spec fn gate_freed(gate: GateModel) -> GateModel {
    GateModel { owner: 0, depth: 0, wakes: woken(gate.wakes) }
}

/// The effect gate after a task went in: it nests where the task holds the effect gate, takes a free gate, and
/// is busy otherwise.
pub open spec fn gate_entered(gate: GateModel, task: TaskInstanceId) -> Option<GateModel> {
    if gate.owner == task.raw {
        Some(GateModel { depth: (gate.depth + 1) as u32, ..gate })
    } else if gate.owner == 0 {
        Some(GateModel { owner: task.raw, depth: 1, ..gate })
    } else {
        None
    }
}

/// The effect gate after one level was left: it is free once the outermost level is.
pub open spec fn gate_left(gate: GateModel) -> GateModel {
    if gate.depth == 1 {
        gate_freed(gate)
    } else {
        GateModel { depth: (gate.depth - 1) as u32, ..gate }
    }
}

/// Leaving undoes entering: a nested level gives the effect gate back as it was, and the outermost level
/// leaves it free.
pub proof fn lemma_gate_nests(gate: GateModel, task: TaskInstanceId)
    requires
        task.raw != 0,
        gate.depth < u32::MAX,
        gate.owner == 0 ==> gate.depth == 0,
        gate.owner != 0 ==> gate.depth > 0,
        gate_entered(gate, task) is Some,
    ensures
        gate_entered(gate, task)->0.owner == task.raw,
        gate.owner == task.raw ==> gate_left(gate_entered(gate, task)->0) == gate,
        gate.owner == 0 ==> gate_left(gate_entered(gate, task)->0) == gate_freed(gate),
{
}

/// While one task holds the effect gate, no other goes in.
pub proof fn lemma_gate_excludes(gate: GateModel, holder: TaskInstanceId, other: TaskInstanceId)
    requires
        holder.raw != 0,
        other.raw != holder.raw,
        gate_entered(gate, holder) is Some,
    ensures
        gate_entered(gate_entered(gate, holder)->0, other) is None,
{
}

impl EffectGate {
    /// A gate that nobody holds.
    pub fn new() -> (gate: Self)
        ensures
            gate@ == (GateModel { owner: 0, depth: 0, wakes: 0 }),
    {
        EffectGate { owner: 0, depth: 0, wakes: 0 }
    }

    fn raw(task: TaskInstanceId) -> (raw: u64)
        ensures
            raw == task.raw,
    {
        task.raw
    }

    /// The raw identity of the task that holds the effect gate, or 0.
    pub fn current_owner_raw(&self) -> (owner: u64)
        ensures
            owner == self@.owner,
    {
        self.owner
    }

    /// How often the effect gate was handed back: a waiter sleeps until this changes.
    pub fn wakes(&self) -> (wakes: u32)
        ensures
            wakes == self@.wakes,
    {
        self.wakes
    }

    /// Whether a task may come to the effect gate: not where it is inside as often as can be counted.
    pub fn can_enter(&self, task: TaskInstanceId) -> (yes: bool)
        ensures
            yes == (self@.owner == task.raw ==> self@.depth < u32::MAX),
    {
        self.owner != Self::raw(task) || self.depth < u32::MAX
    }

    /// Takes the effect gate for a task if it is free. A caller that has to wait does so holding nothing.
    pub fn acquire(&mut self, task: TaskInstanceId) -> (held: bool)
        requires
            task.raw != 0,
        ensures
            held == (old(self)@.owner == 0),
            final(self)@ == (if held {
                GateModel { owner: task.raw, depth: 1, ..old(self)@ }
            } else {
                old(self)@
            }),
    {
        if self.owner != 0 {
            return false;
        }
        self.owner = Self::raw(task);
        self.depth = 1;
        true
    }

    /// Hands the effect gate back whatever its depth. The caller knows that it is uncontested.
    pub fn release(&mut self)
        ensures
            final(self)@ == gate_freed(old(self)@),
    {
        self.depth = 0;
        self.owner = 0;
        self.wakes = self.wakes.wrapping_add(1);
    }

    /// Takes the effect gate back from a task that is known to have exited without handing it back.
    /// Answers whether it did.
    pub fn steal_if_abandoned(&mut self, expected: TaskInstanceId) -> (stolen: bool)
        ensures
            stolen == (old(self)@.owner == expected.raw),
            final(self)@ == (if stolen {
                gate_freed(old(self)@)
            } else {
                old(self)@
            }),
    {
        if self.owner != Self::raw(expected) {
            return false;
        }
        self.release();
        true
    }

    /// Goes in once more, or for the first time. `None` if another task holds the effect gate.
    fn enter(&mut self, task: TaskInstanceId) -> (depth: Option<u32>)
        requires
            task.raw != 0,
            old(self)@.owner == task.raw ==> old(self)@.depth < u32::MAX,
        ensures
            match gate_entered(old(self)@, task) {
                Some(gate) => final(self)@ == gate && depth == Some(gate.depth),
                None => final(self)@ == old(self)@ && depth is None,
            },
    {
        if self.current_owner_raw() == Self::raw(task) {
            self.depth = self.depth + 1;
            Some(self.depth)
        } else if self.acquire(task) {
            Some(1)
        } else {
            None
        }
    }

    /// Leaves one level.
    fn leave(&mut self)
        requires
            old(self)@.depth > 0,
        ensures
            final(self)@ == gate_left(old(self)@),
    {
        if self.depth == 1 {
            self.release();
        } else {
            self.depth = self.depth - 1;
        }
    }
}

impl Default for EffectGate {
    fn default() -> (gate: Self)
        ensures
            gate@ == (GateModel { owner: 0, depth: 0, wakes: 0 }),
    {
        EffectGate::new()
    }
}

/// What a session keeps from its start, so that giving it up never has to mint anything.
struct ObligationDraft {
    failure: FailureId,
    pre_op_snapshot: VmViewSnapshot,
    touched_range: Option<Range<usize>>,
    /// A token that the session holds and has not begun to consume.
    pending_token: Option<HoleToken>,
}

/// One `prepare, effect, apply` transaction against a domain. It pins a view that was active when
/// it was opened.
pub struct MemoryEffectSession {
    view: VmViewId,
    task: TaskInstanceId,
    id: MemorySessionId,
    depth: u32,
    draft: ObligationDraft,
}

/// The mathematical value of a session.
pub struct SessionModel {
    pub view: VmViewId,
    pub task: TaskInstanceId,
    pub id: MemorySessionId,
    pub depth: u32,
    pub failure: FailureId,
    pub before: VmViewSnapshot,
    /// The range of the last effect that was attempted, if any was.
    pub touched: Option<(int, int)>,
    /// A token that the session holds and has not begun to consume.
    pub pending: Option<TokenModel>,
}

impl View for MemoryEffectSession {
    type V = SessionModel;

    closed spec fn view(&self) -> SessionModel {
        SessionModel {
            view: self.view,
            task: self.task,
            id: self.id,
            depth: self.depth,
            failure: self.draft.failure,
            before: self.draft.pre_op_snapshot,
            touched: match self.draft.touched_range {
                Some(range) => Some((range.start as int, range.end as int)),
                None => None,
            },
            pending: match self.draft.pending_token {
                Some(token) => Some(token@),
                None => None,
            },
        }
    }
}

/// What trying to go through the effect gate comes to.
pub enum SessionOpening {
    Opened(MemoryEffectSession),
    /// Another task holds the effect gate: wait for it to be handed back, and go on with
    /// [`MemoryEffectSession::enter`].
    Busy,
}

/// The view that a session may be opened on, or why it may not.
pub open spec fn pinnable(m: DomainModel, view: VmViewId) -> Result<VmViewSnapshot, DomainConflict> {
    match view_snapshot(m, view) {
        None => Err(DomainConflict::NotFound),
        Some(snapshot) => if snapshot.overlay == ViewOverlay::Active {
            Ok(snapshot)
        } else {
            Err(DomainConflict::NotInstalled)
        },
    }
}

/// A session after an effect on a range was attempted.
pub open spec fn session_touched(s: SessionModel, start: int, end: int) -> SessionModel {
    SessionModel { touched: Some((start, end)), ..s }
}

/// A session after an effect that yields a token, which it then holds.
pub open spec fn session_holding(s: SessionModel, result: Result<TokenModel, DomainConflict>) -> SessionModel {
    match result {
        Ok(token) => SessionModel { pending: Some(token), ..s },
        Err(_) => s,
    }
}

/// A custody that a view may neither read nor write under: blocked, or another view's pages.
pub open spec fn is_refused(custody: CustodyModel, view: VmViewId) -> bool {
    match custody {
        CustodyModel::DomainBlocked(_) => true,
        CustodyModel::Present { view: holder, .. } => holder != view,
        CustodyModel::Retiring { view: holder, .. } => holder != view,
        _ => false,
    }
}

/// Some other live family holds real pages in a range.
pub open spec fn foreign_in(m: DomainModel, view: VmViewId, start: int, end: int) -> bool {
    match family_of(m, view) {
        Some(family) => exists|k: int| start <= k < end && #[trigger] foreign_at(m, family.raw, k),
        None => false,
    }
}

/// Whether a hand-off may touch a range: no other live family holds real pages there, and nothing
/// recorded there is blocked or another view's.
pub open spec fn access_allowed(m: DomainModel, view: VmViewId, start: int, end: int) -> bool {
    start >= end || (!foreign_in(m, view, start, end) && forall|i: int|
        0 <= i < fragments(m, view, start, end).len() ==> !is_refused(
            (#[trigger] fragments(m, view, start, end)[i]).2,
            view,
        ))
}

/// The obligation that a given-up session leaves behind.
pub open spec fn is_obligation_of(s: SessionModel, m: DomainModel, o: PoisonObligation) -> bool {
    &&& o.view == s.view
    &&& o.family == s.before.family
    &&& o.owner == (match view_snapshot(m, s.view) {
        Some(now) => now.owner,
        None => s.before.owner,
    })
    &&& o.pre_op_snapshot == s.before
    &&& o.post_op_snapshot == view_snapshot(m, s.view)
    &&& s.touched == Some((o.touched_range.start as int, o.touched_range.end as int))
    &&& fragment_models(o.touched_custody@) == fragments(
        m,
        s.view,
        o.touched_range.start as int,
        o.touched_range.end as int,
    )
    &&& o.admission_snapshot == (if m.views.dom().contains(s.view.raw) {
        Some(unpacked(m.views[s.view.raw].admission))
    } else {
        None
    })
    &&& o.failure == s.failure
    &&& o.scope == TerminalScope::FamilyScoped
    &&& match s.pending {
        Some(token) => o.rollback matches ObligationRollback::Recoverable { token: kept } && kept@
            == token,
        None => o.rollback is Terminal,
    }
}

/// The domain after a session was given up: untouched if it attempted no effect, else the family
/// is poisoned and the obligation kept.
pub open spec fn given_up(s: SessionModel, m: DomainModel, after: DomainModel) -> bool {
    if s.touched is None || !m.families.dom().contains(s.before.family.raw) {
        after == m
    } else {
        exists|o: PoisonObligation| #[trigger]
            is_obligation_of(s, m, o) && after == with_obligation(
                with_failure(
                    family_poisoned(m, s.before.family),
                    s.before.family.raw,
                    s.failure,
                ),
                o,
            )
    }
}

/// A session that attempted no effect poisons nothing when it is given up.
pub proof fn lemma_untouched_session_poisons_nothing(s: SessionModel, m: DomainModel, after: DomainModel)
    requires
        s.touched is None,
        given_up(s, m, after),
    ensures
        after == m,
{
}

/// A session that is given up while it holds a token leaves the range recoverable, and poisons its
/// family and no other.
pub proof fn lemma_held_token_is_recoverable(s: SessionModel, m: DomainModel, after: DomainModel, family: u64)
    requires
        s.touched is Some,
        m.families.dom().contains(s.before.family.raw),
        m.families.dom().contains(family),
        given_up(s, m, after),
    ensures
        after.families[family].poisoned == (m.families[family].poisoned || family
            == s.before.family.raw),
        after.obligations.dom().contains(s.failure.raw),
        s.pending matches Some(token) ==> (after.obligations[s.failure.raw].rollback matches
            ObligationRollback::Recoverable { token: kept } && kept@ == token),
{
}

/// A failure that an obligation was ever kept under, or that was put on a family's record.
pub open spec fn is_recorded(m: DomainModel, failure: FailureId) -> bool {
    m.obligations.dom().contains(failure.raw) || exists|family: u64, i: int|
        0 <= i < failures_of(m, family).len() && (#[trigger] failures_of(m, family)[i]).raw
            == failure.raw
}

/// A list that does not hold a failure has the same obligations before and after one was stored for
/// it.
proof fn lemma_stored_without(m: DomainModel, after: DomainModel, list: Seq<FailureId>, failure: FailureId)
    requires
        after.obligations.dom() == m.obligations.dom().insert(failure.raw),
        forall|i: int| 0 <= i < list.len() ==> (#[trigger] list[i]).raw != failure.raw,
    ensures
        stored_failures(after, list) == stored_failures(m, list),
    decreases list.len(),
{
    if list.len() > 0 {
        assert forall|i: int| 0 <= i < list.drop_last().len() implies (#[trigger] list.drop_last()[i]).raw
            != failure.raw by {
            assert(list.drop_last()[i] == list[i]);
        }
        lemma_stored_without(m, after, list.drop_last(), failure);
        assert(list[list.len() - 1] == list.last());
    }
}

/// The failure identities of the open sessions are told apart from those on record: `open` holds those
/// of the sessions that were opened and neither closed nor given up, `minted` is how many were handed
/// out. No open session's identity is on record, and nothing is on record that was not handed out.
pub open spec fn failures_apart(m: DomainModel, open: Set<u64>, minted: int) -> bool {
    &&& forall|id: u64| #[trigger]
        open.contains(id) ==> id <= minted && !is_recorded(m, FailureId { raw: id })
    &&& forall|failure: FailureId| #[trigger] is_recorded(m, failure) ==> failure.raw <= minted
}

/// The same failures are on record before and after.
pub open spec fn same_records(before: DomainModel, after: DomainModel) -> bool {
    &&& after.obligations == before.obligations
    &&& after.obligation_index == before.obligation_index
}

/// A new domain has nothing on record, and no session is open on it.
pub proof fn lemma_new_domain_has_no_record(
    m: DomainModel,
    aperture: (int, int),
    declared: Seq<(int, int)>,
    first: IssuedIds,
)
    requires
        is_fresh_domain(m, aperture, declared, first),
    ensures
        failures_apart(m, Set::empty(), 0),
{
    assert forall|failure: FailureId| !(#[trigger] is_recorded(m, failure)) by {
        assert(forall|family: u64| #[trigger] failures_of(m, family) == Seq::<FailureId>::empty());
    }
}

/// A session is opened under a failure identity that is not on record and that no open session has;
/// where none is opened, nothing changes.
pub proof fn lemma_opened_session_is_unrecorded(
    m: DomainModel,
    open: Set<u64>,
    snapshot: VmViewSnapshot,
    task: TaskInstanceId,
    before: (GateModel, int, int),
    after: (GateModel, int, int),
    result: Result<SessionOpening, DomainConflict>,
)
    requires
        failures_apart(m, open, before.2),
        0 <= before.2,
        session_entered(snapshot, task, before, after, result),
    ensures
        match result {
            Ok(SessionOpening::Opened(session)) => {
                &&& !is_recorded(m, session@.failure)
                &&& !open.contains(session@.failure.raw)
                &&& failures_apart(m, open.insert(session@.failure.raw), after.2)
            },
            _ => failures_apart(m, open, after.2),
        },
{
}

/// What changes nothing that is on record keeps open sessions apart from it.
pub proof fn lemma_same_records_stay_apart(m: DomainModel, after: DomainModel, open: Set<u64>, minted: int)
    requires
        failures_apart(m, open, minted),
        same_records(m, after),
    ensures
        failures_apart(after, open, minted),
{
    assert(forall|family: u64| #[trigger] failures_of(after, family) == failures_of(m, family));
    assert forall|failure: FailureId| #[trigger] is_recorded(after, failure) == is_recorded(m, failure) by {
        if is_recorded(after, failure) && !after.obligations.dom().contains(failure.raw) {
            let (family, i) = choose|family: u64, i: int|
                0 <= i < failures_of(after, family).len() && (#[trigger] failures_of(after, family)[i]).raw
                    == failure.raw;
            assert(failures_of(m, family)[i].raw == failure.raw);
        }
        if is_recorded(m, failure) && !m.obligations.dom().contains(failure.raw) {
            let (family, i) = choose|family: u64, i: int|
                0 <= i < failures_of(m, family).len() && (#[trigger] failures_of(m, family)[i]).raw
                    == failure.raw;
            assert(failures_of(after, family)[i].raw == failure.raw);
        }
    }
    assert forall|id: u64| #[trigger] open.contains(id) implies id <= minted && !is_recorded(
        after,
        FailureId { raw: id },
    ) by {
        assert(!is_recorded(m, FailureId { raw: id }));
        assert(is_recorded(after, FailureId { raw: id }) == is_recorded(m, FailureId { raw: id }));
    }
}

/// No effect that a session has on the domain puts anything on record, whatever the host answers.
pub proof fn lemma_effects_record_nothing(
    m: DomainModel,
    view: VmViewId,
    range: (int, int),
    token: TokenModel,
    claim: (ClaimInFlight, Result<(), ClaimHostError>),
    install: InstallInFlight,
    retire: RetireInFlight,
    release: ReleaseInFlight,
    answer: Result<(), ()>,
)
    ensures
        same_records(m, present_published(m, view, range.0, range.1).0),
        same_records(m, reserved_published(m, view, range.0, range.1).0),
        same_records(m, claim_begun(m, view, range.0, range.1).0),
        same_records(m, claim_finished(m, claim.0, claim.1).0),
        same_records(m, install_begun(m, token, view).0),
        same_records(m, install_finished(m, install, answer).0),
        same_records(m, replace_begun(m, view, range.0, range.1).0),
        same_records(m, replace_finished(m, install, answer).0),
        same_records(m, retire_begun(m, view, range.0, range.1).0),
        same_records(m, retire_finished(m, retire, answer).0),
        same_records(m, release_begun(m, token).0),
        same_records(m, release_finished(m, release, answer).0),
{
}

/// Recording a failure that no open session has keeps the open sessions apart from the record.
proof fn lemma_recorded_apart(
    m: DomainModel,
    after: DomainModel,
    open: Set<u64>,
    minted: int,
    family: u64,
    failure: FailureId,
)
    requires
        failures_apart(m, open, minted),
        failure.raw <= minted,
        after.obligations.dom() == m.obligations.dom().insert(failure.raw),
        forall|other: u64| #[trigger]
            failures_of(after, other) == (if other == family {
                failures_of(m, other).push(failure)
            } else {
                failures_of(m, other)
            }),
    ensures
        failures_apart(after, open.remove(failure.raw), minted),
{
    assert forall|other: FailureId| #[trigger] is_recorded(after, other) implies other.raw == failure.raw
        || is_recorded(m, other) by {
        if other.raw != failure.raw && !m.obligations.dom().contains(other.raw) {
            let (at, i) = choose|at: u64, i: int|
                0 <= i < failures_of(after, at).len() && (#[trigger] failures_of(after, at)[i]).raw
                    == other.raw;
            assert(i < failures_of(m, at).len());
            assert(failures_of(m, at)[i].raw == other.raw);
        }
    }
    assert forall|id: u64| #[trigger] open.remove(failure.raw).contains(id) implies id <= minted
        && !is_recorded(after, FailureId { raw: id }) by {
        assert(open.contains(id));
        assert(!is_recorded(m, FailureId { raw: id }));
    }
}

/// Closing a session, and giving one up, leaves every other open session's failure identity off the
/// record.
pub proof fn lemma_ended_session_leaves_the_others_unrecorded(
    s: SessionModel,
    m: DomainModel,
    after: DomainModel,
    open: Set<u64>,
    minted: int,
)
    requires
        failures_apart(m, open, minted),
        open.contains(s.failure.raw),
        given_up(s, m, after),
    ensures
        failures_apart(m, open.remove(s.failure.raw), minted),
        failures_apart(after, open.remove(s.failure.raw), minted),
{
    assert forall|id: u64| #[trigger] open.remove(s.failure.raw).contains(id) implies open.contains(id) by {}
    if s.touched is Some && m.families.dom().contains(s.before.family.raw) {
        assert(after.obligations.dom() =~= m.obligations.dom().insert(s.failure.raw));
        lemma_recorded_apart(m, after, open, minted, s.before.family.raw, s.failure);
    }
}

/// A session that attempted an effect and is given up hands the effect gate back, poisons its family
/// with every view of it, and puts exactly one obligation on the family's record, as the last one: it
/// names the session's view and is scoped to the family. The obligations before it stay as they are.
pub proof fn lemma_given_up_session_leaves_one_obligation(
    s: SessionModel,
    m: DomainModel,
    after: DomainModel,
    gate: GateModel,
    open: Set<u64>,
    minted: int,
)
    requires
        s.touched is Some,
        m.families.dom().contains(s.before.family.raw),
        failures_apart(m, open, minted),
        open.contains(s.failure.raw),
        given_up(s, m, after),
    ensures
        gate_freed(gate).owner == 0,
        gate_freed(gate).depth == 0,
        after.families == m.families.insert(
            s.before.family.raw,
            (FamilyRecord { poisoned: true, ..m.families[s.before.family.raw] }),
        ),
        after.views.dom() == m.views.dom(),
        forall|id: u64| #[trigger]
            m.views.dom().contains(id) ==> after.views[id] == (if m.views[id].family
                == s.before.family {
                overlaid(m.views[id], ViewOverlay::Poisoned)
            } else {
                m.views[id]
            }),
        stored_failures(after, failures_of(after, s.before.family.raw)) == stored_failures(
            m,
            failures_of(m, s.before.family.raw),
        ).push(s.failure),
        after.obligations.dom() == m.obligations.dom().insert(s.failure.raw),
        forall|id: u64| #[trigger]
            m.obligations.dom().contains(id) ==> after.obligations[id] == m.obligations[id],
        after.obligations[s.failure.raw].view == s.view,
        after.obligations[s.failure.raw].family == s.before.family,
        after.obligations[s.failure.raw].scope == TerminalScope::FamilyScoped,
{
    assert(!is_recorded(m, s.failure));
    let family = s.before.family.raw;
    let list = failures_of(m, family);
    let longer = failures_of(after, family);
    assert(longer == list.push(s.failure));
    assert(after.obligations.dom() =~= m.obligations.dom().insert(s.failure.raw));
    assert(after.views.dom() =~= m.views.dom());
    assert forall|i: int| 0 <= i < list.len() implies (#[trigger] list[i]).raw != s.failure.raw by {
        assert(failures_of(m, family)[i].raw != s.failure.raw);
    }
    lemma_stored_without(m, after, list, s.failure);
    assert(longer.drop_last() =~= list);
    assert(longer.last() == s.failure);
}

/// Every entry of either list is in the merged list.
proof fn lemma_merged_keeps(
    a: Seq<(int, int, CustodyModel)>,
    b: Seq<(int, int, CustodyModel)>,
    entry: (int, int, CustodyModel),
)
    requires
        a.contains(entry) || b.contains(entry),
    ensures
        merged(a, b).contains(entry),
    decreases a.len() + b.len(),
{
    if a.len() > 0 && b.len() > 0 {
        let first_is_a = a[0].0 <= b[0].0;
        let (head, a2, b2) = if first_is_a {
            (a[0], a.drop_first(), b)
        } else {
            (b[0], a, b.drop_first())
        };
        let tail = merged(a2, b2);
        assert(merged(a, b) == seq![head] + tail);
        if entry == head {
            assert((seq![head] + tail)[0] == entry);
        } else {
            if a.contains(entry) {
                let i = a.index_of(entry);
                if first_is_a {
                    assert(a2[i - 1] == entry);
                } else {
                    assert(a2[i] == entry);
                }
            } else {
                let i = b.index_of(entry);
                if first_is_a {
                    assert(b2[i] == entry);
                } else {
                    assert(b2[i - 1] == entry);
                }
            }
            lemma_merged_keeps(a2, b2, entry);
            let j = tail.index_of(entry);
            assert((seq![head] + tail)[j + 1] == entry);
        }
    }
}

/// A hand-off is let through to no address that is blocked, or that another view of the family, or
/// another live family, has real pages at.
pub proof fn lemma_access_is_confined(m: DomainModel, view: VmViewId, start: int, end: int, k: int)
    requires
        access_allowed(m, view, start, end),
        start <= k < end,
        family_of(m, view) is Some,
    ensures
        lookup(m.blocked, k) is None,
        lookup(custody_of(m, family_of(m, view)->0), k) matches Some(custody) ==> !is_refused(
            custody,
            view,
        ),
        !foreign_at(m, family_of(m, view)->0.raw, k),
{
    let family = family_of(m, view)->0;
    let own = custody_of(m, family);
    let a = pieces(own, start, end);
    let plain = pieces(m.blocked, start, end);
    let b = as_custody(plain);
    let list = fragments(m, view, start, end);
    lemma_pieces(own, start, end);
    lemma_pieces(m.blocked, start, end);
    if lookup(m.blocked, k) is Some {
        assert(covered(plain, k));
        let i = choose|i: int| 0 <= i < plain.len() && (#[trigger] plain[i]).0 <= k < plain[i].1;
        assert(b[i].2 is DomainBlocked);
        assert(b.contains(b[i]));
        lemma_merged_keeps(a, b, b[i]);
        let j = list.index_of(b[i]);
        assert(is_refused(list[j].2, view));
    }
    if lookup(own, k) is Some {
        assert(covered(a, k));
        let i = choose|i: int| 0 <= i < a.len() && (#[trigger] a[i]).0 <= k < a[i].1;
        assert(lookup(own, k) == Some(a[i].2));
        assert(a.contains(a[i]));
        lemma_merged_keeps(a, b, a[i]);
        let j = list.index_of(a[i]);
        assert(!is_refused(list[j].2, view));
    }
}

/// Going in or leaving an inner level wakes nobody. Handing the effect gate back changes the count of
/// hand-backs, so that every waiter sees it.
pub proof fn lemma_hand_back_is_seen(gate: GateModel, task: TaskInstanceId)
    requires
        gate.depth > 0,
        gate.owner != 0,
    ensures
        gate_entered(gate, task) matches Some(entered) ==> entered.wakes == gate.wakes,
        gate_left(gate).owner == 0 <==> gate.depth == 1,
        gate_left(gate).owner != 0 ==> gate_left(gate).owner == gate.owner && gate_left(gate).wakes
            == gate.wakes && gate_left(gate).depth == gate.depth - 1,
        gate_left(gate).owner == 0 ==> gate_left(gate).wakes != gate.wakes && gate_left(gate).depth == 0
            && gate_entered(gate_left(gate), task) is Some,
        gate_freed(gate).wakes != gate.wakes,
{
}

/// A session pins a view exactly if it is registered and active, and then as the view is; a view that is
/// not registered is not found, and one that is not active is not installed.
pub proof fn lemma_active_view_is_pinned(m: DomainModel, view: VmViewId)
    ensures
        pinnable(m, view) is Ok <==> m.views.dom().contains(view.raw) && m.views[view.raw].overlay
            == ViewOverlay::Active,
        pinnable(m, view) == Err::<VmViewSnapshot, DomainConflict>(DomainConflict::NotFound)
            <==> !m.views.dom().contains(view.raw),
        pinnable(m, view) is Err && m.views.dom().contains(view.raw) ==> pinnable(m, view) == Err::<
            VmViewSnapshot,
            DomainConflict,
        >(DomainConflict::NotInstalled),
        pinnable(m, view) matches Ok(snapshot) ==> snapshot.id == view && snapshot.family
            == m.views[view.raw].family && snapshot.owner == m.views[view.raw].owner,
{
}

/// A session that is opened is new in every respect: no session or failure before it had its identities,
/// it attempted nothing and holds nothing, and its task holds the effect gate as deep as the session
/// says. Where another task holds the effect gate nothing happens at all, and no session is opened
/// without two identities.
pub proof fn lemma_opened_session_is_new(
    snapshot: VmViewSnapshot,
    task: TaskInstanceId,
    before: (GateModel, int, int),
    after: (GateModel, int, int),
    result: Result<SessionOpening, DomainConflict>,
)
    requires
        task.raw != 0,
        0 <= before.1 <= u64::MAX,
        0 <= before.2 <= u64::MAX,
        session_entered(snapshot, task, before, after, result),
    ensures
        result matches Ok(SessionOpening::Busy) <==> before.0.owner != 0 && before.0.owner != task.raw,
        result matches Ok(SessionOpening::Busy) ==> after == before,
        result matches Ok(SessionOpening::Opened(session)) ==> {
            &&& session@.view == snapshot.id
            &&& session@.before == snapshot
            &&& session@.task == task
            &&& before.1 < session@.id.raw <= after.1
            &&& before.2 < session@.failure.raw <= after.2
            &&& session@.touched is None
            &&& session@.pending is None
            &&& after.0.owner == task.raw
            &&& after.0.depth == session@.depth
        },
        result is Err <==> (before.0.owner == 0 || before.0.owner == task.raw) && (before.1 == u64::MAX
            || before.2 == u64::MAX),
        result matches Err(error) ==> error == DomainConflict::IdentityExhausted,
{
}

/// What a given-up session leaves behind tells the session: which view and family, as they were when it
/// was opened and as they are now, the last range that it touched, and the failure that was minted for it.
/// It can be rolled back exactly if the session held a token, and then by that token.
pub proof fn lemma_obligation_tells_the_session(s: SessionModel, m: DomainModel, after: DomainModel)
    requires
        s.touched is Some,
        m.families.dom().contains(s.before.family.raw),
        given_up(s, m, after),
    ensures
        after.obligations.dom().contains(s.failure.raw),
        ({
            let o = after.obligations[s.failure.raw];
            &&& o.failure == s.failure
            &&& o.view == s.view
            &&& o.family == s.before.family
            &&& o.pre_op_snapshot == s.before
            &&& o.post_op_snapshot == view_snapshot(m, s.view)
            &&& s.touched == Some((o.touched_range.start as int, o.touched_range.end as int))
            &&& o.post_op_snapshot matches Some(now) ==> o.owner == now.owner
            &&& o.post_op_snapshot is None ==> o.owner == s.before.owner
            &&& s.pending is None <==> o.rollback is Terminal
        }),
{
}

/// The last attempt alone is what a session touched, and a token that a later effect yields is the one
/// that it holds; an effect that yields none leaves what it held.
pub proof fn lemma_last_effect_counts(
    s: SessionModel,
    first: (int, int),
    second: (int, int),
    result: Result<TokenModel, DomainConflict>,
)
    ensures
        session_touched(session_touched(s, first.0, first.1), second.0, second.1).touched == Some(second),
        session_touched(s, first.0, first.1).pending == s.pending,
        session_touched(s, first.0, first.1).failure == s.failure,
        result matches Ok(token) ==> session_holding(s, result).pending == Some(token),
        result is Err ==> session_holding(s, result) == s,
        session_holding(s, result).touched == s.touched,
{
}

/// Every entry of the merged list is in one of the two.
proof fn lemma_merged_adds_nothing(
    a: Seq<(int, int, CustodyModel)>,
    b: Seq<(int, int, CustodyModel)>,
    j: int,
)
    requires
        0 <= j < merged(a, b).len(),
    ensures
        a.contains(merged(a, b)[j]) || b.contains(merged(a, b)[j]),
    decreases a.len() + b.len(),
{
    let entry = merged(a, b)[j];
    if a.len() > 0 && b.len() > 0 {
        let first_is_a = a[0].0 <= b[0].0;
        let (head, a2, b2) = if first_is_a {
            (a[0], a.drop_first(), b)
        } else {
            (b[0], a, b.drop_first())
        };
        let tail = merged(a2, b2);
        assert(merged(a, b) == seq![head] + tail);
        if j == 0 {
            assert(entry == head);
            assert(if first_is_a { a[0] == entry } else { b[0] == entry });
        } else {
            assert(entry == tail[j - 1]);
            lemma_merged_adds_nothing(a2, b2, j - 1);
            if a2.contains(entry) {
                let i = a2.index_of(entry);
                assert(a[if first_is_a { i + 1 } else { i }] == entry);
            } else {
                let i = b2.index_of(entry);
                assert(b[if first_is_a { i } else { i + 1 }] == entry);
            }
        }
    } else if a.len() > 0 {
        assert(merged(a, b) =~= a);
        assert(a[j] == entry);
    } else {
        assert(merged(a, b) =~= b);
        assert(b[j] == entry);
    }
}

/// An address that a view may reach: nothing there is blocked, real pages there are the view's own, and no
/// other live family has any there.
pub open spec fn is_reachable(m: DomainModel, view: VmViewId, k: int) -> bool {
    let family = m.views[view.raw].family;
    &&& lookup(m.blocked, k) is None
    &&& match lookup(custody_of(m, family), k) {
        Some(CustodyModel::DomainBlocked(_)) => false,
        Some(CustodyModel::Present { view: holder, .. }) => holder.raw == view.raw,
        Some(CustodyModel::Retiring { view: holder, .. }) => holder.raw == view.raw,
        _ => true,
    }
    &&& !foreign_at(m, family.raw, k)
}

/// A hand-off is let through exactly to ranges that the view may reach at every address.
pub proof fn lemma_reachable_range_is_accessed(m: DomainModel, view: VmViewId, start: int, end: int)
    requires
        m.views.dom().contains(view.raw),
    ensures
        access_allowed(m, view, start, end) <==> forall|k: int|
            start <= k < end ==> #[trigger] is_reachable(m, view, k),
{
    let family = m.views[view.raw].family;
    let own = custody_of(m, family);
    if access_allowed(m, view, start, end) {
        assert forall|k: int| start <= k < end implies #[trigger] is_reachable(m, view, k) by {
            lemma_access_is_confined(m, view, start, end, k);
        }
    }
    if start < end && forall|k: int| start <= k < end ==> #[trigger] is_reachable(m, view, k) {
        let a = pieces(own, start, end);
        let plain = pieces(m.blocked, start, end);
        let b = as_custody(plain);
        let list = fragments(m, view, start, end);
        lemma_pieces(own, start, end);
        lemma_pieces(m.blocked, start, end);
        assert(b.len() == 0) by {
            if b.len() > 0 {
                let k = plain[0].0;
                assert(is_reachable(m, view, k));
            }
        }
        assert forall|j: int| 0 <= j < list.len() implies !is_refused((#[trigger] list[j]).2, view) by {
            lemma_merged_adds_nothing(a, b, j);
            assert(a.contains(list[j]));
            let i = a.index_of(list[j]);
            let k = a[i].0;
            assert(is_reachable(m, view, k));
        }
        assert forall|k: int| start <= k < end implies !#[trigger] foreign_at(m, family.raw, k) by {
            assert(is_reachable(m, view, k));
        }
    }
}

/// What going through the effect gate over a view that was looked at before comes to. `before` and
/// `after` hold the effect gate and how many session and failure identities were minted.
pub open spec fn session_entered(
    snapshot: VmViewSnapshot,
    task: TaskInstanceId,
    before: (GateModel, int, int),
    after: (GateModel, int, int),
    result: Result<SessionOpening, DomainConflict>,
) -> bool {
    match gate_entered(before.0, task) {
        None => (result matches Ok(SessionOpening::Busy)) && after == before,
        Some(entered) => {
            if before.1 >= u64::MAX {
                (result matches Err(error) && error == DomainConflict::IdentityExhausted)
                    && after == (entered, before.1, before.2)
            } else if before.2 >= u64::MAX {
                (result matches Err(error) && error == DomainConflict::IdentityExhausted)
                    && after == (entered, before.1 + 1, before.2)
            } else {
                (result matches Ok(SessionOpening::Opened(session)) && session@ == (SessionModel {
                    view: snapshot.id,
                    task,
                    id: MemorySessionId { raw: (before.1 + 1) as u64 },
                    depth: entered.depth,
                    failure: FailureId { raw: (before.2 + 1) as u64 },
                    before: snapshot,
                    touched: None,
                    pending: None,
                })) && after == (entered, before.1 + 1, before.2 + 1)
            }
        },
    }
}

impl MemoryEffectSession {
    /// Looks at the view that a session is to pin.
    pub fn prepare(domain: &GuestVaDomain, view: VmViewId) -> (result: Result<VmViewSnapshot, DomainConflict>)
        requires
            domain.wf(),
        ensures
            result == pinnable(domain@, view),
    {
        match domain.query_view(view) {
            None => Err(DomainConflict::NotFound),
            Some(snapshot) => {
                if snapshot.overlay != ViewOverlay::Active {
                    Err(DomainConflict::NotInstalled)
                } else {
                    Ok(snapshot)
                }
            },
        }
    }

    /// Goes through the effect gate for a view that was looked at before, and mints what the session will
    /// ever need. Where an identity space is exhausted the effect gate stays entered.
    pub fn enter(
        gate: &mut EffectGate,
        sessions: &mut IdCounter,
        failures: &mut IdCounter,
        snapshot: VmViewSnapshot,
        task: TaskInstanceId,
    ) -> (result: Result<SessionOpening, DomainConflict>)
        requires
            task.raw != 0,
            old(gate)@.owner == task.raw ==> old(gate)@.depth < u32::MAX,
        ensures
            session_entered(
                snapshot,
                task,
                (old(gate)@, old(sessions).issued() as int, old(failures).issued() as int),
                (final(gate)@, final(sessions).issued() as int, final(failures).issued() as int),
                result,
            ),
    {
        let depth: u32 = match gate.enter(task) {
            Some(depth) => depth,
            None => {
                return Ok(SessionOpening::Busy);
            },
        };
        let id = match sessions.next() {
            Some(raw) => MemorySessionId { raw },
            None => {
                return Err(DomainConflict::IdentityExhausted);
            },
        };
        let failure = match failures.next() {
            Some(raw) => FailureId { raw },
            None => {
                return Err(DomainConflict::IdentityExhausted);
            },
        };
        Ok(
            SessionOpening::Opened(
                MemoryEffectSession {
                    view: snapshot.id,
                    task,
                    id,
                    depth,
                    draft: ObligationDraft {
                        failure,
                        pre_op_snapshot: snapshot,
                        touched_range: None,
                        pending_token: None,
                    },
                },
            ),
        )
    }

    /// Opens a session over a view on behalf of a task. It nests where the task holds the effect gate
    /// already; where another task does, nothing is opened yet.
    pub fn open(
        domain: &GuestVaDomain,
        gate: &mut EffectGate,
        sessions: &mut IdCounter,
        failures: &mut IdCounter,
        view: VmViewId,
        task: TaskInstanceId,
    ) -> (result: Result<SessionOpening, DomainConflict>)
        requires
            domain.wf(),
            task.raw != 0,
            old(gate)@.owner == task.raw ==> old(gate)@.depth < u32::MAX,
        ensures
            match pinnable(domain@, view) {
                Err(error) => result == Err::<SessionOpening, DomainConflict>(error)
                    && final(gate)@ == old(gate)@
                    && final(sessions).issued() == old(sessions).issued()
                    && final(failures).issued() == old(failures).issued(),
                Ok(snapshot) => session_entered(
                    snapshot,
                    task,
                    (old(gate)@, old(sessions).issued() as int, old(failures).issued() as int),
                    (final(gate)@, final(sessions).issued() as int, final(failures).issued() as int),
                    result,
                ),
            },
            forall|open: Set<u64>| #[trigger]
                failures_apart(domain@, open, old(failures).issued() as int) ==> match result {
                    Ok(SessionOpening::Opened(session)) => !open.contains(session@.failure.raw)
                        && failures_apart(
                        domain@,
                        open.insert(session@.failure.raw),
                        final(failures).issued() as int,
                    ),
                    _ => failures_apart(domain@, open, final(failures).issued() as int),
                },
    {
        match Self::prepare(domain, view) {
            Ok(snapshot) => Self::enter(gate, sessions, failures, snapshot, task),
            Err(error) => Err(error),
        }
    }

    /// This session's own identity.
    pub fn id(&self) -> (id: MemorySessionId)
        ensures
            id == self@.id,
    {
        self.id
    }

    /// The view this session is pinned to.
    pub fn pinned_view(&self) -> (view: VmViewId)
        ensures
            view == self@.view,
    {
        self.view
    }

    /// The task this session was opened for.
    pub fn task(&self) -> (task: TaskInstanceId)
        ensures
            task == self@.task,
    {
        self.task
    }

    /// This session's nesting depth: 1 for the outermost session on its gate.
    pub fn depth(&self) -> (depth: u32)
        ensures
            depth == self@.depth,
    {
        self.depth
    }

    /// See [`GuestVaDomain::claim_hole`]. The session holds the token it yields.
    pub fn claim_hole<F: FnOnce(Range<usize>) -> Result<(), ClaimHostError>>(
        &mut self,
        domain: &mut GuestVaDomain,
        range: Range<usize>,
        host_reserve: F,
    ) -> (result: Result<HoleToken, DomainConflict>)
        requires
            old(domain).wf(),
            call_requires(host_reserve, (range,)),
        ensures
            final(domain).wf(),
            final(self)@ == session_holding(
                session_touched(old(self)@, range.start as int, range.end as int),
                token_result(result),
            ),
            match claim_begun(old(domain)@, old(self)@.view, range.start as int, range.end as int) {
                (after, Err(error)) => final(domain)@ == after && result == Err::<
                    HoleToken,
                    DomainConflict,
                >(error),
                (after, Ok(claim)) => exists|answer: Result<(), ClaimHostError>| #[trigger]
                    call_ensures(host_reserve, (range,), answer) && (
                        final(domain)@,
                        token_result(result),
                    ) == claim_finished(after, claim, answer),
            },
    {
        self.draft.touched_range = Some(range.start..range.end);
        let result = domain.claim_hole(self.view, range, host_reserve);
        self.hold(&result);
        result
    }

    /// Keeps the token that an effect yielded.
    fn hold(&mut self, result: &Result<HoleToken, DomainConflict>)
        ensures
            final(self)@ == session_holding(old(self)@, token_result(*result)),
    {
        if let Ok(token) = result {
            self.draft.pending_token = Some(token.clone());
        }
    }

    /// See [`GuestVaDomain::begin_install`]. From here on the session no longer holds a token: one whose
    /// install has begun cannot be released any more.
    pub fn begin_install(&mut self, domain: &mut GuestVaDomain, token: &HoleToken, view: VmViewId) -> (result:
        Result<InstallInFlight, DomainConflict>)
        requires
            old(domain).wf(),
            token.wf(),
        ensures
            final(domain).wf(),
            (final(domain)@, result) == install_begun(old(domain)@, token@, view),
            result matches Ok(started) ==> started.start < started.end,
            final(self)@ == (SessionModel {
                pending: None,
                ..session_touched(old(self)@, token@.start, token@.end)
            }),
    {
        self.draft.touched_range = Some(token.range());
        self.draft.pending_token = None;
        domain.begin_install(token, view)
    }

    /// See [`GuestVaDomain::finish_install`].
    pub fn finish_install(
        &mut self,
        domain: &mut GuestVaDomain,
        started: InstallInFlight,
        answer: Result<(), ()>,
    ) -> (result: Result<MutationId, DomainConflict>)
        requires
            old(domain).wf(),
            started.start < started.end,
        ensures
            final(domain).wf(),
            (final(domain)@, result) == install_finished(old(domain)@, started, answer),
            final(self)@ == old(self)@,
    {
        domain.finish_install(started, answer)
    }

    /// See [`GuestVaDomain::install_into_owned_hole`]. The token is consumed.
    pub fn install_into_owned_hole<F: FnOnce(Range<usize>) -> Result<(), ()>>(
        &mut self,
        domain: &mut GuestVaDomain,
        token: HoleToken,
        view: VmViewId,
        install: F,
    ) -> (result: Result<MutationId, DomainConflict>)
        requires
            old(domain).wf(),
            token.wf(),
            call_requires(install, (span(token@.start, token@.end),)),
        ensures
            final(domain).wf(),
            final(self)@ == (SessionModel {
                pending: None,
                ..session_touched(old(self)@, token@.start, token@.end)
            }),
            match install_begun(old(domain)@, token@, view) {
                (after, Err(error)) => final(domain)@ == after && result == Err::<
                    MutationId,
                    DomainConflict,
                >(error),
                (after, Ok(started)) => exists|answer: Result<(), ()>| #[trigger]
                    call_ensures(install, (span(token@.start, token@.end),), answer) && (
                        final(domain)@,
                        result,
                    ) == install_finished(after, started, answer),
            },
    {
        let started = match self.begin_install(domain, &token, view) {
            Ok(started) => started,
            Err(error) => {
                return Err(error);
            },
        };
        let answer = install(token.range());
        self.finish_install(domain, started, answer)
    }

    /// See [`GuestVaDomain::replace_present`].
    pub fn replace_present<F: FnOnce(Range<usize>) -> Result<(), ()>>(
        &mut self,
        domain: &mut GuestVaDomain,
        view: VmViewId,
        range: Range<usize>,
        replace: F,
    ) -> (result: Result<MutationId, DomainConflict>)
        requires
            old(domain).wf(),
            call_requires(replace, (range,)),
        ensures
            final(domain).wf(),
            final(self)@ == session_touched(old(self)@, range.start as int, range.end as int),
            match replace_begun(old(domain)@, view, range.start as int, range.end as int) {
                (after, Err(error)) => final(domain)@ == after && result == Err::<
                    MutationId,
                    DomainConflict,
                >(error),
                (after, Ok(started)) => exists|answer: Result<(), ()>| #[trigger]
                    call_ensures(replace, (range,), answer) && (final(domain)@, result)
                        == replace_finished(after, started, answer),
            },
    {
        self.draft.touched_range = Some(range.start..range.end);
        domain.replace_present(view, range, replace)
    }

    /// See [`GuestVaDomain::retire_to_owned_hole`]. The session holds the token it yields.
    pub fn retire_to_owned_hole<F: FnOnce(Range<usize>) -> Result<(), ()>>(
        &mut self,
        domain: &mut GuestVaDomain,
        view: VmViewId,
        range: Range<usize>,
        host_reset: F,
    ) -> (result: Result<HoleToken, DomainConflict>)
        requires
            old(domain).wf(),
            call_requires(host_reset, (range,)),
        ensures
            final(domain).wf(),
            final(self)@ == session_holding(
                session_touched(old(self)@, range.start as int, range.end as int),
                token_result(result),
            ),
            match retire_begun(old(domain)@, view, range.start as int, range.end as int) {
                (after, Err(error)) => final(domain)@ == after && result == Err::<
                    HoleToken,
                    DomainConflict,
                >(error),
                (after, Ok(started)) => exists|answer: Result<(), ()>| #[trigger]
                    call_ensures(host_reset, (range,), answer) && (
                        final(domain)@,
                        token_result(result),
                    ) == retire_finished(after, started, answer),
            },
    {
        self.draft.touched_range = Some(range.start..range.end);
        let result = domain.retire_to_owned_hole(view, range, host_reset);
        self.hold(&result);
        result
    }

    /// See [`GuestVaDomain::release_hole`]. The token is consumed.
    pub fn release_hole<F: FnOnce(Range<usize>) -> Result<(), ()>>(
        &mut self,
        domain: &mut GuestVaDomain,
        token: HoleToken,
        host_release: F,
    ) -> (result: Result<(), DomainConflict>)
        requires
            old(domain).wf(),
            token.wf(),
            call_requires(host_release, (span(token@.start, token@.end),)),
        ensures
            final(domain).wf(),
            final(self)@ == (SessionModel {
                pending: None,
                ..session_touched(old(self)@, token@.start, token@.end)
            }),
            match release_begun(old(domain)@, token@) {
                (after, Err(error)) => final(domain)@ == after && result == Err::<(), DomainConflict>(
                    error,
                ),
                (after, Ok(started)) => exists|answer: Result<(), ()>| #[trigger]
                    call_ensures(host_release, (span(token@.start, token@.end),), answer) && (
                        final(domain)@,
                        result,
                    ) == release_finished(after, started, answer),
            },
    {
        self.draft.touched_range = Some(token.range());
        self.draft.pending_token = None;
        domain.release_hole(token, host_release)
    }

    /// Runs the write side of an address-space hand-off, unless the range is somebody else's.
    pub fn switch_write<T, F: FnOnce() -> Option<T>>(
        &self,
        domain: &GuestVaDomain,
        range: Range<usize>,
        write: F,
    ) -> (result: Option<T>)
        requires
            domain.wf(),
            call_requires(write, ()),
        ensures
            if access_allowed(domain@, self@.view, range.start as int, range.end as int) {
                call_ensures(write, (), result)
            } else {
                result is None
            },
    {
        if self.own_or_untracked(domain, range) {
            write()
        } else {
            None
        }
    }

    /// Runs the read side of an address-space hand-off, unless the range is somebody else's.
    pub fn divergence_save_read<T, F: FnOnce() -> Option<T>>(
        &self,
        domain: &GuestVaDomain,
        range: Range<usize>,
        read: F,
    ) -> (result: Option<T>)
        requires
            domain.wf(),
            call_requires(read, ()),
        ensures
            if access_allowed(domain@, self@.view, range.start as int, range.end as int) {
                call_ensures(read, (), result)
            } else {
                result is None
            },
    {
        if self.own_or_untracked(domain, range) {
            read()
        } else {
            None
        }
    }

    /// Whether a hand-off may touch a range.
    pub fn own_or_untracked(&self, domain: &GuestVaDomain, range: Range<usize>) -> (allowed: bool)
        requires
            domain.wf(),
        ensures
            allowed == access_allowed(
                domain@,
                self@.view,
                range.start as int,
                range.end as int,
            ),
    {
        let (start, end) = (range.start, range.end);
        if start >= end {
            return true;
        }
        if domain.foreign_family_present(self.view, start..end) {
            return false;
        }
        let spans = domain.custody_fragments(self.view, start..end);
        let ghost list = fragments(domain@, self@.view, start as int, end as int);
        let mut i: usize = 0;
        while i < spans.len()
            invariant
                i <= spans@.len(),
                start < end,
                start == range.start,
                end == range.end,
                list == fragment_models(spans@),
                list == fragments(domain@, self@.view, start as int, end as int),
                forall|j: int| 0 <= j < i ==> !is_refused((#[trigger] list[j]).2, self@.view),
            decreases spans@.len() - i,
        {
            let refused = match &spans[i].1 {
                Custody::DomainBlocked(_) => true,
                Custody::Present { view, .. } => *view != self.view,
                Custody::Retiring { view, .. } => *view != self.view,
                _ => false,
            };
            proof {
                assert(list[i as int].2 == spans@[i as int].1@);
                assert(refused == is_refused(list[i as int].2, self@.view));
            }
            if refused {
                return false;
            }
            i += 1;
        }
        true
    }

    /// Closes the session in the well-nested case: one level of the effect gate is left.
    pub fn close(self, gate: &mut EffectGate)
        requires
            old(gate)@.depth > 0,
        ensures
            final(gate)@ == gate_left(old(gate)@),
    {
        gate.leave();
    }

    /// Gives the session up without closing it: the effect gate is handed back whatever its depth. If an
    /// effect was attempted, the family is poisoned and what was in flight is kept on record.
    pub fn abandon(self, domain: &mut GuestVaDomain, gate: &mut EffectGate)
        requires
            old(domain).wf(),
        ensures
            final(domain).wf(),
            final(gate)@ == gate_freed(old(gate)@),
            given_up(self@, old(domain)@, final(domain)@),
            forall|open: Set<u64>, minted: int| #[trigger]
                failures_apart(old(domain)@, open, minted) && open.contains(self@.failure.raw)
                    ==> failures_apart(final(domain)@, open.remove(self@.failure.raw), minted),
    {
        proof {
            assert forall|open: Set<u64>, minted: int, after: DomainModel|
                #[trigger] failures_apart(domain@, open, minted) && open.contains(self@.failure.raw)
                    && #[trigger] given_up(self@, domain@, after) implies failures_apart(
                after,
                open.remove(self@.failure.raw),
                minted,
            ) by {
                lemma_ended_session_leaves_the_others_unrecorded(self@, domain@, after, open, minted);
            }
        }
        gate.release();
        let MemoryEffectSession { view, draft, .. } = self;
        let ObligationDraft { failure, pre_op_snapshot, touched_range, pending_token } = draft;
        let range = match touched_range {
            Some(range) => range,
            None => {
                proof {
                    assert(given_up(self@, old(domain)@, domain@));
                }
                return;
            },
        };
        let post_op_snapshot = domain.query_view(view);
        let touched_custody = domain.custody_fragments(view, range.start..range.end);
        let admission_snapshot = domain.admission_snapshot(view);
        let rollback = match pending_token {
            Some(token) => ObligationRollback::Recoverable { token },
            None => ObligationRollback::Terminal,
        };
        let obligation = PoisonObligation {
            view,
            family: pre_op_snapshot.family,
            owner: match post_op_snapshot {
                Some(now) => now.owner,
                None => pre_op_snapshot.owner,
            },
            pre_op_snapshot,
            post_op_snapshot,
            touched_range: range,
            touched_custody,
            admission_snapshot,
            failure,
            scope: TerminalScope::FamilyScoped,
            rollback,
        };
        proof {
            assert(is_obligation_of(self@, domain@, obligation));
        }
        let _ = domain.mark_poison_with_obligation(obligation);
        proof {
            assert(given_up(self@, old(domain)@, domain@));
        }
    }
}

} // verus!
