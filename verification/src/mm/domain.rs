//! The process-global guest-virtual-address domain.
//!
//! One [`GuestVaDomain`] owns a fixed aperture of guest virtual addresses. Fork families register
//! logical views of that aperture. Each family has tables of its own: which view is installed at
//! an address, who has custody of it, and what a retired address held for the descendants that
//! still inherit it. What one family records is invisible to every other.
pub mod admission;
pub mod backing;
pub mod foreign;
pub mod holes;
pub mod laws;
pub mod lineage;
pub mod lookup;
pub mod poison;
pub mod publish;
pub mod registry;

use crate::id_map::IdMap;
use crate::ids::{
    FailureId, FamilyId, IdBlock, IdCounter, MemoryDomainId, ProcessInstanceId, TaskInstanceId, VmViewId,
};
use crate::mm::custody::{BlockOrigin, Custody, CustodyModel, HoleToken, SpanKind};
use crate::range_table::RangeTable;
use core::ops::Range;
use vstd::prelude::*;

verus! {

use crate::id_map::modelled_map;
use crate::range_map::lookup;

broadcast use {
    crate::range_map::lemma_lookup_put,
    crate::range_map::lemma_lookup_cut,
    crate::id_map::lemma_modelled_insert,
    crate::id_map::lemma_modelled_remove,
};

/// One platform-reserved span inside a domain's aperture that no view may ever claim.
#[derive(Debug, PartialEq, Eq)]
pub struct DomainBlocked(pub Range<usize>);

impl Clone for DomainBlocked {
    fn clone(&self) -> (copy: Self)
        ensures
            copy == *self,
    {
        DomainBlocked(self.0.start..self.0.end)
    }
}

/// Where a view sits in its own lifecycle.
#[derive(Clone, Copy, Debug, PartialEq, Eq, Structural)]
pub enum ViewOverlay {
    /// Registered, but has not yet published a present span.
    Installing,
    /// Has at least one present span.
    Active,
    /// Had its installed spans removed; its logical topology still exists.
    Retiring,
    /// The owning family has been marked poisoned.
    Poisoned,
    /// The owning family has been marked quarantined.
    Quarantined,
}

/// A typed conflict returned instead of ever deferring or blocking a publish.
#[derive(Clone, Copy, Debug, PartialEq, Eq, Structural)]
pub enum DomainConflict {
    /// The requested range is empty, or not fully inside the domain's aperture.
    OutsideAperture,
    /// The requested range overlaps a platform-reserved span.
    Blocked,
    /// The requested range overlaps another view's currently installed span.
    InstalledOverlap(VmViewId),
    /// An identity or effect-epoch counter space is exhausted.
    IdentityExhausted,
    /// The named family or view is not registered.
    NotFound,
    /// The requested range's custody is not what the operation requires.
    Occupied,
    /// The view's admission word is not open.
    Draining,
    /// The view exists but is not active.
    NotInstalled,
}

/// A view's run/access admission state.
#[derive(Clone, Copy, Debug, PartialEq, Eq, Structural)]
pub enum AdmissionState {
    /// New leases are admitted.
    Open,
    /// A drain is in flight: no new lease is admitted; already-held leases are unaffected.
    Draining,
    /// The view is permanently closed to new leases.
    Closed,
}

/// Outcome of a host reservation.
#[derive(Clone, Copy, Debug, PartialEq, Eq, Structural)]
pub enum ClaimHostError {
    /// The host refused this range for a reason attributable to another, uncontrolled owner.
    ForeignHost,
    /// Any other recoverable failure.
    Other,
}

/// Per-fork-family bookkeeping, kept independent of live view membership.
#[derive(Clone, Copy, Debug, PartialEq, Eq, Structural)]
pub struct FamilyRecord {
    /// The family this one was forked from, if any.
    pub parent: Option<FamilyId>,
    /// Whether this family has replaced its fork-inherited image with one of its own.
    pub exec_severed: bool,
    /// Count of views currently registered to this family.
    pub members: usize,
    /// Count of live leases outstanding for views of this family.
    pub lease_survivors: usize,
    /// Count of outstanding scheduler-ticket survivors.
    pub ticket_survivors: usize,
    /// Whether this family was poisoned.
    pub poisoned: bool,
    /// Whether this family was quarantined.
    pub quarantined: bool,
    /// Count of outstanding logical reservation survivors.
    pub reservation_survivors: usize,
}

/// The record of a family that was just registered.
pub open spec fn new_record(parent: Option<FamilyId>) -> FamilyRecord {
    FamilyRecord {
        parent,
        exec_severed: false,
        members: 0,
        lease_survivors: 0,
        ticket_survivors: 0,
        poisoned: false,
        quarantined: false,
        reservation_survivors: 0,
    }
}

impl Default for FamilyRecord {
    fn default() -> (record: Self)
        ensures
            record == new_record(None),
    {
        FamilyRecord {
            parent: None,
            exec_severed: false,
            members: 0,
            lease_survivors: 0,
            ticket_survivors: 0,
            poisoned: false,
            quarantined: false,
            reservation_survivors: 0,
        }
    }
}

/// The blast radius of a recorded poison.
#[derive(Clone, Copy, Debug, PartialEq, Eq, Structural)]
pub enum TerminalScope {
    /// Only one family was poisoned.
    FamilyScoped,
    /// Every family in the domain was poisoned.
    HvfProviderGlobal,
}

/// What a repair pass can still do with the range of a [`PoisonObligation`].
#[derive(Debug)]
pub enum ObligationRollback {
    /// A token for the range was never consumed: the range can still be handed back.
    Recoverable { token: HoleToken },
    /// No token survives.
    Terminal,
}

/// A durable record of what an effect session was doing when it poisoned its family.
pub struct PoisonObligation {
    /// The view whose session recorded this obligation.
    pub view: VmViewId,
    /// The family that was poisoned as a result.
    pub family: FamilyId,
    /// The task/process that owned the session.
    pub owner: (ProcessInstanceId, TaskInstanceId),
    /// The view before the effect was attempted.
    pub pre_op_snapshot: VmViewSnapshot,
    /// The view after the effect, if it was still registered then.
    pub post_op_snapshot: Option<VmViewSnapshot>,
    /// The address range the in-flight effect was operating over.
    pub touched_range: Range<usize>,
    /// Every custody fragment recorded over `touched_range` at capture time.
    pub touched_custody: Vec<(Range<usize>, Custody)>,
    /// The view's admission word, decomposed, at capture time.
    pub admission_snapshot: Option<(AdmissionState, u32, u32)>,
    /// This obligation's own identity.
    pub failure: FailureId,
    /// The blast radius this obligation's poison was recorded against.
    pub scope: TerminalScope,
    /// What a repair pass can still do with `touched_range`.
    pub rollback: ObligationRollback,
}

/// A snapshot of one view's identity and lifecycle state.
#[derive(Clone, Copy, Debug, PartialEq, Eq)]
pub struct VmViewSnapshot {
    /// This view's identity.
    pub id: VmViewId,
    /// The fork family this view belongs to.
    pub family: FamilyId,
    /// The process/task instance that owns this view.
    pub owner: (ProcessInstanceId, TaskInstanceId),
    /// This view's current lifecycle state.
    pub overlay: ViewOverlay,
}

/// One logical view of guest memory belonging to one fork family.
pub struct VmView {
    family: FamilyId,
    owner: (ProcessInstanceId, TaskInstanceId),
    overlay: ViewOverlay,
    topology: RangeTable<SpanKind>,
    admission: u64,
}

/// One fork family's own tables.
pub struct FamilyMaps {
    installed: RangeTable<VmViewId>,
    custody: RangeTable<Custody>,
    /// The oldest present custody of each address that was retired while a live family descended
    /// from this one. An entry, once set, is never overwritten.
    retired_lineage_snapshot: RangeTable<Custody>,
}

/// The mathematical value of a view.
#[verifier::ext_equal]
pub struct ViewModel {
    pub family: FamilyId,
    pub owner: (ProcessInstanceId, TaskInstanceId),
    pub overlay: ViewOverlay,
    pub topology: Map<int, SpanKind>,
    pub admission: u64,
}

/// The mathematical value of a family's tables.
#[verifier::ext_equal]
pub struct FamilyModel {
    pub installed: Map<int, VmViewId>,
    pub custody: Map<int, CustodyModel>,
    pub snapshot: Map<int, CustodyModel>,
}

/// How many identities of each kind a domain has handed out.
pub struct IssuedIds {
    pub family: u64,
    pub view: u64,
    pub mutation: u64,
    pub epoch: u64,
    pub generation: u64,
}

/// The mathematical value of a domain.
#[verifier::ext_equal]
pub struct DomainModel {
    pub id: MemoryDomainId,
    pub aperture: (int, int),
    /// The spans declared when the domain was made.
    pub declared: Seq<(int, int)>,
    pub families: Map<u64, FamilyRecord>,
    pub views: Map<u64, ViewModel>,
    pub maps: Map<u64, FamilyModel>,
    /// The permanently blocked addresses, for every family alike.
    pub blocked: Map<int, BlockOrigin>,
    pub obligations: Map<u64, PoisonObligation>,
    pub obligation_index: Map<u64, Seq<FailureId>>,
    pub issued: IssuedIds,
    /// The last identities that the domain may hand out.
    pub limits: IssuedIds,
    /// Effects whose custody could not be made authoritative.
    pub untracked: u64,
}

impl View for VmView {
    type V = ViewModel;

    closed spec fn view(&self) -> ViewModel {
        ViewModel {
            family: self.family,
            owner: self.owner,
            overlay: self.overlay,
            topology: self.topology@,
            admission: self.admission,
        }
    }
}

impl View for FamilyMaps {
    type V = FamilyModel;

    closed spec fn view(&self) -> FamilyModel {
        FamilyModel {
            installed: self.installed@,
            custody: self.custody@,
            snapshot: self.retired_lineage_snapshot@,
        }
    }
}

impl VmView {
    pub closed spec fn wf(&self) -> bool {
        self.topology.wf()
    }
}

impl FamilyMaps {
    pub closed spec fn wf(&self) -> bool {
        &&& self.installed.wf()
        &&& self.custody.wf()
        &&& self.retired_lineage_snapshot.wf()
    }

    fn new() -> (maps: Self)
        ensures
            maps.wf(),
            maps@ == empty_family(),
    {
        FamilyMaps {
            installed: RangeTable::new(),
            custody: RangeTable::new(),
            retired_lineage_snapshot: RangeTable::new(),
        }
    }
}

/// The tables of a family that was just registered.
pub open spec fn empty_family() -> FamilyModel {
    FamilyModel { installed: Map::empty(), custody: Map::empty(), snapshot: Map::empty() }
}

/// Every family has its tables, every view its family, and every parent was there before its child.
pub open spec fn lineage_ok(m: DomainModel) -> bool {
    &&& m.families.dom() == m.maps.dom()
    &&& forall|id: u64| #[trigger] m.families.dom().contains(id) ==> 0 < id <= m.issued.family
    &&& forall|id: u64| #[trigger] m.views.dom().contains(id) ==> 0 < id <= m.issued.view
        && m.families.dom().contains(m.views[id].family.raw)
    &&& forall|id: u64| #[trigger]
        m.families.dom().contains(id) ==> (m.families[id].parent matches Some(parent) ==> parent.raw < id
            && m.families.dom().contains(parent.raw))
}

/// The views of a family.
pub open spec fn members_of(views: Map<u64, ViewModel>, family: u64) -> Set<u64> {
    Set::new(|id: u64| views.dom().contains(id) && views[id].family.raw == family)
}

/// Every family counts its registered views.
pub open spec fn census_ok(families: Map<u64, FamilyRecord>, views: Map<u64, ViewModel>) -> bool {
    forall|family: u64| #[trigger]
        families.dom().contains(family) ==> members_of(views, family).finite() && members_of(
            views,
            family,
        ).len() == families[family].members
}

/// The count does not depend on anything but which view is in which family.
pub proof fn lemma_same_census(
    families: Map<u64, FamilyRecord>,
    views: Map<u64, ViewModel>,
    families2: Map<u64, FamilyRecord>,
    views2: Map<u64, ViewModel>,
)
    requires
        census_ok(families, views),
        forall|id: u64| #[trigger]
            views2.dom().contains(id) <==> views.dom().contains(id),
        forall|id: u64| #[trigger]
            views2.dom().contains(id) ==> views2[id].family == views[id].family,
        forall|id: u64| #[trigger]
            families2.dom().contains(id) ==> families.dom().contains(id) && families2[id].members
                == families[id].members,
    ensures
        census_ok(families2, views2),
{
    assert forall|family: u64| #[trigger] families2.dom().contains(family) implies members_of(
        views2,
        family,
    ).finite() && members_of(views2, family).len() == families2[family].members by {
        assert(members_of(views2, family) =~= members_of(views, family)) by {
            assert forall|id: u64| members_of(views2, family).contains(id) == members_of(
                views,
                family,
            ).contains(id) by {
                assert(views2.dom().contains(id) <==> views.dom().contains(id));
            }
        }
    }
}

/// A change that moves no view between families, adds no family, and only hands out more
/// identities keeps lineage and census.
pub proof fn lemma_kept(before: DomainModel, after: DomainModel)
    requires
        lineage_ok(before),
        census_ok(before.families, before.views),
        after.maps.dom() == before.maps.dom(),
        after.families.dom() == before.families.dom(),
        forall|id: u64| #[trigger]
            before.families.dom().contains(id) ==> after.families[id].members == before.families[id].members
                && after.families[id].parent == before.families[id].parent,
        after.views.dom() == before.views.dom(),
        forall|id: u64| #[trigger]
            before.views.dom().contains(id) ==> after.views[id].family == before.views[id].family,
        after.issued.family == before.issued.family,
        after.issued.view == before.issued.view,
    ensures
        lineage_ok(after),
        census_ok(after.families, after.views),
{
    lemma_same_census(before.families, before.views, after.families, after.views);
    assert forall|id: u64| #[trigger] after.families.dom().contains(id) implies (
    after.families[id].parent matches Some(parent) ==> parent.raw < id && after.families.dom().contains(
        parent.raw,
    )) by {
        assert(before.families.dom().contains(id));
    }
    assert forall|id: u64| #[trigger] after.views.dom().contains(id) implies 0 < id <= after.issued.view
        && after.families.dom().contains(after.views[id].family.raw) by {
        assert(before.views.dom().contains(id));
    }
}

/// The process-global domain of guest virtual addresses.
pub struct GuestVaDomain {
    id: MemoryDomainId,
    aperture: Range<usize>,
    blocked: Vec<DomainBlocked>,
    families: IdMap<FamilyRecord>,
    views: IdMap<VmView>,
    domain_blocked: RangeTable<BlockOrigin>,
    per_family: IdMap<FamilyMaps>,
    obligations: IdMap<PoisonObligation>,
    family_obligation_index: IdMap<Vec<FailureId>>,
    family_ids: IdBlock,
    view_ids: IdBlock,
    mutation_ids: IdBlock,
    epochs: IdBlock,
    generations: IdBlock,
    untracked_present_events: u64,
}

/// The declared spans, as mathematical values.
pub open spec fn declared_spans(blocked: Seq<DomainBlocked>) -> Seq<(int, int)> {
    Seq::new(blocked.len(), |i: int| (blocked[i].0.start as int, blocked[i].0.end as int))
}

/// How many identities of each kind a domain takes from the process: more than it can ever use up,
/// so that what runs out are the counters of the process.
pub const ID_BLOCK: u64 = 0x100_0000_0000_0000;

/// The last identities of the blocks that follow what was handed out.
pub open spec fn past_block(first: IssuedIds) -> IssuedIds {
    IssuedIds {
        family: (first.family + ID_BLOCK) as u64,
        view: (first.view + ID_BLOCK) as u64,
        mutation: (first.mutation + ID_BLOCK) as u64,
        epoch: (first.epoch + ID_BLOCK) as u64,
        generation: (first.generation + ID_BLOCK) as u64,
    }
}

/// The smaller of two numbers.
fn lesser(a: u64, b: u64) -> (least: u64)
    ensures
        least == if a <= b {
            a
        } else {
            b
        },
{
    if a <= b {
        a
    } else {
        b
    }
}

/// Where the identities of a process come from that domains hand out. Every domain takes blocks of
/// its own, so that no two domains ever hand out the same identity.
pub struct DomainIds {
    domains: IdCounter,
    families: IdCounter,
    views: IdCounter,
    mutations: IdCounter,
    epochs: IdCounter,
    generations: IdCounter,
}

impl DomainIds {
    /// How many domains there were.
    pub closed spec fn domains(&self) -> u64 {
        self.domains.issued()
    }

    /// What was handed out, to the last identity of the last block.
    pub closed spec fn issued(&self) -> IssuedIds {
        IssuedIds {
            family: self.families.issued(),
            view: self.views.issued(),
            mutation: self.mutations.issued(),
            epoch: self.epochs.issued(),
            generation: self.generations.issued(),
        }
    }

    /// Another domain can have its blocks.
    pub open spec fn has_room(&self) -> bool {
        &&& self.domains() < u64::MAX
        &&& self.issued().family + ID_BLOCK <= u64::MAX
        &&& self.issued().view + ID_BLOCK <= u64::MAX
        &&& self.issued().mutation + ID_BLOCK <= u64::MAX
        &&& self.issued().epoch + ID_BLOCK <= u64::MAX
        &&& self.issued().generation + ID_BLOCK <= u64::MAX
    }

    /// Nothing was handed out.
    pub fn new() -> (ids: Self)
        ensures
            ids.has_room(),
            ids.domains() == 0,
            ids.issued() == (IssuedIds { family: 0, view: 0, mutation: 0, epoch: 0, generation: 0 }),
    {
        DomainIds {
            domains: IdCounter::new(),
            families: IdCounter::new(),
            views: IdCounter::new(),
            mutations: IdCounter::new(),
            epochs: IdCounter::new(),
            generations: IdCounter::new(),
        }
    }

    /// Whether another domain can have its blocks.
    pub fn can_serve(&self) -> (yes: bool)
        ensures
            yes == self.has_room(),
    {
        self.domains.left() > 0 && self.families.left() >= ID_BLOCK && self.views.left() >= ID_BLOCK
            && self.mutations.left() >= ID_BLOCK && self.epochs.left() >= ID_BLOCK
            && self.generations.left() >= ID_BLOCK
    }
}

/// Everything handed out in `a` was handed out in `b` too.
pub open spec fn no_more_issued(a: IssuedIds, b: IssuedIds) -> bool {
    &&& a.family <= b.family
    &&& a.view <= b.view
    &&& a.mutation <= b.mutation
    &&& a.epoch <= b.epoch
    &&& a.generation <= b.generation
}

/// A domain took its identity and its blocks.
pub open spec fn ids_taken(before: DomainIds, after: DomainIds) -> bool {
    &&& after.domains() == before.domains() + 1
    &&& after.issued() == past_block(before.issued())
}

/// Of blocks that were taken one after the other, by whatever domains, no identity of any kind is
/// handed out twice.
pub proof fn lemma_domains_hand_out_different_ids(
    first: IssuedIds,
    second: IssuedIds,
    a: IssuedIds,
    b: IssuedIds,
)
    requires
        within_block(first, a),
        within_block(second, b),
        no_more_issued(past_block(first), second),
    ensures
        a.family != b.family,
        a.view != b.view,
        a.mutation != b.mutation,
        a.epoch != b.epoch,
        a.generation != b.generation,
{
}

/// Identities that a domain whose blocks follow `first` can hand out.
pub open spec fn within_block(first: IssuedIds, ids: IssuedIds) -> bool {
    let last = past_block(first);
    &&& first.family < ids.family <= last.family
    &&& first.view < ids.view <= last.view
    &&& first.mutation < ids.mutation <= last.mutation
    &&& first.epoch < ids.epoch <= last.epoch
    &&& first.generation < ids.generation <= last.generation
}

/// A domain over an aperture in which nothing was registered yet. What was declared is blocked, and
/// nothing else. Its identities follow `first`.
pub open spec fn is_fresh_domain(
    m: DomainModel,
    aperture: (int, int),
    declared: Seq<(int, int)>,
    first: IssuedIds,
) -> bool {
    &&& m == (DomainModel {
        id: m.id,
        aperture,
        declared,
        families: Map::empty(),
        views: Map::empty(),
        maps: Map::empty(),
        blocked: m.blocked,
        obligations: Map::empty(),
        obligation_index: Map::empty(),
        issued: first,
        limits: past_block(first),
        untracked: 0,
    })
    &&& forall|k: int| #[trigger]
        lookup(m.blocked, k) == (if in_spans(declared, k) {
            Some(BlockOrigin::ConstructionStatic)
        } else {
            None
        })
}

impl View for GuestVaDomain {
    type V = DomainModel;

    closed spec fn view(&self) -> DomainModel {
        DomainModel {
            id: self.id,
            aperture: (self.aperture.start as int, self.aperture.end as int),
            declared: declared_spans(self.blocked@),
            families: self.families@,
            views: modelled_map(self.views@),
            maps: modelled_map(self.per_family@),
            blocked: self.domain_blocked@,
            obligations: self.obligations@,
            obligation_index: modelled_map(self.family_obligation_index@),
            issued: IssuedIds {
                family: self.family_ids.issued(),
                view: self.view_ids.issued(),
                mutation: self.mutation_ids.issued(),
                epoch: self.epochs.issued(),
                generation: self.generations.issued(),
            },
            limits: IssuedIds {
                family: self.family_ids.limit(),
                view: self.view_ids.limit(),
                mutation: self.mutation_ids.limit(),
                epoch: self.epochs.limit(),
                generation: self.generations.limit(),
            },
            untracked: self.untracked_present_events,
        }
    }
}

impl GuestVaDomain {
    /// The tables are well formed, the lineage is sound, and every family counts its views.
    pub closed spec fn wf(&self) -> bool {
        &&& self.tables_wf()
        &&& lineage_ok(self@)
        &&& census_ok(self@.families, self@.views)
        &&& no_more_issued(self@.issued, self@.limits)
    }

    pub closed spec fn tables_wf(&self) -> bool {
        &&& self.families.wf()
        &&& self.views.wf()
        &&& self.per_family.wf()
        &&& self.obligations.wf()
        &&& self.family_obligation_index.wf()
        &&& self.domain_blocked.wf()
        &&& forall|id: u64| #[trigger] self.views@.dom().contains(id) ==> self.views@[id].wf()
        &&& forall|id: u64| #[trigger]
            self.per_family@.dom().contains(id) ==> self.per_family@[id].wf()
    }

    /// What well-formedness says of the model.
    pub proof fn lemma_wf(&self)
        requires
            self.wf(),
        ensures
            lineage_ok(self@),
            census_ok(self@.families, self@.views),
            no_more_issued(self@.issued, self@.limits),
    {
    }

    /// Takes new blocks of identities from the process. What is left of the old ones is never handed
    /// out.
    pub fn renew_ids(&mut self, ids: &mut DomainIds)
        requires
            old(self).wf(),
            old(ids).has_room(),
            no_more_issued(old(self)@.issued, old(ids).issued()),
        ensures
            final(self).wf(),
            final(ids).domains() == old(ids).domains(),
            final(ids).issued() == past_block(old(ids).issued()),
            final(self)@ == (DomainModel {
                issued: old(ids).issued(),
                limits: past_block(old(ids).issued()),
                ..old(self)@
            }),
    {
        let ghost before = self@;
        self.family_ids = ids.families.block(ID_BLOCK);
        self.view_ids = ids.views.block(ID_BLOCK);
        self.mutation_ids = ids.mutations.block(ID_BLOCK);
        self.epochs = ids.epochs.block(ID_BLOCK);
        self.generations = ids.generations.block(ID_BLOCK);
        proof {
            assert(self@ =~= (DomainModel { issued: self@.issued, limits: self@.limits, ..before }));
        }
    }

    /// How many identities are left of the blocks that were taken last, of the kind with the fewest.
    pub fn ids_left(&self) -> (left: u64)
        requires
            self.wf(),
        ensures
            self@.issued.family + left <= self@.limits.family,
            self@.issued.view + left <= self@.limits.view,
            self@.issued.mutation + left <= self@.limits.mutation,
            self@.issued.epoch + left <= self@.limits.epoch,
            self@.issued.generation + left <= self@.limits.generation,
            self@.issued.family + left == self@.limits.family || self@.issued.view + left
                == self@.limits.view || self@.issued.mutation + left == self@.limits.mutation
                || self@.issued.epoch + left == self@.limits.epoch || self@.issued.generation + left
                == self@.limits.generation,
    {
        let left: u64 = self.family_ids.left();
        let left: u64 = lesser(left, self.view_ids.left());
        let left: u64 = lesser(left, self.mutation_ids.left());
        let left: u64 = lesser(left, self.epochs.left());
        lesser(left, self.generations.left())
    }

    /// Creates a new domain over `aperture`, with `blocked` spans inside it that no view may
    /// ever claim. The spans must not be empty, and the identity space not exhausted.
    pub fn new(ids: &mut DomainIds, aperture: Range<usize>, blocked: Vec<DomainBlocked>) -> (domain: Self)
        requires
            old(ids).has_room(),
            forall|i: int|
                0 <= i < blocked@.len() ==> (#[trigger] blocked@[i]).0.start < blocked@[i].0.end,
        ensures
            domain.wf(),
            crate::mm::domain::backing::installs_backed(domain@),
            ids_taken(*old(ids), *final(ids)),
            domain@.id.raw == old(ids).domains() + 1,
            is_fresh_domain(
                domain@,
                (aperture.start as int, aperture.end as int),
                declared_spans(blocked@),
                old(ids).issued(),
            ),
    {
        let raw: u64 = match ids.domains.next() {
            Some(id) => id,
            None => 0,
        };
        let family_ids = ids.families.block(ID_BLOCK);
        let view_ids = ids.views.block(ID_BLOCK);
        let mutation_ids = ids.mutations.block(ID_BLOCK);
        let epochs = ids.epochs.block(ID_BLOCK);
        let generations = ids.generations.block(ID_BLOCK);
        let mut domain_blocked: RangeTable<BlockOrigin> = RangeTable::new();
        let ghost spans = declared_spans(blocked@);
        let mut i: usize = 0;
        proof {
            assert(spans.take(0) =~= Seq::empty());
        }
        while i < blocked.len()
            invariant
                i <= blocked@.len(),
                spans == declared_spans(blocked@),
                domain_blocked.wf(),
                forall|j: int|
                    0 <= j < blocked@.len() ==> (#[trigger] blocked@[j]).0.start < blocked@[j].0.end,
                forall|k: int| #[trigger]
                    lookup(domain_blocked@, k) == (if in_spans(spans.take(i as int), k) {
                        Some(BlockOrigin::ConstructionStatic)
                    } else {
                        None
                    }),
            decreases blocked@.len() - i,
        {
            let ghost before = domain_blocked@;
            let (start, end) = (blocked[i].0.start, blocked[i].0.end);
            domain_blocked.insert(start, end, &BlockOrigin::ConstructionStatic);
            proof {
                assert forall|k: int| #[trigger]
                    lookup(domain_blocked@, k) == (if in_spans(spans.take(i + 1), k) {
                        Some(BlockOrigin::ConstructionStatic)
                    } else {
                        None
                    }) by {
                    assert(lookup(before, k) == lookup(before, k));
                    let shorter = spans.take(i as int);
                    let longer = spans.take(i + 1);
                    if in_spans(shorter, k) {
                        let j = choose|j: int|
                            0 <= j < shorter.len() && (#[trigger] shorter[j]).0 <= k < shorter[j].1;
                        assert(longer[j].0 <= k < longer[j].1);
                    }
                    if start <= k < end {
                        assert(longer[i as int].0 <= k < longer[i as int].1);
                    }
                    if in_spans(longer, k) && !(start <= k < end) {
                        let j = choose|j: int|
                            0 <= j < longer.len() && (#[trigger] longer[j]).0 <= k < longer[j].1;
                        assert(shorter[j].0 <= k < shorter[j].1);
                    }
                }
            }
            i += 1;
        }
        let domain = GuestVaDomain {
            id: MemoryDomainId { raw },
            aperture,
            blocked,
            families: IdMap::new(),
            views: IdMap::new(),
            domain_blocked,
            per_family: IdMap::new(),
            obligations: IdMap::new(),
            family_obligation_index: IdMap::new(),
            family_ids,
            view_ids,
            mutation_ids,
            epochs,
            generations,
            untracked_present_events: 0,
        };
        proof {
            assert(spans.take(spans.len() as int) =~= spans);
            assert(domain@.views =~= Map::<u64, ViewModel>::empty());
            assert(domain@.maps =~= Map::<u64, FamilyModel>::empty());
            assert(domain@.obligation_index =~= Map::<u64, Seq<FailureId>>::empty());
            assert(domain@.families.dom() =~= domain@.maps.dom());
        }
        domain
    }

    /// This domain's own identity.
    pub fn id(&self) -> (id: MemoryDomainId)
        ensures
            id == self@.id,
    {
        self.id
    }

    /// The full aperture this domain governs.
    pub fn aperture(&self) -> (aperture: Range<usize>)
        ensures
            (aperture.start as int, aperture.end as int) == self@.aperture,
    {
        self.aperture.start..self.aperture.end
    }

    /// The platform-blocked spans inside [`Self::aperture`] that no view may claim.
    pub fn blocked(&self) -> (blocked: &Vec<DomainBlocked>)
        ensures
            declared_spans(blocked@) == self@.declared,
    {
        &self.blocked
    }

    /// Whether a range may be claimed at all: not empty, inside the aperture, and clear of every
    /// declared span.
    fn validate_range(&self, start: usize, end: usize) -> (result: Result<(), DomainConflict>)
        ensures
            result == range_validity(self@, start as int, end as int),
    {
        if start >= end {
            return Err(DomainConflict::OutsideAperture);
        }
        if start < self.aperture.start || end > self.aperture.end {
            return Err(DomainConflict::OutsideAperture);
        }
        let ghost spans = self@.declared;
        let mut i: usize = 0;
        while i < self.blocked.len()
            invariant
                i <= self.blocked@.len(),
                spans == self@.declared,
                start < end,
                self@.aperture.0 <= start,
                end <= self@.aperture.1,
                forall|j: int|
                    0 <= j < i ==> !((#[trigger] spans[j]).0 < end && start < spans[j].1),
            decreases self.blocked@.len() - i,
        {
            let span = &self.blocked[i].0;
            if span.start < end && start < span.end {
                proof {
                    assert(spans[i as int].0 < end && start < spans[i as int].1);
                }
                return Err(DomainConflict::Blocked);
            }
            i += 1;
        }
        Ok(())
    }
}

/// Some span of the list holds the address.
pub open spec fn in_spans(spans: Seq<(int, int)>, address: int) -> bool {
    exists|i: int| 0 <= i < spans.len() && (#[trigger] spans[i]).0 <= address < spans[i].1
}

/// Some span of the list overlaps the range.
pub open spec fn overlaps_spans(spans: Seq<(int, int)>, start: int, end: int) -> bool {
    exists|i: int| 0 <= i < spans.len() && (#[trigger] spans[i]).0 < end && start < spans[i].1
}

/// Whether a range may be claimed at all.
pub open spec fn range_validity(m: DomainModel, start: int, end: int) -> Result<(), DomainConflict> {
    if start >= end || start < m.aperture.0 || end > m.aperture.1 {
        Err(DomainConflict::OutsideAperture)
    } else if overlaps_spans(m.declared, start, end) {
        Err(DomainConflict::Blocked)
    } else {
        Ok(())
    }
}

} // verus!
