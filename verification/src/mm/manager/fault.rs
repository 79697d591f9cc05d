//! Page faults, and the stack growth that they ask for.
use crate::ids::{FailureId, IdCounter, MemorySessionId, TaskInstanceId};
use crate::mm::addr::PageRange;
use crate::mm::area::VmArea;
use crate::mm::custody::{Custody, HoleToken};
use crate::mm::domain::{ClaimHostError, VmViewSnapshot};
use crate::mm::errors::PageFaultError;
use crate::mm::flags::VmFlags;
use crate::mm::manager::{GuestAccess, PageManager};
use crate::mm::session::{EffectGate, MemoryEffectSession, SessionOpening};
use crate::mm::vmem::STACK_GUARD_GAP;
use crate::platform::page_mgmt::{AllocationError, FixedAddressBehavior, PageManagementProvider};
use core::ops::Range;
use vstd::prelude::*;

verus! {

use crate::mm::addr::multiple_of;
use crate::mm::custody::TokenModel;
use crate::mm::domain::holes::{
    claim_begun, claim_finished, install_begun, install_finished, release_begun, release_finished,
};
use crate::mm::domain::lookup::custody_via_lineage;
use crate::mm::domain::DomainModel;
use crate::mm::flags::carries;
use crate::mm::manager::ManagerModel;
use crate::mm::session::{
    gate_entered, gate_freed, gate_left, given_up, pinnable, session_touched, GateModel,
    SessionModel,
};
use crate::mm::vmem::effects::{inserted, occupied};
use crate::mm::vmem::initialization::takes_backing;
use crate::mm::vmem::remap::initializing;
use crate::mm::vmem::{lemma_paged_edge, VmemModel};
use crate::range_map::{covered, is_run, lookup, runs_of};
use crate::range_table::modelled;

/// Enables a [`PageManager`] to handle page faults if its platform implements this trait.
pub trait VmemPageFaultHandler {
    /// Handles a page fault for the given address.
    fn handle_page_fault(&self, fault_addr: usize, flags: VmFlags, error_code: u64) -> (result: Result<
        (),
        PageFaultError,
    >);

    /// Whether the access that faulted is one that the flags do not allow.
    fn access_error(error_code: u64, flags: VmFlags) -> (refused: bool);
}

/// What a page fault comes down to.
pub enum FaultPlan {
    /// It is an error.
    Refuse(PageFaultError),
    /// The page belongs to this area.
    Service { page: usize, area: VmArea },
    /// A stack has to grow down to the page first, at least up to `end`.
    Grow { page: usize, end: usize, area: VmArea },
}

/// A stack growth that was decided on and has not gone through the effect gate yet.
pub struct StackGrowth {
    pub page: usize,
    pub end: usize,
    pub area: VmArea,
    pub task: TaskInstanceId,
    /// The faulting view, as it was when the growth was decided on.
    pub snapshot: VmViewSnapshot,
}

/// What handling a page fault came to.
pub enum FaultOutcome {
    Done(Result<(), PageFaultError>),
    /// Another task holds the effect gate: wait for it to be handed back, and go on with
    /// [`PageManager::resume_page_fault`].
    Busy(StackGrowth),
}

/// The page of an address.
pub open spec fn page_of(address: int, align: int) -> int {
    address - address % align
}

/// The view that faulted has real pages by its lineage at an address; without a view everything
/// counts.
pub open spec fn is_reachable(m: DomainModel, access: Option<GuestAccess>, address: int) -> bool {
    match access {
        Some(guest) => custody_via_lineage(m, guest.view, address) is Present || custody_via_lineage(
            m,
            guest.view,
            address,
        ) is Retiring,
        None => true,
    }
}

/// A mapping at or above a page that the faulting view can mean. A stack's own start is what is
/// looked at where the page lies below the mapping.
pub open spec fn is_candidate(
    m: ManagerModel,
    access: Option<GuestAccess>,
    page: int,
    limit: int,
    run: (int, int, VmArea),
) -> bool {
    &&& is_run(m.vmem.areas, run.0, run.1, run.2)
    &&& page < run.1
    &&& run.0 < limit
    &&& is_reachable(
        m.domain,
        access,
        if page < run.0 {
            run.0
        } else {
            page
        },
    )
}

/// The lowest of the mappings that a faulting view can mean.
pub open spec fn is_target(
    m: ManagerModel,
    access: Option<GuestAccess>,
    page: int,
    limit: int,
    run: (int, int, VmArea),
) -> bool {
    &&& is_candidate(m, access, page, limit, run)
    &&& forall|other: (int, int, VmArea)| #[trigger]
        is_candidate(m, access, page, limit, other) ==> run.0 <= other.0
}

/// The mapping that a faulting view means, if there is one.
pub open spec fn fault_target(m: ManagerModel, access: Option<GuestAccess>, page: int, limit: int) -> Option<
    (int, int, VmArea),
> {
    if exists|run: (int, int, VmArea)| #[trigger] is_target(m, access, page, limit, run) {
        Some(choose|run: (int, int, VmArea)| #[trigger] is_target(m, access, page, limit, run))
    } else {
        None
    }
}

/// A stack that can be used.
pub open spec fn is_live_stack(flags: VmFlags) -> bool {
    carries(flags.bits, VmFlags::VM_GROWSDOWN) && flags.bits & VmFlags::VM_ACCESS_FLAGS != 0
}

/// The highest mapping that begins below a page and reaches above `limit`.
pub open spec fn is_below(areas: Map<int, VmArea>, limit: int, page: int, run: (int, int, VmArea)) -> bool {
    &&& is_run(areas, run.0, run.1, run.2)
    &&& limit < page
    &&& run.0 < page
    &&& limit < run.1
    &&& forall|k: int| run.1 <= k < page ==> #[trigger] lookup(areas, k) is None
}

/// The mapping below a page keeps its distance: it is a stack itself, or far enough away.
pub open spec fn keeps_gap(areas: Map<int, VmArea>, limit: int, page: int) -> bool {
    forall|run: (int, int, VmArea)| #[trigger]
        is_below(areas, limit, page, run) ==> is_live_stack(run.2.flags) || page - run.1
            >= STACK_GUARD_GAP
}

/// The end of the free range that begins at a page, `limit` at the most.
pub open spec fn is_free_end(areas: Map<int, VmArea>, page: int, limit: int, end: int) -> bool {
    &&& page <= end <= limit
    &&& !occupied(areas, page, end)
    &&& end == limit || lookup(areas, end) is Some
}

/// Where a growth down to a page ends.
pub open spec fn free_end(areas: Map<int, VmArea>, page: int, limit: int) -> int {
    choose|end: int| #[trigger] is_free_end(areas, page, limit, end)
}

/// A stack may not grow down to a page: a callback still owns part of it, something below it is too
/// near, it would become larger than allowed, or the page itself is taken.
pub open spec fn growth_refused(
    m: VmemModel,
    bound: int,
    rlimit: Option<usize>,
    page: int,
    run: (int, int, VmArea),
) -> bool {
    ||| initializing(m, run.0, run.1)
    ||| !keeps_gap(m.areas, bound, page)
    ||| rlimit matches Some(most) && run.1 - page > most
    ||| lookup(m.areas, page) is Some
}

/// What a page fault comes down to.
pub open spec fn fault_plan(
    task: (int, int),
    m: ManagerModel,
    access: Option<GuestAccess>,
    rlimit: Option<usize>,
    page: int,
) -> FaultPlan {
    if !(task.0 <= page < task.1) {
        FaultPlan::Refuse(PageFaultError::AccessError("Invalid address"))
    } else {
        match fault_target(m, access, page, task.1) {
            None => FaultPlan::Refuse(PageFaultError::AccessError("no mapping")),
            Some(run) => if page >= run.0 {
                FaultPlan::Service { page: page as usize, area: run.2 }
            } else if !carries(run.2.flags.bits, VmFlags::VM_GROWSDOWN) {
                FaultPlan::Refuse(PageFaultError::AccessError("no mapping"))
            } else if growth_refused(m.vmem, task.0, rlimit, page, run) {
                FaultPlan::Refuse(PageFaultError::AllocationFailed)
            } else {
                FaultPlan::Grow {
                    page: page as usize,
                    end: free_end(m.vmem.areas, page, run.0) as usize,
                    area: run.2,
                }
            },
        }
    }
}

impl<P: PageManagementProvider<ALIGN> + 'static, const ALIGN: usize> PageManager<P, ALIGN> {
    /// Whether the view that faulted has real pages by its lineage at an address.
    fn reaches(&self, access: Option<GuestAccess>, address: usize) -> (yes: bool)
        requires
            self.wf(),
        ensures
            yes == is_reachable(self@.domain, access, address as int),
    {
        match access {
            Some(guest) => match self.domain.custody_at_via_lineage(guest.view, address) {
                Custody::Present { .. } => true,
                Custody::Retiring { .. } => true,
                _ => false,
            },
            None => true,
        }
    }

    /// The mapping that a faulting view means, if there is one.
    fn find_fault_target(&self, access: Option<GuestAccess>, page: usize) -> (found: Option<
        (usize, usize, VmArea),
    >)
        requires
            self.wf(),
            page < P::TASK_ADDR_MAX,
        ensures
            match fault_target(self@, access, page as int, P::TASK_ADDR_MAX as int) {
                Some(run) => found matches Some(run2) && run == (
                    run2.0 as int,
                    run2.1 as int,
                    run2.2,
                ) && is_candidate(self@, access, page as int, P::TASK_ADDR_MAX as int, run),
                None => found is None,
            },
    {
        let limit: usize = P::TASK_ADDR_MAX;
        let list = self.vmem.overlapping(page, limit);
        let ghost runs = modelled(list@);
        let ghost m = self@;
        let mut i: usize = 0;
        while i < list.len()
            invariant
                self.wf(),
                m == self@,
                i <= list@.len(),
                page < limit,
                limit == P::TASK_ADDR_MAX,
                runs == modelled(list@),
                runs_of(runs, m.vmem.areas, page as int, limit as int),
                forall|j: int|
                    0 <= j < i ==> !is_candidate(
                        m,
                        access,
                        page as int,
                        limit as int,
                        #[trigger] runs[j],
                    ),
            decreases list@.len() - i,
        {
            let (start, end, area) = list[i];
            let probe: usize = if page < start {
                start
            } else {
                page
            };
            proof {
                assert(runs[i as int] == (start as int, end as int, area));
            }
            if self.reaches(access, probe) {
                proof {
                    let run = runs[i as int];
                    assert(is_candidate(m, access, page as int, limit as int, run));
                    assert forall|other: (int, int, VmArea)| #[trigger]
                        is_candidate(m, access, page as int, limit as int, other) implies run.0
                        <= other.0 by {
                        Self::lemma_candidate_is_listed(
                            m,
                            access,
                            page as int,
                            limit as int,
                            runs,
                            other,
                        );
                        let j = runs.index_of(other);
                        if j < i {
                            assert(!is_candidate(m, access, page as int, limit as int, runs[j]));
                        } else if j > i {
                            assert(runs[i as int].1 <= runs[j].0);
                        }
                    }
                    assert(is_target(m, access, page as int, limit as int, run));
                    Self::lemma_one_target(m, access, page as int, limit as int, run);
                }
                return Some((start, end, area));
            }
            i += 1;
        }
        proof {
            assert forall|run: (int, int, VmArea)| #![auto] !is_target(
                m,
                access,
                page as int,
                limit as int,
                run,
            ) by {
                if is_candidate(m, access, page as int, limit as int, run) {
                    Self::lemma_candidate_is_listed(
                        m,
                        access,
                        page as int,
                        limit as int,
                        runs,
                        run,
                    );
                    let j = runs.index_of(run);
                    assert(!is_candidate(m, access, page as int, limit as int, runs[j]));
                }
            }
        }
        None
    }

    /// Every mapping that a faulting view can mean is in the list of those above the page.
    proof fn lemma_candidate_is_listed(
        m: ManagerModel,
        access: Option<GuestAccess>,
        page: int,
        limit: int,
        runs: Seq<(int, int, VmArea)>,
        run: (int, int, VmArea),
    )
        requires
            is_candidate(m, access, page, limit, run),
            page < limit,
            runs_of(runs, m.vmem.areas, page, limit),
        ensures
            runs.contains(run),
    {
        let probe = if page < run.0 {
            run.0
        } else {
            page
        };
        assert(lookup(m.vmem.areas, probe) == Some(run.2));
        assert(covered(runs, probe));
        let i = choose|i: int| 0 <= i < runs.len() && (#[trigger] runs[i]).0 <= probe < runs[i].1;
        Self::lemma_same_run(m.vmem.areas, runs[i], run, probe);
    }

    /// There is only one mapping around an address.
    proof fn lemma_same_run(
        areas: Map<int, VmArea>,
        a: (int, int, VmArea),
        b: (int, int, VmArea),
        k: int,
    )
        requires
            is_run(areas, a.0, a.1, a.2),
            is_run(areas, b.0, b.1, b.2),
            a.0 <= k < a.1,
            b.0 <= k < b.1,
        ensures
            a == b,
    {
        assert(lookup(areas, k) == Some(a.2));
        assert(lookup(areas, k) == Some(b.2));
        if a.0 < b.0 {
            assert(lookup(areas, b.0 - 1) == Some(a.2));
        }
        if b.0 < a.0 {
            assert(lookup(areas, a.0 - 1) == Some(b.2));
        }
        if a.1 < b.1 {
            assert(lookup(areas, a.1) == Some(b.2));
        }
        if b.1 < a.1 {
            assert(lookup(areas, b.1) == Some(a.2));
        }
    }

    proof fn lemma_one_target(
        m: ManagerModel,
        access: Option<GuestAccess>,
        page: int,
        limit: int,
        run: (int, int, VmArea),
    )
        requires
            is_target(m, access, page, limit, run),
        ensures
            fault_target(m, access, page, limit) == Some(run),
    {
        let found = fault_target(m, access, page, limit)->0;
        assert(is_target(m, access, page, limit, found));
        assert(is_candidate(m, access, page, limit, run));
        assert(is_candidate(m, access, page, limit, found));
        Self::lemma_same_run(m.vmem.areas, found, run, run.0);
    }

    /// Whether the mapping below a page keeps its distance.
    fn gap_is_kept(&self, page: usize) -> (yes: bool)
        requires
            self.wf(),
            P::TASK_ADDR_MIN <= page,
        ensures
            yes == keeps_gap(self@.vmem.areas, P::TASK_ADDR_MIN as int, page as int),
    {
        let bound: usize = P::TASK_ADDR_MIN;
        if bound >= page {
            return true;
        }
        let list = self.vmem.overlapping(bound, page);
        let ghost runs = modelled(list@);
        let ghost areas = self@.vmem.areas;
        let n: usize = list.len();
        if n == 0 {
            proof {
                assert forall|run: (int, int, VmArea)| #![auto] !is_below(
                    areas,
                    bound as int,
                    page as int,
                    run,
                ) by {
                    if is_below(areas, bound as int, page as int, run) {
                        let k = if run.0 < bound {
                            bound as int
                        } else {
                            run.0
                        };
                        assert(lookup(areas, k) == Some(run.2));
                        assert(covered(runs, k));
                    }
                }
            }
            return true;
        }
        let (start, end, area) = list[n - 1];
        let ghost last = runs[n - 1];
        proof {
            assert(last == (start as int, end as int, area));
        }
        let kept = (area.flags.contains(VmFlags::VM_GROWSDOWN) && area.flags.intersection(
            VmFlags::VM_ACCESS_FLAGS,
        ).bits() != 0) || (end <= page && page - end >= STACK_GUARD_GAP);
        proof {
            assert forall|k: int| last.1 <= k < page implies #[trigger] lookup(areas, k) is None by {
                if lookup(areas, k) is Some {
                    assert(covered(runs, k));
                    let i = choose|i: int| 0 <= i < runs.len() && (#[trigger] runs[i]).0 <= k
                        < runs[i].1;
                    if i < n - 1 {
                        assert(runs[i].1 <= runs[n - 1].0);
                    }
                }
            }
            assert(is_below(areas, bound as int, page as int, last));
            assert forall|run: (int, int, VmArea)| #[trigger]
                is_below(areas, bound as int, page as int, run) implies run == last by {
                let k = if run.1 <= page {
                    run.1 - 1
                } else {
                    page - 1
                };
                assert(lookup(areas, k) == Some(run.2));
                let k2 = if last.1 <= page {
                    last.1 - 1
                } else {
                    page - 1
                };
                assert(lookup(areas, k2) == Some(last.2));
                if k < k2 {
                    assert(run.1 <= k2 < page);
                }
                if k2 < k {
                    assert(last.1 <= k < page);
                }
                Self::lemma_same_run(areas, run, last, k);
            }
        }
        kept
    }

    /// Where a growth down to a free page ends.
    fn find_free_end(&self, page: usize, limit: usize) -> (end: usize)
        requires
            self.wf(),
            page < limit,
            multiple_of(page as int, ALIGN as int),
            multiple_of(limit as int, ALIGN as int),
        ensures
            end == free_end(self@.vmem.areas, page as int, limit as int),
            is_free_end(self@.vmem.areas, page as int, limit as int, end as int),
            multiple_of(end as int, ALIGN as int),
            end == page <==> lookup(self@.vmem.areas, page as int) is Some,
    {
        let list = self.vmem.pieces(page, limit);
        let ghost found = modelled(list@);
        let ghost areas = self@.vmem.areas;
        let end: usize = if list.len() > 0 {
            list[0].0
        } else {
            limit
        };
        proof {
            self.vmem.lemma_wf();
            crate::range_map::lemma_pieces(areas, page as int, limit as int);
            if list@.len() > 0 {
                assert(found[0] == (list@[0].0 as int, list@[0].1 as int, list@[0].2));
            }
            assert forall|k: int| page <= k < end implies #[trigger] lookup(areas, k) is None by {
                if lookup(areas, k) is Some {
                    assert(covered(found, k));
                    let i = choose|i: int| 0 <= i < found.len() && (#[trigger] found[i]).0 <= k
                        < found[i].1;
                    if i > 0 {
                        assert(found[0].1 <= found[i].0);
                    }
                }
            }
            if end < limit {
                assert(lookup(areas, end as int) is Some);
                if end > page {
                    assert(lookup(areas, end - 1) is None);
                    lemma_paged_edge(areas, end as int, ALIGN as int);
                }
            }
            assert(is_free_end(areas, page as int, limit as int, end as int));
            let chosen = free_end(areas, page as int, limit as int);
            assert(is_free_end(areas, page as int, limit as int, chosen));
            if chosen < end {
                assert(lookup(areas, chosen) is Some);
            }
            if end < chosen {
                assert(lookup(areas, end as int) is Some);
                assert(page <= end < chosen);
                assert(occupied(areas, page as int, chosen));
            }
        }
        end
    }

    /// What a page fault comes down to. It needs nothing but the tables: a view's own mapping is
    /// found past whatever an unrelated view has at the address.
    pub fn plan_fault(
        &self,
        access: Option<GuestAccess>,
        stack_rlimit: Option<usize>,
        fault_addr: usize,
    ) -> (plan: FaultPlan)
        requires
            self.wf(),
        ensures
            plan == fault_plan(
                (P::TASK_ADDR_MIN as int, P::TASK_ADDR_MAX as int),
                self@,
                access,
                stack_rlimit,
                page_of(fault_addr as int, ALIGN as int),
            ),
            plan matches FaultPlan::Grow { page, end, .. } ==> page < end && P::TASK_ADDR_MIN <= page
                && end <= P::TASK_ADDR_MAX && multiple_of(page as int, ALIGN as int) && multiple_of(
                end as int,
                ALIGN as int,
            ),
    {
        proof {
            self.lemma_wf();
            vstd::arithmetic::div_mod::lemma_mod_decreases(fault_addr as nat, ALIGN as nat);
        }
        let page: usize = fault_addr - fault_addr % ALIGN;
        proof {
            lemma_page_aligned(fault_addr as int, ALIGN as int);
        }
        if page < P::TASK_ADDR_MIN || page >= P::TASK_ADDR_MAX {
            return FaultPlan::Refuse(PageFaultError::AccessError("Invalid address"));
        }
        let (start, end, area) = match self.find_fault_target(access, page) {
            Some(found) => found,
            None => {
                return FaultPlan::Refuse(PageFaultError::AccessError("no mapping"));
            },
        };
        if page >= start {
            return FaultPlan::Service { page, area };
        }
        if !area.flags.contains(VmFlags::VM_GROWSDOWN) {
            return FaultPlan::Refuse(PageFaultError::AccessError("no mapping"));
        }
        let pending = self.vmem.has_pending_initialization(start, end);
        proof {
            assert(pending == initializing(self@.vmem, start as int, end as int));
        }
        if pending || !self.gap_is_kept(page) {
            return FaultPlan::Refuse(PageFaultError::AllocationFailed);
        }
        if let Some(most) = stack_rlimit {
            if end - page > most {
                return FaultPlan::Refuse(PageFaultError::AllocationFailed);
            }
        }
        proof {
            let areas = self@.vmem.areas;
            self.vmem.lemma_wf();
            assert(lookup(areas, start as int) == Some(area));
            lemma_paged_edge(areas, start as int, ALIGN as int);
        }
        let install_end = self.find_free_end(page, start);
        if install_end == page {
            return FaultPlan::Refuse(PageFaultError::AllocationFailed);
        }
        FaultPlan::Grow { page, end: install_end, area }
    }
}

/// A fault is only ever serviced for a view on a page that the view's own lineage has, whatever else
/// is mapped there.
pub proof fn lemma_fault_is_confined(
    task: (int, int),
    m: ManagerModel,
    guest: GuestAccess,
    rlimit: Option<usize>,
    page: int,
)
    requires
        task.1 <= usize::MAX,
        0 <= task.0,
        fault_plan(task, m, Some(guest), rlimit, page) is Service,
    ensures
        custody_via_lineage(m.domain, guest.view, page) is Present || custody_via_lineage(
            m.domain,
            guest.view,
            page,
        ) is Retiring,
        lookup(m.vmem.areas, page) == Some(
            fault_plan(task, m, Some(guest), rlimit, page)->Service_area,
        ),
{
    let run = fault_target(m, Some(guest), page, task.1)->0;
    assert(is_target(m, Some(guest), page, task.1, run));
    assert(lookup(m.vmem.areas, page) == Some(run.2));
}

/// The session that a growth is done in.
pub open spec fn growth_session(growth: StackGrowth, id: u64, failure: u64, depth: u32) -> SessionModel {
    SessionModel {
        view: growth.snapshot.id,
        task: growth.task,
        id: MemorySessionId { raw: id },
        depth,
        failure: FailureId { raw: failure },
        before: growth.snapshot,
        touched: None,
        pending: None,
    }
}

/// The domain after a hole that could not be filled was handed back.
pub open spec fn hole_handed_back(m: DomainModel, token: TokenModel) -> DomainModel {
    match release_begun(m, token) {
        (after, Err(_)) => after,
        (after, Ok(started)) => release_finished(after, started, Ok(())).0,
    }
}

/// What installing a grown stack into the hole claimed for it did. A hole that could not be filled
/// is handed back.
pub open spec fn growth_installed<P: PageManagementProvider<ALIGN>, const ALIGN: usize>(
    platform: &P,
    before: ManagerModel,
    growth: StackGrowth,
    token: TokenModel,
    after: ManagerModel,
    grown: bool,
) -> bool {
    match install_begun(before.domain, token, growth.snapshot.id) {
        (m, Err(_)) => !grown && after == (ManagerModel {
            domain: hole_handed_back(m, token),
            ..before
        }),
        (m, Ok(started)) => exists|mid: VmemModel, answer: Result<usize, AllocationError>| #[trigger]
            inserted(
                platform,
                before.vmem,
                (growth.page as int, growth.end as int),
                growth.area,
                false,
                FixedAddressBehavior::NoReplace,
                mid,
                answer,
            ) && {
                let installed = install_finished(
                    m,
                    started,
                    if answer is Ok {
                        Ok(())
                    } else {
                        Err(())
                    },
                ).0;
                &&& grown == (answer is Ok)
                &&& after.vmem == mid
                &&& after.domain == (if grown {
                    installed
                } else {
                    hole_handed_back(installed, token)
                })
            },
    }
}

/// What growing a stack inside an open session did: the hole is claimed and filled. A session whose
/// claim fails is given up.
pub open spec fn growth_done<P: PageManagementProvider<ALIGN>, const ALIGN: usize>(
    platform: &P,
    before: ManagerModel,
    growth: StackGrowth,
    session: SessionModel,
    gate: GateModel,
    after: ManagerModel,
    gate_after: GateModel,
    grown: bool,
) -> bool {
    let (start, end) = (growth.page as int, growth.end as int);
    match claim_begun(before.domain, growth.snapshot.id, start, end) {
        (m, Err(_)) => {
            &&& !grown
            &&& after.vmem == before.vmem
            &&& given_up(session_touched(session, start, end), m, after.domain)
            &&& gate_after == gate_freed(gate)
        },
        (m, Ok(claim)) => {
            let (claimed, token) = claim_finished(m, claim, Ok(()));
            &&& growth_installed(
                platform,
                (ManagerModel { domain: claimed, ..before }),
                growth,
                token->Ok_0,
                after,
                grown,
            )
            &&& gate_after == gate_left(gate)
        },
    }
}

/// What the platform made of a fault on a mapped page. A fault that it serviced is put on record.
pub open spec fn fault_serviced<
    P: PageManagementProvider<ALIGN> + VmemPageFaultHandler,
    const ALIGN: usize,
>(platform: &P, page: usize, flags: VmFlags, error_code: u64, result: Result<(), PageFaultError>) -> bool {
    exists|refused: bool| #[trigger]
        call_ensures(P::access_error, (error_code, flags), refused) && if refused {
            result == Err::<(), PageFaultError>(PageFaultError::AccessError("access error"))
        } else {
            call_ensures(P::handle_page_fault, (platform, page, flags, error_code), result) && (
            result is Ok ==> call_ensures(P::record_guest_fault_serviced, (), ()))
        }
}

/// What going through the effect gate for a growth, and all that follows, did. `issued` and
/// `issued_after` are how many session and failure identities were minted.
pub open spec fn growth_followed<
    P: PageManagementProvider<ALIGN> + VmemPageFaultHandler,
    const ALIGN: usize,
>(
    platform: &P,
    before: ManagerModel,
    growth: StackGrowth,
    error_code: u64,
    gate: GateModel,
    issued: (int, int),
    after: ManagerModel,
    gate_after: GateModel,
    issued_after: (int, int),
    outcome: FaultOutcome,
) -> bool {
    match gate_entered(gate, growth.task) {
        None => {
            &&& after == before
            &&& gate_after == gate
            &&& issued_after == issued
            &&& outcome == FaultOutcome::Busy(growth)
        },
        Some(entered) => if issued.0 >= u64::MAX || issued.1 >= u64::MAX {
            &&& after == before
            &&& gate_after == entered
            &&& issued_after == (if issued.0 >= u64::MAX {
                issued
            } else {
                (issued.0 + 1, issued.1)
            })
            &&& outcome == FaultOutcome::Done(Err(PageFaultError::AllocationFailed))
        } else {
            issued_after == (issued.0 + 1, issued.1 + 1) && exists|grown: bool| #[trigger]
                growth_done(
                    platform,
                    before,
                    growth,
                    growth_session(
                        growth,
                        (issued.0 + 1) as u64,
                        (issued.1 + 1) as u64,
                        entered.depth,
                    ),
                    entered,
                    after,
                    gate_after,
                    grown,
                ) && match outcome {
                    FaultOutcome::Done(result) => if grown {
                        fault_serviced(platform, growth.page, growth.area.flags, error_code, result)
                    } else {
                        result == Err::<(), PageFaultError>(PageFaultError::AllocationFailed)
                    },
                    FaultOutcome::Busy(_) => false,
                }
        },
    }
}

/// What handling a page fault did.
pub open spec fn fault_handled<
    P: PageManagementProvider<ALIGN> + VmemPageFaultHandler,
    const ALIGN: usize,
>(
    platform: &P,
    before: ManagerModel,
    access: Option<GuestAccess>,
    rlimit: Option<usize>,
    address: usize,
    error_code: u64,
    gate: GateModel,
    issued: (int, int),
    after: ManagerModel,
    gate_after: GateModel,
    issued_after: (int, int),
    outcome: FaultOutcome,
) -> bool {
    let plan = fault_plan(
        (P::TASK_ADDR_MIN as int, P::TASK_ADDR_MAX as int),
        before,
        access,
        rlimit,
        page_of(address as int, ALIGN as int),
    );
    match plan {
        FaultPlan::Refuse(error) => {
            &&& after == before
            &&& gate_after == gate
            &&& issued_after == issued
            &&& outcome == FaultOutcome::Done(Err(error))
        },
        FaultPlan::Service { page, area } => {
            &&& after == before
            &&& gate_after == gate
            &&& issued_after == issued
            &&& outcome matches FaultOutcome::Done(result) && fault_serviced(
                platform,
                page,
                area.flags,
                error_code,
                result,
            )
        },
        FaultPlan::Grow { page, end, area } => match access {
            Some(guest) => match pinnable(before.domain, guest.view) {
                Ok(snapshot) => growth_followed(
                    platform,
                    before,
                    (StackGrowth { page, end, area, task: guest.task, snapshot }),
                    error_code,
                    gate,
                    issued,
                    after,
                    gate_after,
                    issued_after,
                    outcome,
                ),
                Err(_) => {
                    &&& after == before
                    &&& gate_after == gate
                    &&& issued_after == issued
                    &&& outcome == FaultOutcome::Done(Err(PageFaultError::AllocationFailed))
                },
            },
            None => {
                &&& after == before
                &&& gate_after == gate
                &&& issued_after == issued
                &&& outcome == FaultOutcome::Done(Err(PageFaultError::AllocationFailed))
            },
        },
    }
}

/// A growth that a fault can ask for: whole pages inside the task range.
pub open spec fn growth_ok<P: PageManagementProvider<ALIGN>, const ALIGN: usize>(growth: StackGrowth) -> bool {
    &&& growth.page < growth.end
    &&& P::TASK_ADDR_MIN <= growth.page
    &&& growth.end <= P::TASK_ADDR_MAX
    &&& multiple_of(growth.page as int, ALIGN as int)
    &&& multiple_of(growth.end as int, ALIGN as int)
    &&& growth.task.raw != 0
}

impl<P: PageManagementProvider<ALIGN> + 'static, const ALIGN: usize> PageManager<P, ALIGN> {
    /// Fills the hole that was claimed for a growth.
    fn install_growth(
        &mut self,
        session: &mut MemoryEffectSession,
        growth: &StackGrowth,
        token: HoleToken,
    ) -> (grown: bool)
        requires
            old(self).wf(),
            growth_ok::<P, ALIGN>(*growth),
            takes_backing(growth.area) ==> old(self)@.vmem.next_futex < old(self)@.vmem.futex_end,
            token.wf(),
            token@.start == growth.page,
            token@.end == growth.end,
        ensures
            final(self).follows(old(self)),
            growth_installed(
                final(self).platform(),
                old(self)@,
                *growth,
                token@,
                final(self)@,
                grown,
            ),
    {
        let rollback = token.clone();
        let begun = session.begin_install(&mut self.domain, &token, growth.snapshot.id);
        let mut grown = false;
        if let Ok(started) = begun {
            let ghost ready = self@;
            let range = PageRange::<ALIGN> { start: growth.page, end: growth.end };
            let inserted_at = self.vmem.insert_mapping(
                range,
                growth.area,
                false,
                FixedAddressBehavior::NoReplace,
            );
            self.sync();
            let answer: Result<(), ()> = match inserted_at {
                Ok(_) => Ok(()),
                Err(_) => Err(()),
            };
            grown = answer.is_ok();
            proof {
                assert(inserted(
                    self.platform(),
                    old(self)@.vmem,
                    (growth.page as int, growth.end as int),
                    growth.area,
                    false,
                    FixedAddressBehavior::NoReplace,
                    self@.vmem,
                    inserted_at,
                ));
            }
            let _ = session.finish_install(&mut self.domain, started, answer);
        }
        if !grown {
            let agree = |_range: Range<usize>| -> (answer: Result<(), ()>)
                ensures
                    answer == Ok::<(), ()>(()),
                { Ok(()) };
            let _ = session.release_hole(&mut self.domain, rollback, agree);
        }
        grown
    }

    /// Grows a stack inside an open session.
    fn grow_in(
        &mut self,
        session: MemoryEffectSession,
        growth: &StackGrowth,
        gate: &mut EffectGate,
    ) -> (grown: bool)
        requires
            old(self).wf(),
            growth_ok::<P, ALIGN>(*growth),
            takes_backing(growth.area) ==> old(self)@.vmem.next_futex < old(self)@.vmem.futex_end,
            session@.view == growth.snapshot.id,
            old(gate)@.depth > 0,
        ensures
            final(self).follows(old(self)),
            growth_done(
                final(self).platform(),
                old(self)@,
                *growth,
                session@,
                old(gate)@,
                final(self)@,
                final(gate)@,
                grown,
            ),
    {
        let mut session = session;
        let agree = |_range: Range<usize>| -> (answer: Result<(), ClaimHostError>)
            ensures
                answer == Ok::<(), ClaimHostError>(()),
            { Ok(()) };
        match session.claim_hole(&mut self.domain, growth.page..growth.end, agree) {
            Ok(token) => {
                let grown = self.install_growth(&mut session, growth, token);
                session.close(gate);
                grown
            },
            Err(_) => {
                session.abandon(&mut self.domain, gate);
                false
            },
        }
    }
}

impl<
    P: PageManagementProvider<ALIGN> + VmemPageFaultHandler + 'static,
    const ALIGN: usize,
> PageManager<P, ALIGN> {
    /// Hands a fault on a mapped page to the platform.
    fn service_fault(&self, page: usize, flags: VmFlags, error_code: u64) -> (result: Result<
        (),
        PageFaultError,
    >)
        requires
            self.wf(),
        ensures
            fault_serviced(self.platform(), page, flags, error_code, result),
    {
        let refused = P::access_error(error_code, flags);
        if refused {
            return Err(PageFaultError::AccessError("access error"));
        }
        let result = self.vmem.backend().handle_page_fault(page, flags, error_code);
        if result.is_ok() {
            P::record_guest_fault_serviced();
        }
        result
    }

    /// Goes on with a growth that found the effect gate held by another task.
    pub fn resume_page_fault(
        &mut self,
        growth: StackGrowth,
        error_code: u64,
        gate: &mut EffectGate,
        sessions: &mut IdCounter,
        failures: &mut IdCounter,
    ) -> (outcome: FaultOutcome)
        requires
            old(self).wf(),
            growth_ok::<P, ALIGN>(growth),
            takes_backing(growth.area) ==> old(self)@.vmem.next_futex < old(self)@.vmem.futex_end,
            old(gate)@.owner == growth.task.raw ==> old(gate)@.depth < u32::MAX,
        ensures
            final(self).follows(old(self)),
            growth_followed(
                final(self).platform(),
                old(self)@,
                growth,
                error_code,
                old(gate)@,
                (old(sessions).issued() as int, old(failures).issued() as int),
                final(self)@,
                final(gate)@,
                (final(sessions).issued() as int, final(failures).issued() as int),
                outcome,
            ),
    {
        let opening = MemoryEffectSession::enter(
            gate,
            sessions,
            failures,
            growth.snapshot,
            growth.task,
        );
        match opening {
            Ok(SessionOpening::Opened(session)) => {
                let grown = self.grow_in(session, &growth, gate);
                if !grown {
                    return FaultOutcome::Done(Err(PageFaultError::AllocationFailed));
                }
                FaultOutcome::Done(self.service_fault(growth.page, growth.area.flags, error_code))
            },
            Ok(SessionOpening::Busy) => FaultOutcome::Busy(growth),
            Err(_) => FaultOutcome::Done(Err(PageFaultError::AllocationFailed)),
        }
    }

    /// Handles a page fault at the given address. A fault right below a stack grows it, through a
    /// session; `stack_rlimit` is the most that the faulting guest's stack may span.
    pub fn handle_page_fault(
        &mut self,
        access: Option<GuestAccess>,
        stack_rlimit: Option<usize>,
        fault_addr: usize,
        error_code: u64,
        gate: &mut EffectGate,
        sessions: &mut IdCounter,
        failures: &mut IdCounter,
    ) -> (outcome: FaultOutcome)
        requires
            old(self).wf(),
            fault_plan(
                (P::TASK_ADDR_MIN as int, P::TASK_ADDR_MAX as int),
                old(self)@,
                access,
                stack_rlimit,
                page_of(fault_addr as int, ALIGN as int),
            ) matches FaultPlan::Grow { area, .. } ==> (takes_backing(area)
                ==> old(self)@.vmem.next_futex < old(self)@.vmem.futex_end),
            access matches Some(guest) ==> guest.task.raw != 0 && (old(gate)@.owner == guest.task.raw
                ==> old(gate)@.depth < u32::MAX),
        ensures
            final(self).follows(old(self)),
            fault_handled(
                final(self).platform(),
                old(self)@,
                access,
                stack_rlimit,
                fault_addr,
                error_code,
                old(gate)@,
                (old(sessions).issued() as int, old(failures).issued() as int),
                final(self)@,
                final(gate)@,
                (final(sessions).issued() as int, final(failures).issued() as int),
                outcome,
            ),
    {
        match self.plan_fault(access, stack_rlimit, fault_addr) {
            FaultPlan::Refuse(error) => FaultOutcome::Done(Err(error)),
            FaultPlan::Service { page, area } => FaultOutcome::Done(
                self.service_fault(page, area.flags, error_code),
            ),
            FaultPlan::Grow { page, end, area } => {
                let guest = match access {
                    Some(guest) => guest,
                    None => {
                        return FaultOutcome::Done(Err(PageFaultError::AllocationFailed));
                    },
                };
                let snapshot = match MemoryEffectSession::prepare(&self.domain, guest.view) {
                    Ok(snapshot) => snapshot,
                    Err(_) => {
                        return FaultOutcome::Done(Err(PageFaultError::AllocationFailed));
                    },
                };
                let growth = StackGrowth { page, end, area, task: guest.task, snapshot };
                self.resume_page_fault(growth, error_code, gate, sessions, failures)
            },
        }
    }
}

/// The page of an address is aligned.
proof fn lemma_page_aligned(address: int, align: int)
    requires
        align > 0,
    ensures
        page_of(address, align) % align == 0,
{
    vstd::arithmetic::div_mod::lemma_fundamental_div_mod(address, align);
    vstd::arithmetic::div_mod::lemma_mod_multiples_basic(address / align, align);
    assert(page_of(address, align) == (address / align) * align) by (nonlinear_arith)
        requires
            address == align * (address / align) + address % align,
            page_of(address, align) == address - address % align,
    ;
}

} // verus!
