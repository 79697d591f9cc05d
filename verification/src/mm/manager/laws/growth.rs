//! What a page fault may do: which page it brings in, how far a stack grows, and what it leaves alone.
use crate::mm::area::VmArea;
use crate::mm::errors::PageFaultError;
use crate::mm::flags::VmFlags;
use crate::mm::manager::fault::{FaultOutcome, FaultPlan, VmemPageFaultHandler};
use crate::mm::manager::GuestAccess;
use crate::mm::vmem::STACK_GUARD_GAP;
use crate::platform::page_mgmt::{AllocationError, FixedAddressBehavior, PageManagementProvider};
use vstd::prelude::*;

verus! {

use crate::mm::custody::CustodyModel;
use crate::mm::domain::holes::{claim_begun, claim_finished, install_begun};
use crate::mm::domain::lookup::custody_via_lineage;
use crate::mm::flags::lemma_single_flag;
use crate::mm::manager::fault::{
    fault_handled, fault_plan, fault_target, free_end, growth_done, growth_followed, growth_installed,
    growth_session, is_below, is_candidate, is_free_end, is_target, page_of, StackGrowth,
};
use crate::mm::manager::ManagerModel;
use crate::mm::session::{gate_entered, pinnable, GateModel};
use crate::mm::vmem::effects::{inserted, occupied};
use crate::mm::vmem::laws::lemma_insertion_is_confined;
use crate::mm::vmem::VmemModel;
use crate::range_map::{is_run, lemma_run_around, lookup};

/// A stack does not grow near ordinary memory: the nearest address below the page that is mapped is a
/// guard gap away, or belongs to another stack that can be used.
pub proof fn lemma_stack_growth_keeps_its_distance(
    task: (int, int),
    m: ManagerModel,
    access: Option<GuestAccess>,
    rlimit: Option<usize>,
    page: int,
    k: int,
)
    requires
        fault_plan(task, m, access, rlimit, page) is Grow,
        forall|j: int| #[trigger] lookup(m.vmem.areas, j) is Some ==> 0 <= j < usize::MAX,
        task.0 <= k < page,
        page - STACK_GUARD_GAP <= k,
        lookup(m.vmem.areas, k) is Some,
        forall|j: int| k < j < page ==> #[trigger] lookup(m.vmem.areas, j) is None,
    ensures
        lookup(m.vmem.areas, k) matches Some(area) && area.flags.bits & 0x100 != 0 && area.flags.bits & 7
            != 0,
        STACK_GUARD_GAP == 0x10_0000,
{
    let areas = m.vmem.areas;
    let area = lookup(areas, k)->0;
    let target = fault_target(m, access, page, task.1)->0;
    let (low, high) = lemma_run_around(areas, k, 0, usize::MAX as int);
    assert(lookup(areas, page) is None);
    if high > k + 1 {
        assert(lookup(areas, k + 1) == Some(area));
    }
    let run = (low, high, area);
    assert(is_below(areas, task.0, page, run));
    lemma_single_flag(area.flags.bits);
}

/// The custody of an address has real pages behind it.
pub open spec fn is_backed_by_pages(custody: CustodyModel) -> bool {
    custody is Present || custody is Retiring
}

/// What a fault that makes a stack grow brings in: the free pages from the faulting one up to the next
/// mapping, for a stack above them that the view itself has, that nobody is initializing, and that does
/// not become larger than the limit.
pub proof fn lemma_growth_fills_the_free_pages_below_a_stack(
    task: (int, int),
    m: ManagerModel,
    access: Option<GuestAccess>,
    rlimit: Option<usize>,
    page: int,
) -> (stack: (int, int))
    requires
        0 <= task.0 <= task.1 <= usize::MAX,
        fault_plan(task, m, access, rlimit, page) is Grow,
    ensures
        fault_plan(task, m, access, rlimit, page) matches FaultPlan::Grow { page: from, end, area } && {
            &&& from == page
            &&& task.0 <= page < end <= stack.0 < stack.1
            &&& stack.0 < task.1
            &&& forall|k: int| page <= k < end ==> #[trigger] lookup(m.vmem.areas, k) is None
            &&& lookup(m.vmem.areas, end as int) is Some
            &&& area.flags.bits & 0x100 != 0
            &&& forall|k: int|
                stack.0 <= k < stack.1 ==> #[trigger] lookup(m.vmem.areas, k) == Some(area)
            &&& lookup(m.vmem.areas, stack.1) != Some(area)
            &&& forall|k: int| stack.0 <= k < stack.1 ==> #[trigger] lookup(m.vmem.pending, k) is None
            &&& rlimit matches Some(most) ==> stack.1 - page <= most
            &&& access matches Some(guest) ==> is_backed_by_pages(
                custody_via_lineage(m.domain, guest.view, stack.0),
            )
        },
{
    let areas = m.vmem.areas;
    let run = fault_target(m, access, page, task.1)->0;
    assert(is_target(m, access, page, task.1, run));
    assert(lookup(areas, run.0) == Some(run.2));
    lemma_single_flag(run.2.flags.bits);
    let first = lemma_first_mapped(areas, page, run.0);
    assert(is_free_end(areas, page, run.0, first));
    let end = free_end(areas, page, run.0);
    assert(is_free_end(areas, page, run.0, end));
    assert(lookup(areas, page) is None);
    assert forall|k: int| page <= k < end implies #[trigger] lookup(areas, k) is None by {
        if lookup(areas, k) is Some {
            assert(occupied(areas, page, end));
        }
    }
    assert(page != end);
    assert forall|k: int| run.0 <= k < run.1 implies #[trigger] lookup(m.vmem.pending, k) is None by {
        if lookup(m.vmem.pending, k) is Some {
            assert(crate::mm::vmem::remap::initializing(m.vmem, run.0, run.1));
        }
    }
    (run.0, run.1)
}

/// The first mapped address at or above an address, below one that is mapped.
proof fn lemma_first_mapped(areas: Map<int, VmArea>, start: int, limit: int) -> (first: int)
    requires
        start <= limit,
        lookup(areas, limit) is Some,
    ensures
        start <= first <= limit,
        lookup(areas, first) is Some,
        forall|k: int| start <= k < first ==> #[trigger] lookup(areas, k) is None,
    decreases limit - start,
{
    if lookup(areas, start) is Some {
        start
    } else {
        let first = lemma_first_mapped(areas, start + 1, limit);
        assert forall|k: int| start <= k < first implies #[trigger] lookup(areas, k) is None by {
            if k > start {
            }
        }
        first
    }
}

/// A stack that has room grows: with nothing mapped between the page and the stack, nothing within a
/// guard gap below the page, nobody initializing the stack, and the limit kept, the growth is the whole
/// way up to the stack. So it is for the host, and for a guest that has the stack itself and nothing
/// nearer.
pub proof fn lemma_stack_with_room_grows(
    task: (int, int),
    m: ManagerModel,
    access: Option<GuestAccess>,
    rlimit: Option<usize>,
    page: int,
    stack: (int, int),
    area: VmArea,
)
    requires
        0 <= task.0 <= page < stack.0 < stack.1 <= usize::MAX,
        stack.0 < task.1 <= usize::MAX,
        forall|k: int| stack.0 <= k < stack.1 ==> #[trigger] lookup(m.vmem.areas, k) == Some(area),
        lookup(m.vmem.areas, stack.1) != Some(area),
        area.flags.bits & 0x100 != 0,
        forall|k: int|
            page - 0x10_0000 <= k < stack.0 ==> #[trigger] lookup(m.vmem.areas, k) is None,
        forall|k: int| stack.0 <= k < stack.1 ==> #[trigger] lookup(m.vmem.pending, k) is None,
        rlimit matches Some(most) ==> stack.1 - page <= most,
        access matches Some(guest) ==> is_backed_by_pages(
            custody_via_lineage(m.domain, guest.view, stack.0),
        ),
    ensures
        fault_plan(task, m, access, rlimit, page) == (FaultPlan::Grow {
            page: page as usize,
            end: stack.0 as usize,
            area,
        }),
{
    let areas = m.vmem.areas;
    let run = (stack.0, stack.1, area);
    lemma_single_flag(area.flags.bits);
    assert(lookup(areas, stack.0 - 1) is None);
    assert(is_candidate(m, access, page, task.1, run));
    assert forall|other: (int, int, VmArea)| #[trigger] is_candidate(m, access, page, task.1, other) implies run.0
        <= other.0 by {
        if other.0 < run.0 {
            let k = if other.0 < page {
                page
            } else {
                other.0
            };
            assert(lookup(areas, k) == Some(other.2));
        }
    }
    assert(is_target(m, access, page, task.1, run));
    let found = fault_target(m, access, page, task.1)->0;
    assert(is_target(m, access, page, task.1, found));
    assert(is_candidate(m, access, page, task.1, found));
    assert(found.0 == run.0);
    assert(lookup(areas, run.0) == Some(found.2));
    if found.1 < run.1 {
        assert(lookup(areas, found.1) == Some(area));
    }
    if run.1 < found.1 {
        assert(lookup(areas, run.1) == Some(area));
    }
    assert(found == run);
    assert(lookup(areas, page) is None);
    assert(crate::mm::manager::fault::keeps_gap(areas, task.0, page)) by {
        assert forall|below: (int, int, VmArea)| #[trigger] is_below(areas, task.0, page, below) implies page
            - below.1 >= STACK_GUARD_GAP by {
            if page - below.1 < STACK_GUARD_GAP {
                let k = if below.1 <= page {
                    below.1 - 1
                } else {
                    page - 1
                };
                assert(lookup(areas, k) == Some(below.2));
            }
        }
    }
    assert(is_free_end(areas, page, run.0, run.0));
    let end = free_end(areas, page, run.0);
    assert(is_free_end(areas, page, run.0, end));
    if end < run.0 {
        assert(lookup(areas, end) is None);
    }
}

/// A fault on a mapped page that the view has is serviced as what is mapped there, and a fault where
/// nothing lies at or above the page is none of the view's business: there is no mapping.
pub proof fn lemma_fault_on_a_mapped_page_is_serviced(
    task: (int, int),
    m: ManagerModel,
    access: Option<GuestAccess>,
    rlimit: Option<usize>,
    page: int,
)
    requires
        0 <= task.0 <= task.1 <= usize::MAX,
        forall|j: int| #[trigger] lookup(m.vmem.areas, j) is Some ==> 0 <= j < usize::MAX,
    ensures
        task.0 <= page < task.1 && lookup(m.vmem.areas, page) is Some && (access matches Some(guest)
            ==> is_backed_by_pages(custody_via_lineage(m.domain, guest.view, page))) ==> fault_plan(
            task,
            m,
            access,
            rlimit,
            page,
        ) == (FaultPlan::Service { page: page as usize, area: lookup(m.vmem.areas, page)->0 }),
        fault_plan(task, m, access, rlimit, page) matches FaultPlan::Service { page: at, area } ==> at
            == page && task.0 <= page < task.1 && lookup(m.vmem.areas, page) == Some(area) && (
        access matches Some(guest) ==> is_backed_by_pages(
            custody_via_lineage(m.domain, guest.view, page),
        )),
        !(task.0 <= page < task.1) ==> fault_plan(task, m, access, rlimit, page) == FaultPlan::Refuse(
            PageFaultError::AccessError("Invalid address"),
        ),
        task.0 <= page < task.1 && (forall|k: int|
            page <= k < task.1 ==> #[trigger] lookup(m.vmem.areas, k) is None) ==> fault_plan(
            task,
            m,
            access,
            rlimit,
            page,
        ) == FaultPlan::Refuse(PageFaultError::AccessError("no mapping")),
{
    let areas = m.vmem.areas;
    if task.0 <= page < task.1 {
        if lookup(areas, page) is Some {
            let area = lookup(areas, page)->0;
            let (low, high) = lemma_run_around(areas, page, 0, usize::MAX as int);
            let run = (low, high, area);
            if access matches Some(guest) ==> is_backed_by_pages(
                custody_via_lineage(m.domain, guest.view, page),
            ) {
                assert(is_candidate(m, access, page, task.1, run));
                assert forall|other: (int, int, VmArea)| #[trigger]
                    is_candidate(m, access, page, task.1, other) implies run.0 <= other.0 by {
                    if other.0 < run.0 {
                        assert(lookup(areas, page) == Some(other.2));
                        assert(lookup(areas, run.0 - 1) == Some(other.2));
                    }
                }
                assert(is_target(m, access, page, task.1, run));
                let found = fault_target(m, access, page, task.1)->0;
                assert(is_target(m, access, page, task.1, found));
                assert(is_candidate(m, access, page, task.1, found));
                assert(lookup(areas, page) == Some(found.2));
            }
        }
        if fault_plan(task, m, access, rlimit, page) is Service {
            let found = fault_target(m, access, page, task.1)->0;
            assert(is_target(m, access, page, task.1, found));
            assert(lookup(areas, page) == Some(found.2));
        }
        if forall|k: int| page <= k < task.1 ==> #[trigger] lookup(areas, k) is None {
            if fault_target(m, access, page, task.1) is Some {
                let found = fault_target(m, access, page, task.1)->0;
                assert(is_target(m, access, page, task.1, found));
                let k = if found.0 < page {
                    page
                } else {
                    found.0
                };
                assert(lookup(areas, k) == Some(found.2));
            }
        }
    }
}

/// Handling a fault replaces nothing: every mapping stays what it was, and what is new lies between the
/// faulting page and the next mapping. A fault that was handled leaves the page mapped.
pub proof fn lemma_fault_replaces_nothing<
    P: PageManagementProvider<ALIGN> + VmemPageFaultHandler,
    const ALIGN: usize,
>(
    platform: &P,
    before: ManagerModel,
    access: Option<GuestAccess>,
    rlimit: Option<usize>,
    address: usize,
    error_code: u64,
    gate: GateModel,
    issued: (int, int),
    after: ManagerModel,
    gate_after: GateModel,
    issued_after: (int, int),
    outcome: FaultOutcome,
    k: int,
)
    requires
        ALIGN > 0,
        P::TASK_ADDR_MIN <= P::TASK_ADDR_MAX,
        fault_handled(
            platform,
            before,
            access,
            rlimit,
            address,
            error_code,
            gate,
            issued,
            after,
            gate_after,
            issued_after,
            outcome,
        ),
    ensures
        lookup(before.vmem.areas, k) is Some ==> lookup(after.vmem.areas, k) == lookup(
            before.vmem.areas,
            k,
        ),
        lookup(after.vmem.areas, k) != lookup(before.vmem.areas, k) ==> address - address % ALIGN <= k
            && forall|j: int|
            address - address % ALIGN <= j <= k ==> #[trigger] lookup(before.vmem.areas, j) is None,
        outcome == FaultOutcome::Done(Ok(())) ==> lookup(
            after.vmem.areas,
            address - address % ALIGN,
        ) is Some,
{
    let task = (P::TASK_ADDR_MIN as int, P::TASK_ADDR_MAX as int);
    let page = page_of(address as int, ALIGN as int);
    let areas = before.vmem.areas;
    let plan = fault_plan(task, before, access, rlimit, page);
    if plan is Service {
        let found = fault_target(before, access, page, task.1)->0;
        assert(is_target(before, access, page, task.1, found));
        assert(lookup(areas, page) == Some(found.2));
    }
    if plan is Grow && access is Some && pinnable(before.domain, access->0.view) is Ok {
        let stack = lemma_growth_fills_the_free_pages_below_a_stack(task, before, access, rlimit, page);
        let guest = access->0;
        let snapshot = pinnable(before.domain, guest.view)->Ok_0;
        let growth = StackGrowth {
            page: plan->Grow_page,
            end: plan->end,
            area: plan->Grow_area,
            task: guest.task,
            snapshot,
        };
        if let Some(entered) = gate_entered(gate, growth.task) {
            if issued.0 < u64::MAX && issued.1 < u64::MAX {
                let grown = choose|grown: bool| #[trigger]
                    growth_done(
                        platform,
                        before,
                        growth,
                        growth_session(
                            growth,
                            (issued.0 + 1) as u64,
                            (issued.1 + 1) as u64,
                            entered.depth,
                        ),
                        entered,
                        after,
                        gate_after,
                        grown,
                    ) && match outcome {
                        FaultOutcome::Done(result) => if grown {
                            crate::mm::manager::fault::fault_serviced(
                                platform,
                                growth.page,
                                growth.area.flags,
                                error_code,
                                result,
                            )
                        } else {
                            result == Err::<(), PageFaultError>(PageFaultError::AllocationFailed)
                        },
                        FaultOutcome::Busy(_) => false,
                    };
                lemma_growth_is_confined(
                    platform,
                    before,
                    growth,
                    growth_session(
                        growth,
                        (issued.0 + 1) as u64,
                        (issued.1 + 1) as u64,
                        entered.depth,
                    ),
                    entered,
                    after,
                    gate_after,
                    grown,
                );
                if lookup(after.vmem.areas, k) != lookup(areas, k) {
                    assert forall|j: int| page <= j <= k implies #[trigger] lookup(areas, j) is None by {}
                }
            }
        }
    }
}

/// A growth maps its own pages or none.
proof fn lemma_growth_is_confined<P: PageManagementProvider<ALIGN>, const ALIGN: usize>(
    platform: &P,
    before: ManagerModel,
    growth: StackGrowth,
    session: crate::mm::session::SessionModel,
    gate: GateModel,
    after: ManagerModel,
    gate_after: GateModel,
    grown: bool,
)
    requires
        growth.page < growth.end,
        forall|k: int|
            growth.page <= k < growth.end ==> #[trigger] lookup(before.vmem.areas, k) is None,
        growth_done(platform, before, growth, session, gate, after, gate_after, grown),
    ensures
        forall|k: int|
            !(growth.page <= k < growth.end) ==> #[trigger] lookup(after.vmem.areas, k) == lookup(
                before.vmem.areas,
                k,
            ),
        grown ==> forall|k: int|
            growth.page <= k < growth.end ==> #[trigger] lookup(after.vmem.areas, k) is Some,
{
    let (start, end) = (growth.page as int, growth.end as int);
    let (m, claim) = claim_begun(before.domain, growth.snapshot.id, start, end);
    if let Ok(claim) = claim {
        let (claimed, token) = claim_finished(m, claim, Ok(()));
        let mid = ManagerModel { domain: claimed, ..before };
        assert(growth_installed(platform, mid, growth, token->Ok_0, after, grown));
        if install_begun(mid.domain, token->Ok_0, growth.snapshot.id).1 is Ok {
            let (vmem, answer) = choose|vmem: VmemModel, answer: Result<usize, AllocationError>| #[trigger]
                inserted(
                    platform,
                    mid.vmem,
                    (start, end),
                    growth.area,
                    false,
                    FixedAddressBehavior::NoReplace,
                    vmem,
                    answer,
                ) && grown == (answer is Ok) && after.vmem == vmem;
            let reached = lemma_insertion_is_confined(
                platform,
                mid.vmem,
                (start, end),
                growth.area,
                false,
                FixedAddressBehavior::NoReplace,
                vmem,
                answer,
            );
            assert forall|k: int| grown && start <= k < end implies #[trigger] lookup(
                after.vmem.areas,
                k,
            ) is Some by {
                assert(crate::mm::vmem::laws::mapped_like(vmem.areas, k, growth.area));
            }
        }
    }
}

/// However the growth of a stack ends, its session leaves the effect gate: by one level, or altogether
/// where the session is given up, which it is only if nothing grew.
pub proof fn lemma_growth_leaves_the_effect_gate<P: PageManagementProvider<ALIGN>, const ALIGN: usize>(
    platform: &P,
    before: ManagerModel,
    growth: StackGrowth,
    session: crate::mm::session::SessionModel,
    gate: GateModel,
    after: ManagerModel,
    gate_after: GateModel,
    grown: bool,
)
    requires
        gate.depth > 0,
        growth_done(platform, before, growth, session, gate, after, gate_after, grown),
    ensures
        gate_after.owner == 0 || gate_after.owner == gate.owner && gate_after.depth == gate.depth - 1,
        gate.depth == 1 ==> gate_after.owner == 0 && gate_after.depth == 0,
        grown && gate.depth > 1 ==> gate_after.owner == gate.owner,
        gate_after.owner == 0 ==> gate_after.wakes != gate.wakes || gate.owner == 0,
{
}

} // verus!
