//! Bulk accesses, served run by run where the host keeps the pages of a range apart.
//!
//! An access goes on in steps. Each step says which run is to be copied next, or that the access is
//! over; whoever copies the run tells how that went, and gets the next step. The manager is needed for
//! a step, and not while a run is copied.
use crate::ids::VmViewId;
use crate::mm::manager::PageManager;
use crate::platform::common_providers::confined::{ViewConfinedAccess, RUN_REPLANS};
use crate::platform::common_providers::userspace_pointers::{Fault, ACCESS_FAULT_ATTEMPTS};
use crate::platform::page_mgmt::PageManagementProvider;
use vstd::prelude::*;

verus! {

use crate::mm::manager::ManagerModel;
use crate::platform::common_providers::confined::{
    checked_at, lemma_runs_tile, pages_prepared, range_admitted, run_models, runs_model, runs_over,
    runs_planned, tiles,
};
use crate::platform::common_providers::userspace_pointers::prepended;

/// What a bulk access is: the view, where it begins, and whether it writes.
#[derive(Clone, Copy)]
pub struct Bulk {
    pub view: VmViewId,
    pub addr: usize,
    pub write: bool,
}

/// What is left of a bulk access: the runs, of which the first is being copied, how often that
/// faulted, how often the rest may still be split anew, and whether it ever took more than one run.
#[verifier::ext_equal]
pub struct RestModel {
    pub bulk: Bulk,
    pub end: int,
    pub runs: Seq<(int, int)>,
    pub faults: u32,
    pub replans: u32,
    pub split: bool,
}

/// What is left of a bulk access while one of its runs is copied.
pub struct BulkRest {
    bulk: Bulk,
    end: usize,
    runs: Vec<(usize, usize)>,
    next: usize,
    faults: u32,
    replans: u32,
    split: bool,
}

impl View for BulkRest {
    type V = RestModel;

    closed spec fn view(&self) -> RestModel {
        RestModel {
            bulk: self.bulk,
            end: self.end as int,
            runs: run_models(self.runs@).skip(self.next as int),
            faults: self.faults,
            replans: self.replans,
            split: self.split,
        }
    }
}

impl BulkRest {
    /// A run is being copied, and all that is left lies inside the access.
    pub closed spec fn wf(&self) -> bool {
        &&& self.next < self.runs@.len()
        &&& rest_ok(self@)
    }

    /// What a rest holds.
    pub proof fn lemma_wf(&self)
        requires
            self.wf(),
        ensures
            rest_ok(self@),
    {
    }
}

/// A rest with a run to copy, inside the access.
pub open spec fn rest_ok(rest: RestModel) -> bool {
    &&& rest.runs.len() > 0
    &&& rest.faults < ACCESS_FAULT_ATTEMPTS
    &&& rest.end <= usize::MAX
    &&& forall|k: int|
        0 <= k < rest.runs.len() ==> rest.bulk.addr <= (#[trigger] rest.runs[k]).0 < rest.runs[k].1
            <= rest.end
}

/// What is to be done next in a bulk access.
pub enum BulkStep {
    /// A run is to be copied: at this host address, this far into the access, of this length.
    Copy { host: usize, offset: usize, len: usize, rest: BulkRest },
    /// All of it was copied.
    Done,
    /// It cannot be made, or not to its end.
    Refused,
}

/// A step, with what is left as a mathematical value.
pub enum StepModel {
    Copy(usize, usize, usize, RestModel),
    Done,
    Refused,
}

/// The model of a step.
pub open spec fn step_model(step: BulkStep) -> StepModel {
    match step {
        BulkStep::Copy { host, offset, len, rest } => StepModel::Copy(host, offset, len, rest@),
        BulkStep::Done => StepModel::Done,
        BulkStep::Refused => StepModel::Refused,
    }
}

/// A step of the access from `bulk.addr` to `end`: a run that is to be copied is a part of it.
pub open spec fn step_ok(step: BulkStep, bulk: Bulk, end: int) -> bool {
    step matches BulkStep::Copy { host, offset, len, rest } ==> {
        &&& rest.wf()
        &&& rest@.bulk == bulk
        &&& rest@.end == end
        &&& len > 0
        &&& offset + len <= end - bulk.addr
    }
}

/// The first run that is left was checked. It is copied next if it was approved, else it is lost.
#[verifier::opaque]
pub open spec fn run_approved<P: PageManagementProvider<ALIGN>, const ALIGN: usize>(
    before: ManagerModel,
    rest: RestModel,
    after: ManagerModel,
    step: StepModel,
) -> bool
    decreases rest.replans, 1nat,
{
    let run = rest.runs[0];
    let len = (run.1 - run.0) as usize;
    exists|mid: ManagerModel, host: Option<usize>| #[trigger]
        checked_at::<P, ALIGN>(
            before,
            rest.bulk.view,
            run.0 as usize,
            len,
            rest.bulk.write,
            mid,
            host,
        ) && match host {
            Some(host) => after == mid && step == StepModel::Copy(
                host,
                (run.0 - rest.bulk.addr) as usize,
                len,
                rest,
            ),
            None => run_lost::<P, ALIGN>(mid, rest, after, step),
        }
}

/// The first run that is left could not be served. The rest of the range is split anew from that run
/// on; not if that happened too often, which is put on record if the access was ever split.
#[verifier::opaque]
pub open spec fn run_lost<P: PageManagementProvider<ALIGN>, const ALIGN: usize>(
    before: ManagerModel,
    rest: RestModel,
    after: ManagerModel,
    step: StepModel,
) -> bool
    decreases rest.replans, 0nat,
{
    if rest.replans == 0 {
        after == before && step == StepModel::Refused && (rest.split ==> call_ensures(
            P::record_host_access_efault_after_runs,
            (),
            (),
        ))
    } else {
        rest_planned::<P, ALIGN>(
            before,
            rest.bulk,
            rest.runs[0].0,
            rest.end,
            (rest.replans - 1) as u32,
            rest.split,
            after,
            step,
        )
    }
}

/// The rest of a range was split into runs, and the first of them checked. An access is put on record
/// the first time that it takes more than one run.
#[verifier::opaque]
pub open spec fn rest_planned<P: PageManagementProvider<ALIGN>, const ALIGN: usize>(
    before: ManagerModel,
    bulk: Bulk,
    cursor: int,
    end: int,
    replans: u32,
    was_split: bool,
    after: ManagerModel,
    step: StepModel,
) -> bool
    decreases replans, 2nat,
{
    exists|runs: Option<Seq<(int, int)>>| #[trigger]
        runs_planned::<P, ALIGN>(bulk.view, cursor, end, runs) && match runs {
            None => after == before && step == StepModel::Refused,
            Some(list) => (list.len() > 1 && !was_split ==> call_ensures(
                P::record_host_access_multi_run,
                (),
                (),
            )) && run_approved::<P, ALIGN>(
                before,
                (RestModel {
                    bulk,
                    end,
                    runs: list,
                    faults: 0,
                    replans,
                    split: was_split || list.len() > 1,
                }),
                after,
                step,
            ),
        }
}

/// A range was prepared as a whole.
pub open spec fn whole_prepared<P: PageManagementProvider<ALIGN>, const ALIGN: usize>(
    before: ManagerModel,
    bulk: Bulk,
    end: int,
    after: ManagerModel,
    allowed: bool,
) -> bool {
    after.vmem == before.vmem && pages_prepared::<P, ALIGN>(
        before.domain,
        bulk.view,
        (bulk.addr as int, end),
        bulk.write,
        after.domain,
        allowed,
    )
}

/// A range that passed the check was prepared as a whole and split into runs.
pub open spec fn prepared_and_split<P: PageManagementProvider<ALIGN>, const ALIGN: usize>(
    before: ManagerModel,
    bulk: Bulk,
    end: int,
    after: ManagerModel,
    step: StepModel,
) -> bool {
    exists|mid: ManagerModel, allowed: bool| #[trigger]
        whole_prepared::<P, ALIGN>(before, bulk, end, mid, allowed) && if allowed {
            rest_planned::<P, ALIGN>(
                mid,
                bulk,
                bulk.addr as int,
                end,
                RUN_REPLANS,
                false,
                after,
                step,
            )
        } else {
            after == mid && step == StepModel::Refused
        }
}

/// A bulk access was begun: as a single run while no page is redirected, else checked and prepared as
/// a whole and split into runs.
pub open spec fn access_begun<P: PageManagementProvider<ALIGN>, const ALIGN: usize>(
    before: ManagerModel,
    bulk: Bulk,
    size: usize,
    after: ManagerModel,
    step: StepModel,
) -> bool {
    let end = bulk.addr + size;
    if size == 0 {
        after == before && step == StepModel::Done
    } else if end > usize::MAX {
        after == before && step == StepModel::Refused
    } else {
        exists|active: bool| #[trigger]
            call_ensures(P::any_host_redirect_active, (), active) && if active {
                let (domain, admitted) = range_admitted::<P, ALIGN>(
                    before,
                    bulk.view,
                    bulk.addr as int,
                    end,
                    bulk.write,
                );
                let checked = ManagerModel { domain, ..before };
                if admitted {
                    prepared_and_split::<P, ALIGN>(checked, bulk, end, after, step)
                } else {
                    after == checked && step == StepModel::Refused
                }
            } else {
                run_approved::<P, ALIGN>(
                    before,
                    (RestModel {
                        bulk,
                        end,
                        runs: seq![(bulk.addr as int, end)],
                        faults: 0,
                        replans: 0,
                        split: false,
                    }),
                    after,
                    step,
                )
            }
    }
}

/// A bulk access went on after a run was copied, or faulted: with the next run, or with the same one
/// again as long as it faulted few times.
pub open spec fn access_resumed<P: PageManagementProvider<ALIGN>, const ALIGN: usize>(
    before: ManagerModel,
    rest: RestModel,
    copied: bool,
    after: ManagerModel,
    step: StepModel,
) -> bool {
    if copied {
        if rest.runs.len() == 1 {
            after == before && step == StepModel::Done
        } else {
            run_approved::<P, ALIGN>(
                before,
                (RestModel { runs: rest.runs.drop_first(), faults: 0, ..rest }),
                after,
                step,
            )
        }
    } else if rest.faults + 1 < ACCESS_FAULT_ATTEMPTS {
        run_approved::<P, ALIGN>(
            before,
            (RestModel { faults: (rest.faults + 1) as u32, ..rest }),
            after,
            step,
        )
    } else {
        run_lost::<P, ALIGN>(before, rest, after, step)
    }
}

/// How often the rest of a step may be split anew.
pub open spec fn replans_of(step: StepModel) -> nat {
    match step {
        StepModel::Copy(_, _, _, rest) => rest.replans as nat,
        _ => 0,
    }
}

/// How many steps there are to the end of the access, if nothing fails from here on.
pub open spec fn runs_of(step: StepModel) -> nat {
    match step {
        StepModel::Copy(_, _, _, rest) => rest.runs.len() + 1,
        _ => 0,
    }
}

/// How often the run that a step copies may still fault.
pub open spec fn tries_of(step: StepModel) -> int {
    match step {
        StepModel::Copy(_, _, _, rest) => ACCESS_FAULT_ATTEMPTS - rest.faults,
        _ => 0,
    }
}

/// A step is nearer to the end of the access than another: the rest may be split anew less often, or
/// there are fewer runs, or the run may fault less often.
pub open spec fn is_further(step: StepModel, next: StepModel) -> bool {
    &&& tries_of(next) >= 0
    &&& step is Copy
    &&& next is Copy ==> {
        ||| replans_of(next) < replans_of(step)
        ||| replans_of(next) == replans_of(step) && {
            ||| runs_of(next) < runs_of(step)
            ||| runs_of(next) == runs_of(step) && tries_of(next) < tries_of(step)
        }
    }
}

/// Checking the first run that is left copies that run, or the rest is split anew less often.
proof fn lemma_approval_goes_on<P: PageManagementProvider<ALIGN>, const ALIGN: usize>(
    before: ManagerModel,
    rest: RestModel,
    after: ManagerModel,
    step: StepModel,
)
    requires
        run_approved::<P, ALIGN>(before, rest, after, step),
        rest.faults < ACCESS_FAULT_ATTEMPTS,
    ensures
        step matches StepModel::Copy(_, _, _, next) ==> next.faults < ACCESS_FAULT_ATTEMPTS && (next
            == rest || next.replans < rest.replans),
    decreases rest.replans, 1nat,
{
    reveal(run_approved);
    reveal(run_lost);
    reveal(rest_planned);
    let run = rest.runs[0];
    let len = (run.1 - run.0) as usize;
    let (mid, host) = choose|mid: ManagerModel, host: Option<usize>| #[trigger]
        checked_at::<P, ALIGN>(
            before,
            rest.bulk.view,
            run.0 as usize,
            len,
            rest.bulk.write,
            mid,
            host,
        ) && match host {
            Some(host) => after == mid && step == StepModel::Copy(
                host,
                (run.0 - rest.bulk.addr) as usize,
                len,
                rest,
            ),
            None => run_lost::<P, ALIGN>(mid, rest, after, step),
        };
    if host is None {
        lemma_loss_goes_on::<P, ALIGN>(mid, rest, after, step);
    }
}

/// After the loss of a run the rest is split anew less often.
proof fn lemma_loss_goes_on<P: PageManagementProvider<ALIGN>, const ALIGN: usize>(
    before: ManagerModel,
    rest: RestModel,
    after: ManagerModel,
    step: StepModel,
)
    requires
        run_lost::<P, ALIGN>(before, rest, after, step),
    ensures
        step matches StepModel::Copy(_, _, _, next) ==> next.faults < ACCESS_FAULT_ATTEMPTS
            && next.replans < rest.replans,
    decreases rest.replans, 0nat,
{
    reveal(run_approved);
    reveal(run_lost);
    reveal(rest_planned);
    if rest.replans > 0 {
        let runs = choose|runs: Option<Seq<(int, int)>>| #[trigger]
            runs_planned::<P, ALIGN>(rest.bulk.view, rest.runs[0].0, rest.end, runs) && match runs {
                None => after == before && step == StepModel::Refused,
                Some(list) => (list.len() > 1 && !rest.split ==> call_ensures(
                    P::record_host_access_multi_run,
                    (),
                    (),
                )) && run_approved::<P, ALIGN>(
                    before,
                    (RestModel {
                        bulk: rest.bulk,
                        end: rest.end,
                        runs: list,
                        faults: 0,
                        replans: (rest.replans - 1) as u32,
                        split: rest.split || list.len() > 1,
                    }),
                    after,
                    step,
                ),
            };
        if let Some(list) = runs {
            lemma_approval_goes_on::<P, ALIGN>(
                before,
                (RestModel {
                    bulk: rest.bulk,
                    end: rest.end,
                    runs: list,
                    faults: 0,
                    replans: (rest.replans - 1) as u32,
                    split: rest.split || list.len() > 1,
                }),
                after,
                step,
            );
        }
    }
}

/// A run that is to be copied lies inside pages that grant the access when the step is made.
pub proof fn lemma_every_copy_is_granted<P: PageManagementProvider<ALIGN>, const ALIGN: usize>(
    before: ManagerModel,
    rest: RestModel,
    after: ManagerModel,
    host: usize,
    offset: usize,
    len: usize,
    next: RestModel,
)
    requires
        ALIGN > 0,
        rest_ok(rest),
        run_approved::<P, ALIGN>(before, rest, after, StepModel::Copy(host, offset, len, next)),
    ensures
        P::TASK_ADDR_MIN <= rest.bulk.addr + offset,
        rest.bulk.addr + offset + len <= P::TASK_ADDR_MAX,
        crate::mm::manager::pages_grant(
            before.vmem.areas,
            rest.bulk.addr + offset,
            rest.bulk.addr + offset + len,
            rest.bulk.write,
            ALIGN as int,
        ) is Ok,
    decreases rest.replans,
{
    reveal(run_approved);
    reveal(run_lost);
    reveal(rest_planned);
    let step = StepModel::Copy(host, offset, len, next);
    let run = rest.runs[0];
    let size = (run.1 - run.0) as usize;
    let (mid, approved) = choose|mid: ManagerModel, host: Option<usize>| #[trigger]
        checked_at::<P, ALIGN>(
            before,
            rest.bulk.view,
            run.0 as usize,
            size,
            rest.bulk.write,
            mid,
            host,
        ) && match host {
            Some(host) => after == mid && step == StepModel::Copy(
                host,
                (run.0 - rest.bulk.addr) as usize,
                size,
                rest,
            ),
            None => run_lost::<P, ALIGN>(mid, rest, after, step),
        };
    if approved is None {
        let list = choose|list: Seq<(int, int)>|
            #![trigger runs_planned::<P, ALIGN>(rest.bulk.view, run.0, rest.end, Some(list))]
            runs_planned::<P, ALIGN>(rest.bulk.view, run.0, rest.end, Some(list)) && run_approved::<
                P,
                ALIGN,
            >(
                mid,
                (RestModel {
                    bulk: rest.bulk,
                    end: rest.end,
                    runs: list,
                    faults: 0,
                    replans: (rest.replans - 1) as u32,
                    split: rest.split || list.len() > 1,
                }),
                after,
                step,
            );
        let targets = choose|targets: Vec<Option<usize>>| Some(list) == Some(
            #[trigger] runs_over(targets@, ALIGN as int, run.0, rest.end),
        );
        lemma_runs_tile(targets@, ALIGN as int, run.0, rest.end);
        lemma_tiles_from(list, run.0, rest.end);
        lemma_every_copy_is_granted::<P, ALIGN>(
            mid,
            (RestModel {
                bulk: rest.bulk,
                end: rest.end,
                runs: list,
                faults: 0,
                replans: (rest.replans - 1) as u32,
                split: rest.split || list.len() > 1,
            }),
            after,
            host,
            offset,
            len,
            next,
        );
    }
}

/// Every step of an access is nearer to its end, however the copies went: an access ends.
pub proof fn lemma_access_ends<P: PageManagementProvider<ALIGN>, const ALIGN: usize>(
    before: ManagerModel,
    host: usize,
    offset: usize,
    len: usize,
    rest: RestModel,
    copied: bool,
    after: ManagerModel,
    step: StepModel,
)
    requires
        rest_ok(rest),
        access_resumed::<P, ALIGN>(before, rest, copied, after, step),
    ensures
        is_further(StepModel::Copy(host, offset, len, rest), step),
{
    if copied {
        if rest.runs.len() > 1 {
            let left = RestModel { runs: rest.runs.drop_first(), faults: 0, ..rest };
            lemma_approval_goes_on::<P, ALIGN>(before, left, after, step);
        }
    } else if rest.faults + 1 < ACCESS_FAULT_ATTEMPTS {
        let again = RestModel { faults: (rest.faults + 1) as u32, ..rest };
        lemma_approval_goes_on::<P, ALIGN>(before, again, after, step);
    } else {
        lemma_loss_goes_on::<P, ALIGN>(before, rest, after, step);
    }
}

/// The run of a step was handed to `perform`, and the access went on with its answer.
pub open spec fn run_performed<
    P: PageManagementProvider<ALIGN>,
    const ALIGN: usize,
    G: Fn(usize, usize, usize) -> Result<Vec<u8>, Fault>,
>(
    before: ManagerModel,
    step: StepModel,
    perform: G,
    answer: Result<Vec<u8>, Fault>,
    after: ManagerModel,
    next: StepModel,
) -> bool {
    step matches StepModel::Copy(host, offset, len, rest) && call_ensures(
        perform,
        (host, offset, len),
        answer,
    ) && access_resumed::<P, ALIGN>(before, rest, answer is Ok, after, next)
}

/// An access was seen through from a step on: every run that it came to was handed to `perform`, and
/// what the copied ones gave was put together.
#[verifier::opaque]
pub open spec fn seen_through<
    P: PageManagementProvider<ALIGN>,
    const ALIGN: usize,
    G: Fn(usize, usize, usize) -> Result<Vec<u8>, Fault>,
>(
    before: ManagerModel,
    step: StepModel,
    perform: G,
    after: ManagerModel,
    result: Option<Seq<u8>>,
) -> bool
    decreases replans_of(step), runs_of(step), tries_of(step),
{
    match step {
        StepModel::Done => after == before && result == Some(Seq::<u8>::empty()),
        StepModel::Refused => after == before && result is None,
        StepModel::Copy(_, _, _, _) => exists|
            answer: Result<Vec<u8>, Fault>,
            mid: ManagerModel,
            next: StepModel,
        | #[trigger]
            run_performed::<P, ALIGN, G>(before, step, perform, answer, mid, next) && is_further(step, next)
                && (answer is Ok && result is Some ==> answer->Ok_0@.is_prefix_of(result->0))
                && seen_through::<P, ALIGN, G>(mid, next, perform, after, behind(answer, result)),
    }
}

/// What the steps after an answer give, of what all of them give.
pub open spec fn behind(answer: Result<Vec<u8>, Fault>, result: Option<Seq<u8>>) -> Option<Seq<u8>> {
    match result {
        Some(all) => match answer {
            Ok(bytes) => Some(all.skip(bytes@.len() as int)),
            Err(_) => Some(all),
        },
        None => None,
    }
}

/// A bulk access was begun and seen through.
pub open spec fn bulk_access<
    P: PageManagementProvider<ALIGN>,
    const ALIGN: usize,
    G: Fn(usize, usize, usize) -> Result<Vec<u8>, Fault>,
>(
    before: ManagerModel,
    bulk: Bulk,
    size: usize,
    perform: G,
    after: ManagerModel,
    result: Option<Seq<u8>>,
) -> bool {
    exists|mid: ManagerModel, step: StepModel| #[trigger]
        access_begun::<P, ALIGN>(before, bulk, size, mid, step) && seen_through::<P, ALIGN, G>(
            mid,
            step,
            perform,
            after,
            result,
        )
}

/// A bulk access copies anything at all only where the pages around the whole range grant it and the
/// view admits it.
pub proof fn lemma_bulk_access_is_granted<P: PageManagementProvider<ALIGN>, const ALIGN: usize>(
    before: ManagerModel,
    bulk: Bulk,
    size: usize,
    after: ManagerModel,
    step: StepModel,
)
    requires
        size > 0,
        access_begun::<P, ALIGN>(before, bulk, size, after, step),
        step !is Refused,
    ensures
        P::TASK_ADDR_MIN <= bulk.addr,
        bulk.addr + size <= P::TASK_ADDR_MAX,
        crate::mm::manager::pages_grant(
            before.vmem.areas,
            bulk.addr as int,
            bulk.addr + size,
            bulk.write,
            ALIGN as int,
        ) is Ok,
        crate::mm::domain::admission::lease_acquired(before.domain, bulk.view).1 is Ok,
{
    reveal(run_approved);
    reveal(run_lost);
    reveal(rest_planned);
}

/// A step stands at a distance into its access: what it copies begins there, and what is left tiles the
/// access from there to its end. An access is done only at its end.
pub open spec fn stands_at(step: StepModel, bulk: Bulk, end: int, at: int) -> bool {
    match step {
        StepModel::Copy(_, offset, len, rest) => {
            &&& offset == at
            &&& 0 < len
            &&& rest.bulk == bulk
            &&& rest.end == end
            &&& tiles(rest.runs, bulk.addr + at, end)
            &&& rest.runs[0].1 == bulk.addr + at + len
        },
        StepModel::Done => bulk.addr + at == end,
        StepModel::Refused => true,
    }
}

proof fn lemma_tiles_end(runs: Seq<(int, int)>, start: int, end: int, i: int)
    requires
        tiles(runs, start, end),
        0 <= i < runs.len(),
    ensures
        runs[i].1 <= end,
        i < runs.len() - 1 ==> tiles(runs.skip(i + 1), runs[i].1, end),
    decreases runs.len() - i,
{
    if i < runs.len() - 1 {
        lemma_tiles_end(runs, start, end, i + 1);
        let tail = runs.skip(i + 1);
        assert(runs[i].1 == runs[i + 1].0);
        assert(tail[0] == runs[i + 1]);
        assert(tail.last() == runs.last());
        assert forall|k: int| 0 <= k < tail.len() implies (#[trigger] tail[k]).0 < tail[k].1 by {
            assert(tail[k] == runs[k + i + 1]);
        }
        assert forall|k: int, l: int|
            0 <= k < tail.len() && l == k + 1 && l < tail.len() implies (#[trigger] tail[k]).1 == (
        #[trigger] tail[l]).0 by {
            assert(tail[k] == runs[k + i + 1] && tail[l] == runs[l + i + 1]);
        }
    }
}

proof fn lemma_approval_stands<P: PageManagementProvider<ALIGN>, const ALIGN: usize>(
    before: ManagerModel,
    rest: RestModel,
    after: ManagerModel,
    step: StepModel,
    at: int,
)
    requires
        ALIGN > 0,
        0 <= at,
        rest.end <= usize::MAX,
        tiles(rest.runs, rest.bulk.addr + at, rest.end),
        run_approved::<P, ALIGN>(before, rest, after, step),
    ensures
        step !is Done,
        stands_at(step, rest.bulk, rest.end, at),
    decreases rest.replans, 1nat,
{
    reveal(run_approved);
    reveal(run_lost);
    reveal(rest_planned);
    let run = rest.runs[0];
    let len = (run.1 - run.0) as usize;
    lemma_tiles_end(rest.runs, rest.bulk.addr + at, rest.end, 0);
    let (mid, host) = choose|mid: ManagerModel, host: Option<usize>| #[trigger]
        checked_at::<P, ALIGN>(
            before,
            rest.bulk.view,
            run.0 as usize,
            len,
            rest.bulk.write,
            mid,
            host,
        ) && match host {
            Some(host) => after == mid && step == StepModel::Copy(
                host,
                (run.0 - rest.bulk.addr) as usize,
                len,
                rest,
            ),
            None => run_lost::<P, ALIGN>(mid, rest, after, step),
        };
    if host is None {
        lemma_loss_stands::<P, ALIGN>(mid, rest, after, step, at);
    }
}

proof fn lemma_loss_stands<P: PageManagementProvider<ALIGN>, const ALIGN: usize>(
    before: ManagerModel,
    rest: RestModel,
    after: ManagerModel,
    step: StepModel,
    at: int,
)
    requires
        ALIGN > 0,
        0 <= at,
        rest.end <= usize::MAX,
        tiles(rest.runs, rest.bulk.addr + at, rest.end),
        run_lost::<P, ALIGN>(before, rest, after, step),
    ensures
        step !is Done,
        stands_at(step, rest.bulk, rest.end, at),
    decreases rest.replans, 0nat,
{
    reveal(run_approved);
    reveal(run_lost);
    reveal(rest_planned);
    lemma_tiles_end(rest.runs, rest.bulk.addr + at, rest.end, 0);
    if rest.replans > 0 {
        lemma_plan_stands::<P, ALIGN>(
            before,
            rest.bulk,
            rest.end,
            (rest.replans - 1) as u32,
            rest.split,
            after,
            step,
            at,
        );
    }
}

proof fn lemma_plan_stands<P: PageManagementProvider<ALIGN>, const ALIGN: usize>(
    before: ManagerModel,
    bulk: Bulk,
    end: int,
    replans: u32,
    was_split: bool,
    after: ManagerModel,
    step: StepModel,
    at: int,
)
    requires
        ALIGN > 0,
        0 <= at,
        bulk.addr + at < end <= usize::MAX,
        rest_planned::<P, ALIGN>(before, bulk, bulk.addr + at, end, replans, was_split, after, step),
    ensures
        step !is Done,
        stands_at(step, bulk, end, at),
    decreases replans, 2nat,
{
    reveal(run_approved);
    reveal(run_lost);
    reveal(rest_planned);
    let cursor = bulk.addr + at;
    let runs = choose|runs: Option<Seq<(int, int)>>| #[trigger]
        runs_planned::<P, ALIGN>(bulk.view, cursor, end, runs) && match runs {
            None => after == before && step == StepModel::Refused,
            Some(list) => (list.len() > 1 && !was_split ==> call_ensures(
                P::record_host_access_multi_run,
                (),
                (),
            )) && run_approved::<P, ALIGN>(
                before,
                (RestModel {
                    bulk,
                    end,
                    runs: list,
                    faults: 0,
                    replans,
                    split: was_split || list.len() > 1,
                }),
                after,
                step,
            ),
        };
    if let Some(list) = runs {
        let targets = choose|targets: Vec<Option<usize>>| Some(list) == Some(
            #[trigger] runs_over(targets@, ALIGN as int, cursor, end),
        );
        lemma_runs_tile(targets@, ALIGN as int, cursor, end);
        lemma_approval_stands::<P, ALIGN>(
            before,
            (RestModel { bulk, end, runs: list, faults: 0, replans, split: was_split || list.len() > 1 }),
            after,
            step,
            at,
        );
    }
}

/// An access leaves nothing out and takes nothing twice: the step after a run that was copied stands
/// behind that run, and the step after one that faulted where that run began.
pub proof fn lemma_access_goes_on_where_it_was<P: PageManagementProvider<ALIGN>, const ALIGN: usize>(
    before: ManagerModel,
    host: usize,
    offset: usize,
    len: usize,
    rest: RestModel,
    copied: bool,
    after: ManagerModel,
    step: StepModel,
)
    requires
        ALIGN > 0,
        rest.end <= usize::MAX,
        stands_at(StepModel::Copy(host, offset, len, rest), rest.bulk, rest.end, offset as int),
        access_resumed::<P, ALIGN>(before, rest, copied, after, step),
    ensures
        stands_at(
            step,
            rest.bulk,
            rest.end,
            if copied {
                offset + len
            } else {
                offset as int
            },
        ),
        step is Done <==> copied && rest.bulk.addr + offset + len == rest.end,
{
    lemma_tiles_end(rest.runs, rest.bulk.addr + offset, rest.end, 0);
    if copied {
        if rest.runs.len() > 1 {
            assert(rest.runs.drop_first() =~= rest.runs.skip(1));
            lemma_tiles_end(rest.runs.skip(1), rest.runs[0].1, rest.end, 0);
            lemma_approval_stands::<P, ALIGN>(
                before,
                (RestModel { runs: rest.runs.drop_first(), faults: 0, ..rest }),
                after,
                step,
                offset + len,
            );
        }
    } else if rest.faults + 1 < ACCESS_FAULT_ATTEMPTS {
        lemma_approval_stands::<P, ALIGN>(
            before,
            (RestModel { faults: (rest.faults + 1) as u32, ..rest }),
            after,
            step,
            offset as int,
        );
    } else {
        lemma_loss_stands::<P, ALIGN>(before, rest, after, step, offset as int);
    }
}

/// An access begins at its beginning. An empty one is done at once, and no other is.
pub proof fn lemma_access_begins_at_its_start<P: PageManagementProvider<ALIGN>, const ALIGN: usize>(
    before: ManagerModel,
    bulk: Bulk,
    size: usize,
    after: ManagerModel,
    step: StepModel,
)
    requires
        ALIGN > 0,
        access_begun::<P, ALIGN>(before, bulk, size, after, step),
    ensures
        stands_at(step, bulk, bulk.addr + size, 0),
        step is Done <==> size == 0,
        step is Copy ==> bulk.addr + size <= usize::MAX,
{
    let end = bulk.addr + size;
    if size > 0 && end <= usize::MAX {
        let active = choose|active: bool| #[trigger]
            call_ensures(P::any_host_redirect_active, (), active) && if active {
                let (domain, admitted) = range_admitted::<P, ALIGN>(
                    before,
                    bulk.view,
                    bulk.addr as int,
                    end,
                    bulk.write,
                );
                let checked = ManagerModel { domain, ..before };
                if admitted {
                    prepared_and_split::<P, ALIGN>(checked, bulk, end, after, step)
                } else {
                    after == checked && step == StepModel::Refused
                }
            } else {
                run_approved::<P, ALIGN>(
                    before,
                    (RestModel {
                        bulk,
                        end,
                        runs: seq![(bulk.addr as int, end)],
                        faults: 0,
                        replans: 0,
                        split: false,
                    }),
                    after,
                    step,
                )
            };
        if active {
            let (domain, admitted) = range_admitted::<P, ALIGN>(
                before,
                bulk.view,
                bulk.addr as int,
                end,
                bulk.write,
            );
            if admitted {
                let checked = ManagerModel { domain, ..before };
                let (mid, allowed) = choose|mid: ManagerModel, allowed: bool| #[trigger]
                    whole_prepared::<P, ALIGN>(checked, bulk, end, mid, allowed) && if allowed {
                        rest_planned::<P, ALIGN>(
                            mid,
                            bulk,
                            bulk.addr as int,
                            end,
                            RUN_REPLANS,
                            false,
                            after,
                            step,
                        )
                    } else {
                        after == mid && step == StepModel::Refused
                    };
                if allowed {
                    lemma_plan_stands::<P, ALIGN>(mid, bulk, end, RUN_REPLANS, false, after, step, 0);
                }
            }
        } else {
            lemma_approval_stands::<P, ALIGN>(
                before,
                (RestModel {
                    bulk,
                    end,
                    runs: seq![(bulk.addr as int, end)],
                    faults: 0,
                    replans: 0,
                    split: false,
                }),
                after,
                step,
                0,
            );
        }
    }
}

proof fn lemma_steps_give_the_content<
    P: PageManagementProvider<ALIGN>,
    const ALIGN: usize,
    G: Fn(usize, usize, usize) -> Result<Vec<u8>, Fault>,
>(
    before: ManagerModel,
    step: StepModel,
    perform: G,
    after: ManagerModel,
    result: Option<Seq<u8>>,
    bulk: Bulk,
    content: Seq<u8>,
    at: int,
)
    requires
        ALIGN > 0,
        0 <= at <= content.len(),
        step is Copy ==> bulk.addr + content.len() <= usize::MAX,
        stands_at(step, bulk, bulk.addr + content.len(), at),
        copies_from(perform, content),
        seen_through::<P, ALIGN, G>(before, step, perform, after, result),
    ensures
        result matches Some(bytes) ==> bytes == content.skip(at),
    decreases replans_of(step), runs_of(step), tries_of(step),
{
    reveal(seen_through);
    match step {
        StepModel::Done => {
            assert(content.skip(at) =~= Seq::<u8>::empty());
        },
        StepModel::Refused => {},
        StepModel::Copy(host, offset, len, rest) => {
            let (answer, mid, next) = choose|
                answer: Result<Vec<u8>, Fault>,
                mid: ManagerModel,
                next: StepModel,
            | #[trigger]
                run_performed::<P, ALIGN, G>(before, step, perform, answer, mid, next) && is_further(step, next)
                    && (answer is Ok && result is Some ==> answer->Ok_0@.is_prefix_of(result->0))
                    && seen_through::<P, ALIGN, G>(mid, next, perform, after, behind(answer, result));
            lemma_tiles_end(rest.runs, bulk.addr + at, rest.end, 0);
            lemma_access_goes_on_where_it_was::<P, ALIGN>(
                before,
                host,
                offset,
                len,
                rest,
                answer is Ok,
                mid,
                next,
            );
            let there = if answer is Ok {
                at + len
            } else {
                at
            };
            lemma_steps_give_the_content::<P, ALIGN, G>(
                mid,
                next,
                perform,
                after,
                behind(answer, result),
                bulk,
                content,
                there,
            );
            if let Some(all) = result {
                if let Ok(bytes) = answer {
                    assert(bytes@ == content.subrange(at, at + len));
                    assert(all.take(len as int) =~= bytes@);
                    assert(all =~= all.take(len as int) + all.skip(len as int));
                    assert(content.skip(at) =~= content.subrange(at, at + len) + content.skip(at + len));
                }
            }
        },
    }
}

/// A copier that gives the part of a content that it is asked for, wherever it gives anything.
pub open spec fn copies_from<G: Fn(usize, usize, usize) -> Result<Vec<u8>, Fault>>(
    perform: G,
    content: Seq<u8>,
) -> bool {
    forall|host: usize, offset: usize, len: usize, answer: Result<Vec<u8>, Fault>| #[trigger]
        call_ensures(perform, (host, offset, len), answer) && offset + len <= content.len() ==> (
        answer matches Ok(bytes) ==> bytes@ == content.subrange(offset as int, offset + len))
}

/// A bulk access that succeeds gives the content of the whole range, in order, into however many runs it
/// was split and however often it was split anew.
pub proof fn lemma_bulk_access_gives_the_content<
    P: PageManagementProvider<ALIGN>,
    const ALIGN: usize,
    G: Fn(usize, usize, usize) -> Result<Vec<u8>, Fault>,
>(
    before: ManagerModel,
    bulk: Bulk,
    size: usize,
    perform: G,
    after: ManagerModel,
    bytes: Seq<u8>,
    content: Seq<u8>,
)
    requires
        ALIGN > 0,
        content.len() == size,
        copies_from(perform, content),
        bulk_access::<P, ALIGN, G>(before, bulk, size, perform, after, Some(bytes)),
    ensures
        bytes == content,
{
    let (mid, step) = choose|mid: ManagerModel, step: StepModel| #[trigger]
        access_begun::<P, ALIGN>(before, bulk, size, mid, step) && seen_through::<P, ALIGN, G>(
            mid,
            step,
            perform,
            after,
            Some(bytes),
        );
    lemma_access_begins_at_its_start::<P, ALIGN>(before, bulk, size, mid, step);
    lemma_steps_give_the_content::<P, ALIGN, G>(mid, step, perform, after, Some(bytes), bulk, content, 0);
    assert(content.skip(0) =~= content);
}

/// Bytes that are there or not.
pub open spec fn bytes_model(bytes: Option<Vec<u8>>) -> Option<Seq<u8>> {
    match bytes {
        Some(bytes) => Some(bytes@),
        None => None,
    }
}

/// Adds bytes.
fn put_all(out: &mut Vec<u8>, bytes: &Vec<u8>)
    ensures
        final(out)@ == old(out)@ + bytes@,
{
    let mut i: usize = 0;
    proof {
        assert(out@ =~= old(out)@ + bytes@.take(0));
    }
    while i < bytes.len()
        invariant
            i <= bytes@.len(),
            out@ == old(out)@ + bytes@.take(i as int),
        decreases bytes@.len() - i,
    {
        out.push(bytes[i]);
        proof {
            assert(out@ =~= old(out)@ + bytes@.take(i + 1));
        }
        i += 1;
    }
    proof {
        assert(bytes@.take(i as int) =~= bytes@);
    }
}

impl<P: PageManagementProvider<ALIGN> + 'static, const ALIGN: usize> ViewConfinedAccess<P, ALIGN> {
    /// Whether an access that was approved and faulted all the same is tried again. The platform's
    /// preparation may have raced a fork; the guest itself would resolve that with an ordinary page
    /// fault.
    pub fn retry_after_fault(attempt: u32) -> (retry: bool)
        ensures
            retry == (attempt < ACCESS_FAULT_ATTEMPTS),
            retry <==> attempt < 3,
    {
        attempt < ACCESS_FAULT_ATTEMPTS
    }

    /// Checks the first run that is left.
    fn approve_run(manager: &mut PageManager<P, ALIGN>, rest: BulkRest) -> (step: BulkStep)
        requires
            old(manager).wf(),
            rest.wf(),
        ensures
            final(manager).follows(old(manager)),
            run_approved::<P, ALIGN>(old(manager)@, rest@, final(manager)@, step_model(step)),
            step_ok(step, rest@.bulk, rest@.end),
        decreases rest@.replans, 1nat,
    {
        let (start, end) = rest.runs[rest.next];
        let ghost first = manager@;
        let ghost left = rest@;
        proof {
            assert(left.runs[0] == (start as int, end as int));
        }
        let approved = Self::checked(manager, rest.bulk.view, start, end - start, rest.bulk.write);
        let ghost mid = manager@;
        proof {
            assert(checked_at::<P, ALIGN>(
                first,
                left.bulk.view,
                left.runs[0].0 as usize,
                (left.runs[0].1 - left.runs[0].0) as usize,
                left.bulk.write,
                mid,
                approved,
            ));
            reveal(run_approved);
            reveal(run_lost);
            reveal(rest_planned);
        }
        match approved {
            Some(host) => BulkStep::Copy {
                host,
                offset: start - rest.bulk.addr,
                len: end - start,
                rest,
            },
            None => Self::lose_run(manager, rest),
        }
    }

    /// Splits the rest anew where its first run could not be served, if that may still be done.
    fn lose_run(manager: &mut PageManager<P, ALIGN>, rest: BulkRest) -> (step: BulkStep)
        requires
            old(manager).wf(),
            rest.wf(),
        ensures
            final(manager).follows(old(manager)),
            run_lost::<P, ALIGN>(old(manager)@, rest@, final(manager)@, step_model(step)),
            step_ok(step, rest@.bulk, rest@.end),
        decreases rest@.replans, 0nat,
    {
        proof {
            reveal(run_approved);
            reveal(run_lost);
            reveal(rest_planned);
        }
        if rest.replans == 0 {
            if rest.split {
                P::record_host_access_efault_after_runs();
            }
            return BulkStep::Refused;
        }
        let (start, _) = rest.runs[rest.next];
        proof {
            assert(rest@.runs[0].0 == start);
        }
        Self::plan_rest(manager, rest.bulk, start, rest.end, rest.replans - 1, rest.split)
    }

    /// Splits the rest of a range into runs, and checks the first of them.
    fn plan_rest(
        manager: &mut PageManager<P, ALIGN>,
        bulk: Bulk,
        cursor: usize,
        end: usize,
        replans: u32,
        was_split: bool,
    ) -> (step: BulkStep)
        requires
            old(manager).wf(),
            bulk.addr <= cursor < end,
        ensures
            final(manager).follows(old(manager)),
            rest_planned::<P, ALIGN>(
                old(manager)@,
                bulk,
                cursor as int,
                end as int,
                replans,
                was_split,
                final(manager)@,
                step_model(step),
            ),
            step_ok(step, bulk, end as int),
        decreases replans, 2nat,
    {
        proof {
            manager.lemma_wf();
            reveal(run_approved);
            reveal(run_lost);
            reveal(rest_planned);
        }
        let planned = Self::delta_runs(bulk.view, cursor, end);
        let ghost plan = runs_model(planned);
        proof {
            assert(runs_planned::<P, ALIGN>(bulk.view, cursor as int, end as int, plan));
        }
        let runs = match planned {
            Some(runs) => runs,
            None => {
                return BulkStep::Refused;
            },
        };
        let split = was_split || runs.len() > 1;
        if split && !was_split {
            P::record_host_access_multi_run();
        }
        let ghost list = run_models(runs@);
        let rest = BulkRest { bulk, end, runs, next: 0, faults: 0, replans, split };
        proof {
            lemma_tiles_from(list, cursor as int, end as int);
            assert(list.skip(0) =~= list);
            assert(rest@ == (RestModel {
                bulk,
                end: end as int,
                runs: list,
                faults: 0,
                replans,
                split: was_split || list.len() > 1,
            }));
        }
        Self::approve_run(manager, rest)
    }

    /// Begins a bulk access, in one or more host-contiguous runs.
    pub fn begin_access(
        manager: &mut PageManager<P, ALIGN>,
        view: VmViewId,
        addr: usize,
        size: usize,
        write: bool,
    ) -> (step: BulkStep)
        requires
            old(manager).wf(),
        ensures
            final(manager).follows(old(manager)),
            access_begun::<P, ALIGN>(
                old(manager)@,
                (Bulk { view, addr, write }),
                size,
                final(manager)@,
                step_model(step),
            ),
            step_ok(step, (Bulk { view, addr, write }), addr + size),
    {
        let bulk = Bulk { view, addr, write };
        if size == 0 {
            return BulkStep::Done;
        }
        let end = match addr.checked_add(size) {
            Some(end) => end,
            None => {
                return BulkStep::Refused;
            },
        };
        let active = P::any_host_redirect_active();
        proof {
            assert(call_ensures(P::any_host_redirect_active, (), active));
        }
        if !active {
            let mut runs: Vec<(usize, usize)> = Vec::new();
            runs.push((addr, end));
            let rest = BulkRest { bulk, end, runs, next: 0, faults: 0, replans: 0, split: false };
            proof {
                assert(rest@.runs =~= seq![(addr as int, end as int)]);
            }
            return Self::approve_run(manager, rest);
        }
        if !Self::let_in(manager, view, addr, end, write) {
            return BulkStep::Refused;
        }
        let ghost admitted = manager@;
        let allowed = Self::prepare_pages(manager, view, addr, end, write);
        proof {
            assert(whole_prepared::<P, ALIGN>(admitted, bulk, addr + size, manager@, allowed));
        }
        if !allowed {
            return BulkStep::Refused;
        }
        Self::plan_rest(manager, bulk, addr, end, RUN_REPLANS, false)
    }

    /// Goes on with a bulk access, once it is known how the copy of a run went.
    pub fn resume_access(
        manager: &mut PageManager<P, ALIGN>,
        rest: BulkRest,
        copied: Result<(), Fault>,
    ) -> (step: BulkStep)
        requires
            old(manager).wf(),
            rest.wf(),
        ensures
            final(manager).follows(old(manager)),
            access_resumed::<P, ALIGN>(
                old(manager)@,
                rest@,
                copied is Ok,
                final(manager)@,
                step_model(step),
            ),
            step_ok(step, rest@.bulk, rest@.end),
    {
        let ghost before = rest@;
        let mut left = rest;
        if copied.is_ok() {
            if left.next == left.runs.len() - 1 {
                return BulkStep::Done;
            }
            left.next = left.next + 1;
            left.faults = 0;
            proof {
                assert(left@.runs =~= before.runs.drop_first());
            }
            return Self::approve_run(manager, left);
        }
        if Self::retry_after_fault(left.faults + 1) {
            left.faults = left.faults + 1;
            return Self::approve_run(manager, left);
        }
        Self::lose_run(manager, left)
    }

    /// Makes one bulk access, in one or more host-contiguous runs. `perform` receives each run's host
    /// address, its byte offset inside the access and its length; what it gives is put together in
    /// address order. The whole access fails where the range is not wholly granted, and where a run
    /// still cannot be served after its retries and after splitting the rest of the range anew.
    pub fn access_runs<G: Fn(usize, usize, usize) -> Result<Vec<u8>, Fault>>(
        manager: &mut PageManager<P, ALIGN>,
        view: VmViewId,
        addr: usize,
        size: usize,
        write: bool,
        perform: &G,
    ) -> (result: Option<Vec<u8>>)
        requires
            old(manager).wf(),
            forall|host: usize, offset: usize, len: usize| #[trigger]
                call_requires(perform, (host, offset, len)),
        ensures
            final(manager).follows(old(manager)),
            bulk_access::<P, ALIGN, G>(
                old(manager)@,
                (Bulk { view, addr, write }),
                size,
                *perform,
                final(manager)@,
                bytes_model(result),
            ),
    {
        let ghost how = *perform;
        let ghost bulk = Bulk { view, addr, write };
        let mut step = Self::begin_access(manager, view, addr, size, write);
        let ghost begun = manager@;
        let ghost first = step_model(step);
        let mut out: Vec<u8> = Vec::new();
        proof {
            assert forall|after: ManagerModel, result: Option<Seq<u8>>| #[trigger]
                seen_through::<P, ALIGN, G>(begun, first, how, after, result) implies seen_through::<
                P,
                ALIGN,
                G,
            >(begun, first, how, after, prepended(out@, result)) by {
                if let Some(bytes) = result {
                    assert(out@ + bytes =~= bytes);
                }
            }
        }
        loop
            invariant
                manager.follows(old(manager)),
                how == *perform,
                bulk == (Bulk { view, addr, write }),
                step_ok(step, bulk, addr + size),
                access_begun::<P, ALIGN>(old(manager)@, bulk, size, begun, first),
                forall|host: usize, offset: usize, len: usize| #[trigger]
                    call_requires(perform, (host, offset, len)),
                forall|after: ManagerModel, result: Option<Seq<u8>>| #[trigger]
                    seen_through::<P, ALIGN, G>(manager@, step_model(step), how, after, result)
                        ==> seen_through::<P, ALIGN, G>(
                        begun,
                        first,
                        how,
                        after,
                        prepended(out@, result),
                    ),
            decreases
                    replans_of(step_model(step)),
                    runs_of(step_model(step)),
                    tries_of(step_model(step)),
        {
            let ghost here = manager@;
            let ghost now = step_model(step);
            let ghost before = out@;
            match step {
                BulkStep::Done => {
                    proof {
                        reveal(seen_through);
                        assert(seen_through::<P, ALIGN, G>(
                            here,
                            now,
                            how,
                            here,
                            Some(Seq::<u8>::empty()),
                        ));
                        assert(out@ + Seq::<u8>::empty() =~= out@);
                    }
                    return Some(out);
                },
                BulkStep::Refused => {
                    proof {
                        reveal(seen_through);
                        assert(seen_through::<P, ALIGN, G>(here, now, how, here, None));
                        assert(prepended(out@, None) is None);
                    }
                    return None;
                },
                BulkStep::Copy { host, offset, len, rest } => {
                    let ghost left = rest@;
                    proof {
                        rest.lemma_wf();
                    }
                    let answer = perform(host, offset, len);
                    let ghost given = answer;
                    let copied: Result<(), Fault> = match &answer {
                        Ok(bytes) => {
                            put_all(&mut out, bytes);
                            Ok(())
                        },
                        Err(fault) => Err(*fault),
                    };
                    step = Self::resume_access(manager, rest, copied);
                    let ghost mid = manager@;
                    let ghost next = step_model(step);
                    proof {
                        lemma_access_ends::<P, ALIGN>(
                            here,
                            host,
                            offset,
                            len,
                            left,
                            given is Ok,
                            mid,
                            next,
                        );
                        assert forall|after: ManagerModel, result: Option<Seq<u8>>| #[trigger]
                            seen_through::<P, ALIGN, G>(mid, next, how, after, result) implies seen_through::<
                            P,
                            ALIGN,
                            G,
                        >(begun, first, how, after, prepended(out@, result)) by {
                            let all = match given {
                                Ok(bytes) => prepended(bytes@, result),
                                Err(_) => result,
                            };
                            if let Some(more) = result {
                                if let Ok(bytes) = given {
                                    assert((bytes@ + more).skip(bytes@.len() as int) =~= more);
                                    assert(bytes@.is_prefix_of(bytes@ + more)) by {
                                        assert((bytes@ + more).take(bytes@.len() as int) =~= bytes@);
                                    }
                                    assert(before + (bytes@ + more) =~= out@ + more);
                                }
                            }
                            assert(behind(given, all) == result);
                            assert(seen_through::<P, ALIGN, G>(here, now, how, after, all)) by {
                                reveal(seen_through);
                                assert(run_performed::<P, ALIGN, G>(here, now, how, given, mid, next));
                            }
                            assert(prepended(before, all) == prepended(out@, result));
                        }
                    }
                },
            }
        }
    }
}

/// Runs that tile a range lie inside it.
proof fn lemma_tiles_from(list: Seq<(int, int)>, start: int, end: int)
    requires
        tiles(list, start, end),
    ensures
        forall|k: int| 0 <= k < list.len() ==> start <= (#[trigger] list[k]).0 < list[k].1 <= end,
{
    assert forall|k: int| 0 <= k < list.len() implies start <= (#[trigger] list[k]).0 < list[k].1
        <= end by {
        lemma_tile_low(list, start, end, k);
        lemma_tile_high(list, start, end, k);
    }
}

proof fn lemma_tile_low(list: Seq<(int, int)>, start: int, end: int, k: int)
    requires
        tiles(list, start, end),
        0 <= k < list.len(),
    ensures
        start <= list[k].0,
    decreases k,
{
    if k > 0 {
        lemma_tile_low(list, start, end, k - 1);
        assert(list[k - 1].1 == list[k].0);
    }
}

proof fn lemma_tile_high(list: Seq<(int, int)>, start: int, end: int, k: int)
    requires
        tiles(list, start, end),
        0 <= k < list.len(),
    ensures
        list[k].1 <= end,
    decreases list.len() - k,
{
    if k < list.len() - 1 {
        lemma_tile_high(list, start, end, k + 1);
        assert(list[k].1 == list[k + 1].0);
    }
}

} // verus!
