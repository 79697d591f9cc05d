//! Growing, shrinking and moving a mapping.
use crate::mm::addr::{NonZeroAddress, NonZeroPageSize, PageRange};
use crate::mm::area::{SharedFutexMapping, SharedFutexPosition, Transient, VmArea};
use crate::mm::errors::{VmemMoveError, VmemResizeError, VmemUnmapError};
use crate::mm::flags::{MemoryRegionPermissions, VmFlags};
use crate::mm::vmem::Vmem;
use crate::platform::page_mgmt::{
    AllocationError, FixedAddressBehavior, PageManagementProvider, RemapError,
};
use vstd::prelude::*;

verus! {

use crate::mm::addr::lemma_aligned_sum;
use crate::mm::area::new_area;
use crate::mm::flags::{carries, permissions_of};
use crate::mm::vmem::effects::{inserted, occupied, removed};
use crate::mm::vmem::initialization::{span, takes_backing};
use crate::mm::vmem::log::{entries_of, lemma_no_marks, marks};
use crate::mm::vmem::placement::{lemma_flexible_placement, suggestion, unmapped_area};
use crate::mm::vmem::{invalidated, lemma_paged_put, VmemModel};
use crate::range_map::{cut, is_run, lookup, put, uniform};

broadcast use {
    crate::range_map::lemma_lookup_put,
    crate::range_map::lemma_lookup_cut,
    crate::range_map::lemma_lookup_revise,
};

/// The mapping around a mapped address.
pub open spec fn run_at(areas: Map<int, VmArea>, address: int) -> (int, int) {
    choose|run: (int, int)| #[trigger]
        is_run(areas, run.0, run.1, areas[address]) && run.0 <= address < run.1
}

/// There is only one mapping around an address.
pub proof fn lemma_run_at(areas: Map<int, VmArea>, address: int, start: int, end: int)
    requires
        is_run(areas, start, end, areas[address]),
        start <= address < end,
    ensures
        run_at(areas, address) == (start, end),
{
    let given = (start, end);
    assert(is_run(areas, given.0, given.1, areas[address]));
    let (s, e) = run_at(areas, address);
    if s < start {
        assert(lookup(areas, start - 1) == Some(areas[address]));
    }
    if start < s {
        assert(lookup(areas, s - 1) == Some(areas[address]));
    }
    if e < end {
        assert(lookup(areas, e) == Some(areas[address]));
    }
    if end < e {
        assert(lookup(areas, end) == Some(areas[address]));
    }
}

/// Some address of a range belongs to an initialization callback.
pub open spec fn initializing(m: VmemModel, start: int, end: int) -> bool {
    exists|k: int| start <= k < end && #[trigger] lookup(m.pending, k) is Some
}

/// The area of the part that a grown mapping gains: a private file mapping grows by anonymous
/// memory, anything else by more of itself.
pub open spec fn grown_area(area: VmArea) -> VmArea {
    if area.is_file_backed && !carries(area.flags.bits, VmFlags::VM_SHARED) {
        new_area(area.flags.bits, false, None)
    } else {
        area
    }
}

/// What a resize comes down to.
pub enum ResizePlan {
    /// It has this outcome, and nothing changes.
    Settled(Result<(), VmemResizeError>),
    /// The tail from this address on is removed.
    Shrink(usize),
    /// The mapping is extended up to this address by an area.
    Grow(usize, VmArea),
}

/// What resizing the part of one mapping from `start` to `end` to a new size comes down to.
pub open spec fn resize_plan(m: VmemModel, start: int, end: int, size: int) -> ResizePlan {
    match lookup(m.areas, start) {
        None => ResizePlan::Settled(Err(VmemResizeError::NotExist(start as usize))),
        Some(area) => {
            let new_end = start + size;
            let (run_start, run_end) = run_at(m.areas, start);
            if new_end == end {
                ResizePlan::Settled(Ok(()))
            } else if end > run_end {
                ResizePlan::Settled(
                    Err(
                        VmemResizeError::InvalidAddr {
                            range: span(run_start, run_end),
                            addr: end as usize,
                        },
                    ),
                )
            } else if initializing(m, start, end) {
                ResizePlan::Settled(Err(VmemResizeError::InitializationPending(span(start, end))))
            } else if new_end < end {
                ResizePlan::Shrink(new_end as usize)
            } else if end != run_end {
                ResizePlan::Settled(Err(VmemResizeError::RangeOccupied(span(end, run_end))))
            } else if occupied(m.areas, end, new_end) {
                ResizePlan::Settled(Err(VmemResizeError::RangeOccupied(span(end, new_end))))
            } else {
                ResizePlan::Grow(new_end as usize, grown_area(area))
            }
        },
    }
}

/// A plan after which the mapping may have to move to grow.
pub open spec fn may_move_on(plan: ResizePlan) -> bool {
    plan is Grow || plan matches ResizePlan::Settled(Err(VmemResizeError::RangeOccupied(_)))
}

/// A range lies inside one mapping.
pub open spec fn is_one_mapping(areas: Map<int, VmArea>, start: int, end: int) -> bool {
    lookup(areas, start) matches Some(area) && uniform(areas, start, end, area)
}

/// What a shrink reports for what the removal reported.
pub open spec fn shrink_result(result: Result<(), VmemUnmapError>) -> Result<(), VmemResizeError> {
    match result {
        Ok(()) => Ok(()),
        Err(error) => Err(VmemResizeError::UnmapError(error)),
    }
}

/// What a growth reports for what the insertion reported.
pub open spec fn grow_result(result: Result<usize, AllocationError>, end: int, new_end: int) -> Result<
    (),
    VmemResizeError,
> {
    match result {
        Ok(_) => Ok(()),
        Err(AllocationError::OutOfMemory) => Err(VmemResizeError::OutOfMemory),
        Err(_) => Err(VmemResizeError::RangeOccupied(span(end, new_end))),
    }
}

/// What a resize did.
pub open spec fn resized<P: PageManagementProvider<ALIGN>, const ALIGN: usize>(
    platform: &P,
    before: VmemModel,
    range: (int, int),
    size: int,
    after: VmemModel,
    result: Result<(), VmemResizeError>,
) -> bool {
    match resize_plan(before, range.0, range.1, size) {
        ResizePlan::Settled(outcome) => after == before && result == outcome,
        ResizePlan::Shrink(new_end) => exists|answer: Result<(), VmemUnmapError>| #[trigger]
            removed(platform, before, new_end as int, range.1, after, answer) && result == shrink_result(
                answer,
            ),
        ResizePlan::Grow(new_end, area) => exists|answer: Result<usize, AllocationError>| #[trigger]
            inserted(
                platform,
                before,
                (range.1, new_end as int),
                area,
                false,
                FixedAddressBehavior::NoReplace,
                after,
                answer,
            ) && result == grow_result(answer, range.1, new_end as int),
    }
}

/// A shared area with its backing moved along from one start address to another.
pub open spec fn rebased(area: VmArea, old_start: usize, new_start: usize) -> VmArea {
    match area.shared_futex {
        Some(shared) => match shared.position {
            SharedFutexPosition::Origin(origin) => VmArea {
                shared_futex: Some(
                    SharedFutexMapping {
                        identity: shared.identity,
                        position: SharedFutexPosition::Origin(
                            new_start.wrapping_sub(old_start.wrapping_sub(origin)),
                        ),
                    },
                ),
                ..area
            },
            SharedFutexPosition::PendingOffset(_) => area,
        },
        None => area,
    }
}

/// Every byte offset that a moved shared mapping shows is the one it showed before.
pub proof fn lemma_rebase_keeps_offsets(area: VmArea, old_start: usize, new_start: usize, delta: usize)
    requires
        area.shared_futex matches Some(shared) && shared.position is Origin,
        old_start + delta <= usize::MAX,
        new_start + delta <= usize::MAX,
    ensures
        ({
            let before = area.shared_futex->0.position->Origin_0;
            let after = rebased(area, old_start, new_start).shared_futex->0.position->Origin_0;
            ((new_start + delta) as usize).wrapping_sub(after) == ((old_start + delta) as usize).wrapping_sub(
                before,
            )
        }),
{
}

/// Where the moved part of a mapping ends at its new place. What a grown private file mapping gains
/// is not a part of it.
pub open spec fn moved_end(area: VmArea, old_range: (int, int), new_range: (int, int)) -> int {
    let split = new_range.0 + (old_range.1 - old_range.0);
    if area.is_file_backed && !carries(area.flags.bits, VmFlags::VM_SHARED) && split < new_range.1 {
        split
    } else {
        new_range.1
    }
}

/// The mappings once one moved. What a grown private file mapping gains is anonymous.
pub open spec fn moved_areas(areas: Map<int, VmArea>, old_range: (int, int), new_range: (int, int)) -> Map<
    int,
    VmArea,
> {
    let area = rebased(areas[old_range.0], old_range.0 as usize, new_range.0 as usize);
    let head_end = moved_end(area, old_range, new_range);
    let with_head = put(areas, new_range.0, head_end, area);
    let with_tail = if head_end < new_range.1 {
        put(with_head, head_end, new_range.1, new_area(area.flags.bits, false, None))
    } else {
        with_head
    };
    cut(with_tail, old_range.0, old_range.1)
}

/// The address space once a mapping moved. No initialization owns anything of it any more.
pub open spec fn moved(m: VmemModel, old_range: (int, int), new_range: (int, int)) -> VmemModel {
    invalidated(
        invalidated(
            VmemModel { areas: moved_areas(m.areas, old_range, new_range), ..m },
            new_range.0,
            new_range.1,
        ),
        old_range.0,
        old_range.1,
    )
}

/// The changes that a move makes: the part that moved, what it gained beside it, the part that it
/// left, and every mark of an initialization at the new place.
pub open spec fn move_entries(areas: Map<int, VmArea>, old_range: (int, int), new_range: (int, int)) -> nat {
    let area = rebased(areas[old_range.0], old_range.0 as usize, new_range.0 as usize);
    marks(moved_areas(areas, old_range, new_range), new_range.0, new_range.1) + (if moved_end(
        area,
        old_range,
        new_range,
    ) < new_range.1 {
        3nat
    } else {
        2nat
    })
}

/// The changes that a resize makes.
pub open spec fn resize_entries(m: VmemModel, range: (int, int), size: int, done: bool) -> nat {
    match resize_plan(m, range.0, range.1, size) {
        ResizePlan::Shrink(_) if done => 1,
        ResizePlan::Grow(_, area) if done => entries_of(area),
        _ => 0,
    }
}

/// The platform was asked to move a mapping's pages, and gave this answer.
pub open spec fn move_asked<P: PageManagementProvider<ALIGN>, const ALIGN: usize>(
    platform: &P,
    area: VmArea,
    old_range: (int, int),
    new_range: (int, int),
    answer: Result<usize, RemapError>,
) -> bool {
    let from = span(old_range.0, old_range.1);
    let to = span(new_range.0, new_range.1);
    match area.shared_futex {
        Some(shared) => call_ensures(
            P::remap_shared_pages,
            (
                platform,
                shared.identity,
                (old_range.0 as usize).wrapping_sub(shared.position->Origin_0),
                from,
                to,
                permissions_of(area.flags),
            ),
            answer,
        ),
        None => call_ensures(P::remap_pages, (platform, from, to, permissions_of(area.flags)), answer),
    }
}

/// What a move reports for the platform's answer.
pub open spec fn move_result(answer: Result<usize, RemapError>) -> Result<usize, VmemMoveError> {
    match answer {
        Ok(start) => Ok(start),
        Err(error) => Err(VmemMoveError::RemapError(error)),
    }
}

/// What a move did: nothing where a callback still owns part of the mapping, no place was found or
/// the platform refused; else the mapping is at the place that was found.
pub open spec fn relocated<P: PageManagementProvider<ALIGN>, const ALIGN: usize>(
    platform: &P,
    before: VmemModel,
    old_range: (int, int),
    suggested: Option<int>,
    size: int,
    after: VmemModel,
    result: Result<usize, VmemMoveError>,
) -> bool {
    let place = unmapped_area(
        (P::TASK_ADDR_MIN as int, P::TASK_ADDR_MAX as int),
        before,
        suggested,
        size,
        false,
        None,
        ALIGN as int,
    );
    if initializing(before, old_range.0, old_range.1) || place is None {
        after == before && result == Err::<usize, VmemMoveError>(VmemMoveError::OutOfMemory)
    } else {
        let new_range = (place->0, place->0 + size);
        exists|answer: Result<usize, RemapError>| #[trigger]
            move_asked(platform, before.areas[old_range.0], old_range, new_range, answer) && result
                == move_result(answer) && after == (if answer is Ok {
                moved(before, old_range, new_range)
            } else {
                before
            })
    }
}

impl<P: PageManagementProvider<ALIGN> + 'static, const ALIGN: usize> Vmem<P, ALIGN> {
    /// What a resize comes down to.
    pub fn plan_resize(&self, range: PageRange<ALIGN>, new_size: NonZeroPageSize<ALIGN>) -> (plan: ResizePlan)
        requires
            self.wf(),
            range.wf(),
            new_size.wf(),
            lookup(self@.areas, range.start as int) is Some ==> range.start + new_size.size() <= usize::MAX,
        ensures
            plan == resize_plan(self@, range.start as int, range.end as int, new_size.size()),
            may_move_on(plan) ==> new_size.size() > range.end - range.start && is_one_mapping(
                self@.areas,
                range.start as int,
                range.end as int,
            ),
    {
        let (start, end) = (range.start, range.end);
        let (run_start, run_end, area) = match self.vmas.get_key_value(start) {
            Some(found) => found,
            None => {
                return ResizePlan::Settled(Err(VmemResizeError::NotExist(start)));
            },
        };
        proof {
            assert(area == self@.areas[start as int]);
            lemma_run_at(self@.areas, start as int, run_start as int, run_end as int);
        }
        let new_end: usize = start + new_size.as_usize();
        if new_end == end {
            return ResizePlan::Settled(Ok(()));
        }
        if end > run_end {
            return ResizePlan::Settled(
                Err(VmemResizeError::InvalidAddr { range: run_start..run_end, addr: end }),
            );
        }
        let pending = self.has_pending_initialization(start, end);
        proof {
            assert(pending == initializing(self@, start as int, end as int));
        }
        if pending {
            return ResizePlan::Settled(Err(VmemResizeError::InitializationPending(start..end)));
        }
        if new_end < end {
            return ResizePlan::Shrink(new_end);
        }
        if end != run_end {
            return ResizePlan::Settled(Err(VmemResizeError::RangeOccupied(end..run_end)));
        }
        let taken = self.vmas.overlaps(end, new_end);
        proof {
            assert(taken == occupied(self@.areas, end as int, new_end as int));
        }
        if taken {
            return ResizePlan::Settled(Err(VmemResizeError::RangeOccupied(end..new_end)));
        }
        let gained = if area.is_file_backed() && !area.flags.contains(VmFlags::VM_SHARED) {
            VmArea::new(area.flags, false, None)
        } else {
            area
        };
        ResizePlan::Grow(new_end, gained)
    }

    /// Resize a range in the virtual address space.
    /// Shrink the range if it is larger than `new_size`.
    /// Enlarge the range if it is smaller than `new_size` and will not overlap with
    /// next mapping after the expansion.
    ///
    /// It fails if it resizes more than one mapping or needs to split the current mapping
    /// (due to enlarging). A range that grows must stay inside the task range.
    pub fn resize_mapping(&mut self, range: PageRange<ALIGN>, new_size: NonZeroPageSize<ALIGN>) -> (result:
        Result<(), VmemResizeError>)
        requires
            old(self).wf(),
            range.wf(),
            new_size.wf(),
            lookup(old(self)@.areas, range.start as int) is Some ==> range.start + new_size.size()
                <= usize::MAX,
            resize_plan(old(self)@, range.start as int, range.end as int, new_size.size()) matches ResizePlan::Grow(
                new_end,
                area,
            ) ==> P::TASK_ADDR_MIN <= range.end && new_end <= P::TASK_ADDR_MAX && (takes_backing(area)
                ==> old(self)@.next_futex < old(self)@.futex_end),
        ensures
            final(self).follows(old(self)),
            final(self).logs(
                old(self),
                resize_entries(
                    old(self)@,
                    (range.start as int, range.end as int),
                    new_size.size(),
                    result is Ok,
                ),
            ),
            resized(
                final(self).platform(),
                old(self)@,
                (range.start as int, range.end as int),
                new_size.size(),
                final(self)@,
                result,
            ),
            result matches Err(VmemResizeError::RangeOccupied(_)) ==> {
                &&& final(self)@.areas == old(self)@.areas
                &&& new_size.size() > range.end - range.start
                &&& is_one_mapping(old(self)@.areas, range.start as int, range.end as int)
            },
    {
        let end: usize = range.end;
        match self.plan_resize(range, new_size) {
            ResizePlan::Settled(outcome) => outcome,
            ResizePlan::Shrink(new_end) => {
                proof {
                    self.lemma_wf();
                    lemma_aligned_sum(range.start as int, new_size.size(), ALIGN as int);
                }
                let tail = PageRange { start: new_end, end };
                match self.remove_mapping(tail) {
                    Ok(()) => Ok(()),
                    Err(error) => Err(VmemResizeError::UnmapError(error)),
                }
            },
            ResizePlan::Grow(new_end, area) => {
                proof {
                    self.lemma_wf();
                    lemma_aligned_sum(range.start as int, new_size.size(), ALIGN as int);
                }
                let tail = PageRange { start: end, end: new_end };
                let answer = self.insert_mapping(tail, area, false, FixedAddressBehavior::NoReplace);
                proof {
                    reveal(inserted);
                }
                match answer {
                    Ok(_) => Ok(()),
                    Err(AllocationError::OutOfMemory) => Err(VmemResizeError::OutOfMemory),
                    Err(_) => Err(VmemResizeError::RangeOccupied(end..new_end)),
                }
            },
        }
    }

    /// A shared area with its backing moved along from one start address to another.
    fn rebase(area: VmArea, old_start: usize, new_start: usize) -> (landed: VmArea)
        ensures
            landed == rebased(area, old_start, new_start),
    {
        let mut landed = area;
        if let Some(shared) = area.shared_futex {
            if let SharedFutexPosition::Origin(origin) = shared.position {
                landed.shared_futex = Some(
                    SharedFutexMapping {
                        identity: shared.identity,
                        position: SharedFutexPosition::Origin(
                            new_start.wrapping_sub(old_start.wrapping_sub(origin)),
                        ),
                    },
                );
            }
        }
        landed
    }

    /// Enters what the platform answered to a move into a free range.
    pub fn finish_move(
        &mut self,
        old_range: PageRange<ALIGN>,
        new_range: PageRange<ALIGN>,
        answer: Result<usize, RemapError>,
    ) -> (result: Result<usize, VmemMoveError>)
        requires
            old(self).wf(),
            old_range.wf(),
            new_range.wf(),
            new_range.end - new_range.start >= old_range.end - old_range.start,
            lookup(old(self)@.areas, old_range.start as int) is Some,
        ensures
            final(self).follows(old(self)),
            final(self).logs(
                old(self),
                if answer is Ok {
                    move_entries(
                        old(self)@.areas,
                        (old_range.start as int, old_range.end as int),
                        (new_range.start as int, new_range.end as int),
                    )
                } else {
                    0
                },
            ),
            result == move_result(answer),
            final(self)@ == (if answer is Ok {
                moved(
                    old(self)@,
                    (old_range.start as int, old_range.end as int),
                    (new_range.start as int, new_range.end as int),
                )
            } else {
                old(self)@
            }),
    {
        let address = match answer {
            Ok(address) => address,
            Err(error) => {
                return Err(VmemMoveError::RemapError(error));
            },
        };
        let (old_start, old_end) = (old_range.start, old_range.end);
        let (new_start, new_end) = (new_range.start, new_range.end);
        if let Some((_, _, area)) = self.vmas.get_key_value(old_start) {
            let landed = Self::rebase(area, old_start, new_start);
            let split: usize = new_start + (old_end - old_start);
            let head_end: usize = if landed.is_file_backed() && !landed.flags.contains(
                VmFlags::VM_SHARED,
            ) && split < new_end {
                split
            } else {
                new_end
            };
            proof {
                self.lemma_wf();
                assert(landed == rebased(old(self)@.areas[old_start as int], old_start, new_start));
                lemma_aligned_sum(old_end as int, old_start as int, ALIGN as int);
                lemma_aligned_sum(new_start as int, old_end - old_start, ALIGN as int);
                lemma_paged_put(self@.areas, new_start as int, head_end as int, landed, ALIGN as int);
            }
            self.vmas.insert(new_start, head_end, landed);
            if head_end < new_end {
                let tail = VmArea::new(landed.flags, false, None);
                proof {
                    lemma_paged_put(self@.areas, head_end as int, new_end as int, tail, ALIGN as int);
                }
                self.vmas.insert(head_end, new_end, tail);
            }
            proof {
                lemma_paged_put(self@.areas, old_start as int, old_end as int, landed, ALIGN as int);
            }
            self.vmas.remove(old_start, old_end);
            proof {
                assert(self@.reserved =~= old(self)@.reserved);
            }
            self.invalidate_initializations(new_start, new_end);
            proof {
                lemma_no_marks(self@.areas, old_start as int, old_end as int);
            }
            self.invalidate_initializations(old_start, old_end);
        }
        Ok(address)
    }

    /// Move a range to a new place, which may be larger. The suggested address is a hint.
    ///
    /// The range must be covered by exactly one mapping, and the new size must not be smaller.
    pub fn move_mappings(
        &mut self,
        old_range: PageRange<ALIGN>,
        suggested_new_address: Option<NonZeroAddress<ALIGN>>,
        new_size: NonZeroPageSize<ALIGN>,
    ) -> (result: Result<usize, VmemMoveError>)
        requires
            old(self).wf(),
            old_range.wf(),
            new_size.wf(),
            suggested_new_address matches Some(address) ==> address.wf(),
            new_size.size() >= old_range.end - old_range.start,
            lookup(old(self)@.areas, old_range.start as int) matches Some(area) && uniform(
                old(self)@.areas,
                old_range.start as int,
                old_range.end as int,
                area,
            ),
        ensures
            final(self).follows(old(self)),
            final(self).logs(
                old(self),
                if result is Ok {
                    let start = unmapped_area(
                        (P::TASK_ADDR_MIN as int, P::TASK_ADDR_MAX as int),
                        old(self)@,
                        suggestion(suggested_new_address),
                        new_size.size(),
                        false,
                        None,
                        ALIGN as int,
                    )->0;
                    move_entries(
                        old(self)@.areas,
                        (old_range.start as int, old_range.end as int),
                        (start, start + new_size.size()),
                    )
                } else {
                    0
                },
            ),
            relocated(
                final(self).platform(),
                old(self)@,
                (old_range.start as int, old_range.end as int),
                suggestion(suggested_new_address),
                new_size.size(),
                final(self)@,
                result,
            ),
    {
        let (old_start, old_end) = (old_range.start, old_range.end);
        let ghost platform = self.platform();
        let pending = self.has_pending_initialization(old_start, old_end);
        proof {
            assert(pending == initializing(self@, old_start as int, old_end as int));
        }
        if pending {
            return Err(VmemMoveError::OutOfMemory);
        }
        let new_start = match self.find_unmapped_area(suggested_new_address, new_size, false, None) {
            Some(start) => start,
            None => {
                return Err(VmemMoveError::OutOfMemory);
            },
        };
        proof {
            self.lemma_wf();
            lemma_flexible_placement(
                (P::TASK_ADDR_MIN as int, P::TASK_ADDR_MAX as int),
                self@,
                suggestion(suggested_new_address),
                new_size.size(),
                None,
                ALIGN as int,
            );
            lemma_aligned_sum(new_start as int, new_size.size(), ALIGN as int);
        }
        let new_end: usize = new_start + new_size.as_usize();
        let new_range = PageRange { start: new_start, end: new_end };
        let answer = match self.vmas.get_key_value(old_start) {
            Some((_, _, area)) => {
                self.transient.insert(old_start, old_end, &Transient::Retiring { restore: area });
                let landed = Self::rebase(area, old_start, new_start);
                self.transient.insert(new_start, new_end, &Transient::Installing { publish: landed });
                let permissions = MemoryRegionPermissions::from_flags(area.flags);
                let answer = match area.shared_futex {
                    Some(shared) => {
                        let origin: usize = match shared.position {
                            SharedFutexPosition::Origin(origin) => origin,
                            SharedFutexPosition::PendingOffset(offset) => offset,
                        };
                        self.platform.remap_shared_pages(
                            shared.identity,
                            old_start.wrapping_sub(origin),
                            old_start..old_end,
                            new_start..new_end,
                            permissions,
                        )
                    },
                    None => self.platform.remap_pages(
                        old_start..old_end,
                        new_start..new_end,
                        permissions,
                    ),
                };
                self.transient.remove(old_start, old_end);
                self.transient.remove(new_start, new_end);
                proof {
                    assert(self.transient@ =~= Map::<int, Transient>::empty());
                    assert(self@ == old(self)@);
                    assert(move_asked(
                        platform,
                        self@.areas[old_start as int],
                        (old_start as int, old_end as int),
                        (new_start as int, new_end as int),
                        answer,
                    ));
                }
                answer
            },
            None => Err(RemapError::AlreadyUnallocated),
        };
        self.finish_move(old_range, new_range, answer)
    }
}

} // verus!
