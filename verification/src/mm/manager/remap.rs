//! Growing, shrinking and moving a guest's mapping.
use crate::ids::VmViewId;
use crate::mm::addr::{is_multiple_of, NonZeroPageSize, PageRange};
use crate::mm::area::VmArea;
use crate::mm::custody::CustodyModel;
use crate::mm::errors::{VmemMoveError, VmemResizeError, VmemUnmapError};
use crate::mm::flags::{MemoryRegionPermissions, VmFlags};
use crate::mm::manager::{GuestAccess, PageManager};
use crate::platform::page_mgmt::{
    DeallocationError, PageManagementProvider, PermissionUpdateError, RemapError,
};
use vstd::prelude::*;

verus! {

use crate::mm::addr::multiple_of;
use crate::mm::domain::lookup::{lineage_fragments, lineage_models};
use crate::mm::domain::publish::present_confirmed;
use crate::mm::domain::DomainModel;
use crate::mm::flags::permissions_of;
use crate::mm::manager::views::{
    foreign_held, holders_of, materialize_asked, removed_for_view, whole_pages, wholly_present,
};
use crate::mm::manager::{published, retired, ManagerModel};
use crate::mm::vmem::initialization::takes_backing;
use crate::mm::vmem::remap::{relocated, resize_plan, resized, ResizePlan};
use crate::mm::vmem::VmemModel;
use crate::range_map::{lookup, pieces};
use crate::range_table::modelled;

/// The mappings inside the fragments that a view only inherited.
pub open spec fn inherited_areas(
    list: Seq<(int, int, CustodyModel, bool)>,
    areas: Map<int, VmArea>,
) -> Seq<(int, int, VmArea)>
    decreases list.len(),
{
    if list.len() == 0 {
        Seq::empty()
    } else {
        let rest = inherited_areas(list.drop_last(), areas);
        if list.last().3 {
            rest + pieces(areas, list.last().0, list.last().1)
        } else {
            rest
        }
    }
}

/// The platform was asked to give a view pages of its own over each of a list of mappings, in
/// order, until it refused; what it gave is published.
#[verifier::opaque]
pub open spec fn all_materialized<P: PageManagementProvider<ALIGN>, const ALIGN: usize>(
    before: DomainModel,
    view: VmViewId,
    list: Seq<(int, int, VmArea)>,
    after: DomainModel,
    complete: bool,
) -> bool
    decreases list.len(),
{
    if list.len() == 0 {
        after == before && complete
    } else {
        let (start, end, area) = list[0];
        exists|answer: Result<(), PermissionUpdateError>| #[trigger]
            materialize_asked::<P, ALIGN>(
                holders_of(lineage_fragments(before, view, start, end)),
                view,
                (start, end),
                permissions_of(area.flags),
                answer,
            ) && match answer {
                Err(_) => after == before && !complete,
                Ok(()) => all_materialized::<P, ALIGN>(
                    present_confirmed(before, view, start, end).0,
                    view,
                    list.drop_first(),
                    after,
                    complete,
                ),
            }
    }
}

/// A view's inherited parts of a range were turned into its own.
pub open spec fn lineage_materialized<P: PageManagementProvider<ALIGN>, const ALIGN: usize>(
    before: ManagerModel,
    view: VmViewId,
    range: (int, int),
    after: DomainModel,
    complete: bool,
) -> bool {
    all_materialized::<P, ALIGN>(
        before.domain,
        view,
        inherited_areas(
            lineage_fragments(before.domain, view, range.0, range.1),
            before.vmem.areas,
        ),
        after,
        complete,
    )
}

/// What a remapping reports for a resize that failed, other than by being in the way.
pub open spec fn resize_failure(error: VmemResizeError, grows: bool) -> RemapError {
    match error {
        VmemResizeError::NotExist(_) => if grows {
            RemapError::OutOfMemory
        } else {
            RemapError::AlreadyUnallocated
        },
        VmemResizeError::InvalidAddr { .. } => RemapError::AlreadyAllocated,
        VmemResizeError::RangeOccupied(_) => RemapError::OutOfMemory,
        VmemResizeError::InitializationPending(_) => RemapError::OutOfMemory,
        VmemResizeError::UnmapError(VmemUnmapError::UnAligned) => RemapError::Unaligned,
        VmemResizeError::UnmapError(VmemUnmapError::UnmapError(DeallocationError::Unaligned)) => RemapError::Unaligned,
        VmemResizeError::UnmapError(
            VmemUnmapError::UnmapError(DeallocationError::AlreadyUnallocated),
        ) => RemapError::AlreadyUnallocated,
        VmemResizeError::OutOfMemory => RemapError::OutOfMemory,
    }
}

/// What a remapping reports for a move that failed.
pub open spec fn move_failure(error: VmemMoveError) -> RemapError {
    match error {
        VmemMoveError::OutOfMemory => RemapError::OutOfMemory,
        VmemMoveError::UnAligned => RemapError::Unaligned,
        VmemMoveError::RemapError(error) => error,
    }
}

/// What moving a mapping that cannot grow in place did.
pub open spec fn mapping_moved<P: PageManagementProvider<ALIGN>, const ALIGN: usize>(
    platform: &P,
    before: ManagerModel,
    access: Option<GuestAccess>,
    range: (int, int),
    size: int,
    after: ManagerModel,
    result: Result<usize, RemapError>,
) -> bool {
    exists|mid: VmemModel, outcome: Result<usize, VmemMoveError>| #[trigger]
        relocated(platform, before.vmem, range, None, size, mid, outcome) && match outcome {
            Ok(start) => {
                &&& after == (ManagerModel {
                    vmem: mid,
                    domain: published(
                        retired(before.domain, access, range.0, range.1),
                        access,
                        start as int,
                        start.wrapping_add(size as usize) as int,
                    ),
                })
                &&& result == Ok::<usize, RemapError>(start)
            },
            Err(error) => after == (ManagerModel { vmem: mid, ..before }) && result == Err::<
                usize,
                RemapError,
            >(move_failure(error)),
        }
}

/// What resizing a mapping that nobody else holds did: in place, or by moving it where that is
/// allowed.
pub open spec fn mapping_remapped<P: PageManagementProvider<ALIGN>, const ALIGN: usize>(
    platform: &P,
    before: ManagerModel,
    access: Option<GuestAccess>,
    range: (int, int),
    size: int,
    may_move: bool,
    after: ManagerModel,
    result: Result<usize, RemapError>,
) -> bool {
    if !whole_pages(range.0, range.1, ALIGN as int) || size == 0 || !multiple_of(
        size,
        ALIGN as int,
    ) {
        after == before && result == Err::<usize, RemapError>(RemapError::Unaligned)
    } else {
        exists|mid: VmemModel, outcome: Result<(), VmemResizeError>| #[trigger]
            resized(platform, before.vmem, range, size, mid, outcome) && {
                let resized_model = ManagerModel { vmem: mid, ..before };
                match outcome {
                    Ok(()) => {
                        &&& result == Ok::<usize, RemapError>(range.0 as usize)
                        &&& after == (ManagerModel {
                            vmem: mid,
                            domain: if range.0 + size < range.1 {
                                retired(before.domain, access, range.0 + size, range.1)
                            } else if range.0 + size > range.1 {
                                published(before.domain, access, range.1, range.0 + size)
                            } else {
                                before.domain
                            },
                        })
                    },
                    Err(error) => if error is RangeOccupied && may_move {
                        mapping_moved(platform, resized_model, access, range, size, after, result)
                    } else {
                        after == resized_model && result == Err::<usize, RemapError>(
                            resize_failure(error, range.0 + size > range.1),
                        )
                    },
                }
            }
    }
}

/// What resizing a mapping that another live holder relies on did: it neither grows nor moves, and
/// a shrink lets go of the view's own tail.
pub open spec fn shared_remapped<P: PageManagementProvider<ALIGN>, const ALIGN: usize>(
    platform: &P,
    before: ManagerModel,
    view: VmViewId,
    range: (int, int),
    size: int,
    independent: bool,
    after: ManagerModel,
    result: Result<usize, RemapError>,
) -> bool {
    let kept = range.0 + size;
    if kept > range.1 {
        after == before && result == Err::<usize, RemapError>(RemapError::OutOfMemory)
    } else if kept == range.1 {
        after == before && result == Ok::<usize, RemapError>(range.0 as usize)
    } else if !multiple_of(kept, ALIGN as int) {
        after == before && result == Err::<usize, RemapError>(RemapError::Unaligned)
    } else {
        exists|outcome: Result<(), VmemUnmapError>| #[trigger]
            removed_for_view(
                platform,
                before,
                view,
                (kept, range.1),
                independent,
                after,
                outcome,
            ) && result == (match outcome {
                Ok(()) => Ok::<usize, RemapError>(range.0 as usize),
                Err(_) => Err::<usize, RemapError>(RemapError::AlreadyUnallocated),
            })
    }
}

/// What resizing a guest's mapping did once its inherited parts are its own.
pub open spec fn view_remapped<P: PageManagementProvider<ALIGN>, const ALIGN: usize>(
    platform: &P,
    before: ManagerModel,
    guest: GuestAccess,
    range: (int, int),
    size: int,
    may_move: bool,
    independent: bool,
    after: ManagerModel,
    result: Result<usize, RemapError>,
) -> bool {
    if foreign_held(before.domain, guest.view, range.0, range.1, independent) {
        shared_remapped(platform, before, guest.view, range, size, independent, after, result)
    } else {
        mapping_remapped(platform, before, Some(guest), range, size, may_move, after, result)
    }
}

/// What a remapping did. A guest's range must be its lineage's own throughout, else nothing is
/// done at all.
pub open spec fn pages_remapped<P: PageManagementProvider<ALIGN>, const ALIGN: usize>(
    platform: &P,
    before: ManagerModel,
    access: Option<GuestAccess>,
    range: (int, int),
    size: int,
    may_move: bool,
    after: ManagerModel,
    result: Result<usize, RemapError>,
) -> bool {
    match access {
        None => mapping_remapped(platform, before, None, range, size, may_move, after, result),
        Some(guest) => if !wholly_present(before.domain, guest.view, range.0, range.1) {
            after == before && result == Err::<usize, RemapError>(RemapError::AlreadyUnallocated)
        } else {
            exists|mid: DomainModel, complete: bool| #[trigger]
                lineage_materialized::<P, ALIGN>(before, guest.view, range, mid, complete) && {
                    let own = ManagerModel { domain: mid, ..before };
                    if !complete {
                        after == own && result == Err::<usize, RemapError>(
                            RemapError::AlreadyUnallocated,
                        )
                    } else {
                        exists|independent: bool| #[trigger]
                            call_ensures(P::has_independent_view_space, (guest.view,), independent)
                                && view_remapped(
                                platform,
                                own,
                                guest,
                                range,
                                size,
                                may_move,
                                independent,
                                after,
                                result,
                            )
                    }
                }
        },
    }
}

/// Whole pages that are resized to whole pages end inside the address space, and inside the task range
/// if they grow in place.
pub open spec fn remap_ok<P: PageManagementProvider<ALIGN>, const ALIGN: usize>(
    m: VmemModel,
    start: int,
    end: int,
    size: int,
) -> bool {
    start < end && start % ALIGN as int == 0 && end % ALIGN as int == 0 && size > 0 && size % ALIGN as int
        == 0 && lookup(m.areas, start) is Some ==> {
        &&& start + size <= usize::MAX
        &&& resize_plan(m, start, end, size) matches ResizePlan::Grow(new_end, area) ==> P::TASK_ADDR_MIN
            <= end && new_end <= P::TASK_ADDR_MAX && (takes_backing(area) ==> m.next_futex < m.futex_end)
    }
}

/// A remapping may come to the mapping itself: not one of a range that the guest does not hold
/// throughout, or that another live holder relies on.
pub open spec fn may_resize<P: PageManagementProvider<ALIGN>, const ALIGN: usize>(
    m: ManagerModel,
    access: Option<GuestAccess>,
    range: (int, int),
) -> bool {
    access matches Some(guest) ==> wholly_present(m.domain, guest.view, range.0, range.1) && exists|
        mid: DomainModel,
        independent: bool,
    |
        #![trigger lineage_materialized::<P, ALIGN>(m, guest.view, range, mid, true), foreign_held(mid, guest.view, range.0, range.1, independent)]
        lineage_materialized::<P, ALIGN>(m, guest.view, range, mid, true) && call_ensures(
            P::has_independent_view_space,
            (guest.view,),
            independent,
        ) && !foreign_held(mid, guest.view, range.0, range.1, independent)
}

impl<P: PageManagementProvider<ALIGN> + 'static, const ALIGN: usize> PageManager<P, ALIGN> {
    /// The mappings inside the parts of a range that a view only inherited.
    fn inherited_mappings(&self, view: VmViewId, start: usize, end: usize) -> (found: Vec<
        (usize, usize, VmArea),
    >)
        requires
            self.wf(),
        ensures
            modelled(found@) == inherited_areas(
                lineage_fragments(self@.domain, view, start as int, end as int),
                self@.vmem.areas,
            ),
    {
        let fragments = self.domain.custody_fragments_via_lineage(view, start..end);
        let ghost list = lineage_fragments(self@.domain, view, start as int, end as int);
        let mut found: Vec<(usize, usize, VmArea)> = Vec::new();
        let mut i: usize = 0;
        proof {
            Self::lemma_lineage_order(self@.domain, view, start as int, end as int);
            assert(modelled(found@) =~= inherited_areas(list.take(0), self@.vmem.areas));
        }
        while i < fragments.len()
            invariant
                self.wf(),
                i <= fragments@.len(),
                list == lineage_models(fragments@),
                Self::lineage_ordered(list, start as int, end as int),
                modelled(found@) == inherited_areas(list.take(i as int), self@.vmem.areas),
            decreases fragments@.len() - i,
        {
            let (from, to, by_lineage) = (fragments[i].0.start, fragments[i].0.end, fragments[i].2);
            proof {
                assert(list.take(i + 1).drop_last() =~= list.take(i as int));
                assert(list.take(i + 1).last() == list[i as int]);
                assert(list[i as int] == (
                    from as int,
                    to as int,
                    fragments@[i as int].1@,
                    fragments@[i as int].2,
                ));
            }
            if by_lineage {
                let ghost before = modelled(found@);
                let inside = self.vmem.pieces(from, to);
                let mut k: usize = 0;
                proof {
                    assert(before + modelled(inside@).take(0) =~= modelled(found@));
                }
                while k < inside.len()
                    invariant
                        k <= inside@.len(),
                        modelled(found@) == before + modelled(inside@).take(k as int),
                    decreases inside@.len() - k,
                {
                    let (piece_start, piece_end, area) = inside[k];
                    let ghost so_far = modelled(found@);
                    found.push((piece_start, piece_end, area));
                    proof {
                        assert(modelled(found@) =~= so_far.push(modelled(inside@)[k as int]));
                        assert(modelled(found@) =~= before + modelled(inside@).take(k + 1));
                    }
                    k += 1;
                }
                proof {
                    assert(modelled(inside@).take(k as int) =~= modelled(inside@));
                }
            }
            i += 1;
        }
        proof {
            assert(list.take(list.len() as int) =~= list);
        }
        found
    }

    /// Gives a view pages of its own wherever it only inherited a range. `false` if the platform
    /// refused; what it gave before that stays.
    pub fn materialize_lineage_only_fragments(&mut self, view: VmViewId, start: usize, end: usize) -> (complete: bool)
        requires
            old(self).wf(),
        ensures
            final(self).follows(old(self)),
            final(self)@.vmem == old(self)@.vmem,
            lineage_materialized::<P, ALIGN>(
                old(self)@,
                view,
                (start as int, end as int),
                final(self)@.domain,
                complete,
            ),
    {
        let found = self.inherited_mappings(view, start, end);
        let ghost first = self@.domain;
        let ghost list = modelled(found@);
        let mut i: usize = 0;
        proof {
            assert(list.skip(0) =~= list);
        }
        while i < found.len()
            invariant
                self.follows(old(self)),
                first == old(self)@.domain,
                self@.vmem == old(self)@.vmem,
                i <= found@.len(),
                list == modelled(found@),
                list == inherited_areas(
                    lineage_fragments(old(self)@.domain, view, start as int, end as int),
                    old(self)@.vmem.areas,
                ),
                forall|after: DomainModel, complete: bool| #[trigger]
                    all_materialized::<P, ALIGN>(
                        self@.domain,
                        view,
                        list.skip(i as int),
                        after,
                        complete,
                    ) ==> all_materialized::<P, ALIGN>(first, view, list, after, complete),
            decreases found@.len() - i,
        {
            let (from, to, area) = found[i];
            let ghost here = self@.domain;
            let ghost rest = list.skip(i as int);
            proof {
                assert(rest[0] == list[i as int]);
                assert(rest.drop_first() =~= list.skip(i + 1));
                assert(list[i as int] == (from as int, to as int, area));
            }
            let holders = self.lineage_holders(view, from, to);
            let answer = Self::materialize(
                view,
                from,
                to,
                MemoryRegionPermissions::from_flags(area.flags),
                holders,
            );
            let ghost given = answer;
            proof {
                assert(materialize_asked::<P, ALIGN>(
                    holders_of(lineage_fragments(here, view, from as int, to as int)),
                    view,
                    (from as int, to as int),
                    permissions_of(area.flags),
                    given,
                ));
            }
            if answer.is_err() {
                proof {
                    reveal(all_materialized);
                    assert(all_materialized::<P, ALIGN>(here, view, rest, here, false));
                }
                return false;
            }
            let _ = self.domain.confirm_present_or_reconcile(view, from..to);
            proof {
                let now = self@.domain;
                assert forall|after: DomainModel, complete: bool| #[trigger]
                    all_materialized::<P, ALIGN>(now, view, list.skip(i + 1), after, complete) implies all_materialized::<
                    P,
                    ALIGN,
                >(first, view, list, after, complete) by {
                    reveal(all_materialized);
                    assert(all_materialized::<P, ALIGN>(here, view, rest, after, complete));
                }
            }
            i += 1;
        }
        proof {
            reveal(all_materialized);
            assert(all_materialized::<P, ALIGN>(
                self@.domain,
                view,
                list.skip(i as int),
                self@.domain,
                true,
            ));
        }
        true
    }

    /// Resizes a mapping that nobody else holds.
    fn remap_mapping(
        &mut self,
        access: Option<GuestAccess>,
        old_start: usize,
        old_end: usize,
        new_size: usize,
        may_move: bool,
    ) -> (result: Result<usize, RemapError>)
        requires
            old(self).wf(),
            remap_ok::<P, ALIGN>(
                old(self)@.vmem,
                old_start as int,
                old_end as int,
                new_size as int,
            ),
        ensures
            final(self).follows(old(self)),
            mapping_remapped(
                final(self).platform(),
                old(self)@,
                access,
                (old_start as int, old_end as int),
                new_size as int,
                may_move,
                final(self)@,
                result,
            ),
    {
        let range = match PageRange::<ALIGN>::new(old_start, old_end) {
            Some(range) => range,
            None => {
                return Err(RemapError::Unaligned);
            },
        };
        let size = match NonZeroPageSize::<ALIGN>::new(new_size) {
            Some(size) => size,
            None => {
                return Err(RemapError::Unaligned);
            },
        };
        let old_size: usize = old_end - old_start;
        let outcome = self.vmem.resize_mapping(range, size);
        self.sync();
        let ghost mid = self@.vmem;
        let ghost given = outcome;
        let ghost span = (old_start as int, old_end as int);
        proof {
            assert(resized(
                self.platform(),
                old(self)@.vmem,
                span,
                new_size as int,
                mid,
                given,
            ));
        }
        let error = match outcome {
            Ok(()) => {
                if new_size < old_size {
                    self.shadow_retire_present(access, old_start + new_size, old_end);
                } else if new_size > old_size {
                    self.shadow_publish_present(access, old_end, old_start + new_size);
                }
                return Ok(old_start);
            },
            Err(error) => error,
        };
        match error {
            VmemResizeError::RangeOccupied(_) => {
                if !may_move {
                    return Err(RemapError::OutOfMemory);
                }
                let moved = self.vmem.move_mappings(range, None, size);
                self.sync();
                let ghost landed = self@.vmem;
                let ghost given_move = moved;
                proof {
                    assert(relocated(
                        self.platform(),
                        mid,
                        span,
                        None,
                        new_size as int,
                        landed,
                        given_move,
                    ));
                }
                match moved {
                    Ok(start) => {
                        self.shadow_retire_present(access, old_start, old_end);
                        self.shadow_publish_present(access, start, start.wrapping_add(new_size));
                        Ok(start)
                    },
                    Err(VmemMoveError::OutOfMemory) => Err(RemapError::OutOfMemory),
                    Err(VmemMoveError::UnAligned) => Err(RemapError::Unaligned),
                    Err(VmemMoveError::RemapError(error)) => Err(error),
                }
            },
            VmemResizeError::NotExist(_) => if new_size > old_size {
                Err(RemapError::OutOfMemory)
            } else {
                Err(RemapError::AlreadyUnallocated)
            },
            VmemResizeError::InvalidAddr { .. } => Err(RemapError::AlreadyAllocated),
            VmemResizeError::InitializationPending(_) => Err(RemapError::OutOfMemory),
            VmemResizeError::UnmapError(error) => match error {
                VmemUnmapError::UnAligned => Err(RemapError::Unaligned),
                VmemUnmapError::UnmapError(DeallocationError::Unaligned) => Err(
                    RemapError::Unaligned,
                ),
                VmemUnmapError::UnmapError(DeallocationError::AlreadyUnallocated) => Err(
                    RemapError::AlreadyUnallocated,
                ),
            },
            VmemResizeError::OutOfMemory => Err(RemapError::OutOfMemory),
        }
    }

    /// Expands (or shrinks) an existing memory mapping.
    ///
    /// `may_move` indicates whether the mapping can be moved to a new address if there is not
    /// sufficient space to expand it at its current location. A guest's mapping that another live
    /// holder relies on neither moves nor grows; a shrink lets go of the guest's own tail.
    ///
    /// ## Returns
    ///
    /// If the operation is successful, it returns the new address of the mapping.
    pub fn remap_pages(
        &mut self,
        access: Option<GuestAccess>,
        old_address: usize,
        old_size: usize,
        new_size: usize,
        may_move: bool,
    ) -> (result: Result<usize, RemapError>)
        requires
            old(self).wf(),
            old_address + old_size <= usize::MAX,
            may_resize::<P, ALIGN>(
                old(self)@,
                access,
                (old_address as int, old_address + old_size),
            ) ==> remap_ok::<P, ALIGN>(
                old(self)@.vmem,
                old_address as int,
                old_address + old_size,
                new_size as int,
            ),
        ensures
            final(self).follows(old(self)),
            pages_remapped(
                final(self).platform(),
                old(self)@,
                access,
                (old_address as int, old_address + old_size),
                new_size as int,
                may_move,
                final(self)@,
                result,
            ),
    {
        let old_end: usize = old_address + old_size;
        let guest = match access {
            Some(guest) => guest,
            None => {
                return self.remap_mapping(None, old_address, old_end, new_size, may_move);
            },
        };
        let view = guest.view;
        if !self.whole_range_is_own_or_lineage_present(view, old_address..old_end) {
            return Err(RemapError::AlreadyUnallocated);
        }
        let complete = self.materialize_lineage_only_fragments(view, old_address, old_end);
        let ghost mid = self@.domain;
        let ghost own = self@;
        let ghost range = (old_address as int, old_address + old_size);
        proof {
            assert(lineage_materialized::<P, ALIGN>(old(self)@, view, range, mid, complete));
            assert(own == (ManagerModel { domain: mid, ..old(self)@ }));
        }
        if !complete {
            return Err(RemapError::AlreadyUnallocated);
        }
        let independent = P::has_independent_view_space(view);
        if self.range_is_foreign_held(view, old_address, old_end, independent) {
            if new_size > old_size {
                return Err(RemapError::OutOfMemory);
            }
            if new_size == old_size {
                return Ok(old_address);
            }
            let tail: usize = old_address + new_size;
            if !is_multiple_of(tail, ALIGN) {
                return Err(RemapError::Unaligned);
            }
            let outcome = self.remove_range_for_view(view, tail, old_end, independent);
            let ghost given = outcome;
            proof {
                assert(removed_for_view(
                    self.platform(),
                    own,
                    view,
                    (range.0 + new_size, range.1),
                    independent,
                    self@,
                    given,
                ));
            }
            return match outcome {
                Ok(()) => Ok(old_address),
                Err(_) => Err(RemapError::AlreadyUnallocated),
            };
        }
        proof {
            assert(lineage_materialized::<P, ALIGN>(old(self)@, view, range, mid, true));
            assert(!foreign_held(mid, view, range.0, range.1, independent));
        }
        self.remap_mapping(access, old_address, old_end, new_size, may_move)
    }

    /// Whether a range of pages can be resized to a size at all: not where it would grow in place out
    /// of the task range, or end outside the address space.
    pub fn can_remap(&self, old_address: usize, old_size: usize, new_size: usize) -> (yes: bool)
        requires
            self.wf(),
        ensures
            yes == (old_address + old_size <= usize::MAX && remap_ok::<P, ALIGN>(
                self@.vmem,
                old_address as int,
                old_address + old_size,
                new_size as int,
            )),
    {
        proof {
            self.lemma_wf();
        }
        let old_end = match old_address.checked_add(old_size) {
            Some(end) => end,
            None => {
                return false;
            },
        };
        let range = match PageRange::<ALIGN>::new(old_address, old_end) {
            Some(range) => range,
            None => {
                return true;
            },
        };
        let size = match NonZeroPageSize::<ALIGN>::new(new_size) {
            Some(size) => size,
            None => {
                return true;
            },
        };
        if self.mirror.flags_at(old_address).is_none() {
            return true;
        }
        if old_address.checked_add(new_size).is_none() {
            return false;
        }
        match self.vmem.plan_resize(range, size) {
            ResizePlan::Grow(new_end, area) => P::TASK_ADDR_MIN <= old_end && new_end <= P::TASK_ADDR_MAX && (
            !area.flags.contains(VmFlags::VM_SHARED) || area.shared_futex.is_some()
                || self.vmem.futex_ids_left() > 0),
            _ => true,
        }
    }
}

} // verus!
