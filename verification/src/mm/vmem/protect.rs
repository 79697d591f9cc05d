//! Changing the flags of mappings: access, and what a forked child gets to see.
use crate::mm::addr::PageRange;
use crate::mm::area::{Transient, VmArea};
use crate::mm::errors::{VmemDontForkError, VmemProtectError, VmemWipeOnForkError};
use crate::mm::flags::{MemoryRegionPermissions, VmFlags};
use crate::mm::vmem::Vmem;
use crate::platform::page_mgmt::{
    AllocationError, FixedAddressBehavior, PageManagementProvider, PermissionUpdateError,
};
use core::ops::Range;
use vstd::prelude::*;

verus! {

use crate::mm::flags::{access_of, carries, set_bits, within_ceiling};
use crate::mm::vmem::effects::{any_deferred, deferred, holed};
use crate::mm::vmem::initialization::span;
use crate::mm::vmem::laws::flagging::{
    is_absence_mark, is_recorded, is_verdict, is_wipe_mark, lemma_absence_mark_is_lawful,
    lemma_marked_list_is_complete, lemma_record, lemma_verdict_is_lawful, lemma_wipe_mark_is_lawful,
    names_all_marked,
};
use crate::mm::vmem::laws::lemma_access_replaced;
use crate::mm::vmem::log::{
    alterations, changes, is_altered, is_changed, lemma_nothing_altered, lemma_same_rewrites, rewrites,
    rewritten,
};
use crate::mm::vmem::{has_origin, lemma_paged_edge, lemma_paged_pieces, lemma_paged_put, VmemModel};
use crate::range_map::{
    covered, is_run, lemma_same_lookups, lookup, pieces, pieces_of, put, revise, runs_of, uniform,
};
use crate::range_table::modelled;

broadcast use {
    crate::range_map::lemma_lookup_put,
    crate::range_map::lemma_lookup_cut,
    crate::range_map::lemma_lookup_revise,
};

/// A change of flags that depends on the flags alone.
#[derive(Clone, Copy)]
pub enum FlagChange {
    /// Turn one flag on or off.
    Mark { mask: u32, on: bool },
    /// Set the access flags.
    Access { access: u32 },
    /// Set the access flags; a reservation that becomes accessible is none any more.
    Record { access: u32 },
}

/// The flags after a change.
pub open spec fn changed(change: FlagChange, bits: u32) -> u32 {
    match change {
        FlagChange::Mark { mask, on } => set_bits(bits, mask, on),
        FlagChange::Access { access } => with_access(bits, access),
        FlagChange::Record { access } => if access == 0 {
            bits & !VmFlags::VM_ACCESS_FLAGS
        } else {
            materialized(bits, access)
        },
    }
}

/// The flags with the access flags replaced.
pub open spec fn with_access(bits: u32, access: u32) -> u32 {
    (bits & !VmFlags::VM_ACCESS_FLAGS) | access
}

/// The flags of a reservation that becomes accessible.
pub open spec fn materialized(bits: u32, access: u32) -> u32 {
    (bits & !VmFlags::VM_ACCESS_FLAGS & !VmFlags::VM_DEFERRED) | access
}

/// The area with other flags.
pub open spec fn reflagged(area: VmArea, bits: u32) -> VmArea {
    VmArea { flags: VmFlags { bits }, ..area }
}

/// The areas after a change of every flag set in a range.
pub open spec fn changed_over(
    areas: Map<int, VmArea>,
    start: int,
    end: int,
    change: FlagChange,
) -> Map<int, VmArea> {
    revise(areas, start, end, |area: VmArea| reflagged(area, changed(change, area.flags.bits)))
}

/// The area cannot be wiped in a forked child: it has no private copy.
pub open spec fn unwipeable(area: VmArea) -> bool {
    area.is_file_backed || carries(area.flags.bits, VmFlags::VM_SHARED)
}

/// The first piece that cannot be wiped.
pub open spec fn first_unwipeable(pieces: Seq<(int, int, VmArea)>) -> Option<(int, int)>
    decreases pieces.len(),
{
    if pieces.len() == 0 {
        None
    } else if unwipeable(pieces[0].2) {
        Some((pieces[0].0, pieces[0].1))
    } else {
        first_unwipeable(pieces.drop_first())
    }
}

/// The piece of a range that refuses to be marked for wiping, if one does.
pub open spec fn refused_wipe(areas: Map<int, VmArea>, start: int, end: int, enable: bool) -> Option<
    (int, int),
> {
    if enable {
        first_unwipeable(pieces(areas, start, end))
    } else {
        None
    }
}

/// What marking a range for wiping reports.
pub open spec fn wipe_result(areas: Map<int, VmArea>, start: int, end: int, enable: bool) -> Result<
    (),
    VmemWipeOnForkError,
> {
    match refused_wipe(areas, start, end, enable) {
        Some((s, e)) => Err(VmemWipeOnForkError::NotPrivateAnonymous(span(s, e))),
        None => if holed(areas, start, end) {
            Err(VmemWipeOnForkError::Unmapped(span(start, end)))
        } else {
            Ok(())
        },
    }
}

/// How far a protection change reaches: the number of pieces from `at` on that lie without a gap
/// and allow the access, and what stops the walk before the end.
pub open spec fn protect_walk(
    pieces: Seq<(int, int, VmArea)>,
    at: int,
    range: (int, int),
    access: u32,
) -> (int, Option<VmemProtectError>)
    decreases pieces.len(),
{
    if pieces.len() == 0 {
        (
            0,
            if at != range.1 {
                Some(VmemProtectError::InvalidRange(span(range.0, range.1)))
            } else {
                None
            },
        )
    } else if pieces[0].0 != at {
        (0, Some(VmemProtectError::InvalidRange(span(range.0, range.1))))
    } else if !within_ceiling(pieces[0].2.flags.bits, access) {
        (
            0,
            Some(
                VmemProtectError::NoAccess {
                    old: pieces[0].2.flags,
                    new: VmFlags { bits: access },
                },
            ),
        )
    } else {
        let (more, error) = protect_walk(pieces.drop_first(), pieces[0].1, range, access);
        (more + 1, error)
    }
}

/// The result for what stopped a walk, if anything did.
pub open spec fn walk_result(error: Option<VmemProtectError>) -> Result<(), VmemProtectError> {
    match error {
        Some(error) => Err(error),
        None => Ok(()),
    }
}

/// Every piece has exactly this access already.
pub open spec fn all_have_access(pieces: Seq<(int, int, VmArea)>, access: u32) -> bool {
    forall|i: int|
        0 <= i < pieces.len() ==> (#[trigger] pieces[i]).2.flags.bits & VmFlags::VM_ACCESS_FLAGS == access
}

/// The permissions with which a reservation is first allocated: never executable, since a
/// platform may refuse memory that is executable from the start.
pub open spec fn birth_permissions(permissions: MemoryRegionPermissions) -> MemoryRegionPermissions {
    if carries(access_of(permissions), VmFlags::VM_EXEC) {
        MemoryRegionPermissions {
            bits: (permissions.bits & !MemoryRegionPermissions::EXEC) | MemoryRegionPermissions::READ,
        }
    } else {
        permissions
    }
}

/// The platform was asked to change a range's permissions, and gave this answer.
pub open spec fn update_asked<P: PageManagementProvider<ALIGN>, const ALIGN: usize>(
    platform: &P,
    start: int,
    end: int,
    permissions: MemoryRegionPermissions,
    answer: Result<(), PermissionUpdateError>,
) -> bool {
    call_ensures(P::update_permissions, (platform, span(start, end), permissions), answer)
}

/// The platform was asked to give one piece its new permissions, with this outcome: a reservation
/// is allocated first, and made executable in a second step.
pub open spec fn piece_answered<P: PageManagementProvider<ALIGN>, const ALIGN: usize>(
    platform: &P,
    piece: (int, int, VmArea),
    permissions: MemoryRegionPermissions,
    outcome: Result<(), VmemProtectError>,
) -> bool {
    if deferred(piece.2) {
        exists|allocated: Result<usize, AllocationError>| #[trigger]
            call_ensures(
                P::allocate_pages,
                (
                    platform,
                    span(piece.0, piece.1),
                    birth_permissions(permissions),
                    false,
                    false,
                    FixedAddressBehavior::NoReplace,
                ),
                allocated,
            ) && match allocated {
                Err(error) => outcome == Err::<(), VmemProtectError>(
                    VmemProtectError::DeferredAllocate(error),
                ),
                Ok(_) => if carries(access_of(permissions), VmFlags::VM_EXEC) {
                    exists|answer: Result<(), PermissionUpdateError>| #[trigger]
                        update_asked(platform, piece.0, piece.1, permissions, answer) && outcome
                            == update_result(answer)
                } else {
                    outcome == Ok::<(), VmemProtectError>(())
                },
            }
    } else {
        exists|answer: Result<(), PermissionUpdateError>| #[trigger]
            update_asked(platform, piece.0, piece.1, permissions, answer) && outcome == update_result(answer)
    }
}

/// What a change reports for the platform's answer.
pub open spec fn update_result(answer: Result<(), PermissionUpdateError>) -> Result<(), VmemProtectError> {
    match answer {
        Ok(()) => Ok(()),
        Err(error) => Err(VmemProtectError::ProtectError(error)),
    }
}

/// The areas once a piece has its new access.
pub open spec fn piece_protected(areas: Map<int, VmArea>, piece: (int, int, VmArea), access: u32) -> Map<
    int,
    VmArea,
> {
    let bits = if deferred(piece.2) {
        materialized(piece.2.flags.bits, access)
    } else {
        with_access(piece.2.flags.bits, access)
    };
    put(areas, piece.0, piece.1, reflagged(piece.2, bits))
}

/// The platform was asked piece by piece, in address order, until it refused; every piece before
/// the refusal is changed.
#[verifier::opaque]
pub open spec fn pieces_protected<P: PageManagementProvider<ALIGN>, const ALIGN: usize>(
    platform: &P,
    areas: Map<int, VmArea>,
    pieces: Seq<(int, int, VmArea)>,
    permissions: MemoryRegionPermissions,
    after: Map<int, VmArea>,
    outcome: Result<(), VmemProtectError>,
) -> bool
    decreases pieces.len(),
{
    let access = access_of(permissions);
    if pieces.len() == 0 {
        after == areas && outcome == Ok::<(), VmemProtectError>(())
    } else if pieces[0].2.flags.bits & VmFlags::VM_ACCESS_FLAGS == access {
        pieces_protected(platform, areas, pieces.drop_first(), permissions, after, outcome)
    } else {
        exists|one: Result<(), VmemProtectError>| #[trigger]
            piece_answered(platform, pieces[0], permissions, one) && match one {
                Ok(()) => pieces_protected(
                    platform,
                    piece_protected(areas, pieces[0], access),
                    pieces.drop_first(),
                    permissions,
                    after,
                    outcome,
                ),
                Err(_) => after == areas && outcome == one,
            }
    }
}

/// What a protection change did over the pieces that it reaches. A platform with transactional
/// updates is asked once for all of them, unless one is a reservation; any other is asked piece by
/// piece.
pub open spec fn reach_protected<P: PageManagementProvider<ALIGN>, const ALIGN: usize>(
    platform: &P,
    areas: Map<int, VmArea>,
    reach: Seq<(int, int, VmArea)>,
    permissions: MemoryRegionPermissions,
    after: Map<int, VmArea>,
    outcome: Result<(), VmemProtectError>,
) -> bool {
    let access = access_of(permissions);
    if all_have_access(reach, access) {
        after == areas && outcome == Ok::<(), VmemProtectError>(())
    } else {
        exists|at_once: bool| #[trigger]
            call_ensures(P::has_transactional_permission_updates, (platform,), at_once) && if at_once
                && !any_deferred(reach) {
                exists|answer: Result<(), PermissionUpdateError>| #[trigger]
                    update_asked(platform, reach[0].0, reach.last().1, permissions, answer) && outcome
                        == update_result(answer) && after == (if answer is Ok {
                        changed_over(
                            areas,
                            reach[0].0,
                            reach.last().1,
                            FlagChange::Access { access },
                        )
                    } else {
                        areas
                    })
            } else {
                pieces_protected(platform, areas, reach, permissions, after, outcome)
            }
    }
}

/// What a protection change did: it reaches from the start of the range to the first gap or the
/// first mapping that does not allow the access, changes what it reaches, and then reports what
/// stopped it.
pub open spec fn protected<P: PageManagementProvider<ALIGN>, const ALIGN: usize>(
    platform: &P,
    before: VmemModel,
    range: (int, int),
    permissions: MemoryRegionPermissions,
    after: VmemModel,
    result: Result<(), VmemProtectError>,
) -> bool {
    let found = pieces(before.areas, range.0, range.1);
    let (reach, stop) = protect_walk(found, range.0, range, access_of(permissions));
    exists|outcome: Result<(), VmemProtectError>| #[trigger]
        reach_protected(
            platform,
            before.areas,
            found.take(reach),
            permissions,
            after.areas,
            outcome,
        ) && after == (VmemModel { areas: after.areas, ..before }) && result == (if outcome is Ok {
            walk_result(stop)
        } else {
            outcome
        })
}

impl<P: PageManagementProvider<ALIGN> + 'static, const ALIGN: usize> Vmem<P, ALIGN> {
    /// Gives a piece of one mapping another area. The mapping leaves the table, and the piece and what
    /// lies around it enter.
    fn record_protected_piece(&mut self, start: usize, end: usize, area: VmArea, updated: VmArea)
        requires
            old(self).wf(),
            start < end,
            start as int % ALIGN as int == 0,
            end as int % ALIGN as int == 0,
            uniform(old(self)@.areas, start as int, end as int, area),
            has_origin(updated),
        ensures
            final(self).follows(old(self)),
            final(self).logs(old(self), rewrites(old(self)@.areas, (start as int, end as int, area))),
            final(self)@ == (VmemModel {
                areas: put(old(self)@.areas, start as int, end as int, updated),
                ..old(self)@
            }),
    {
        let ghost before = self@.areas;
        proof {
            assert(lookup(before, start as int) == Some(area));
        }
        let mut low: usize = start;
        let mut high: usize = end;
        if let Some((run_start, run_end, _)) = self.vmas.get_key_value(start) {
            low = run_start;
            high = run_end;
        }
        proof {
            self.lemma_wf();
            assert(is_run(before, low as int, high as int, area));
            if high < end {
                assert(lookup(before, high as int) == Some(area));
            }
            assert(lookup(before, low as int) == Some(area));
            assert(lookup(before, high - 1) == Some(area));
            lemma_paged_edge(before, low as int, ALIGN as int);
            lemma_paged_edge(before, high as int, ALIGN as int);
            lemma_paged_put(before, low as int, high as int, area, ALIGN as int);
        }
        self.vmas.remove(low, high);
        proof {
            lemma_paged_put(self@.areas, start as int, end as int, updated, ALIGN as int);
        }
        self.vmas.insert(start, end, updated);
        if low < start {
            proof {
                assert(lookup(before, start - 1) == Some(area));
                lemma_paged_put(self@.areas, low as int, start as int, area, ALIGN as int);
            }
            self.vmas.insert(low, start, area);
        }
        if end < high {
            proof {
                assert(lookup(before, end as int) == Some(area));
                lemma_paged_put(self@.areas, end as int, high as int, area, ALIGN as int);
            }
            self.vmas.insert(end, high, area);
        }
        proof {
            let goal = put(before, start as int, end as int, updated);
            assert forall|k: int| #[trigger] lookup(self@.areas, k) == lookup(goal, k) by {
                if low <= k < high {
                    assert(lookup(before, k) == Some(area));
                }
            }
            lemma_same_lookups(self@.areas, goal);
            assert(self@.reserved =~= old(self)@.reserved);
        }
    }

    /// Applies a change to every flag set in a range.
    fn change_flags(&mut self, start: usize, end: usize, change: FlagChange)
        requires
            old(self).wf(),
            start < end,
            start as int % ALIGN as int == 0,
            end as int % ALIGN as int == 0,
        ensures
            final(self).follows(old(self)),
            final(self).logs(old(self), changes(old(self)@.areas, start as int, end as int, change)),
            final(self)@ == (VmemModel {
                areas: changed_over(old(self)@.areas, start as int, end as int, change),
                ..old(self)@
            }),
    {
        let pieces = self.vmas.pieces(start, end);
        let ghost list = modelled(pieces@);
        let ghost before = self@.areas;
        let ghost goal = changed_over(before, start as int, end as int, change);
        let mut i: usize = 0;
        proof {
            self.lemma_wf();
            lemma_paged_pieces(list, before, start as int, end as int, ALIGN as int);
        }
        while i < pieces.len()
            invariant
                i <= pieces@.len(),
                list == modelled(pieces@),
                before == old(self)@.areas,
                goal == changed_over(before, start as int, end as int, change),
                ALIGN > 0,
                pieces_of(list, before, start as int, end as int),
                forall|j: int| 0 <= j < list.len() ==> (#[trigger] list[j]).0 % ALIGN as int == 0
                    && list[j].1 % ALIGN as int == 0,
                self.follows(old(self)),
                self.logs(old(self), rewritten(before, list, is_changed(change), i as int)),
                self@ == (VmemModel { areas: self@.areas, ..old(self)@ }),
                forall|k: int| #[trigger]
                    lookup(self@.areas, k) == (if exists|j: int|
                        0 <= j < i && (#[trigger] list[j]).0 <= k < list[j].1 {
                        lookup(goal, k)
                    } else {
                        lookup(before, k)
                    }),
            decreases pieces@.len() - i,
        {
            let (s, e, area) = pieces[i];
            let ghost middle = self@.areas;
            let bits: u32 = match change {
                FlagChange::Mark { mask, on } => if on {
                    area.flags.bits | mask
                } else {
                    area.flags.bits & !mask
                },
                FlagChange::Access { access } => (area.flags.bits & !VmFlags::VM_ACCESS_FLAGS) | access,
                FlagChange::Record { access } => if access == 0 {
                    area.flags.bits & !VmFlags::VM_ACCESS_FLAGS
                } else {
                    (area.flags.bits & !VmFlags::VM_ACCESS_FLAGS & !VmFlags::VM_DEFERRED) | access
                },
            };
            let updated = area.with_flags(VmFlags { bits });
            proof {
                assert(list[i as int] == (s as int, e as int, area));
                assert(updated == reflagged(area, changed(change, area.flags.bits)));
                assert forall|k: int| s <= k < e implies #[trigger] lookup(goal, k) == Some(updated) by {
                    assert(lookup(before, k) == Some(area));
                }
            }
            if bits != area.flags.bits {
                proof {
                    self.lemma_wf();
                    assert(lookup(middle, s as int) == lookup(before, s as int));
                    assert forall|k: int| s <= k < e implies #[trigger] lookup(middle, k) == Some(area) by {
                        assert(lookup(before, k) == Some(area));
                        if exists|j: int| 0 <= j < i && (#[trigger] list[j]).0 <= k < list[j].1 {
                            let j = choose|j: int| 0 <= j < i && (#[trigger] list[j]).0 <= k < list[j].1;
                            assert(list[j].1 <= list[i as int].0);
                        }
                    }
                    lemma_same_edges(before, middle, list, (start as int, end as int), i as int, change);
                }
                self.record_protected_piece(s, e, area, updated);
            } else {
                proof {
                    assert(updated == area);
                }
            }
            i += 1;
            proof {
                assert forall|k: int| #[trigger]
                    lookup(self@.areas, k) == (if exists|j: int|
                        0 <= j < i && (#[trigger] list[j]).0 <= k < list[j].1 {
                        lookup(goal, k)
                    } else {
                        lookup(before, k)
                    }) by {
                    assert(lookup(middle, k) == lookup(middle, k));
                    if s <= k < e {
                        assert(list[i - 1].0 <= k < list[i - 1].1);
                        assert(lookup(before, k) == Some(area));
                        assert(lookup(goal, k) == Some(updated));
                    }
                }
            }
        }
        proof {
            assert forall|k: int| #[trigger] lookup(self@.areas, k) == lookup(goal, k) by {
                if lookup(before, k) is Some && start <= k < end {
                    assert(covered(list, k));
                    let j = choose|j: int|
                        0 <= j < list.len() && (#[trigger] list[j]).0 <= k < list[j].1;
                    assert(list[j].0 <= k < list[j].1);
                }
            }
            lemma_same_lookups(self@.areas, goal);
        }
    }

    /// Sets or clears the wipe-on-fork flag on every mapping of a range.
    ///
    /// With `enable`, a file-backed or shared mapping is refused; a hole in the range is reported.
    /// Every mapping is validated before any is changed, so an error leaves the flags as they
    /// were.
    pub fn set_wipe_on_fork(&mut self, range: PageRange<ALIGN>, enable: bool) -> (result: Result<
        (),
        VmemWipeOnForkError,
    >)
        requires
            old(self).wf(),
            range.wf(),
        ensures
            final(self).follows(old(self)),
            final(self).logs(
                old(self),
                if result is Ok {
                    changes(
                        old(self)@.areas,
                        range.start as int,
                        range.end as int,
                        FlagChange::Mark { mask: VmFlags::VM_WIPEONFORK, on: enable },
                    )
                } else {
                    0
                },
            ),
            result == wipe_result(old(self)@.areas, range.start as int, range.end as int, enable),
            final(self)@ == (if result is Ok {
                VmemModel {
                    areas: changed_over(
                        old(self)@.areas,
                        range.start as int,
                        range.end as int,
                        FlagChange::Mark { mask: VmFlags::VM_WIPEONFORK, on: enable },
                    ),
                    ..old(self)@
                }
            } else {
                old(self)@
            }),
            is_wipe_mark(
                old(self)@,
                (range.start as int, range.end as int),
                enable,
                final(self)@,
                result,
            ),
    {
        let (start, end) = (range.start, range.end);
        let ghost bounds = (start as int, end as int);
        proof {
            if wipe_result(self@.areas, bounds.0, bounds.1, enable) is Err {
                lemma_wipe_mark_is_lawful(self@, bounds, enable, self@);
            }
        }
        let pieces = self.vmas.pieces(start, end);
        let ghost list = modelled(pieces@);
        if enable {
            let mut i: usize = 0;
            proof {
                assert(list.skip(0) =~= list);
            }
            while i < pieces.len()
                invariant
                    i <= pieces@.len(),
                    list == modelled(pieces@),
                    list == crate::range_map::pieces(old(self)@.areas, start as int, end as int),
                    start == range.start,
                    end == range.end,
                    enable,
                    self.wf(),
                    *self == *old(self),
                    bounds == (start as int, end as int),
                    start < end,
                    first_unwipeable(list) == first_unwipeable(list.skip(i as int)),
                decreases pieces@.len() - i,
            {
                let (s, e, area) = pieces[i];
                proof {
                    assert(list[i as int] == (s as int, e as int, area));
                    assert(list.skip(i as int)[0] == list[i as int]);
                    assert(list.skip(i as int).drop_first() =~= list.skip(i + 1));
                }
                if area.is_file_backed || area.flags.contains(VmFlags::VM_SHARED) {
                    proof {
                        lemma_wipe_mark_is_lawful(self@, bounds, enable, self@);
                    }
                    return Err(VmemWipeOnForkError::NotPrivateAnonymous(s..e));
                }
                i += 1;
            }
        }
        let holes = self.vmas.has_gap(start, end);
        proof {
            assert(holes == holed(self@.areas, start as int, end as int));
        }
        if holes {
            return Err(VmemWipeOnForkError::Unmapped(start..end));
        }
        self.change_flags(
            start,
            end,
            FlagChange::Mark { mask: VmFlags::VM_WIPEONFORK, on: enable },
        );
        proof {
            lemma_wipe_mark_is_lawful(old(self)@, bounds, enable, self@);
        }
        Ok(())
    }

    /// Sets or clears the absent-after-fork flag on every mapping of a range. Legal on any
    /// mapping; a hole in the range is reported before any is changed.
    pub fn set_dont_fork(&mut self, range: PageRange<ALIGN>, enable: bool) -> (result: Result<
        (),
        VmemDontForkError,
    >)
        requires
            old(self).wf(),
            range.wf(),
        ensures
            final(self).follows(old(self)),
            final(self).logs(
                old(self),
                if result is Ok {
                    changes(
                        old(self)@.areas,
                        range.start as int,
                        range.end as int,
                        FlagChange::Mark { mask: VmFlags::VM_DONTCOPY, on: enable },
                    )
                } else {
                    0
                },
            ),
            result == (if holed(old(self)@.areas, range.start as int, range.end as int) {
                Err(VmemDontForkError::Unmapped(span(range.start as int, range.end as int)))
            } else {
                Ok(())
            }),
            final(self)@ == (if result is Ok {
                VmemModel {
                    areas: changed_over(
                        old(self)@.areas,
                        range.start as int,
                        range.end as int,
                        FlagChange::Mark { mask: VmFlags::VM_DONTCOPY, on: enable },
                    ),
                    ..old(self)@
                }
            } else {
                old(self)@
            }),
            is_absence_mark(
                old(self)@,
                (range.start as int, range.end as int),
                enable,
                final(self)@,
                result,
            ),
    {
        let (start, end) = (range.start, range.end);
        let ghost bounds = (start as int, end as int);
        let holes = self.vmas.has_gap(start, end);
        proof {
            assert(holes == holed(self@.areas, start as int, end as int));
        }
        if holes {
            let result = Err(VmemDontForkError::Unmapped(start..end));
            proof {
                lemma_absence_mark_is_lawful(self@, bounds, enable, self@, result);
            }
            return result;
        }
        self.change_flags(
            start,
            end,
            FlagChange::Mark { mask: VmFlags::VM_DONTCOPY, on: enable },
        );
        let result = Ok(());
        proof {
            lemma_absence_mark_is_lawful(old(self)@, bounds, enable, self@, result);
        }
        result
    }

    /// Every mapping that carries a flag, with its flags, in address order.
    fn ranges_with(&self, mask: u32) -> (found: Vec<(Range<usize>, VmFlags)>)
        requires
            self.wf(),
        ensures
            lists_marked(found@, self@.areas, mask),
    {
        let entries = self.vmas.iter();
        let ghost runs = modelled(entries@);
        let mut found: Vec<(Range<usize>, VmFlags)> = Vec::new();
        let mut i: usize = 0;
        proof {
            reveal(Seq::filter);
            assert(runs.take(0) =~= Seq::empty());
        }
        while i < entries.len()
            invariant
                i <= entries@.len(),
                runs == modelled(entries@),
                marked_entries(found@) =~= plain_runs(runs.take(i as int).filter(marked_with(mask))),
            decreases entries@.len() - i,
        {
            proof {
                reveal(Seq::filter);
                assert(runs.take(i + 1).drop_last() =~= runs.take(i as int));
                assert(runs.take(i + 1).last() == runs[i as int]);
            }
            let (start, end, area) = entries[i];
            let ghost before = runs.take(i as int).filter(marked_with(mask));
            let ghost listed = found@;
            if area.flags.contains(mask) {
                found.push((start..end, area.flags));
                proof {
                    let after = runs.take(i + 1).filter(marked_with(mask));
                    assert(after =~= before.push(runs[i as int]));
                    assert(marked_entries(listed).len() == plain_runs(before).len());
                    assert forall|j: int| 0 <= j < after.len() implies marked_entries(found@)[j]
                        == plain_runs(after)[j] by {
                        if j < before.len() {
                            assert(marked_entries(listed)[j] == plain_runs(before)[j]);
                        }
                    }
                }
            } else {
                proof {
                    assert(runs.take(i + 1).filter(marked_with(mask)) =~= before);
                }
            }
            i += 1;
        }
        proof {
            assert(runs.take(runs.len() as int) =~= runs);
        }
        found
    }

    /// Every mapping carrying the wipe-on-fork flag, with its flags, in address order.
    pub fn wipe_on_fork_ranges(&self) -> (found: Vec<(Range<usize>, VmFlags)>)
        requires
            self.wf(),
        ensures
            lists_marked(found@, self@.areas, VmFlags::VM_WIPEONFORK),
            names_all_marked(found@, self@.areas, 0x400),
    {
        let found = self.ranges_with(VmFlags::VM_WIPEONFORK);
        proof {
            lemma_marked_list_is_complete(found@, self@.areas, 0x400);
        }
        found
    }

    /// Every mapping carrying the absent-after-fork flag, with its flags, in address order.
    pub fn dont_fork_ranges(&self) -> (found: Vec<(Range<usize>, VmFlags)>)
        requires
            self.wf(),
        ensures
            lists_marked(found@, self@.areas, VmFlags::VM_DONTCOPY),
            names_all_marked(found@, self@.areas, 0x800),
    {
        let found = self.ranges_with(VmFlags::VM_DONTCOPY);
        proof {
            lemma_marked_list_is_complete(found@, self@.areas, 0x800);
        }
        found
    }

    /// How far a protection change of a range reaches, and what stops it.
    fn walk_protect(
        pieces: &Vec<(usize, usize, VmArea)>,
        range: PageRange<ALIGN>,
        access: u32,
    ) -> (reach: (usize, Option<VmemProtectError>))
        ensures
            reach.0 <= pieces@.len(),
            (reach.0 as int, reach.1) == protect_walk(
                modelled(pieces@),
                range.start as int,
                (range.start as int, range.end as int),
                access,
            ),
    {
        let ghost list = modelled(pieces@);
        let ghost bounds = (range.start as int, range.end as int);
        let mut at: usize = range.start;
        let mut n: usize = 0;
        proof {
            assert(list.skip(0) =~= list);
        }
        while n < pieces.len()
            invariant
                n <= pieces@.len(),
                list == modelled(pieces@),
                bounds == (range.start as int, range.end as int),
                protect_walk(list, range.start as int, bounds, access) == ({
                    let (more, error) = protect_walk(list.skip(n as int), at as int, bounds, access);
                    (more + n, error)
                }),
            decreases pieces@.len() - n,
        {
            let (s, e, area) = pieces[n];
            proof {
                assert(list[n as int] == (s as int, e as int, area));
                assert(list.skip(n as int)[0] == list[n as int]);
                assert(list.skip(n as int).drop_first() =~= list.skip(n + 1));
            }
            if s != at {
                return (n, Some(VmemProtectError::InvalidRange(range.start..range.end)));
            }
            if (!(area.flags.bits >> 4) & access) & VmFlags::VM_ACCESS_FLAGS != 0 {
                return (
                    n,
                    Some(VmemProtectError::NoAccess { old: area.flags, new: VmFlags { bits: access } }),
                );
            }
            at = e;
            n += 1;
        }
        if at != range.end {
            return (n, Some(VmemProtectError::InvalidRange(range.start..range.end)));
        }
        (n, None)
    }

    /// Whether a range is fully mapped and every mapping there allows the permissions. No effect.
    pub fn check_permissions(&self, range: PageRange<ALIGN>, permissions: MemoryRegionPermissions) -> (result:
        Result<(), VmemProtectError>)
        requires
            self.wf(),
            range.wf(),
        ensures
            result == walk_result(
                protect_walk(
                    pieces(self@.areas, range.start as int, range.end as int),
                    range.start as int,
                    (range.start as int, range.end as int),
                    access_of(permissions),
                ).1,
            ),
            is_verdict(
                self@.areas,
                (range.start as int, range.end as int),
                permissions.bits,
                result,
            ),
    {
        proof {
            lemma_verdict_is_lawful(
                self@.areas,
                (range.start as int, range.end as int),
                permissions,
            );
        }
        let access = permissions.access().bits;
        let pieces = self.vmas.pieces(range.start, range.end);
        let (_, stop) = Self::walk_protect(&pieces, range, access);
        match stop {
            Some(error) => Err(error),
            None => Ok(()),
        }
    }

    /// Records permissions as a range's access flags, touching no platform state. A reservation
    /// becoming accessible is none any more.
    pub fn record_permissions(&mut self, range: PageRange<ALIGN>, permissions: MemoryRegionPermissions)
        requires
            old(self).wf(),
            range.wf(),
        ensures
            final(self).follows(old(self)),
            final(self).logs(
                old(self),
                changes(
                    old(self)@.areas,
                    range.start as int,
                    range.end as int,
                    FlagChange::Record { access: access_of(permissions) },
                ),
            ),
            final(self)@ == (VmemModel {
                areas: changed_over(
                    old(self)@.areas,
                    range.start as int,
                    range.end as int,
                    FlagChange::Record { access: access_of(permissions) },
                ),
                ..old(self)@
            }),
            is_recorded(
                old(self)@.areas,
                final(self)@.areas,
                (range.start as int, range.end as int),
                permissions.bits,
            ),
    {
        let access = permissions.access().bits;
        proof {
            lemma_record(self@.areas, (range.start as int, range.end as int), permissions);
        }
        self.change_flags(range.start, range.end, FlagChange::Record { access });
    }

    /// The area with its new access. A reservation becomes an ordinary mapping.
    fn protected_area(area: VmArea, permissions: MemoryRegionPermissions) -> (updated: VmArea)
        ensures
            updated == reflagged(
                area,
                if deferred(area) {
                    materialized(area.flags.bits, access_of(permissions))
                } else {
                    with_access(area.flags.bits, access_of(permissions))
                },
            ),
    {
        let access = permissions.access().bits;
        let bits: u32 = if area.flags.contains(VmFlags::VM_DEFERRED) {
            (area.flags.bits & !VmFlags::VM_ACCESS_FLAGS & !VmFlags::VM_DEFERRED) | access
        } else {
            (area.flags.bits & !VmFlags::VM_ACCESS_FLAGS) | access
        };
        area.with_flags(VmFlags { bits })
    }

    /// Enters what the platform answered for one piece of a piecewise protection change.
    pub fn finish_protect_piece(
        &mut self,
        piece: PageRange<ALIGN>,
        area: VmArea,
        permissions: MemoryRegionPermissions,
        outcome: Result<(), VmemProtectError>,
    ) -> (result: Result<(), VmemProtectError>)
        requires
            old(self).wf(),
            piece.wf(),
            uniform(old(self)@.areas, piece.start as int, piece.end as int, area),
        ensures
            final(self).follows(old(self)),
            final(self).logs(
                old(self),
                if outcome is Ok {
                    rewrites(old(self)@.areas, (piece.start as int, piece.end as int, area))
                } else {
                    0
                },
            ),
            result == outcome,
            final(self)@ == (if outcome is Ok {
                VmemModel {
                    areas: piece_protected(
                        old(self)@.areas,
                        (piece.start as int, piece.end as int, area),
                        access_of(permissions),
                    ),
                    ..old(self)@
                }
            } else {
                old(self)@
            }),
    {
        if outcome.is_ok() {
            let updated = Self::protected_area(area, permissions);
            proof {
                self.lemma_wf();
                assert(lookup(self@.areas, piece.start as int) == Some(area));
            }
            self.record_protected_piece(piece.start, piece.end, area, updated);
        }
        outcome
    }

    /// Asks the platform for one piece of a piecewise protection change.
    fn protect_piece(
        &mut self,
        piece: PageRange<ALIGN>,
        area: VmArea,
        permissions: MemoryRegionPermissions,
    ) -> (result: Result<(), VmemProtectError>)
        requires
            old(self).wf(),
            piece.wf(),
            uniform(old(self)@.areas, piece.start as int, piece.end as int, area),
        ensures
            final(self).follows(old(self)),
            final(self).logs(
                old(self),
                if result is Ok {
                    rewrites(old(self)@.areas, (piece.start as int, piece.end as int, area))
                } else {
                    0
                },
            ),
            piece_answered(
                final(self).platform(),
                (piece.start as int, piece.end as int, area),
                permissions,
                result,
            ),
            final(self)@ == (if result is Ok {
                VmemModel {
                    areas: piece_protected(
                        old(self)@.areas,
                        (piece.start as int, piece.end as int, area),
                        access_of(permissions),
                    ),
                    ..old(self)@
                }
            } else {
                old(self)@
            }),
    {
        let (start, end) = (piece.start, piece.end);
        let ghost platform = self.platform();
        let publish = Self::protected_area(area, permissions);
        self.transient.insert(start, end, &Transient::Installing { publish });
        let outcome: Result<(), VmemProtectError>;
        if area.flags.contains(VmFlags::VM_DEFERRED) {
            let wants_exec = permissions.access().contains(VmFlags::VM_EXEC);
            let birth = if wants_exec {
                permissions.without(MemoryRegionPermissions::EXEC).union(MemoryRegionPermissions::READ)
            } else {
                permissions
            };
            let allocated = self.platform.allocate_pages(
                start..end,
                birth,
                false,
                false,
                FixedAddressBehavior::NoReplace,
            );
            proof {
                assert(birth == birth_permissions(permissions));
                assert(call_ensures(
                    P::allocate_pages,
                    (
                        platform,
                        span(start as int, end as int),
                        birth_permissions(permissions),
                        false,
                        false,
                        FixedAddressBehavior::NoReplace,
                    ),
                    allocated,
                ));
            }
            outcome = match allocated {
                Err(error) => Err(VmemProtectError::DeferredAllocate(error)),
                Ok(_) => {
                    if wants_exec {
                        let answer = self.platform.update_permissions(start..end, permissions);
                        proof {
                            assert(update_asked(platform, start as int, end as int, permissions, answer));
                        }
                        match answer {
                            Ok(()) => Ok(()),
                            Err(error) => Err(VmemProtectError::ProtectError(error)),
                        }
                    } else {
                        Ok(())
                    }
                },
            };
        } else {
            let answer = self.platform.update_permissions(start..end, permissions);
            proof {
                assert(update_asked(platform, start as int, end as int, permissions, answer));
            }
            outcome = match answer {
                Ok(()) => Ok(()),
                Err(error) => Err(VmemProtectError::ProtectError(error)),
            };
        }
        self.transient.remove(start, end);
        proof {
            assert(self.transient@ =~= Map::<int, Transient>::empty());
            assert(self@ == old(self)@);
            assert(piece_answered(
                platform,
                (start as int, end as int, area),
                permissions,
                outcome,
            ));
        }
        self.finish_protect_piece(piece, area, permissions, outcome)
    }

    /// Enters what the platform answered to one protection change of everything it reaches.
    pub fn finish_protect_at_once(
        &mut self,
        reach: PageRange<ALIGN>,
        permissions: MemoryRegionPermissions,
        answer: Result<(), PermissionUpdateError>,
    ) -> (result: Result<(), VmemProtectError>)
        requires
            old(self).wf(),
            reach.wf(),
        ensures
            final(self).follows(old(self)),
            final(self).logs(
                old(self),
                if answer is Ok {
                    changes(
                        old(self)@.areas,
                        reach.start as int,
                        reach.end as int,
                        FlagChange::Access { access: access_of(permissions) },
                    )
                } else {
                    0
                },
            ),
            result == update_result(answer),
            final(self)@ == (if answer is Ok {
                VmemModel {
                    areas: changed_over(
                        old(self)@.areas,
                        reach.start as int,
                        reach.end as int,
                        FlagChange::Access { access: access_of(permissions) },
                    ),
                    ..old(self)@
                }
            } else {
                old(self)@
            }),
    {
        match answer {
            Err(error) => Err(VmemProtectError::ProtectError(error)),
            Ok(()) => {
                let access = permissions.access().bits;
                self.change_flags(reach.start, reach.end, FlagChange::Access { access });
                Ok(())
            },
        }
    }

    /// Change the permissions of a range in the virtual address space.
    ///
    /// The range is walked in address order. A gap, or a mapping that does not allow the access,
    /// ends the walk; what was walked before it is changed, and then the error is returned.
    #[verifier::rlimit(40)]
    pub fn protect_mapping(&mut self, range: PageRange<ALIGN>, permissions: MemoryRegionPermissions) -> (result:
        Result<(), VmemProtectError>)
        requires
            old(self).wf(),
            range.wf(),
        ensures
            final(self).follows(old(self)),
            final(self).logs(
                old(self),
                alterations(
                    old(self)@.areas,
                    range.start as int,
                    range.end as int,
                    final(self)@.areas,
                ),
            ),
            protected(
                final(self).platform(),
                old(self)@,
                (range.start as int, range.end as int),
                permissions,
                final(self)@,
                result,
            ),
    {
        let ghost platform = self.platform();
        let ghost bounds = (range.start as int, range.end as int);
        let access = permissions.access().bits;
        let pieces = self.vmas.pieces(range.start, range.end);
        let ghost list = modelled(pieces@);
        let (n, stop) = Self::walk_protect(&pieces, range, access);
        let ghost reach = list.take(n as int);
        proof {
            self.lemma_wf();
            lemma_paged_pieces(list, self@.areas, bounds.0, bounds.1, ALIGN as int);
            assert(pieces_of(list, self@.areas, bounds.0, bounds.1));
        }
        let (same, reserved) = Self::reach_state(&pieces, n, access);
        let mut outcome: Result<(), VmemProtectError> = Ok(());
        if !same {
            let at_once = self.platform.has_transactional_permission_updates();
            proof {
                assert(call_ensures(P::has_transactional_permission_updates, (platform,), at_once));
            }
            proof {
                assert(n > 0);
                assert(reach[0] == list[0]);
                assert(reach.last() == list[n - 1]);
                self.lemma_wf();
                assert forall|j: int| 0 <= j < list.len() implies has_origin((#[trigger] list[j]).2) by {
                    assert(lookup(self@.areas, list[j].0) == Some(list[j].2));
                }
                assert forall|j: int| 0 <= j < list.len() implies lookup(
                    self@.areas,
                    (#[trigger] list[j]).0,
                ) == Some(list[j].2) by {}
            }
            if at_once && !reserved {
                outcome = self.protect_at_once(&pieces, n, permissions);
                proof {
                    lemma_reach_altered(old(self)@.areas, list, bounds, n as int, access);
                    assert(reach_protected(
                        platform,
                        old(self)@.areas,
                        reach,
                        permissions,
                        self@.areas,
                        outcome,
                    ));
                }
            } else {
                outcome = self.protect_piecewise(&pieces, n, permissions);
            }
        }
        proof {
            if self@.areas == old(self)@.areas {
                lemma_nothing_altered(self@.areas, bounds.0, bounds.1);
            }
            assert(reach_protected(
                platform,
                old(self)@.areas,
                list.take(protect_walk(list, bounds.0, bounds, access).0),
                permissions,
                self@.areas,
                outcome,
            ));
        }
        match outcome {
            Err(error) => Err(error),
            Ok(()) => match stop {
                Some(error) => Err(error),
                None => Ok(()),
            },
        }
    }

    /// Whether the first `n` pieces all have the access already, and whether one of them is only
    /// reserved.
    fn reach_state(pieces: &Vec<(usize, usize, VmArea)>, n: usize, access: u32) -> (state: (bool, bool))
        requires
            n <= pieces@.len(),
        ensures
            state.0 == all_have_access(modelled(pieces@).take(n as int), access),
            state.1 == any_deferred(modelled(pieces@).take(n as int)),
    {
        let ghost reach = modelled(pieces@).take(n as int);
        let mut same = true;
        let mut reserved = false;
        let mut i: usize = 0;
        while i < n
            invariant
                i <= n <= pieces@.len(),
                reach == modelled(pieces@).take(n as int),
                same == (forall|j: int|
                    0 <= j < i ==> (#[trigger] reach[j]).2.flags.bits & VmFlags::VM_ACCESS_FLAGS == access),
                reserved == (exists|j: int| 0 <= j < i && deferred((#[trigger] reach[j]).2)),
            decreases n - i,
        {
            let area = pieces[i].2;
            proof {
                assert(reach[i as int].2 == area);
            }
            if area.flags.bits & VmFlags::VM_ACCESS_FLAGS != access {
                same = false;
            }
            if area.flags.contains(VmFlags::VM_DEFERRED) {
                reserved = true;
            }
            i += 1;
        }
        (same, reserved)
    }

    /// One platform call for the first `n` pieces, which lie without a gap.
    fn protect_at_once(
        &mut self,
        pieces: &Vec<(usize, usize, VmArea)>,
        n: usize,
        permissions: MemoryRegionPermissions,
    ) -> (outcome: Result<(), VmemProtectError>)
        requires
            old(self).wf(),
            0 < n <= pieces@.len(),
            pieces_ok(modelled(pieces@), ALIGN as int),
        ensures
            final(self).follows(old(self)),
            final(self).logs(
                old(self),
                if outcome is Ok {
                    changes(
                        old(self)@.areas,
                        modelled(pieces@)[0].0,
                        modelled(pieces@)[n - 1].1,
                        FlagChange::Access { access: access_of(permissions) },
                    )
                } else {
                    0
                },
            ),
            exists|answer: Result<(), PermissionUpdateError>| #[trigger]
                update_asked(
                    final(self).platform(),
                    modelled(pieces@)[0].0,
                    modelled(pieces@)[n - 1].1,
                    permissions,
                    answer,
                ) && outcome == update_result(answer) && final(self)@ == (if answer is Ok {
                    VmemModel {
                        areas: changed_over(
                            old(self)@.areas,
                            modelled(pieces@)[0].0,
                            modelled(pieces@)[n - 1].1,
                            FlagChange::Access { access: access_of(permissions) },
                        ),
                        ..old(self)@
                    }
                } else {
                    old(self)@
                }),
    {
        let ghost platform = self.platform();
        let ghost list = modelled(pieces@);
        let start: usize = pieces[0].0;
        let end: usize = pieces[n - 1].1;
        proof {
            assert(list[0].0 == start && list[n - 1].1 == end);
            if n > 1 {
                assert(list[0].1 <= list[n - 1].0);
            }
        }
        let access = permissions.access().bits;
        let mut i: usize = 0;
        while i < n
            invariant
                i <= n <= pieces@.len(),
                list == modelled(pieces@),
                pieces_ok(list, ALIGN as int),
                0 < n,
                list[0].0 == start && list[n - 1].1 == end,
                self.platform == old(self).platform,
                self.brk == old(self).brk,
                self.vmas == old(self).vmas,
                self.pending_initializations == old(self).pending_initializations,
                self.next_initialization_id == old(self).next_initialization_id,
                self.futex_ids == old(self).futex_ids,
                self.reserved == old(self).reserved,
                self.transient.wf(),
                forall|k: int| !(start <= k < end) ==> #[trigger] lookup(self.transient@, k) is None,
            decreases n - i,
        {
            let (s, e, area) = pieces[i];
            proof {
                assert(list[i as int] == (s as int, e as int, area));
                if i > 0 {
                    assert(list[0].1 <= list[i as int].0);
                }
                if i < n - 1 {
                    assert(list[i as int].1 <= list[n - 1].0);
                }
            }
            if area.flags.bits & VmFlags::VM_ACCESS_FLAGS != access {
                let publish = Self::protected_area(area, permissions);
                self.transient.insert(s, e, &Transient::Installing { publish });
            }
            i += 1;
        }
        let answer = self.platform.update_permissions(start..end, permissions);
        self.transient.remove(start, end);
        proof {
            let none = Map::<int, Transient>::empty();
            assert forall|k: int| #[trigger] lookup(self.transient@, k) == lookup(none, k) by {}
            lemma_same_lookups(self.transient@, none);
            assert(self@ == old(self)@);
            assert(update_asked(platform, start as int, end as int, permissions, answer));
        }
        self.finish_protect_at_once(PageRange { start, end }, permissions, answer)
    }

    /// One platform call, or two, for each of the first `n` pieces.
    fn protect_piecewise(
        &mut self,
        pieces: &Vec<(usize, usize, VmArea)>,
        n: usize,
        permissions: MemoryRegionPermissions,
    ) -> (outcome: Result<(), VmemProtectError>)
        requires
            old(self).wf(),
            n <= pieces@.len(),
            pieces_ok(modelled(pieces@), ALIGN as int),
            forall|j: int| 0 <= j < pieces@.len() ==> is_mapped(old(self)@.areas, #[trigger] modelled(pieces@)[j]),
            forall|j: int|
                0 < j < pieces@.len() ==> lookup(
                    old(self)@.areas,
                    (#[trigger] modelled(pieces@)[j]).0 - 1,
                ) != Some(modelled(pieces@)[j].2),
        ensures
            final(self).follows(old(self)),
            final(self).logs(
                old(self),
                rewritten(
                    old(self)@.areas,
                    modelled(pieces@),
                    is_altered(final(self)@.areas),
                    pieces@.len() as int,
                ),
            ),
            pieces_protected(
                final(self).platform(),
                old(self)@.areas,
                modelled(pieces@).take(n as int),
                permissions,
                final(self)@.areas,
                outcome,
            ),
            final(self)@ == (VmemModel { areas: final(self)@.areas, ..old(self)@ }),
    {
        let ghost platform = self.platform();
        let ghost reach = modelled(pieces@).take(n as int);
        let access = permissions.access().bits;
        let mut i: usize = 0;
        let ghost all = modelled(pieces@);
        proof {
            assert(reach.skip(0) =~= reach);
        }
        while i < n
            invariant
                i <= n <= pieces@.len(),
                all == modelled(pieces@),
                self.logs(old(self), rewritten(old(self)@.areas, all, lacks_access(access), i as int)),
                forall|j: int| 0 <= j < all.len() ==> is_mapped(old(self)@.areas, #[trigger] all[j]),
                forall|j: int|
                    0 <= j < i ==> (lookup(self@.areas, (#[trigger] all[j]).0) != Some(all[j].2))
                        == lacks_access(access)(all[j]),
                forall|j: int|
                    0 < j < all.len() ==> lookup(old(self)@.areas, (#[trigger] all[j]).0 - 1) != Some(
                        all[j].2,
                    ),
                forall|k: int|
                    i == 0 || k >= all[i - 1].1 ==> #[trigger] lookup(self@.areas, k) == lookup(
                        old(self)@.areas,
                        k,
                    ),
                forall|k: int|
                    #[trigger] lookup(self@.areas, k) == lookup(old(self)@.areas, k) || has_access(
                        lookup(self@.areas, k),
                        access,
                    ),
                reach == modelled(pieces@).take(n as int),
                pieces_ok(modelled(pieces@), ALIGN as int),
                access == access_of(permissions),
                platform == self.platform(),
                self.follows(old(self)),
                self@ == (VmemModel { areas: self@.areas, ..old(self)@ }),
                forall|after: Map<int, VmArea>, outcome: Result<(), VmemProtectError>|
                    pieces_protected(
                        platform,
                        self@.areas,
                        reach.skip(i as int),
                        permissions,
                        after,
                        outcome,
                    ) ==> #[trigger] pieces_protected(
                        platform,
                        old(self)@.areas,
                        reach,
                        permissions,
                        after,
                        outcome,
                    ),
            decreases n - i,
        {
            let (s, e, area) = pieces[i];
            let ghost before = self@.areas;
            let ghost rest = reach.skip(i as int);
            proof {
                self.lemma_wf();
                assert(modelled(pieces@)[i as int] == (s as int, e as int, area));
                assert(rest[0] == (s as int, e as int, area));
                assert(rest.drop_first() =~= reach.skip(i + 1));
            }
            proof {
                let first = old(self)@.areas;
                assert(all[i as int] == (s as int, e as int, area));
                if i > 0 {
                    assert(all[i - 1].1 <= all[i as int].0);
                }
                assert(is_mapped(first, all[i as int]));
                assert forall|k: int| s <= k < e implies #[trigger] lookup(before, k) == Some(area) by {
                    assert(lookup(first, k) == Some(area));
                }
                if lacks_access(access)(all[i as int]) {
                    assert(lookup(before, e as int) == lookup(first, e as int));
                    assert(lookup(before, s - 1) == lookup(first, s - 1) || has_access(
                        lookup(before, s - 1),
                        access,
                    ));
                    assert(rewrites(before, all[i as int]) == rewrites(first, all[i as int]));
                }
            }
            if area.flags.bits & VmFlags::VM_ACCESS_FLAGS != access {
                let piece = PageRange { start: s, end: e };
                let one = self.protect_piece(piece, area, permissions);
                if let Err(error) = one {
                    proof {
                        lemma_protect_step(platform, before, rest, permissions, one, before, one);
                        assert(pieces_protected(
                            platform,
                            old(self)@.areas,
                            reach,
                            permissions,
                            before,
                            one,
                        ));
                        lemma_same_rewrites(
                            old(self)@.areas,
                            all,
                            all,
                            lacks_access(access),
                            is_altered(self@.areas),
                            i as int,
                            all.len() as int,
                        );
                    }
                    return Err(error);
                }
                proof {
                    lemma_access_replaced(area.flags.bits, permissions);
                    assert(lookup(self@.areas, s as int) != Some(area));
                    assert forall|j: int| 0 <= j < all.len() && j != i implies lookup(
                        self@.areas,
                        (#[trigger] all[j]).0,
                    ) == lookup(before, all[j].0) by {
                        assert(all[i as int].1 == e);
                        if j < i {
                            assert(all[j].1 <= all[i as int].0);
                        } else {
                            assert(all[i as int].1 <= all[j].0);
                        }
                    }
                    assert forall|after: Map<int, VmArea>, outcome: Result<(), VmemProtectError>|
                        pieces_protected(
                            platform,
                            self@.areas,
                            reach.skip(i + 1),
                            permissions,
                            after,
                            outcome,
                        ) implies #[trigger] pieces_protected(
                        platform,
                        old(self)@.areas,
                        reach,
                        permissions,
                        after,
                        outcome,
                    ) by {
                        lemma_protect_step(platform, before, rest, permissions, one, after, outcome);
                    }
                }
            } else {
                proof {
                    assert forall|after: Map<int, VmArea>, outcome: Result<(), VmemProtectError>|
                        pieces_protected(
                            platform,
                            self@.areas,
                            reach.skip(i + 1),
                            permissions,
                            after,
                            outcome,
                        ) implies #[trigger] pieces_protected(
                        platform,
                        old(self)@.areas,
                        reach,
                        permissions,
                        after,
                        outcome,
                    ) by {
                        lemma_protect_skip(platform, before, rest, permissions, after, outcome);
                    }
                }
            }
            i += 1;
        }
        proof {
            lemma_protect_skip(
                platform,
                self@.areas,
                reach.skip(i as int),
                permissions,
                self@.areas,
                Ok(()),
            );
            assert(pieces_protected(
                platform,
                old(self)@.areas,
                reach,
                permissions,
                self@.areas,
                Ok(()),
            ));
            lemma_same_rewrites(
                old(self)@.areas,
                all,
                all,
                lacks_access(access),
                is_altered(self@.areas),
                n as int,
                all.len() as int,
            );
        }
        Ok(())
    }
}

/// A change of access over the first pieces of a list, without a gap between them, changes those that
/// are mapped otherwise afterwards.
proof fn lemma_reach_altered(
    areas: Map<int, VmArea>,
    list: Seq<(int, int, VmArea)>,
    bounds: (int, int),
    n: int,
    access: u32,
)
    requires
        pieces_of(list, areas, bounds.0, bounds.1),
        0 < n <= list.len(),
    ensures
        ({
            let change = FlagChange::Access { access };
            let (start, end) = (list[0].0, list[n - 1].1);
            changes(areas, start, end, change) == rewritten(
                areas,
                list,
                is_altered(changed_over(areas, start, end, change)),
                list.len() as int,
            )
        }),
{
    let change = FlagChange::Access { access };
    let (start, end) = (list[0].0, list[n - 1].1);
    let after = changed_over(areas, start, end, change);
    let reach = list.take(n);
    assert forall|i: int| 0 <= i < list.len() implies #[trigger] list[i].0 >= start by {
        if i > 0 {
            assert(list[0].1 <= list[i].0);
        }
    }
    assert forall|i: int| 0 <= i < n implies (#[trigger] list[i]).1 <= end by {
        if i < n - 1 {
            assert(list[i].1 <= list[n - 1].0);
        }
    }
    assert forall|k: int| start <= k < end && #[trigger] lookup(areas, k) is Some implies covered(reach, k) by {
        assert(covered(list, k));
        let i = choose|i: int| 0 <= i < list.len() && (#[trigger] list[i]).0 <= k < list[i].1;
        if i >= n {
            assert(list[n - 1].1 <= list[i].0);
        }
        assert(reach[i].0 <= k < reach[i].1);
    }
    assert(pieces_of(reach, areas, start, end)) by {
        assert forall|i: int| 0 <= i < reach.len() implies start <= (#[trigger] reach[i]).0 < reach[i].1
            <= end by {
            assert(reach[i] == list[i]);
        }
        assert forall|i: int| 0 <= i < reach.len() implies (reach[i].1 == end || lookup(
            areas,
            (#[trigger] reach[i]).1,
        ) != Some(reach[i].2)) && (reach[i].0 == start || lookup(areas, reach[i].0 - 1) != Some(
            reach[i].2,
        )) by {
            assert(reach[i] == list[i]);
            if i < n - 1 && list[i].1 == bounds.1 {
                assert(list[i].1 <= list[n - 1].0);
            }
            if i > 0 && list[i].0 == bounds.0 {
                assert(list[0].1 <= list[i].0);
            }
        }
    }
    crate::range_map::lemma_pieces(areas, start, end);
    assert forall|j: int| 0 <= j < n implies is_changed(change)(#[trigger] list[j]) == is_altered(after)(
        list[j],
    ) by {
        assert(lookup(areas, list[j].0) == Some(list[j].2));
    }
    assert forall|j: int| n <= j < list.len() implies !(is_altered(after)(#[trigger] list[j])) by {
        assert(lookup(areas, list[j].0) == Some(list[j].2));
        assert(list[n - 1].1 <= list[j].0);
    }
    lemma_same_rewrites(areas, reach, list, is_changed(change), is_altered(after), n, list.len() as int);
}

/// A piece is mapped throughout.
pub open spec fn is_mapped(areas: Map<int, VmArea>, piece: (int, int, VmArea)) -> bool {
    uniform(areas, piece.0, piece.1, piece.2)
}

/// A mapping that has exactly this access.
pub open spec fn has_access(mapping: Option<VmArea>, access: u32) -> bool {
    mapping matches Some(area) && area.flags.bits & VmFlags::VM_ACCESS_FLAGS == access
}

/// Making a change of flags again changes nothing more.
proof fn lemma_changed_once(change: FlagChange, bits: u32)
    ensures
        changed(change, changed(change, bits)) == changed(change, bits),
{
    match change {
        FlagChange::Mark { mask, on } => {
            assert((bits | mask) | mask == bits | mask) by (bit_vector);
            assert((bits & !mask) & !mask == bits & !mask) by (bit_vector);
        },
        FlagChange::Access { access } => {
            let f = VmFlags::VM_ACCESS_FLAGS;
            assert((((bits & !f) | access) & !f) | access == (bits & !f) | access) by (bit_vector);
        },
        FlagChange::Record { access } => {
            let f = VmFlags::VM_ACCESS_FLAGS;
            let d = VmFlags::VM_DEFERRED;
            assert((bits & !f) & !f == bits & !f) by (bit_vector);
            assert((((bits & !f & !d) | access) & !f & !d) | access == (bits & !f & !d) | access) by (bit_vector);
        },
    }
}

/// A piece that a change of flags changes has the same neighbours while the pieces before it are
/// changed: none of them becomes what the piece is.
proof fn lemma_same_edges(
    before: Map<int, VmArea>,
    now: Map<int, VmArea>,
    list: Seq<(int, int, VmArea)>,
    bounds: (int, int),
    i: int,
    change: FlagChange,
)
    requires
        pieces_of(list, before, bounds.0, bounds.1),
        0 <= i < list.len(),
        is_changed(change)(list[i]),
        forall|k: int| #[trigger]
            lookup(now, k) == (if exists|j: int| 0 <= j < i && (#[trigger] list[j]).0 <= k < list[j].1 {
                lookup(changed_over(before, bounds.0, bounds.1, change), k)
            } else {
                lookup(before, k)
            }),
    ensures
        rewrites(now, list[i]) == rewrites(before, list[i]),
{
    let (s, e, area) = list[i];
    assert(lookup(now, e) == lookup(before, e)) by {
        if exists|j: int| 0 <= j < i && (#[trigger] list[j]).0 <= e < list[j].1 {
            let j = choose|j: int| 0 <= j < i && (#[trigger] list[j]).0 <= e < list[j].1;
            assert(list[j].1 <= list[i].0);
        }
    }
    if exists|j: int| 0 <= j < i && (#[trigger] list[j]).0 <= s - 1 < list[j].1 {
        let j = choose|j: int| 0 <= j < i && (#[trigger] list[j]).0 <= s - 1 < list[j].1;
        let left = list[j].2;
        assert(lookup(before, s - 1) == Some(left));
        lemma_changed_once(change, left.flags.bits);
        assert(lookup(now, s - 1) == Some(reflagged(left, changed(change, left.flags.bits))));
        assert(lookup(now, s - 1) != Some(area));
        assert(lookup(before, s - 1) != Some(area));
    }
}

/// A piece that is mapped with another access.
pub open spec fn lacks_access(access: u32) -> spec_fn((int, int, VmArea)) -> bool {
    |piece: (int, int, VmArea)| piece.2.flags.bits & VmFlags::VM_ACCESS_FLAGS != access
}

/// The pieces are page ranges in address order, their backings tied to addresses.
pub open spec fn pieces_ok(pieces: Seq<(int, int, VmArea)>, align: int) -> bool {
    &&& forall|i: int|
        0 <= i < pieces.len() ==> (#[trigger] pieces[i]).0 < pieces[i].1 && pieces[i].0 % align == 0
            && pieces[i].1 % align == 0 && has_origin(pieces[i].2)
    &&& forall|i: int, j: int|
        0 <= i < j < pieces.len() ==> (#[trigger] pieces[i]).1 <= (#[trigger] pieces[j]).0
}

proof fn lemma_protect_skip<P: PageManagementProvider<ALIGN>, const ALIGN: usize>(
    platform: &P,
    areas: Map<int, VmArea>,
    pieces: Seq<(int, int, VmArea)>,
    permissions: MemoryRegionPermissions,
    after: Map<int, VmArea>,
    outcome: Result<(), VmemProtectError>,
)
    requires
        if pieces.len() == 0 {
            after == areas && outcome == Ok::<(), VmemProtectError>(())
        } else {
            pieces[0].2.flags.bits & VmFlags::VM_ACCESS_FLAGS == access_of(permissions)
                && pieces_protected(platform, areas, pieces.drop_first(), permissions, after, outcome)
        },
    ensures
        pieces_protected(platform, areas, pieces, permissions, after, outcome),
{
    reveal(pieces_protected);
}

proof fn lemma_protect_step<P: PageManagementProvider<ALIGN>, const ALIGN: usize>(
    platform: &P,
    areas: Map<int, VmArea>,
    pieces: Seq<(int, int, VmArea)>,
    permissions: MemoryRegionPermissions,
    one: Result<(), VmemProtectError>,
    after: Map<int, VmArea>,
    outcome: Result<(), VmemProtectError>,
)
    requires
        pieces.len() > 0,
        pieces[0].2.flags.bits & VmFlags::VM_ACCESS_FLAGS != access_of(permissions),
        piece_answered(platform, pieces[0], permissions, one),
        match one {
            Ok(()) => pieces_protected(
                platform,
                piece_protected(areas, pieces[0], access_of(permissions)),
                pieces.drop_first(),
                permissions,
                after,
                outcome,
            ),
            Err(_) => after == areas && outcome == one,
        },
    ensures
        pieces_protected(platform, areas, pieces, permissions, after, outcome),
{
    reveal(pieces_protected);
}

/// A mapping carries a flag.
pub open spec fn marked_with(mask: u32) -> spec_fn((int, int, VmArea)) -> bool {
    |run: (int, int, VmArea)| carries(run.2.flags.bits, mask)
}

/// Mappings reduced to their range and flags.
pub open spec fn plain_runs(runs: Seq<(int, int, VmArea)>) -> Seq<(int, int, VmFlags)> {
    Seq::new(runs.len(), |i: int| (runs[i].0, runs[i].1, runs[i].2.flags))
}

/// A list of ranges with flags, as mathematical values.
pub open spec fn marked_entries(list: Seq<(Range<usize>, VmFlags)>) -> Seq<(int, int, VmFlags)> {
    Seq::new(list.len(), |i: int| (list[i].0.start as int, list[i].0.end as int, list[i].1))
}

/// The list names every mapping of a table that carries a flag, in address order.
pub open spec fn lists_marked(list: Seq<(Range<usize>, VmFlags)>, areas: Map<int, VmArea>, mask: u32) -> bool {
    exists|runs: Seq<(int, int, VmArea)>| #[trigger]
        runs_of(runs, areas, 0, usize::MAX as int) && marked_entries(list) == plain_runs(
            runs.filter(marked_with(mask)),
        )
}

} // verus!
