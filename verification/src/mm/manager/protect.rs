//! Changing permissions on behalf of a view.
use crate::ids::VmViewId;
use crate::mm::addr::PageRange;
use crate::mm::errors::VmemProtectError;
use crate::mm::flags::{MemoryRegionPermissions, VmFlags};
use crate::mm::manager::{GuestAccess, PageManager};
use crate::platform::page_mgmt::{PageManagementProvider, PermissionUpdateError};
use core::ops::Range;
use vstd::prelude::*;

verus! {

use crate::mm::area::VmArea;
use crate::mm::domain::lookup::lineage_fragments;
use crate::mm::domain::publish::present_confirmed;
use crate::mm::flags::{access_of, carries, carries8, permissions_of};
use crate::mm::manager::create::{no_access, read_execute, read_only, read_write};
use crate::mm::manager::views::{
    actor_prefix_of, held_spans, holders_of, materialize_asked, spans, whole_pages,
};
use crate::mm::manager::laws::protection::{is_access_change, lemma_access_change_is_lawful};
use crate::mm::manager::ManagerModel;
use crate::mm::vmem::initialization::span;
use crate::mm::vmem::protect::{changed_over, protect_walk, protected, walk_result, FlagChange};
use crate::mm::vmem::VmemModel;
use crate::range_map::{pieces, pieces_of};
use crate::range_table::modelled;

/// How one piece of a range is treated.
#[derive(Clone, Copy, Debug, PartialEq, Eq, Structural)]
pub enum PieceKind {
    /// Nobody else holds it: the ordinary process-wide permission change.
    Free,
    /// Another live family shares the mapping: changed in the caller's own space only.
    Held,
    /// Held by the caller only through fork lineage: changed in its own space and published as its
    /// own custody.
    Inherited,
}

/// Some span of a list takes an address in.
pub open spec fn in_some(list: Seq<(int, int)>, address: int) -> bool {
    exists|i: int| 0 <= i < list.len() && (#[trigger] list[i]).0 <= address < list[i].1
}

/// How the address of a range is treated.
pub open spec fn kind_at(inherited: Seq<(int, int)>, held: Seq<(int, int)>, address: int) -> PieceKind {
    if in_some(inherited, address) {
        PieceKind::Inherited
    } else if in_some(held, address) {
        PieceKind::Held
    } else {
        PieceKind::Free
    }
}

/// The nearest edge of a list of spans that lies between `cursor` and `bound`, or `bound`.
pub open spec fn nearest_edge(list: Seq<(int, int)>, cursor: int, bound: int) -> int
    decreases list.len(),
{
    if list.len() == 0 {
        bound
    } else {
        let rest = nearest_edge(list.drop_last(), cursor, bound);
        let (start, end) = list.last();
        let with_start = if cursor < start < rest {
            start
        } else {
            rest
        };
        if cursor < end < with_start {
            end
        } else {
            with_start
        }
    }
}

/// Where the piece that starts at `cursor` ends: at the nearest edge of either list.
pub open spec fn piece_end(inherited: Seq<(int, int)>, held: Seq<(int, int)>, cursor: int, end: int) -> int {
    nearest_edge(held, cursor, nearest_edge(inherited, cursor, end))
}

/// The nearest edge lies ahead, and not behind the bound.
pub proof fn lemma_nearest_edge(list: Seq<(int, int)>, cursor: int, bound: int)
    requires
        cursor < bound,
    ensures
        cursor < nearest_edge(list, cursor, bound) <= bound,
    decreases list.len(),
{
    if list.len() > 0 {
        lemma_nearest_edge(list.drop_last(), cursor, bound);
    }
}

/// No edge lies strictly between the cursor and the nearest edge.
pub proof fn lemma_no_edge_between(list: Seq<(int, int)>, cursor: int, bound: int, i: int)
    requires
        cursor < bound,
        0 <= i < list.len(),
    ensures
        !(cursor < list[i].0 < nearest_edge(list, cursor, bound)),
        !(cursor < list[i].1 < nearest_edge(list, cursor, bound)),
    decreases list.len(),
{
    if i < list.len() - 1 {
        lemma_no_edge_between(list.drop_last(), cursor, bound, i);
        assert(list.drop_last()[i] == list[i]);
    }
}

/// Every address of a piece is treated alike.
pub proof fn lemma_piece_is_uniform(
    inherited: Seq<(int, int)>,
    held: Seq<(int, int)>,
    cursor: int,
    end: int,
    k: int,
)
    requires
        cursor < end,
        cursor <= k < piece_end(inherited, held, cursor, end),
    ensures
        kind_at(inherited, held, k) == kind_at(inherited, held, cursor),
{
    let first = nearest_edge(inherited, cursor, end);
    lemma_nearest_edge(inherited, cursor, end);
    lemma_nearest_edge(held, cursor, first);
    assert forall|i: int| 0 <= i < inherited.len() implies ((#[trigger] inherited[i]).0 <= k
        < inherited[i].1) == (inherited[i].0 <= cursor < inherited[i].1) by {
        lemma_no_edge_between(inherited, cursor, end, i);
    }
    assert forall|i: int| 0 <= i < held.len() implies ((#[trigger] held[i]).0 <= k < held[i].1) == (
    held[i].0 <= cursor < held[i].1) by {
        lemma_no_edge_between(held, cursor, first, i);
    }
    if in_some(inherited, k) {
        let i = choose|i: int|
            0 <= i < inherited.len() && (#[trigger] inherited[i]).0 <= k < inherited[i].1;
        assert(inherited[i].0 <= cursor < inherited[i].1);
    }
    if in_some(inherited, cursor) {
        let i = choose|i: int|
            0 <= i < inherited.len() && (#[trigger] inherited[i]).0 <= cursor < inherited[i].1;
        assert(inherited[i].0 <= k < inherited[i].1);
    }
    if in_some(held, k) {
        let i = choose|i: int| 0 <= i < held.len() && (#[trigger] held[i]).0 <= k < held[i].1;
        assert(held[i].0 <= cursor < held[i].1);
    }
    if in_some(held, cursor) {
        let i = choose|i: int| 0 <= i < held.len() && (#[trigger] held[i]).0 <= cursor < held[i].1;
        assert(held[i].0 <= k < held[i].1);
    }
}

/// The bits that the host-side access check looks at.
pub open spec fn gate_bits(permissions: MemoryRegionPermissions) -> u8 {
    permissions.bits & (MemoryRegionPermissions::READ | MemoryRegionPermissions::WRITE)
}

/// New permissions take away something that the host-side access check looks at.
pub open spec fn narrows(flags: VmFlags, permissions: MemoryRegionPermissions) -> bool {
    !carries8(permissions.bits, gate_bits(permissions_of(flags)))
}

/// The manager once a mapping got new permissions in a view's own space: the shared flags follow
/// only where nobody else relies on them or nothing is taken away, and inherited pages become the
/// view's own.
pub open spec fn area_recorded(
    m: ManagerModel,
    view: VmViewId,
    kind: PieceKind,
    area: (int, int, VmArea),
    permissions: MemoryRegionPermissions,
) -> ManagerModel {
    ManagerModel {
        vmem: if kind == PieceKind::Free || !narrows(area.2.flags, permissions) {
            VmemModel {
                areas: changed_over(
                    m.vmem.areas,
                    area.0,
                    area.1,
                    FlagChange::Record { access: access_of(permissions) },
                ),
                ..m.vmem
            }
        } else {
            m.vmem
        },
        domain: if kind == PieceKind::Inherited {
            present_confirmed(m.domain, view, area.0, area.1).0
        } else {
            m.domain
        },
    }
}

/// What a permission change of one mapping of a piece did.
pub open spec fn area_protected<P: PageManagementProvider<ALIGN>, const ALIGN: usize>(
    before: ManagerModel,
    view: VmViewId,
    kind: PieceKind,
    area: (int, int, VmArea),
    permissions: MemoryRegionPermissions,
    after: ManagerModel,
    result: Result<(), VmemProtectError>,
) -> bool {
    let checked = walk_result(
        protect_walk(
            pieces(before.vmem.areas, area.0, area.1),
            area.0,
            (area.0, area.1),
            access_of(permissions),
        ).1,
    );
    if !whole_pages(area.0, area.1, ALIGN as int) {
        after == before && result == Err::<(), VmemProtectError>(
            VmemProtectError::InvalidRange(span(area.0, area.1)),
        )
    } else if checked is Err {
        after == before && result == checked
    } else if carries(area.2.flags.bits, VmFlags::VM_DEFERRED) && permissions.bits == 0 {
        after == before && result == Ok::<(), VmemProtectError>(())
    } else {
        exists|answer: Result<(), PermissionUpdateError>| #[trigger]
            materialize_asked::<P, ALIGN>(
                holders_of(lineage_fragments(before.domain, view, area.0, area.1)),
                view,
                (area.0, area.1),
                permissions,
                answer,
            ) && match answer {
                Err(error) => after == before && result == Err::<(), VmemProtectError>(
                    VmemProtectError::ProtectError(error),
                ),
                Ok(()) => after == area_recorded(before, view, kind, area, permissions) && result
                    == Ok::<(), VmemProtectError>(()),
            }
    }
}

/// What a permission change of the mappings of a piece did, from `covered` on: in address order,
/// until one failed or a gap was reached.
#[verifier::opaque]
pub open spec fn areas_protected<P: PageManagementProvider<ALIGN>, const ALIGN: usize>(
    before: ManagerModel,
    view: VmViewId,
    kind: PieceKind,
    areas: Seq<(int, int, VmArea)>,
    covered: int,
    end: int,
    permissions: MemoryRegionPermissions,
    after: ManagerModel,
    result: Result<(), VmemProtectError>,
) -> bool
    decreases areas.len(),
{
    if areas.len() == 0 {
        after == before && result == (if covered != end {
            Err(VmemProtectError::InvalidRange(span(covered, end)))
        } else {
            Ok(())
        })
    } else if areas[0].0 != covered {
        after == before && result == Err::<(), VmemProtectError>(
            VmemProtectError::InvalidRange(span(covered, areas[0].0)),
        )
    } else {
        exists|mid: ManagerModel, outcome: Result<(), VmemProtectError>| #[trigger]
            area_protected::<P, ALIGN>(before, view, kind, areas[0], permissions, mid, outcome)
                && match outcome {
                Err(error) => after == mid && result == Err::<(), VmemProtectError>(error),
                Ok(()) => areas_protected::<P, ALIGN>(
                    mid,
                    view,
                    kind,
                    areas.drop_first(),
                    areas[0].1,
                    end,
                    permissions,
                    after,
                    result,
                ),
            }
    }
}

/// What a permission change of a range did, from `cursor` on, piece by piece.
#[verifier::opaque]
pub open spec fn pieces_changed<P: PageManagementProvider<ALIGN>, const ALIGN: usize>(
    before: ManagerModel,
    view: VmViewId,
    inherited: Seq<(int, int)>,
    held: Seq<(int, int)>,
    cursor: int,
    end: int,
    permissions: MemoryRegionPermissions,
    after: ManagerModel,
    result: Result<(), VmemProtectError>,
) -> bool
    decreases end - cursor,
{
    if cursor >= end {
        after == before && result == Ok::<(), VmemProtectError>(())
    } else {
        let next = piece_end(inherited, held, cursor, end);
        exists|mid: ManagerModel, outcome: Result<(), VmemProtectError>| #[trigger]
            areas_protected::<P, ALIGN>(
                before,
                view,
                kind_at(inherited, held, cursor),
                pieces(before.vmem.areas, cursor, next),
                cursor,
                next,
                permissions,
                mid,
                outcome,
            ) && match outcome {
                Err(error) => after == mid && result == Err::<(), VmemProtectError>(error),
                Ok(()) => cursor < next <= end && pieces_changed::<P, ALIGN>(
                    mid,
                    view,
                    inherited,
                    held,
                    next,
                    end,
                    permissions,
                    after,
                    result,
                ),
            }
    }
}

/// What changing a range's permissions on behalf of a view did. Without an address space of its
/// own, the change is process-wide.
pub open spec fn protected_for_view<P: PageManagementProvider<ALIGN>, const ALIGN: usize>(
    platform: &P,
    before: ManagerModel,
    view: VmViewId,
    range: (int, int),
    permissions: MemoryRegionPermissions,
    inherited: Seq<(int, int)>,
    independent: bool,
    after: ManagerModel,
    result: Result<(), VmemProtectError>,
) -> bool {
    if independent {
        pieces_changed::<P, ALIGN>(
            before,
            view,
            inherited,
            held_spans(before.domain, view, range.0, range.1, independent),
            range.0,
            range.1,
            permissions,
            after,
            result,
        )
    } else if whole_pages(range.0, range.1, ALIGN as int) {
        after.domain == before.domain && protected(
            platform,
            before.vmem,
            range,
            permissions,
            after.vmem,
            result,
        )
    } else {
        after == before && result == Err::<(), VmemProtectError>(
            VmemProtectError::InvalidRange(span(range.0, range.1)),
        )
    }
}

/// What a guest's permission change did: it reaches as far as the guest's view may act, and
/// reports where it stopped.
pub open spec fn permissions_changed<P: PageManagementProvider<ALIGN>, const ALIGN: usize>(
    platform: &P,
    before: ManagerModel,
    access: Option<GuestAccess>,
    range: (int, int),
    permissions: MemoryRegionPermissions,
    after: ManagerModel,
    result: Result<(), VmemProtectError>,
) -> bool {
    if !whole_pages(range.0, range.1, ALIGN as int) {
        after == before && result == Err::<(), VmemProtectError>(
            VmemProtectError::InvalidRange(span(range.0, range.1)),
        )
    } else {
        match access {
            None => after.domain == before.domain && protected(
                platform,
                before.vmem,
                range,
                permissions,
                after.vmem,
                result,
            ),
            Some(guest) => exists|independent: bool| #[trigger]
                call_ensures(P::has_independent_view_space, (guest.view,), independent)
                    && view_permissions_changed(
                    platform,
                    before,
                    guest.view,
                    range,
                    permissions,
                    independent,
                    after,
                    result,
                ),
        }
    }
}

/// [`permissions_changed`], for a view that is known to have or not to have a space of its own.
pub open spec fn view_permissions_changed<P: PageManagementProvider<ALIGN>, const ALIGN: usize>(
    platform: &P,
    before: ManagerModel,
    view: VmViewId,
    range: (int, int),
    permissions: MemoryRegionPermissions,
    independent: bool,
    after: ManagerModel,
    result: Result<(), VmemProtectError>,
) -> bool {
    let (reach, inherited) = actor_prefix_of(before.domain, view, range.0, range.1, independent);
    if reach == range.0 {
        after == before && result == Err::<(), VmemProtectError>(
            VmemProtectError::InvalidRange(span(range.0, range.1)),
        )
    } else {
        exists|outcome: Result<(), VmemProtectError>| #[trigger]
            protected_for_view(
                platform,
                before,
                view,
                (range.0, reach),
                permissions,
                inherited,
                independent,
                after,
                outcome,
            ) && result == (if outcome is Ok && reach != range.1 {
                Err(VmemProtectError::InvalidRange(span(reach, range.1)))
            } else {
                outcome
            })
    }
}

proof fn lemma_area_step<P: PageManagementProvider<ALIGN>, const ALIGN: usize>(
    before: ManagerModel,
    view: VmViewId,
    kind: PieceKind,
    areas: Seq<(int, int, VmArea)>,
    end: int,
    permissions: MemoryRegionPermissions,
    mid: ManagerModel,
    outcome: Result<(), VmemProtectError>,
    after: ManagerModel,
    result: Result<(), VmemProtectError>,
)
    requires
        areas.len() > 0,
        area_protected::<P, ALIGN>(before, view, kind, areas[0], permissions, mid, outcome),
        match outcome {
            Err(error) => after == mid && result == Err::<(), VmemProtectError>(error),
            Ok(()) => areas_protected::<P, ALIGN>(
                mid,
                view,
                kind,
                areas.drop_first(),
                areas[0].1,
                end,
                permissions,
                after,
                result,
            ),
        },
    ensures
        areas_protected::<P, ALIGN>(
            before,
            view,
            kind,
            areas,
            areas[0].0,
            end,
            permissions,
            after,
            result,
        ),
{
    reveal(areas_protected);
}

proof fn lemma_piece_step<P: PageManagementProvider<ALIGN>, const ALIGN: usize>(
    before: ManagerModel,
    view: VmViewId,
    inherited: Seq<(int, int)>,
    held: Seq<(int, int)>,
    cursor: int,
    end: int,
    permissions: MemoryRegionPermissions,
    mid: ManagerModel,
    outcome: Result<(), VmemProtectError>,
    after: ManagerModel,
    result: Result<(), VmemProtectError>,
)
    requires
        cursor < end,
        areas_protected::<P, ALIGN>(
            before,
            view,
            kind_at(inherited, held, cursor),
            pieces(before.vmem.areas, cursor, piece_end(inherited, held, cursor, end)),
            cursor,
            piece_end(inherited, held, cursor, end),
            permissions,
            mid,
            outcome,
        ),
        match outcome {
            Err(error) => after == mid && result == Err::<(), VmemProtectError>(error),
            Ok(()) => pieces_changed::<P, ALIGN>(
                mid,
                view,
                inherited,
                held,
                piece_end(inherited, held, cursor, end),
                end,
                permissions,
                after,
                result,
            ),
        },
    ensures
        pieces_changed::<P, ALIGN>(
            before,
            view,
            inherited,
            held,
            cursor,
            end,
            permissions,
            after,
            result,
        ),
{
    reveal(pieces_changed);
    lemma_nearest_edge(inherited, cursor, end);
    lemma_nearest_edge(held, cursor, nearest_edge(inherited, cursor, end));
}

impl<P: PageManagementProvider<ALIGN> + 'static, const ALIGN: usize> PageManager<P, ALIGN> {
    /// The nearest edge of a list of spans between `cursor` and `bound`.
    fn next_edge(list: &Vec<Range<usize>>, cursor: usize, bound: usize) -> (edge: usize)
        requires
            cursor < bound,
        ensures
            edge == nearest_edge(spans(list@), cursor as int, bound as int),
            cursor < edge <= bound,
    {
        let ghost all = spans(list@);
        let mut edge: usize = bound;
        let mut i: usize = 0;
        while i < list.len()
            invariant
                i <= list@.len(),
                all == spans(list@),
                cursor < edge <= bound,
                edge == nearest_edge(all.take(i as int), cursor as int, bound as int),
            decreases list@.len() - i,
        {
            let (start, end) = (list[i].start, list[i].end);
            proof {
                assert(all.take(i + 1).drop_last() =~= all.take(i as int));
                assert(all.take(i + 1).last() == (start as int, end as int));
            }
            if cursor < start && start < edge {
                edge = start;
            }
            if cursor < end && end < edge {
                edge = end;
            }
            i += 1;
        }
        proof {
            assert(all.take(all.len() as int) =~= all);
        }
        edge
    }

    fn is_in_some(list: &Vec<Range<usize>>, address: usize) -> (yes: bool)
        ensures
            yes == in_some(spans(list@), address as int),
    {
        let ghost all = spans(list@);
        let mut i: usize = 0;
        while i < list.len()
            invariant
                i <= list@.len(),
                all == spans(list@),
                forall|j: int| 0 <= j < i ==> !((#[trigger] all[j]).0 <= address < all[j].1),
            decreases list@.len() - i,
        {
            proof {
                assert(all[i as int] == (list@[i as int].start as int, list@[i as int].end as int));
            }
            if list[i].start <= address && address < list[i].end {
                return true;
            }
            i += 1;
        }
        false
    }

    /// Changes the permissions of one mapping of a piece in a view's own space.
    fn protect_area(
        &mut self,
        view: VmViewId,
        kind: PieceKind,
        start: usize,
        end: usize,
        area: VmArea,
        permissions: MemoryRegionPermissions,
    ) -> (result: Result<(), VmemProtectError>)
        requires
            old(self).wf(),
            start < end,
        ensures
            final(self).follows(old(self)),
            area_protected::<P, ALIGN>(
                old(self)@,
                view,
                kind,
                (start as int, end as int, area),
                permissions,
                final(self)@,
                result,
            ),
    {
        let range = match PageRange::<ALIGN>::new(start, end) {
            Some(range) => range,
            None => {
                return Err(VmemProtectError::InvalidRange(start..end));
            },
        };
        let checked = self.vmem.check_permissions(range, permissions);
        if let Err(error) = checked {
            return Err(error);
        }
        let flags = area.flags();
        if flags.contains(VmFlags::VM_DEFERRED) && permissions.is_empty() {
            return Ok(());
        }
        let holders = self.lineage_holders(view, start, end);
        let answer = Self::materialize(view, start, end, permissions, holders);
        proof {
            assert(materialize_asked::<P, ALIGN>(
                holders_of(
                    lineage_fragments(old(self)@.domain, view, start as int, end as int),
                ),
                view,
                (start as int, end as int),
                permissions,
                answer,
            ));
        }
        if let Err(error) = answer {
            return Err(VmemProtectError::ProtectError(error));
        }
        let current = MemoryRegionPermissions::from_flags(flags);
        let gate: u8 = current.bits & (MemoryRegionPermissions::READ
            | MemoryRegionPermissions::WRITE);
        let narrowing = !permissions.contains(gate);
        if kind == PieceKind::Free || !narrowing {
            self.vmem.record_permissions(range, permissions);
            self.sync();
        }
        if kind == PieceKind::Inherited {
            let _ = self.domain.confirm_present_or_reconcile(view, start..end);
        }
        Ok(())
    }

    /// Changes the permissions of every mapping of a piece in a view's own space.
    fn protect_piece(
        &mut self,
        view: VmViewId,
        kind: PieceKind,
        start: usize,
        end: usize,
        permissions: MemoryRegionPermissions,
    ) -> (result: Result<(), VmemProtectError>)
        requires
            old(self).wf(),
            start < end,
        ensures
            final(self).follows(old(self)),
            areas_protected::<P, ALIGN>(
                old(self)@,
                view,
                kind,
                pieces(old(self)@.vmem.areas, start as int, end as int),
                start as int,
                end as int,
                permissions,
                final(self)@,
                result,
            ),
    {
        let found = self.vmem.pieces(start, end);
        let ghost list = pieces(old(self)@.vmem.areas, start as int, end as int);
        let ghost first = self@;
        let mut covered: usize = start;
        let mut i: usize = 0;
        proof {
            assert(list.skip(0) =~= list);
        }
        while i < found.len()
            invariant
                self.follows(old(self)),
                i <= found@.len(),
                list == modelled(found@),
                list == pieces(old(self)@.vmem.areas, start as int, end as int),
                pieces_of(list, old(self)@.vmem.areas, start as int, end as int),
                first == old(self)@,
                forall|after: ManagerModel, result: Result<(), VmemProtectError>| #[trigger]
                    areas_protected::<P, ALIGN>(
                        self@,
                        view,
                        kind,
                        list.skip(i as int),
                        covered as int,
                        end as int,
                        permissions,
                        after,
                        result,
                    ) ==> areas_protected::<P, ALIGN>(
                        first,
                        view,
                        kind,
                        list,
                        start as int,
                        end as int,
                        permissions,
                        after,
                        result,
                    ),
            decreases found@.len() - i,
        {
            let (from, to, area) = found[i];
            let ghost here = self@;
            let ghost rest = list.skip(i as int);
            proof {
                assert(rest[0] == list[i as int]);
                assert(list[i as int] == (from as int, to as int, area));
                assert(rest.drop_first() =~= list.skip(i + 1));
            }
            if from != covered {
                proof {
                    reveal(areas_protected);
                    assert(areas_protected::<P, ALIGN>(
                        here,
                        view,
                        kind,
                        rest,
                        covered as int,
                        end as int,
                        permissions,
                        here,
                        Err::<(), VmemProtectError>(
                            VmemProtectError::InvalidRange(span(covered as int, from as int)),
                        ),
                    ));
                }
                return Err(VmemProtectError::InvalidRange(covered..from));
            }
            covered = to;
            let outcome = self.protect_area(view, kind, from, to, area, permissions);
            let ghost given = outcome;
            let ghost mid = self@;
            if let Err(error) = outcome {
                proof {
                    lemma_area_step::<P, ALIGN>(
                        here,
                        view,
                        kind,
                        rest,
                        end as int,
                        permissions,
                        mid,
                        given,
                        mid,
                        Err(error),
                    );
                }
                return Err(error);
            }
            proof {
                assert forall|after: ManagerModel, result: Result<(), VmemProtectError>| #[trigger]
                    areas_protected::<P, ALIGN>(
                        mid,
                        view,
                        kind,
                        list.skip(i + 1),
                        covered as int,
                        end as int,
                        permissions,
                        after,
                        result,
                    ) implies areas_protected::<P, ALIGN>(
                    first,
                    view,
                    kind,
                    list,
                    start as int,
                    end as int,
                    permissions,
                    after,
                    result,
                ) by {
                    lemma_area_step::<P, ALIGN>(
                        here,
                        view,
                        kind,
                        rest,
                        end as int,
                        permissions,
                        mid,
                        given,
                        after,
                        result,
                    );
                }
            }
            i += 1;
        }
        let result: Result<(), VmemProtectError> = if covered != end {
            Err(VmemProtectError::InvalidRange(covered..end))
        } else {
            Ok(())
        };
        proof {
            reveal(areas_protected);
            assert(areas_protected::<P, ALIGN>(
                self@,
                view,
                kind,
                list.skip(i as int),
                covered as int,
                end as int,
                permissions,
                self@,
                result,
            ));
        }
        result
    }

    /// Changes a range's permissions on behalf of a view.
    fn protect_range_for_view(
        &mut self,
        view: VmViewId,
        start: usize,
        end: usize,
        permissions: MemoryRegionPermissions,
        inherited: &Vec<Range<usize>>,
        independent: bool,
    ) -> (result: Result<(), VmemProtectError>)
        requires
            old(self).wf(),
            start < end,
        ensures
            final(self).follows(old(self)),
            protected_for_view(
                final(self).platform(),
                old(self)@,
                view,
                (start as int, end as int),
                permissions,
                spans(inherited@),
                independent,
                final(self)@,
                result,
            ),
    {
        if !independent {
            let range = match PageRange::<ALIGN>::new(start, end) {
                Some(range) => range,
                None => {
                    return Err(VmemProtectError::InvalidRange(start..end));
                },
            };
            let result = self.vmem.protect_mapping(range, permissions);
            self.sync();
            return result;
        }
        let (held, _) = self.foreign_held_split(view, start, end, independent);
        let ghost held_list = spans(held@);
        let ghost inherited_list = spans(inherited@);
        let ghost first = self@;
        let mut cursor: usize = start;
        while cursor < end
            invariant
                self.follows(old(self)),
                independent,
                first == old(self)@,
                cursor <= end,
                held_list == spans(held@),
                held_list == held_spans(
                    first.domain,
                    view,
                    start as int,
                    end as int,
                    independent,
                ),
                inherited_list == spans(inherited@),
                forall|after: ManagerModel, result: Result<(), VmemProtectError>| #[trigger]
                    pieces_changed::<P, ALIGN>(
                        self@,
                        view,
                        inherited_list,
                        held_list,
                        cursor as int,
                        end as int,
                        permissions,
                        after,
                        result,
                    ) ==> pieces_changed::<P, ALIGN>(
                        first,
                        view,
                        inherited_list,
                        held_list,
                        start as int,
                        end as int,
                        permissions,
                        after,
                        result,
                    ),
            decreases end - cursor,
        {
            let ghost here = self@;
            let ghost at = cursor;
            let kind = if Self::is_in_some(inherited, cursor) {
                PieceKind::Inherited
            } else if Self::is_in_some(&held, cursor) {
                PieceKind::Held
            } else {
                PieceKind::Free
            };
            let bound = Self::next_edge(inherited, cursor, end);
            let next = Self::next_edge(&held, cursor, bound);
            let outcome = self.protect_piece(view, kind, cursor, next, permissions);
            let ghost given = outcome;
            let ghost mid = self@;
            if let Err(error) = outcome {
                proof {
                    lemma_piece_step::<P, ALIGN>(
                        here,
                        view,
                        inherited_list,
                        held_list,
                        at as int,
                        end as int,
                        permissions,
                        mid,
                        given,
                        mid,
                        Err(error),
                    );
                }
                return Err(error);
            }
            cursor = next;
            proof {
                assert forall|after: ManagerModel, result: Result<(), VmemProtectError>| #[trigger]
                    pieces_changed::<P, ALIGN>(
                        mid,
                        view,
                        inherited_list,
                        held_list,
                        cursor as int,
                        end as int,
                        permissions,
                        after,
                        result,
                    ) implies pieces_changed::<P, ALIGN>(
                    first,
                    view,
                    inherited_list,
                    held_list,
                    start as int,
                    end as int,
                    permissions,
                    after,
                    result,
                ) by {
                    lemma_piece_step::<P, ALIGN>(
                        here,
                        view,
                        inherited_list,
                        held_list,
                        at as int,
                        end as int,
                        permissions,
                        mid,
                        given,
                        after,
                        result,
                    );
                }
            }
        }
        proof {
            reveal(pieces_changed);
            assert(pieces_changed::<P, ALIGN>(
                self@,
                view,
                inherited_list,
                held_list,
                cursor as int,
                end as int,
                permissions,
                self@,
                Ok::<(), VmemProtectError>(()),
            ));
        }
        Ok(())
    }

    /// Changes the permissions of the pages from `address` on, as far as the guest may.
    fn change_page_permissions(
        &mut self,
        access: Option<GuestAccess>,
        address: usize,
        len: usize,
        permissions: MemoryRegionPermissions,
    ) -> (result: Result<(), VmemProtectError>)
        requires
            old(self).wf(),
            address + len <= usize::MAX,
        ensures
            final(self).follows(old(self)),
            permissions_changed(
                final(self).platform(),
                old(self)@,
                access,
                (address as int, address + len),
                permissions,
                final(self)@,
                result,
            ),
    {
        let end: usize = address + len;
        let range = match PageRange::<ALIGN>::new(address, end) {
            Some(range) => range,
            None => {
                return Err(VmemProtectError::InvalidRange(address..end));
            },
        };
        let guest = match access {
            Some(guest) => guest,
            None => {
                let result = self.vmem.protect_mapping(range, permissions);
                self.sync();
                return result;
            },
        };
        let independent = P::has_independent_view_space(guest.view);
        let ghost first = self@;
        let (reach, inherited) = self.actor_prefix(guest.view, address, end, independent);
        if reach == address {
            proof {
                assert(view_permissions_changed(
                    self.platform(),
                    first,
                    guest.view,
                    (address as int, address + len),
                    permissions,
                    independent,
                    self@,
                    Err::<(), VmemProtectError>(
                        VmemProtectError::InvalidRange(span(address as int, end as int)),
                    ),
                ));
            }
            return Err(VmemProtectError::InvalidRange(address..end));
        }
        let outcome = self.protect_range_for_view(
            guest.view,
            address,
            reach,
            permissions,
            &inherited,
            independent,
        );
        let ghost given = outcome;
        let result: Result<(), VmemProtectError> = if outcome.is_ok() && reach != end {
            Err(VmemProtectError::InvalidRange(reach..end))
        } else {
            outcome
        };
        proof {
            let bounds = (address as int, address + len);
            let prefix = actor_prefix_of(
                first.domain,
                guest.view,
                bounds.0,
                bounds.1,
                independent,
            );
            assert(prefix == (reach as int, spans(inherited@)));
            assert(protected_for_view(
                self.platform(),
                first,
                guest.view,
                (bounds.0, prefix.0),
                permissions,
                prefix.1,
                independent,
                self@,
                given,
            ));
            assert(view_permissions_changed(
                self.platform(),
                first,
                guest.view,
                (address as int, address + len),
                permissions,
                independent,
                self@,
                result,
            ));
        }
        result
    }

    /// Makes pages readable and writable.
    pub fn make_pages_writable(&mut self, access: Option<GuestAccess>, address: usize, len: usize) -> (result: Result<
        (),
        VmemProtectError,
    >)
        requires
            old(self).wf(),
            address + len <= usize::MAX,
        ensures
            final(self).follows(old(self)),
            permissions_changed(
                final(self).platform(),
                old(self)@,
                access,
                (address as int, address + len),
                read_write(),
                final(self)@,
                result,
            ),
            is_access_change(
                old(self)@,
                access,
                (address as int, address + len),
                ALIGN as int,
                3,
                final(self)@,
                result,
            ),
    {
        let permissions = MemoryRegionPermissions { bits: 3 };
        let result = self.change_page_permissions(access, address, len, permissions);
        proof {
            self.lemma_wf();
            lemma_access_change_is_lawful(
                self.platform(),
                old(self)@,
                access,
                (address as int, address + len),
                permissions,
                self@,
                result,
            );
        }
        result
    }

    /// Makes pages readable and executable.
    pub fn make_pages_executable(&mut self, access: Option<GuestAccess>, address: usize, len: usize) -> (result:
        Result<(), VmemProtectError>)
        requires
            old(self).wf(),
            address + len <= usize::MAX,
        ensures
            final(self).follows(old(self)),
            permissions_changed(
                final(self).platform(),
                old(self)@,
                access,
                (address as int, address + len),
                read_execute(),
                final(self)@,
                result,
            ),
            is_access_change(
                old(self)@,
                access,
                (address as int, address + len),
                ALIGN as int,
                5,
                final(self)@,
                result,
            ),
    {
        let permissions = MemoryRegionPermissions { bits: 5 };
        let result = self.change_page_permissions(access, address, len, permissions);
        proof {
            self.lemma_wf();
            lemma_access_change_is_lawful(
                self.platform(),
                old(self)@,
                access,
                (address as int, address + len),
                permissions,
                self@,
                result,
            );
        }
        result
    }

    /// Makes pages readable only.
    pub fn make_pages_readable(&mut self, access: Option<GuestAccess>, address: usize, len: usize) -> (result: Result<
        (),
        VmemProtectError,
    >)
        requires
            old(self).wf(),
            address + len <= usize::MAX,
        ensures
            final(self).follows(old(self)),
            permissions_changed(
                final(self).platform(),
                old(self)@,
                access,
                (address as int, address + len),
                read_only(),
                final(self)@,
                result,
            ),
            is_access_change(
                old(self)@,
                access,
                (address as int, address + len),
                ALIGN as int,
                1,
                final(self)@,
                result,
            ),
    {
        let permissions = MemoryRegionPermissions { bits: 1 };
        let result = self.change_page_permissions(access, address, len, permissions);
        proof {
            self.lemma_wf();
            lemma_access_change_is_lawful(
                self.platform(),
                old(self)@,
                access,
                (address as int, address + len),
                permissions,
                self@,
                result,
            );
        }
        result
    }

    /// Makes pages inaccessible.
    pub fn make_pages_inaccessible(&mut self, access: Option<GuestAccess>, address: usize, len: usize) -> (result:
        Result<(), VmemProtectError>)
        requires
            old(self).wf(),
            address + len <= usize::MAX,
        ensures
            final(self).follows(old(self)),
            permissions_changed(
                final(self).platform(),
                old(self)@,
                access,
                (address as int, address + len),
                no_access(),
                final(self)@,
                result,
            ),
            is_access_change(
                old(self)@,
                access,
                (address as int, address + len),
                ALIGN as int,
                0,
                final(self)@,
                result,
            ),
    {
        let permissions = MemoryRegionPermissions { bits: 0 };
        let result = self.change_page_permissions(access, address, len, permissions);
        proof {
            self.lemma_wf();
            lemma_access_change_is_lawful(
                self.platform(),
                old(self)@,
                access,
                (address as int, address + len),
                permissions,
                self@,
                result,
            );
        }
        result
    }

    /// Makes pages readable, writable and executable. To be used with care.
    pub fn make_pages_rwx(&mut self, access: Option<GuestAccess>, address: usize, len: usize) -> (result: Result<
        (),
        VmemProtectError,
    >)
        requires
            old(self).wf(),
            address + len <= usize::MAX,
        ensures
            final(self).follows(old(self)),
            permissions_changed(
                final(self).platform(),
                old(self)@,
                access,
                (address as int, address + len),
                (MemoryRegionPermissions { bits: 7 }),
                final(self)@,
                result,
            ),
            is_access_change(
                old(self)@,
                access,
                (address as int, address + len),
                ALIGN as int,
                7,
                final(self)@,
                result,
            ),
    {
        let permissions = MemoryRegionPermissions { bits: 7 };
        let result = self.change_page_permissions(access, address, len, permissions);
        proof {
            self.lemma_wf();
            lemma_access_change_is_lawful(
                self.platform(),
                old(self)@,
                access,
                (address as int, address + len),
                permissions,
                self@,
                result,
            );
        }
        result
    }
}

} // verus!
