//! What a permission change does on behalf of a guest, address by address.
use crate::ids::VmViewId;
use crate::mm::area::VmArea;
use crate::mm::custody::CustodyModel;
use crate::mm::errors::VmemProtectError;
use crate::mm::flags::MemoryRegionPermissions;
use crate::mm::manager::protect::PieceKind;
use crate::mm::manager::GuestAccess;
use crate::platform::page_mgmt::PageManagementProvider;
use vstd::prelude::*;

verus! {

use crate::mm::domain::foreign::foreign_at;
use crate::mm::domain::lookup::{custody_found, found_at, lineage_fragments, lineage_map, Found};
use crate::mm::domain::registry::family_of;
use crate::mm::domain::DomainModel;
use crate::mm::flags::{carries8, lemma_single_flag, permissions_of};
use crate::mm::manager::laws::{lemma_foreign_spans, within};
use crate::mm::manager::protect::{
    area_protected, area_recorded, areas_protected, gate_bits, in_some, kind_at, lemma_nearest_edge,
    lemma_piece_is_uniform, narrows, nearest_edge, permissions_changed, piece_end, pieces_changed,
    protected_for_view, view_permissions_changed,
};
use crate::mm::manager::views::{
    actor_prefix_of, held_spans, is_inherited_from, may_act_on, prefix_from, whole_pages,
};
use crate::mm::manager::ManagerModel;
use crate::mm::vmem::laws::flagging::{
    allows, is_allowed_at, is_offered_at, is_recorded, is_reprotected, is_verdict, lemma_protection_is_lawful,
    lemma_record, lemma_verdict_is_lawful, offers,
};
use crate::range_map::{covered, lemma_pieces, lookup, pieces, pieces_of, uniform};

/// A mapping has an access after a change, and is the same in everything else, its being a reservation
/// apart.
pub open spec fn is_rewritten(before: VmArea, after: VmArea, wanted: u8) -> bool {
    &&& after == (VmArea { flags: after.flags, ..before })
    &&& offers(after, wanted)
    &&& after.flags.bits & !0x207u32 == before.flags.bits & !0x207u32
}

/// A change of access takes away reading or writing.
pub open spec fn takes_away(area: VmArea, wanted: u8) -> bool {
    ||| area.flags.bits & 0x1 != 0 && wanted & 0x1 == 0
    ||| area.flags.bits & 0x2 != 0 && wanted & 0x2 == 0
}

/// What a change of access leaves of one address: it maps and unmaps nothing, and changes only
/// addresses of its range that allow the access, to just that access.
pub open spec fn is_changed_at(
    before: Map<int, VmArea>,
    after: Map<int, VmArea>,
    range: (int, int),
    wanted: u8,
    k: int,
) -> bool {
    match lookup(before, k) {
        None => lookup(after, k) is None,
        Some(area) => lookup(after, k) matches Some(now) && (now == area || range.0 <= k < range.1
            && allows(area, wanted) && is_rewritten(area, now, wanted)),
    }
}

/// An address has the access that was asked for, or had more reading or writing than that and is kept
/// as it was for others.
pub open spec fn is_settled_at(
    before: Map<int, VmArea>,
    after: Map<int, VmArea>,
    wanted: u8,
    k: int,
) -> bool {
    is_offered_at(after, k, wanted) || lookup(after, k) == lookup(before, k) && (lookup(before, k) matches Some(
        area,
    ) && (takes_away(area, wanted) || wanted & 0xf == 0))
}

/// What a permission change must do. It changes only what [`is_changed_at`] allows. It succeeds only for
/// a range that is not empty and is at page edges, and only if every address of it is mapped and allows
/// the access; without a guest every address then has it.
pub open spec fn is_access_change(
    before: ManagerModel,
    access: Option<GuestAccess>,
    range: (int, int),
    align: int,
    wanted: u8,
    after: ManagerModel,
    result: Result<(), VmemProtectError>,
) -> bool {
    &&& forall|k: int| #[trigger]
        is_changed_at(before.vmem.areas, after.vmem.areas, range, wanted, k)
    &&& result is Ok ==> {
        &&& range.0 < range.1
        &&& range.0 % align == 0
        &&& range.1 % align == 0
        &&& forall|k: int|
            range.0 <= k < range.1 ==> #[trigger] is_allowed_at(before.vmem.areas, k, wanted)
        &&& forall|k: int|
            range.0 <= k < range.1 ==> #[trigger] is_settled_at(
                before.vmem.areas,
                after.vmem.areas,
                wanted,
                k,
            )
        &&& access is None ==> forall|k: int|
            range.0 <= k < range.1 ==> #[trigger] is_offered_at(after.vmem.areas, k, wanted)
    }
    &&& access is None ==> after.domain == before.domain
}

/// The parts of a range in order, each mapped as it says, and nothing that is mapped left out.
spec fn tiles(list: Seq<(int, int, VmArea)>, areas: Map<int, VmArea>, start: int, end: int) -> bool {
    &&& forall|i: int|
        0 <= i < list.len() ==> start <= (#[trigger] list[i]).0 < list[i].1 <= end && uniform(
            areas,
            list[i].0,
            list[i].1,
            list[i].2,
        )
    &&& forall|i: int, j: int|
        0 <= i < j < list.len() ==> (#[trigger] list[i]).1 <= (#[trigger] list[j]).0
}

/// Narrowing, as bits.
proof fn lemma_narrows(area: VmArea, permissions: MemoryRegionPermissions)
    ensures
        narrows(area.flags, permissions) <==> takes_away(area, permissions.bits),
{
    let bits: u32 = area.flags.bits;
    let wanted: u8 = permissions.bits;
    let had: u8 = (bits & 0xf) as u8;
    let gate: u8 = had & (0x1u8 | 0x2u8);
    assert((wanted & gate == gate) == !((bits & 1 != 0 && wanted & 1 == 0) || (bits & 2 != 0 && wanted & 2
        == 0))) by (bit_vector)
        requires
            had == (bits & 0xf) as u8,
            gate == had & (0x1u8 | 0x2u8),
    ;
}

/// What changing one mapping does to an address.
proof fn lemma_area<P: PageManagementProvider<ALIGN>, const ALIGN: usize>(
    before: ManagerModel,
    view: VmViewId,
    kind: PieceKind,
    area: (int, int, VmArea),
    permissions: MemoryRegionPermissions,
    after: ManagerModel,
    result: Result<(), VmemProtectError>,
    k: int,
)
    requires
        area_protected::<P, ALIGN>(before, view, kind, area, permissions, after, result),
        0 <= area.0 < area.1 <= usize::MAX,
        uniform(before.vmem.areas, area.0, area.1, area.2),
    ensures
        is_changed_at(
            before.vmem.areas,
            after.vmem.areas,
            (area.0, area.1),
            permissions.bits,
            k,
        ),
        area.0 <= k < area.1 && kind != PieceKind::Free && takes_away(area.2, permissions.bits) ==> lookup(
            after.vmem.areas,
            k,
        ) == lookup(before.vmem.areas, k),
        result is Ok && area.0 <= k < area.1 ==> allows(area.2, permissions.bits) && is_settled_at(
            before.vmem.areas,
            after.vmem.areas,
            permissions.bits,
            k,
        ),
{
    let range = (area.0, area.1);
    lemma_verdict_is_lawful(before.vmem.areas, range, permissions);
    lemma_record(before.vmem.areas, range, permissions);
    lemma_narrows(area.2, permissions);
    let wanted: u8 = permissions.bits;
    assert(0u8 & 0xf == 0) by (bit_vector);
    assert(lookup(before.vmem.areas, area.0) == Some(area.2));
    if area.0 <= k < area.1 {
        assert(lookup(before.vmem.areas, k) == Some(area.2));
    }
    if after.vmem != before.vmem || result is Ok {
        assert(is_allowed_at(before.vmem.areas, area.0, wanted));
        assert(lookup(before.vmem.areas, k) == lookup(before.vmem.areas, k));
        assert(lookup(after.vmem.areas, k) == lookup(after.vmem.areas, k));
    }
}

/// What changing the mappings of a piece does to an address.
proof fn lemma_areas<P: PageManagementProvider<ALIGN>, const ALIGN: usize>(
    before: ManagerModel,
    view: VmViewId,
    kind: PieceKind,
    list: Seq<(int, int, VmArea)>,
    start: int,
    end: int,
    permissions: MemoryRegionPermissions,
    after: ManagerModel,
    result: Result<(), VmemProtectError>,
    k: int,
)
    requires
        areas_protected::<P, ALIGN>(before, view, kind, list, start, end, permissions, after, result),
        tiles(list, before.vmem.areas, start, end),
        0 <= start <= end <= usize::MAX,
    ensures
        is_changed_at(before.vmem.areas, after.vmem.areas, (start, end), permissions.bits, k),
        start <= k < end && kind != PieceKind::Free && (lookup(before.vmem.areas, k) matches Some(area)
            && takes_away(area, permissions.bits)) ==> lookup(after.vmem.areas, k) == lookup(
            before.vmem.areas,
            k,
        ),
        result is Ok && start <= k < end ==> is_allowed_at(before.vmem.areas, k, permissions.bits)
            && is_settled_at(before.vmem.areas, after.vmem.areas, permissions.bits, k),
    decreases list.len(),
{
    reveal(areas_protected);
    if list.len() > 0 && list[0].0 == start {
        let (mid, outcome) = choose|mid: ManagerModel, outcome: Result<(), VmemProtectError>| #[trigger]
            area_protected::<P, ALIGN>(before, view, kind, list[0], permissions, mid, outcome)
                && match outcome {
                Err(error) => after == mid && result == Err::<(), VmemProtectError>(error),
                Ok(()) => areas_protected::<P, ALIGN>(
                    mid,
                    view,
                    kind,
                    list.drop_first(),
                    list[0].1,
                    end,
                    permissions,
                    after,
                    result,
                ),
            };
        lemma_area::<P, ALIGN>(before, view, kind, list[0], permissions, mid, outcome, k);
        if start <= k < list[0].1 {
            assert(lookup(before.vmem.areas, k) == Some(list[0].2));
        }
        if outcome is Ok {
            let rest = list.drop_first();
            assert(tiles(rest, mid.vmem.areas, list[0].1, end)) by {
                assert forall|i: int| 0 <= i < rest.len() implies list[0].1 <= (#[trigger] rest[i]).0
                    < rest[i].1 <= end && uniform(
                    mid.vmem.areas,
                    rest[i].0,
                    rest[i].1,
                    rest[i].2,
                ) by {
                    assert(rest[i] == list[i + 1]);
                    assert(list[0].1 <= list[i + 1].0);
                    assert forall|j: int| rest[i].0 <= j < rest[i].1 implies #[trigger] lookup(
                        mid.vmem.areas,
                        j,
                    ) == Some(rest[i].2) by {
                        assert(lookup(before.vmem.areas, j) == Some(list[i + 1].2));
                        lemma_area::<P, ALIGN>(
                            before,
                            view,
                            kind,
                            list[0],
                            permissions,
                            mid,
                            outcome,
                            j,
                        );
                    }
                }
                assert forall|i: int, j: int| 0 <= i < j < rest.len() implies (#[trigger] rest[i]).1 <= (
                #[trigger] rest[j]).0 by {
                    assert(list[i + 1].1 <= list[j + 1].0);
                }
            }
            lemma_areas::<P, ALIGN>(
                mid,
                view,
                kind,
                rest,
                list[0].1,
                end,
                permissions,
                after,
                result,
                k,
            );
        }
    }
}

/// What changing a range piece by piece does to an address.
proof fn lemma_changed_pieces<P: PageManagementProvider<ALIGN>, const ALIGN: usize>(
    before: ManagerModel,
    view: VmViewId,
    inherited: Seq<(int, int)>,
    held: Seq<(int, int)>,
    cursor: int,
    end: int,
    permissions: MemoryRegionPermissions,
    after: ManagerModel,
    result: Result<(), VmemProtectError>,
    k: int,
)
    requires
        pieces_changed::<P, ALIGN>(
            before,
            view,
            inherited,
            held,
            cursor,
            end,
            permissions,
            after,
            result,
        ),
        0 <= cursor <= end <= usize::MAX,
    ensures
        is_changed_at(before.vmem.areas, after.vmem.areas, (cursor, end), permissions.bits, k),
        cursor <= k < end && kind_at(inherited, held, k) != PieceKind::Free && (lookup(
            before.vmem.areas,
            k,
        ) matches Some(area) && takes_away(area, permissions.bits)) ==> lookup(after.vmem.areas, k)
            == lookup(before.vmem.areas, k),
        result is Ok && cursor <= k < end ==> is_allowed_at(before.vmem.areas, k, permissions.bits)
            && is_settled_at(before.vmem.areas, after.vmem.areas, permissions.bits, k),
    decreases end - cursor,
{
    reveal(pieces_changed);
    if cursor < end {
        let next = piece_end(inherited, held, cursor, end);
        lemma_nearest_edge(inherited, cursor, end);
        lemma_nearest_edge(held, cursor, nearest_edge(inherited, cursor, end));
        let kind = kind_at(inherited, held, cursor);
        let list = pieces(before.vmem.areas, cursor, next);
        lemma_pieces(before.vmem.areas, cursor, next);
        let (mid, outcome) = choose|mid: ManagerModel, outcome: Result<(), VmemProtectError>| #[trigger]
            areas_protected::<P, ALIGN>(
                before,
                view,
                kind,
                list,
                cursor,
                next,
                permissions,
                mid,
                outcome,
            ) && match outcome {
                Err(error) => after == mid && result == Err::<(), VmemProtectError>(error),
                Ok(()) => cursor < next <= end && pieces_changed::<P, ALIGN>(
                    mid,
                    view,
                    inherited,
                    held,
                    next,
                    end,
                    permissions,
                    after,
                    result,
                ),
            };
        lemma_areas::<P, ALIGN>(before, view, kind, list, cursor, next, permissions, mid, outcome, k);
        if cursor <= k < next {
            lemma_piece_is_uniform(inherited, held, cursor, end, k);
        }
        if outcome is Ok {
            lemma_changed_pieces::<P, ALIGN>(
                mid,
                view,
                inherited,
                held,
                next,
                end,
                permissions,
                after,
                result,
                k,
            );
        }
    }
}

/// A view may change an address: pages of its own, or, with an address space of its own, pages that it
/// inherits.
pub open spec fn may_change_at(m: DomainModel, family: u64, view: VmViewId, independent: bool, k: int) -> bool {
    found_at(m, family, 0, k) matches Some(Found::Held { hops, kept, custody }) && if hops > 0 {
        independent && (custody is Present || custody is Retiring)
    } else {
        custody matches CustodyModel::Present { view: holder, .. } && holder == view
    }
}

/// A view acts from the start of a range up to the first address that it may not change.
pub proof fn lemma_reach_is_exact(
    m: DomainModel,
    view: VmViewId,
    start: int,
    end: int,
    independent: bool,
    k: int,
)
    requires
        start < end,
        family_of(m, view) is Some,
    ensures
        ({
            let reach = actor_prefix_of(m, view, start, end, independent).0;
            let family = family_of(m, view)->0.raw;
            &&& start <= reach <= end
            &&& start <= k < reach ==> may_change_at(m, family, view, independent, k)
            &&& reach < end ==> !may_change_at(m, family, view, independent, reach)
        }),
{
    let family = family_of(m, view)->0.raw;
    let found = pieces(lineage_map(m, family, 0), start, end);
    lemma_pieces(lineage_map(m, family, 0), start, end);
    let list = lineage_fragments(m, view, start, end);
    lemma_prefix(m, family, view, found, list, independent, start, end, Seq::empty(), k);
}

proof fn lemma_prefix(
    m: DomainModel,
    family: u64,
    view: VmViewId,
    found: Seq<(int, int, Found)>,
    list: Seq<(int, int, CustodyModel, bool)>,
    independent: bool,
    at: int,
    end: int,
    inherited: Seq<(int, int)>,
    k: int,
)
    requires
        at <= end,
        list == Seq::new(
            found.len(),
            |i: int| crate::mm::domain::lookup::lineage_fragment(found[i]),
        ),
        forall|i: int|
            0 <= i < found.len() ==> at <= (#[trigger] found[i]).0 < found[i].1 <= end && uniform(
                lineage_map(m, family, 0),
                found[i].0,
                found[i].1,
                found[i].2,
            ),
        forall|i: int, j: int|
            0 <= i < j < found.len() ==> (#[trigger] found[i]).1 <= (#[trigger] found[j]).0,
        forall|j: int|
            at <= j < end && #[trigger] lookup(lineage_map(m, family, 0), j) is Some ==> covered(found, j),
    ensures
        ({
            let reach = prefix_from(list, view, independent, at, inherited).0;
            &&& at <= reach <= end
            &&& at <= k < reach ==> may_change_at(m, family, view, independent, k)
            &&& reach < end ==> !may_change_at(m, family, view, independent, reach)
        }),
    decreases list.len(),
{
    let map = lineage_map(m, family, 0);
    if found.len() == 0 {
        if at < end {
            assert(lookup(map, at) is None) by {
                if lookup(map, at) is Some {
                    assert(covered(found, at));
                }
            }
        }
    } else if found[0].0 != at {
        assert(lookup(map, at) is None) by {
            if lookup(map, at) is Some {
                assert(covered(found, at));
                let i = choose|i: int|
                    0 <= i < found.len() && (#[trigger] found[i]).0 <= at < found[i].1;
                assert(found[0].0 <= found[i].0);
            }
        }
        assert(list[0].0 == found[0].0);
    } else {
        assert(lookup(map, at) == Some(found[0].2));
        assert(list[0] == crate::mm::domain::lookup::lineage_fragment(found[0]));
        if may_act_on(list[0], view, independent) {
            let (rest, fewer) = (found.drop_first(), list.drop_first());
            assert(fewer =~= Seq::new(
                rest.len(),
                |i: int| crate::mm::domain::lookup::lineage_fragment(rest[i]),
            ));
            assert forall|i: int| 0 <= i < rest.len() implies found[0].1 <= (#[trigger] rest[i]).0
                < rest[i].1 <= end && uniform(map, rest[i].0, rest[i].1, rest[i].2) by {
                assert(rest[i] == found[i + 1]);
                assert(found[0].1 <= found[i + 1].0);
            }
            assert forall|i: int, j: int| 0 <= i < j < rest.len() implies (#[trigger] rest[i]).1 <= (
            #[trigger] rest[j]).0 by {
                assert(found[i + 1].1 <= found[j + 1].0);
            }
            assert forall|j: int|
                found[0].1 <= j < end && #[trigger] lookup(map, j) is Some implies covered(rest, j) by {
                assert(covered(found, j));
                let i = choose|i: int| 0 <= i < found.len() && (#[trigger] found[i]).0 <= j < found[i].1;
                assert(rest[i - 1].0 <= j < rest[i - 1].1);
            }
            let joined = if list[0].3 {
                crate::mm::manager::views::joined_span(inherited, list[0].0, list[0].1)
            } else {
                inherited
            };
            lemma_prefix(
                m,
                family,
                view,
                rest,
                fewer,
                independent,
                found[0].1,
                end,
                joined,
                k,
            );
            if at <= k < found[0].1 {
                assert(lookup(map, k) == Some(found[0].2));
            }
        }
    }
}

/// A permission change for a view changes nothing that the view may not act on, and takes no reading or
/// writing away from memory that another live family holds or that descendants still inherit, as long
/// as the view has an address space of its own.
pub proof fn lemma_guest_protection_spares_others<P: PageManagementProvider<ALIGN>, const ALIGN: usize>(
    platform: &P,
    before: ManagerModel,
    view: VmViewId,
    range: (int, int),
    permissions: MemoryRegionPermissions,
    independent: bool,
    after: ManagerModel,
    result: Result<(), VmemProtectError>,
    k: int,
)
    requires
        0 <= range.0 < range.1 <= usize::MAX,
        family_of(before.domain, view) is Some,
        view_permissions_changed(
            platform,
            before,
            view,
            range,
            permissions,
            independent,
            after,
            result,
        ),
    ensures
        is_changed_at(before.vmem.areas, after.vmem.areas, range, permissions.bits, k),
        lookup(after.vmem.areas, k) != lookup(before.vmem.areas, k) ==> may_change_at(
            before.domain,
            family_of(before.domain, view)->0.raw,
            view,
            independent,
            k,
        ),
        independent && (is_inherited_from(before.domain, view) || foreign_at(
            before.domain,
            family_of(before.domain, view)->0.raw,
            k,
        )) && (lookup(before.vmem.areas, k) matches Some(area) && takes_away(area, permissions.bits))
            ==> lookup(after.vmem.areas, k) == lookup(before.vmem.areas, k),
        result is Ok && range.0 <= k < range.1 ==> may_change_at(
            before.domain,
            family_of(before.domain, view)->0.raw,
            view,
            independent,
            k,
        ) && is_allowed_at(before.vmem.areas, k, permissions.bits) && is_settled_at(
            before.vmem.areas,
            after.vmem.areas,
            permissions.bits,
            k,
        ),
{
    let (reach, inherited) = actor_prefix_of(before.domain, view, range.0, range.1, independent);
    lemma_reach_is_exact(before.domain, view, range.0, range.1, independent, k);
    if reach != range.0 {
        let part = (range.0, reach);
        let outcome = choose|outcome: Result<(), VmemProtectError>| #[trigger]
            protected_for_view(
                platform,
                before,
                view,
                part,
                permissions,
                inherited,
                independent,
                after,
                outcome,
            ) && result == (if outcome is Ok && reach != range.1 {
                Err(
                    VmemProtectError::InvalidRange(
                        crate::mm::vmem::initialization::span(reach, range.1),
                    ),
                )
            } else {
                outcome
            });
        if independent {
            let held = held_spans(before.domain, view, part.0, part.1, independent);
            lemma_changed_pieces::<P, ALIGN>(
                before,
                view,
                inherited,
                held,
                part.0,
                part.1,
                permissions,
                after,
                outcome,
                k,
            );
            if part.0 <= k < part.1 {
                if is_inherited_from(before.domain, view) {
                    assert(held[0].0 <= k < held[0].1);
                    assert(in_some(held, k));
                } else if foreign_at(before.domain, family_of(before.domain, view)->0.raw, k) {
                    lemma_foreign_spans(before, view, part.0, part.1, k);
                    assert(within(held, k));
                    let i = choose|i: int| 0 <= i < held.len() && (#[trigger] held[i]).0 <= k < held[i].1;
                    assert(in_some(held, k));
                }
            }
        } else if whole_pages(part.0, part.1, ALIGN as int) {
            lemma_protection_is_lawful(platform, before.vmem, part, permissions, after.vmem, outcome);
            assert(is_reprotected(before.vmem.areas, after.vmem.areas, part, permissions.bits, k));
            if outcome is Ok && part.0 <= k < part.1 {
                assert(is_allowed_at(before.vmem.areas, k, permissions.bits));
            }
        }
    }
}

/// A permission change does what it must.
pub proof fn lemma_access_change_is_lawful<P: PageManagementProvider<ALIGN>, const ALIGN: usize>(
    platform: &P,
    before: ManagerModel,
    access: Option<GuestAccess>,
    range: (int, int),
    permissions: MemoryRegionPermissions,
    after: ManagerModel,
    result: Result<(), VmemProtectError>,
)
    requires
        ALIGN > 0,
        0 <= range.0 <= range.1 <= usize::MAX,
        permissions_changed(platform, before, access, range, permissions, after, result),
    ensures
        is_access_change(before, access, range, ALIGN as int, permissions.bits, after, result),
{
    if whole_pages(range.0, range.1, ALIGN as int) {
        match access {
            None => {
                lemma_protection_is_lawful(
                    platform,
                    before.vmem,
                    range,
                    permissions,
                    after.vmem,
                    result,
                );
                assert forall|k: int| #[trigger] is_changed_at(
                    before.vmem.areas,
                    after.vmem.areas,
                    range,
                    permissions.bits,
                    k,
                ) by {
                    assert(is_reprotected(
                        before.vmem.areas,
                        after.vmem.areas,
                        range,
                        permissions.bits,
                        k,
                    ));
                }
                assert forall|k: int| result is Ok && range.0 <= k < range.1 implies #[trigger] is_offered_at(
                    after.vmem.areas,
                    k,
                    permissions.bits,
                ) by {
                    assert(is_allowed_at(before.vmem.areas, k, permissions.bits));
                }
            },
            Some(guest) => {
                let independent = choose|independent: bool| #[trigger]
                    call_ensures(P::has_independent_view_space, (guest.view,), independent)
                        && view_permissions_changed(
                        platform,
                        before,
                        guest.view,
                        range,
                        permissions,
                        independent,
                        after,
                        result,
                    );
                if family_of(before.domain, guest.view) is Some {
                    assert forall|k: int| #[trigger] is_changed_at(
                        before.vmem.areas,
                        after.vmem.areas,
                        range,
                        permissions.bits,
                        k,
                    ) by {
                        lemma_guest_protection_spares_others(
                            platform,
                            before,
                            guest.view,
                            range,
                            permissions,
                            independent,
                            after,
                            result,
                            k,
                        );
                    }
                    assert forall|k: int| result is Ok && range.0 <= k < range.1 implies #[trigger] is_settled_at(
                        before.vmem.areas,
                        after.vmem.areas,
                        permissions.bits,
                        k,
                    ) && is_allowed_at(before.vmem.areas, k, permissions.bits) by {
                        lemma_guest_protection_spares_others(
                            platform,
                            before,
                            guest.view,
                            range,
                            permissions,
                            independent,
                            after,
                            result,
                            k,
                        );
                    }
                    assert forall|k: int| result is Ok && range.0 <= k < range.1 implies #[trigger] is_allowed_at(
                        before.vmem.areas,
                        k,
                        permissions.bits,
                    ) by {
                        assert(is_settled_at(
                            before.vmem.areas,
                            after.vmem.areas,
                            permissions.bits,
                            k,
                        ));
                    }
                } else {
                    let list = lineage_fragments(before.domain, guest.view, range.0, range.1);
                    assert(list.len() == 0);
                }
            },
        }
    }
}

} // verus!
