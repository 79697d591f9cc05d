//! What letting go of memory and renewing it does on behalf of a guest, address by address.
use crate::ids::VmViewId;
use crate::mm::area::VmArea;
use crate::mm::custody::CustodyModel;
use crate::mm::errors::{VmemResetError, VmemUnmapError};
use crate::mm::flags::VmFlags;
use crate::mm::manager::GuestAccess;
use crate::platform::page_mgmt::PageManagementProvider;
use core::ops::Range;
use vstd::prelude::*;

verus! {

use crate::mm::domain::lookup::{found_at, lineage_fragment, lineage_fragments, lineage_map, Found};
use crate::mm::domain::registry::family_of;
use crate::mm::domain::DomainModel;
use crate::mm::manager::laws::protection::{lemma_reach_is_exact, may_change_at};
use crate::mm::manager::laws::{lemma_removal_for_a_view_is_confined, within};
use crate::mm::manager::lists_all;
use crate::mm::manager::release::{
    clamped, each_removed, inherited_fragments, mappings_released, memory_released, one_released, own_fragments, pages_removed,
    pages_reset, parts_released, space_known, view_pages_reset,
};
use crate::mm::manager::views::{
    actor_prefix_of, joined_span, removed_for_view, spans, whole_pages,
};
use crate::mm::manager::ManagerModel;
use crate::mm::vmem::laws::asking::{is_private_file, is_renewed, lemma_renewal_is_lawful};
use crate::mm::vmem::laws::lemma_removal_is_confined;
use crate::mm::vmem::protect::{marked_entries, plain_runs};
use crate::range_map::{covered, lemma_pieces, lookup, pieces, runs_of, uniform};

/// An address is as it was, or is not mapped any more.
pub open spec fn is_kept_or_gone(before: Map<int, VmArea>, after: Map<int, VmArea>, k: int) -> bool {
    lookup(after, k) == lookup(before, k) || lookup(after, k) is None
}

/// A view's family records an address itself, as real pages of that view.
pub open spec fn is_own_page(m: DomainModel, family: u64, view: VmViewId, k: int) -> bool {
    found_at(m, family, 0, k) matches Some(Found::Held { hops, kept, custody }) && hops == 0 && (
    custody matches CustodyModel::Present { view: holder, .. } && holder == view)
}

/// A view's family knows an address only from its ancestors, as real pages.
pub open spec fn is_inherited_page(m: DomainModel, family: u64, k: int) -> bool {
    found_at(m, family, 0, k) matches Some(Found::Held { hops, kept, custody }) && hops > 0 && (
    custody is Present || custody is Retiring)
}

/// Adding a span to a list adds its addresses.
proof fn lemma_joined(list: Seq<(int, int)>, start: int, end: int, k: int)
    requires
        start < end,
        forall|i: int| 0 <= i < list.len() ==> (#[trigger] list[i]).0 < list[i].1,
    ensures
        within(joined_span(list, start, end), k) <==> within(list, k) || start <= k < end,
        forall|i: int|
            0 <= i < joined_span(list, start, end).len() ==> (#[trigger] joined_span(list, start, end)[i]).0
                < joined_span(list, start, end)[i].1,
{
    let joined = joined_span(list, start, end);
    let n = list.len() as int;
    if n > 0 {
        assert(list[n - 1].0 < list[n - 1].1);
    }
    if within(list, k) {
        let i = choose|i: int| 0 <= i < list.len() && (#[trigger] list[i]).0 <= k < list[i].1;
        assert(joined[i].0 <= k < joined[i].1);
    }
    if start <= k < end {
        assert(joined[joined.len() - 1].0 <= k < joined[joined.len() - 1].1);
    }
    if within(joined, k) {
        let i = choose|i: int| 0 <= i < joined.len() && (#[trigger] joined[i]).0 <= k < joined[i].1;
        if i < n && !(start <= k < end) {
            assert(list[i].0 <= k < list[i].1);
        }
    }
}

proof fn lemma_sorted_fragments(
    m: DomainModel,
    family: u64,
    view: VmViewId,
    found: Seq<(int, int, Found)>,
    k: int,
)
    requires
        forall|i: int|
            0 <= i < found.len() ==> (#[trigger] found[i]).0 < found[i].1 && uniform(
                lineage_map(m, family, 0),
                found[i].0,
                found[i].1,
                found[i].2,
            ),
    ensures
        ({
            let list = Seq::new(found.len(), |i: int| lineage_fragment(found[i]));
            let (own, inherited) = (own_fragments(list, view), inherited_fragments(list));
            &&& covered(found, k) ==> (within(own, k) <==> is_own_page(m, family, view, k))
            &&& covered(found, k) ==> (within(inherited, k) <==> is_inherited_page(m, family, k))
            &&& !covered(found, k) ==> !within(own, k) && !within(inherited, k)
            &&& forall|i: int| 0 <= i < own.len() ==> (#[trigger] own[i]).0 < own[i].1
            &&& forall|i: int| 0 <= i < inherited.len() ==> (#[trigger] inherited[i]).0 < inherited[i].1
        }),
    decreases found.len(),
{
    let list = Seq::new(found.len(), |i: int| lineage_fragment(found[i]));
    if found.len() > 0 {
        let less = found.drop_last();
        let fewer = Seq::new(less.len(), |i: int| lineage_fragment(less[i]));
        assert(list.drop_last() =~= fewer);
        lemma_sorted_fragments(m, family, view, less, k);
        let piece = found.last();
        assert(found[found.len() - 1] == piece);
        assert(list.last() == lineage_fragment(piece));
        lemma_joined(own_fragments(fewer, view), piece.0, piece.1, k);
        lemma_joined(inherited_fragments(fewer), piece.0, piece.1, k);
        if piece.0 <= k < piece.1 {
            assert(lookup(lineage_map(m, family, 0), k) == Some(piece.2));
            assert(covered(found, k));
        }
        if covered(less, k) {
            let i = choose|i: int| 0 <= i < less.len() && (#[trigger] less[i]).0 <= k < less[i].1;
            assert(found[i].0 <= k < found[i].1);
            assert(lookup(lineage_map(m, family, 0), k) == Some(found[i].2));
        }
        if covered(found, k) && !(piece.0 <= k < piece.1) {
            let i = choose|i: int| 0 <= i < found.len() && (#[trigger] found[i]).0 <= k < found[i].1;
            assert(less[i].0 <= k < less[i].1);
        }
    }
}

/// A guest's unmapping sorts the addresses of its range: it takes away exactly the pages that the guest's
/// own view holds, and drops exactly those that the view only inherits from the view's own space.
pub proof fn lemma_unmapping_sorts_the_range(
    m: DomainModel,
    view: VmViewId,
    range: (int, int),
    k: int,
)
    requires
        range.0 < range.1,
        family_of(m, view) is Some,
    ensures
        within(own_fragments(lineage_fragments(m, view, range.0, range.1), view), k) <==> range.0 <= k
            < range.1 && is_own_page(m, family_of(m, view)->0.raw, view, k),
        within(inherited_fragments(lineage_fragments(m, view, range.0, range.1)), k) <==> range.0 <= k
            < range.1 && is_inherited_page(m, family_of(m, view)->0.raw, k),
{
    let family = family_of(m, view)->0.raw;
    let map = lineage_map(m, family, 0);
    let found = pieces(map, range.0, range.1);
    lemma_pieces(map, range.0, range.1);
    assert(lineage_fragments(m, view, range.0, range.1) == Seq::new(
        found.len(),
        |i: int| lineage_fragment(found[i]),
    ));
    lemma_sorted_fragments(m, family, view, found, k);
    if covered(found, k) {
        let i = choose|i: int| 0 <= i < found.len() && (#[trigger] found[i]).0 <= k < found[i].1;
        assert(range.0 <= found[i].0);
    } else if range.0 <= k < range.1 {
        assert(lookup(map, k) is None);
    }
}

/// What removing a list of ranges for a view does to an address.
proof fn lemma_each_removed<P: PageManagementProvider<ALIGN>, const ALIGN: usize>(
    platform: &P,
    before: ManagerModel,
    view: VmViewId,
    independent: bool,
    list: Seq<(int, int)>,
    after: ManagerModel,
    k: int,
)
    requires
        each_removed(platform, before, view, independent, list, after),
        forall|i: int| 0 <= i < list.len() ==> (#[trigger] list[i]).0 < list[i].1,
    ensures
        is_kept_or_gone(before.vmem.areas, after.vmem.areas, k),
        !within(list, k) ==> lookup(after.vmem.areas, k) == lookup(before.vmem.areas, k),
    decreases list.len(),
{
    reveal(each_removed);
    if list.len() > 0 {
        let rest = list.drop_first();
        let (mid, outcome) = choose|mid: ManagerModel, outcome: Result<(), VmemUnmapError>| #[trigger]
            removed_for_view(platform, before, view, list[0], independent, mid, outcome)
                && each_removed(platform, mid, view, independent, rest, after);
        assert(list[0].0 < list[0].1);
        lemma_removal_for_a_view_is_confined(
            platform,
            before,
            view,
            list[0],
            independent,
            mid,
            outcome,
        );
        assert(lookup(mid.vmem.areas, k) == lookup(mid.vmem.areas, k));
        assert forall|i: int| 0 <= i < rest.len() implies (#[trigger] rest[i]).0 < rest[i].1 by {
            assert(rest[i] == list[i + 1]);
        }
        lemma_each_removed(platform, mid, view, independent, rest, after, k);
        if within(rest, k) {
            let i = choose|i: int| 0 <= i < rest.len() && (#[trigger] rest[i]).0 <= k < rest[i].1;
            assert(list[i + 1].0 <= k < list[i + 1].1);
        }
        if list[0].0 <= k < list[0].1 {
            assert(within(list, k));
        }
    }
}

/// An unmapping maps nothing, and leaves every address outside its range alone. It is refused as not
/// aligned exactly if its range is empty or not at page edges, and then changes nothing. Without a guest
/// a success leaves nothing mapped in the range, and a failure changes nothing. On behalf of a guest only
/// pages that the guest's own view holds go away: inherited pages and those of others stay mapped.
pub proof fn lemma_unmapping_is_lawful<P: PageManagementProvider<ALIGN>, const ALIGN: usize>(
    platform: &P,
    before: ManagerModel,
    access: Option<GuestAccess>,
    range: (int, int),
    after: ManagerModel,
    result: Result<(), VmemUnmapError>,
    k: int,
)
    requires
        ALIGN > 0,
        pages_removed(platform, before, access, range, after, result),
    ensures
        is_kept_or_gone(before.vmem.areas, after.vmem.areas, k),
        !(range.0 <= k < range.1) ==> lookup(after.vmem.areas, k) == lookup(before.vmem.areas, k),
        result == Err::<(), VmemUnmapError>(VmemUnmapError::UnAligned) <==> range.0 >= range.1 || range.0
            % ALIGN as int != 0 || range.1 % ALIGN as int != 0,
        result == Err::<(), VmemUnmapError>(VmemUnmapError::UnAligned) ==> after == before,
        access is None && result is Ok && range.0 <= k < range.1 ==> lookup(after.vmem.areas, k) is None,
        access is None && result is Err ==> after == before,
        access is None ==> after.domain == before.domain,
        access matches Some(guest) ==> lookup(after.vmem.areas, k) != lookup(before.vmem.areas, k) ==> (
        family_of(before.domain, guest.view) matches Some(family) && is_own_page(
            before.domain,
            family.raw,
            guest.view,
            k,
        )),
{
    if whole_pages(range.0, range.1, ALIGN as int) {
        match access {
            None => {
                lemma_removal_is_confined(
                    platform,
                    before.vmem,
                    range.0,
                    range.1,
                    after.vmem,
                    result,
                );
                assert(lookup(after.vmem.areas, k) == lookup(after.vmem.areas, k));
            },
            Some(guest) => {
                let view = guest.view;
                let list = lineage_fragments(before.domain, view, range.0, range.1);
                let own = own_fragments(list, view);
                let independent = choose|independent: bool| #[trigger]
                    call_ensures(P::has_independent_view_space, (view,), independent) && each_removed(
                        platform,
                        before,
                        view,
                        independent,
                        own,
                        after,
                    );
                if let Some(family) = family_of(before.domain, view) {
                    let map = lineage_map(before.domain, family.raw, 0);
                    let found = pieces(map, range.0, range.1);
                    lemma_pieces(map, range.0, range.1);
                    assert(list == Seq::new(found.len(), |i: int| lineage_fragment(found[i])));
                    lemma_sorted_fragments(before.domain, family.raw, view, found, k);
                    lemma_unmapping_sorts_the_range(before.domain, view, range, k);
                    lemma_each_removed(platform, before, view, independent, own, after, k);
                } else {
                    assert(list =~= Seq::empty());
                    assert(own =~= Seq::empty());
                    lemma_each_removed(platform, before, view, independent, own, after, k);
                }
            },
        }
    }
}

/// Renewing pages keeps every address mapped as it was, on behalf of a guest as well, and touches only
/// private anonymous memory of its range. On behalf of a guest it touches only what the guest's view may
/// change, and succeeds only if that is the whole range. It succeeds only if the whole range is mapped
/// and holds no private mapping of a file.
pub proof fn lemma_guest_renewal_is_lawful<P: PageManagementProvider<ALIGN>, const ALIGN: usize>(
    platform: &P,
    before: ManagerModel,
    access: Option<GuestAccess>,
    range: (int, int),
    after: ManagerModel,
    result: Result<(), VmemResetError>,
    k: int,
)
    requires
        ALIGN > 0,
        0 <= range.0 <= range.1 <= usize::MAX,
        pages_reset(platform, before, access, range, after, result),
    ensures
        is_renewed(before.vmem.areas, after.vmem.areas, k),
        !(range.0 <= k < range.1) ==> lookup(after.vmem.areas, k) == lookup(before.vmem.areas, k),
        result == Err::<(), VmemResetError>(VmemResetError::UnAligned) <==> range.0 >= range.1 || range.0
            % ALIGN as int != 0 || range.1 % ALIGN as int != 0,
        result is Ok && range.0 <= k < range.1 ==> lookup(before.vmem.areas, k) is Some && !is_private_file(
            before.vmem.areas,
            k,
        ),
        access matches Some(guest) ==> (lookup(after.vmem.areas, k) != lookup(before.vmem.areas, k) || result is Ok
            && range.0 <= k < range.1 ==> (family_of(before.domain, guest.view) matches Some(family)
            && exists|independent: bool| #[trigger]
            call_ensures(P::has_independent_view_space, (guest.view,), independent) && may_change_at(
                before.domain,
                family.raw,
                guest.view,
                independent,
                k,
            ))),
{
    if whole_pages(range.0, range.1, ALIGN as int) {
        match access {
            None => {
                lemma_renewal_is_lawful(
                    platform,
                    before.vmem,
                    range.0,
                    range.1,
                    after.vmem,
                    result,
                );
                assert(is_renewed(before.vmem.areas, after.vmem.areas, k));
                assert(lookup(after.vmem.areas, k) == lookup(after.vmem.areas, k));
                assert(lookup(before.vmem.areas, k) == lookup(before.vmem.areas, k));
            },
            Some(guest) => {
                let view = guest.view;
                let independent = choose|independent: bool| #[trigger]
                    call_ensures(P::has_independent_view_space, (view,), independent)
                        && view_pages_reset(
                        platform,
                        before,
                        view,
                        range,
                        actor_prefix_of(before.domain, view, range.0, range.1, independent),
                        after,
                        result,
                    );
                let prefix = actor_prefix_of(before.domain, view, range.0, range.1, independent);
                if family_of(before.domain, view) is None {
                    assert(lineage_fragments(before.domain, view, range.0, range.1) =~= Seq::empty());
                    assert(prefix.0 == range.0);
                } else {
                    lemma_reach_is_exact(before.domain, view, range.0, range.1, independent, k);
                    if whole_pages(range.0, prefix.0, ALIGN as int) {
                        let outcome = choose|outcome: Result<(), VmemResetError>| #[trigger]
                            crate::mm::vmem::effects::reset(
                                platform,
                                before.vmem,
                                range.0,
                                prefix.0,
                                after.vmem,
                                outcome,
                            ) && match outcome {
                                Err(error) => after.domain == before.domain && result == Err::<
                                    (),
                                    VmemResetError,
                                >(error),
                                Ok(()) => {
                                    &&& after.domain == crate::mm::manager::release::each_published(
                                        before.domain,
                                        prefix.1,
                                        view,
                                    )
                                    &&& if prefix.0 != range.1 {
                                        result == Err::<(), VmemResetError>(
                                            VmemResetError::AlreadyUnallocated,
                                        )
                                    } else {
                                        result is Ok
                                    }
                                },
                            };
                        lemma_renewal_is_lawful(
                            platform,
                            before.vmem,
                            range.0,
                            prefix.0,
                            after.vmem,
                            outcome,
                        );
                        assert(is_renewed(before.vmem.areas, after.vmem.areas, k));
                        assert(lookup(after.vmem.areas, k) == lookup(after.vmem.areas, k));
                        assert(lookup(before.vmem.areas, k) == lookup(before.vmem.areas, k));
                    }
                }
            },
        }
    }
}

/// The caller named an address of a mapping with these flags to be let go of.
pub open spec fn is_named<F: Fn(Range<usize>, VmFlags) -> Vec<Range<usize>>>(
    choice: F,
    mapping: (int, int, VmFlags),
    parts: Vec<Range<usize>>,
    k: int,
) -> bool {
    &&& call_ensures(
        choice,
        (Range { start: mapping.0 as usize, end: mapping.1 as usize }, mapping.2),
        parts,
    )
    &&& mapping.0 <= k < mapping.1
    &&& exists|i: int| 0 <= i < parts@.len() && (#[trigger] parts@[i]).start <= k < parts@[i].end
}

/// What letting go of one range does to an address.
proof fn lemma_one_released<P: PageManagementProvider<ALIGN>, const ALIGN: usize>(
    platform: &P,
    before: ManagerModel,
    access: Option<GuestAccess>,
    independent: bool,
    range: (int, int),
    after: ManagerModel,
    result: Result<(), VmemUnmapError>,
    k: int,
)
    requires
        range.0 < range.1,
        one_released(platform, before, access, independent, range, after, result),
    ensures
        is_kept_or_gone(before.vmem.areas, after.vmem.areas, k),
        !(range.0 <= k < range.1) ==> lookup(after.vmem.areas, k) == lookup(before.vmem.areas, k),
        result is Ok && !(access is Some && independent) && range.0 <= k < range.1 ==> lookup(
            after.vmem.areas,
            k,
        ) is None,
        after.vmem.brk == before.vmem.brk,
{
    if access is Some && independent {
        lemma_removal_for_a_view_is_confined(
            platform,
            before,
            access->0.view,
            range,
            true,
            after,
            result,
        );
    } else {
        lemma_removal_is_confined(platform, before.vmem, range.0, range.1, after.vmem, result);
    }
    assert(lookup(after.vmem.areas, k) == lookup(after.vmem.areas, k));
}

/// Some part of a list, cut off at its mapping, is whole pages and holds an address.
spec fn is_in_part(parts: Seq<(int, int)>, mapping: (int, int), align: int, k: int) -> bool {
    exists|i: int|
        0 <= i < parts.len() && clamped(#[trigger] parts[i], mapping).0 <= k < clamped(parts[i], mapping).1
            && whole_pages(clamped(parts[i], mapping).0, clamped(parts[i], mapping).1, align)
}

proof fn lemma_parts_released<P: PageManagementProvider<ALIGN>, const ALIGN: usize>(
    platform: &P,
    before: ManagerModel,
    access: Option<GuestAccess>,
    independent: bool,
    mapping: (int, int),
    parts: Seq<(int, int)>,
    after: ManagerModel,
    result: Result<(), VmemUnmapError>,
    k: int,
)
    requires
        parts_released(platform, before, access, independent, mapping, parts, after, result),
    ensures
        is_kept_or_gone(before.vmem.areas, after.vmem.areas, k),
        !is_in_part(parts, mapping, ALIGN as int, k) ==> lookup(after.vmem.areas, k) == lookup(
            before.vmem.areas,
            k,
        ),
        result is Ok && !(access is Some && independent) && is_in_part(parts, mapping, ALIGN as int, k)
            ==> lookup(after.vmem.areas, k) is None,
        after.vmem.brk == before.vmem.brk,
    decreases parts.len(),
{
    reveal(parts_released);
    if parts.len() > 0 {
        let rest = parts.drop_first();
        let part = clamped(parts[0], mapping);
        if is_in_part(rest, mapping, ALIGN as int, k) {
            let i = choose|i: int|
                0 <= i < rest.len() && clamped(#[trigger] rest[i], mapping).0 <= k < clamped(
                    rest[i],
                    mapping,
                ).1 && whole_pages(
                    clamped(rest[i], mapping).0,
                    clamped(rest[i], mapping).1,
                    ALIGN as int,
                );
            assert(parts[i + 1] == rest[i]);
        }
        if is_in_part(parts, mapping, ALIGN as int, k) {
            let i = choose|i: int|
                0 <= i < parts.len() && clamped(#[trigger] parts[i], mapping).0 <= k < clamped(
                    parts[i],
                    mapping,
                ).1 && whole_pages(
                    clamped(parts[i], mapping).0,
                    clamped(parts[i], mapping).1,
                    ALIGN as int,
                );
            if i > 0 {
                assert(rest[i - 1] == parts[i]);
                assert(is_in_part(rest, mapping, ALIGN as int, k));
            }
        }
        if !whole_pages(part.0, part.1, ALIGN as int) {
            lemma_parts_released(
                platform,
                before,
                access,
                independent,
                mapping,
                rest,
                after,
                result,
                k,
            );
        } else {
            let (mid, outcome) = choose|mid: ManagerModel, outcome: Result<(), VmemUnmapError>| #[trigger]
                one_released(platform, before, access, independent, part, mid, outcome)
                    && match outcome {
                    Err(error) => after == mid && result == Err::<(), VmemUnmapError>(error),
                    Ok(()) => parts_released(
                        platform,
                        mid,
                        access,
                        independent,
                        mapping,
                        rest,
                        after,
                        result,
                    ),
                };
            lemma_one_released(platform, before, access, independent, part, mid, outcome, k);
            if part.0 <= k < part.1 {
                assert(is_in_part(parts, mapping, ALIGN as int, k));
            }
            if outcome is Ok {
                lemma_parts_released(
                    platform,
                    mid,
                    access,
                    independent,
                    mapping,
                    rest,
                    after,
                    result,
                    k,
                );
            }
        }
    }
}

proof fn lemma_mappings_released<
    P: PageManagementProvider<ALIGN>,
    const ALIGN: usize,
    F: Fn(Range<usize>, VmFlags) -> Vec<Range<usize>>,
>(
    platform: &P,
    before: ManagerModel,
    access: Option<GuestAccess>,
    independent: bool,
    mappings: Seq<(int, int, VmFlags)>,
    releasable: F,
    after: ManagerModel,
    result: Result<(), VmemUnmapError>,
    k: int,
)
    requires
        mappings_released(
            platform,
            before,
            access,
            independent,
            mappings,
            releasable,
            after,
            result,
        ),
    ensures
        is_kept_or_gone(before.vmem.areas, after.vmem.areas, k),
        lookup(after.vmem.areas, k) != lookup(before.vmem.areas, k) ==> exists|
            i: int,
            parts: Vec<Range<usize>>,
        |
            0 <= i < mappings.len() && #[trigger] is_named(releasable, mappings[i], parts, k),
        after.vmem.brk == before.vmem.brk,
    decreases mappings.len(),
{
    reveal(mappings_released);
    if mappings.len() > 0 {
        let (start, end, flags) = mappings[0];
        let rest = mappings.drop_first();
        let (parts, mid, outcome) = choose|
            parts: Vec<Range<usize>>,
            mid: ManagerModel,
            outcome: Result<(), VmemUnmapError>,
        |
            #[trigger] call_ensures(
                releasable,
                (crate::mm::vmem::initialization::span(start, end), flags),
                parts,
            ) && #[trigger] parts_released(
                platform,
                before,
                access,
                independent,
                (start, end),
                spans(parts@),
                mid,
                outcome,
            ) && match outcome {
                Err(error) => after == mid && result == Err::<(), VmemUnmapError>(error),
                Ok(()) => mappings_released(
                    platform,
                    mid,
                    access,
                    independent,
                    rest,
                    releasable,
                    after,
                    result,
                ),
            };
        let list = spans(parts@);
        lemma_parts_released(
            platform,
            before,
            access,
            independent,
            (start, end),
            list,
            mid,
            outcome,
            k,
        );
        if is_in_part(list, (start, end), ALIGN as int, k) {
            let i = choose|i: int|
                0 <= i < list.len() && clamped(#[trigger] list[i], (start, end)).0 <= k < clamped(
                    list[i],
                    (start, end),
                ).1 && whole_pages(
                    clamped(list[i], (start, end)).0,
                    clamped(list[i], (start, end)).1,
                    ALIGN as int,
                );
            assert(parts@[i].start <= k < parts@[i].end);
            assert(is_named(releasable, mappings[0], parts, k));
        }
        if outcome is Ok {
            lemma_mappings_released(
                platform,
                mid,
                access,
                independent,
                rest,
                releasable,
                after,
                result,
                k,
            );
            if exists|i: int, named: Vec<Range<usize>>|
                0 <= i < rest.len() && #[trigger] is_named(releasable, rest[i], named, k) {
                let (i, named) = choose|i: int, named: Vec<Range<usize>>|
                    0 <= i < rest.len() && #[trigger] is_named(releasable, rest[i], named, k);
                assert(is_named(releasable, mappings[i + 1], named, k));
            }
        }
    }
}

/// Releasing memory lets go only of what the caller named of a mapping when it was shown that mapping
/// with its flags; every other address, and the program break, are as they were.
pub proof fn lemma_release_is_as_named<
    P: PageManagementProvider<ALIGN>,
    const ALIGN: usize,
    F: Fn(Range<usize>, VmFlags) -> Vec<Range<usize>>,
>(
    platform: &P,
    before: ManagerModel,
    access: Option<GuestAccess>,
    releasable: F,
    after: ManagerModel,
    result: Result<(), VmemUnmapError>,
    k: int,
)
    requires
        memory_released(platform, before, access, releasable, after, result),
    ensures
        is_kept_or_gone(before.vmem.areas, after.vmem.areas, k),
        after.vmem.brk == before.vmem.brk,
        lookup(after.vmem.areas, k) != lookup(before.vmem.areas, k) ==> exists|
            mapping: (int, int, VmFlags),
            parts: Vec<Range<usize>>,
        | #[trigger]
            is_named(releasable, mapping, parts, k) && (lookup(before.vmem.areas, k) matches Some(area)
                && area.flags == mapping.2),
{
    let (independent, list) = choose|independent: bool, list: Seq<(Range<usize>, VmFlags)>|
        #[trigger] space_known::<P, ALIGN>(access, independent) && #[trigger] lists_all(
            list,
            before.vmem.areas,
        ) && mappings_released(
            platform,
            before,
            access,
            independent,
            marked_entries(list),
            releasable,
            after,
            result,
        );
    let entries = marked_entries(list);
    lemma_mappings_released(platform, before, access, independent, entries, releasable, after, result, k);
    if lookup(after.vmem.areas, k) != lookup(before.vmem.areas, k) {
        let (i, parts) = choose|i: int, parts: Vec<Range<usize>>|
            0 <= i < entries.len() && #[trigger] is_named(releasable, entries[i], parts, k);
        let runs = choose|runs: Seq<(int, int, VmArea)>| #[trigger]
            runs_of(runs, before.vmem.areas, 0, usize::MAX as int) && marked_entries(list) == plain_runs(
                runs,
            );
        assert(entries[i] == plain_runs(runs)[i]);
        assert(lookup(before.vmem.areas, k) == Some(runs[i].2));
    }
}

} // verus!
