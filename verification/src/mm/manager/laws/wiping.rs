//! What a fork wipes of the memory that was marked for it.
use crate::ids::VmViewId;
use crate::mm::errors::VmemResetError;
use crate::mm::flags::VmFlags;
use crate::platform::page_mgmt::PageManagementProvider;
use core::ops::Range;
use vstd::prelude::*;

verus! {

use crate::mm::domain::DomainModel;
use crate::mm::flags::lemma_single_flag;
use crate::mm::manager::laws::unmapping::is_named;
use crate::mm::manager::release::clamped;
use crate::mm::manager::views::{spans, whole_pages};
use crate::mm::manager::wipe::{mappings_renewed, mappings_wiped, parts_wiped};
use crate::mm::vmem::effects::reset;
use crate::mm::vmem::initialization::span;
use crate::mm::vmem::laws::asking::{is_renewed, lemma_renewal_is_lawful};
use crate::mm::vmem::VmemModel;
use crate::range_map::lookup;

/// Wiping parts keeps every address mapped as it was, and outside the mapping does not touch it. If the
/// count went up, some part of the mapping was named.
proof fn lemma_parts_wiped<P: PageManagementProvider<ALIGN>, const ALIGN: usize>(
    platform: &P,
    before: VmemModel,
    mapping: (int, int),
    parts: Seq<(int, int)>,
    so_far: usize,
    after: VmemModel,
    wiped: usize,
    k: int,
)
    requires
        parts_wiped(platform, before, mapping, parts, so_far, after, wiped),
        0 <= mapping.0 <= mapping.1 <= usize::MAX,
    ensures
        is_renewed(before.areas, after.areas, k),
        lookup(after.areas, k) != lookup(before.areas, k) ==> mapping.0 <= k < mapping.1 && exists|i: int|
            0 <= i < parts.len() && (#[trigger] parts[i]).0 <= k < parts[i].1,
        wiped != so_far ==> exists|i: int|
            0 <= i < parts.len() && clamped(#[trigger] parts[i], mapping).0 < clamped(
                parts[i],
                mapping,
            ).1,
    decreases parts.len(),
{
    reveal(parts_wiped);
    if parts.len() > 0 {
        let rest = parts.drop_first();
        let part = clamped(parts[0], mapping);
        if !whole_pages(part.0, part.1, ALIGN as int) {
            lemma_parts_wiped(platform, before, mapping, rest, so_far, after, wiped, k);
        } else {
            let (mid, outcome) = choose|mid: VmemModel, outcome: Result<(), VmemResetError>| #[trigger]
                reset(platform, before, part.0, part.1, mid, outcome) && parts_wiped(
                    platform,
                    mid,
                    mapping,
                    rest,
                    if outcome is Ok {
                        so_far.wrapping_add((part.1 - part.0) as usize)
                    } else {
                        so_far
                    },
                    after,
                    wiped,
                );
            let next = if outcome is Ok {
                so_far.wrapping_add((part.1 - part.0) as usize)
            } else {
                so_far
            };
            lemma_renewal_is_lawful(platform, before, part.0, part.1, mid, outcome);
            assert(is_renewed(before.areas, mid.areas, k));
            assert(lookup(mid.areas, k) == lookup(mid.areas, k));
            lemma_parts_wiped(platform, mid, mapping, rest, next, after, wiped, k);
            assert(parts[0].0 <= k < parts[0].1 || !(part.0 <= k < part.1));
            assert(clamped(parts[0], mapping).0 < clamped(parts[0], mapping).1);
        }
        if exists|i: int| 0 <= i < rest.len() && (#[trigger] rest[i]).0 <= k < rest[i].1 {
            let i = choose|i: int| 0 <= i < rest.len() && (#[trigger] rest[i]).0 <= k < rest[i].1;
            assert(parts[i + 1].0 <= k < parts[i + 1].1);
        }
        if exists|i: int|
            0 <= i < rest.len() && clamped(#[trigger] rest[i], mapping).0 < clamped(rest[i], mapping).1 {
            let i = choose|i: int|
                0 <= i < rest.len() && clamped(#[trigger] rest[i], mapping).0 < clamped(
                    rest[i],
                    mapping,
                ).1;
            assert(clamped(parts[i + 1], mapping).0 < clamped(parts[i + 1], mapping).1);
        }
    }
}

/// A marked mapping that a fork wipes in place: private, no mere reservation, and writable.
pub open spec fn is_wipeable(flags: VmFlags) -> bool {
    flags.bits & 0x8 == 0 && flags.bits & 0x200 == 0 && flags.bits & 0x2 != 0
}

/// Wiping marked memory in place keeps every address mapped as it was. It touches only addresses that
/// the caller named of a mapping that is private, writable and no mere reservation; and without such a
/// mapping it counts nothing.
pub proof fn lemma_wiping_is_confined<
    P: PageManagementProvider<ALIGN>,
    const ALIGN: usize,
    F: Fn(Range<usize>, VmFlags) -> Vec<Range<usize>>,
>(
    platform: &P,
    before: VmemModel,
    mappings: Seq<(int, int, VmFlags)>,
    restrict: F,
    so_far: usize,
    after: VmemModel,
    wiped: usize,
    k: int,
)
    requires
        mappings_wiped(platform, before, mappings, restrict, so_far, after, wiped),
        forall|i: int|
            0 <= i < mappings.len() ==> 0 <= (#[trigger] mappings[i]).0 <= mappings[i].1 <= usize::MAX,
    ensures
        is_renewed(before.areas, after.areas, k),
        lookup(after.areas, k) != lookup(before.areas, k) ==> exists|i: int, parts: Vec<Range<usize>>|
            0 <= i < mappings.len() && is_wipeable(mappings[i].2) && #[trigger] is_named(
                restrict,
                mappings[i],
                parts,
                k,
            ),
        wiped != so_far ==> exists|i: int|
            0 <= i < mappings.len() && is_wipeable((#[trigger] mappings[i]).2),
    decreases mappings.len(),
{
    reveal(mappings_wiped);
    if mappings.len() > 0 {
        let (start, end, flags) = mappings[0];
        let rest = mappings.drop_first();
        lemma_single_flag(flags.bits);
        assert forall|i: int| 0 <= i < rest.len() implies 0 <= (#[trigger] rest[i]).0 <= rest[i].1
            <= usize::MAX && rest[i] == mappings[i + 1] by {}
        let (middle, count) = if !is_wipeable(flags) {
            (before, so_far)
        } else {
            let (parts, mid, count) = choose|parts: Vec<Range<usize>>, mid: VmemModel, count: usize|
                #[trigger] call_ensures(restrict, (span(start, end), flags), parts)
                    && #[trigger] parts_wiped(
                    platform,
                    before,
                    (start, end),
                    spans(parts@),
                    so_far,
                    mid,
                    count,
                ) && mappings_wiped(platform, mid, rest, restrict, count, after, wiped);
            assert(0 <= mappings[0].0 <= mappings[0].1 <= usize::MAX);
            lemma_parts_wiped(
                platform,
                before,
                (start, end),
                spans(parts@),
                so_far,
                mid,
                count,
                k,
            );
            if lookup(mid.areas, k) != lookup(before.areas, k) {
                let list = spans(parts@);
                let i = choose|i: int| 0 <= i < list.len() && (#[trigger] list[i]).0 <= k < list[i].1;
                assert(parts@[i].start <= k < parts@[i].end);
                assert(is_named(restrict, mappings[0], parts, k));
            }
            (mid, count)
        };
        lemma_wiping_is_confined(platform, middle, rest, restrict, count, after, wiped, k);
        if exists|i: int, parts: Vec<Range<usize>>|
            0 <= i < rest.len() && is_wipeable(rest[i].2) && #[trigger] is_named(
                restrict,
                rest[i],
                parts,
                k,
            ) {
            let (i, parts) = choose|i: int, parts: Vec<Range<usize>>|
                0 <= i < rest.len() && is_wipeable(rest[i].2) && #[trigger] is_named(
                    restrict,
                    rest[i],
                    parts,
                    k,
                );
            assert(is_named(restrict, mappings[i + 1], parts, k));
        }
        if exists|i: int| 0 <= i < rest.len() && is_wipeable((#[trigger] rest[i]).2) {
            let i = choose|i: int| 0 <= i < rest.len() && is_wipeable((#[trigger] rest[i]).2);
            assert(is_wipeable(mappings[i + 1].2));
        }
        if count != so_far {
            assert(is_wipeable(mappings[0].2));
        }
    }
}

/// A forked child's view is given fresh pages only for marked mappings that are private and no mere
/// reservation: without one the domain does not change, and nothing is counted.
pub proof fn lemma_child_view_is_wiped_where_marked<
    P: PageManagementProvider<ALIGN>,
    const ALIGN: usize,
    F: Fn(Range<usize>, VmFlags) -> Vec<Range<usize>>,
>(
    before: DomainModel,
    view: VmViewId,
    mappings: Seq<(int, int, VmFlags)>,
    restrict: F,
    so_far: usize,
    after: DomainModel,
    wiped: usize,
)
    requires
        mappings_renewed::<P, ALIGN, F>(before, view, mappings, restrict, so_far, after, wiped),
        forall|i: int|
            0 <= i < mappings.len() ==> (#[trigger] mappings[i]).2.bits & 0x8 != 0 || mappings[i].2.bits & 0x200
                != 0,
    ensures
        after == before,
        wiped == so_far,
    decreases mappings.len(),
{
    reveal(mappings_renewed);
    if mappings.len() > 0 {
        let rest = mappings.drop_first();
        lemma_single_flag(mappings[0].2.bits);
        assert(mappings[0].2.bits & 0x8 != 0 || mappings[0].2.bits & 0x200 != 0);
        assert forall|i: int| 0 <= i < rest.len() implies (#[trigger] rest[i]).2.bits & 0x8 != 0
            || rest[i].2.bits & 0x200 != 0 by {
            assert(rest[i] == mappings[i + 1]);
        }
        lemma_child_view_is_wiped_where_marked::<P, ALIGN, F>(
            before,
            view,
            rest,
            restrict,
            so_far,
            after,
            wiped,
        );
    }
}

/// A marked mapping that is private, writable and no mere reservation is renewed wherever the caller
/// names all of it, and its bytes are counted if that succeeds.
pub proof fn lemma_named_mapping_is_wiped<
    P: PageManagementProvider<ALIGN>,
    const ALIGN: usize,
    F: Fn(Range<usize>, VmFlags) -> Vec<Range<usize>>,
>(
    platform: &P,
    before: VmemModel,
    mapping: (int, int, VmFlags),
    restrict: F,
    after: VmemModel,
    wiped: usize,
)
    requires
        mappings_wiped(platform, before, seq![mapping], restrict, 0, after, wiped),
        0 <= mapping.0 < mapping.1 <= usize::MAX,
        mapping.0 % ALIGN as int == 0,
        mapping.1 % ALIGN as int == 0,
        ALIGN > 0,
        is_wipeable(mapping.2),
        forall|parts: Vec<Range<usize>>| #[trigger]
            call_ensures(
                restrict,
                (Range { start: mapping.0 as usize, end: mapping.1 as usize }, mapping.2),
                parts,
            ) ==> parts@.len() == 1 && parts@[0].start == mapping.0 && parts@[0].end == mapping.1,
    ensures
        exists|outcome: Result<(), VmemResetError>| #[trigger]
            reset(platform, before, mapping.0, mapping.1, after, outcome) && wiped == (if outcome is Ok {
                mapping.1 - mapping.0
            } else {
                0
            }),
{
    reveal_with_fuel(mappings_wiped, 2);
    reveal_with_fuel(parts_wiped, 2);
    let (start, end, flags) = mapping;
    let list = seq![mapping];
    lemma_single_flag(flags.bits);
    assert(list[0] == mapping);
    let (parts, mid, count) = choose|parts: Vec<Range<usize>>, mid: VmemModel, count: usize|
        #[trigger] call_ensures(restrict, (span(start, end), flags), parts) && #[trigger] parts_wiped(
            platform,
            before,
            (start, end),
            spans(parts@),
            0,
            mid,
            count,
        ) && mappings_wiped(platform, mid, list.drop_first(), restrict, count, after, wiped);
    assert(list.drop_first().len() == 0);
    assert(spans(parts@)[0] == (start, end));
    assert(clamped(spans(parts@)[0], (start, end)) == (start, end));
    assert(spans(parts@).drop_first().len() == 0);
    let (done, outcome) = choose|done: VmemModel, outcome: Result<(), VmemResetError>| #[trigger]
        reset(platform, before, start, end, done, outcome) && parts_wiped(
            platform,
            done,
            (start, end),
            spans(parts@).drop_first(),
            if outcome is Ok {
                0usize.wrapping_add((end - start) as usize)
            } else {
                0
            },
            mid,
            count,
        );
    assert(reset(platform, before, mapping.0, mapping.1, after, outcome));
}

} // verus!
