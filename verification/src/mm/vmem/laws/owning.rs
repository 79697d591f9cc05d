//! Who owns an address: the callback that initializes it, and the view that holds it back.
use crate::mm::area::{InitializationId, VmArea};
use crate::mm::errors::VmemUnmapError;
use crate::platform::page_mgmt::PageManagementProvider;
use vstd::prelude::*;

verus! {

use crate::mm::vmem::effects::unmapped;
use crate::mm::vmem::initialization::{
    claimed, cleaned_up, cleanup_answered, first_refusal, owned_by, owned_pieces, owns, piece_removed,
    torn_down,
};
use crate::mm::vmem::placement::{release, reserve};
use crate::mm::vmem::{invalidated, VmemModel};
use crate::range_map::{covered, lemma_pieces, lookup, pieces, uniform};

broadcast use {
    crate::range_map::lemma_lookup_put,
    crate::range_map::lemma_lookup_cut,
    crate::range_map::lemma_lookup_revise,
};

/// A view holds an address back.
pub open spec fn holds(reserved: Map<u64, Set<int>>, view: u64, k: int) -> bool {
    reserved.dom().contains(view) && reserved[view].contains(k)
}

/// Reserving a range makes its owner hold it, besides what it held, and nobody else anything.
pub proof fn lemma_reservation_is_added(
    reserved: Map<u64, Set<int>>,
    owner: u64,
    start: int,
    end: int,
    view: u64,
    k: int,
)
    ensures
        holds(reserve(reserved, owner, start, end), view, k) <==> holds(reserved, view, k) || (view
            == owner && start <= k < end),
{
}

/// Releasing a range makes its owner let go of it and of nothing else, and nobody else of anything; an
/// owner that has nothing left is not listed any more.
pub proof fn lemma_release_lets_go(
    reserved: Map<u64, Set<int>>,
    owner: u64,
    start: int,
    end: int,
    view: u64,
    k: int,
)
    ensures
        holds(release(reserved, owner, start, end), view, k) <==> holds(reserved, view, k) && !(view
            == owner && start <= k < end),
        start < end && (forall|j: int| #[trigger] holds(reserved, owner, j) ==> start <= j < end)
            ==> !release(reserved, owner, start, end).dom().contains(owner),
{
    let left = crate::mm::vmem::placement::held_by(reserved, owner).difference(
        Set::new(|k: int| start <= k < end),
    );
    if reserved.dom().contains(owner) {
        if left == Set::<int>::empty() {
            assert(!left.contains(k));
        }
        if start < end && (forall|j: int| #[trigger] holds(reserved, owner, j) ==> start <= j < end) {
            assert forall|j: int| !left.contains(j) by {
                if left.contains(j) {
                    assert(holds(reserved, owner, j));
                }
            }
            assert(left =~= Set::<int>::empty());
        }
    }
}

/// A callback owns a range exactly if it owns every address of it.
pub proof fn lemma_ownership_is_of_every_address(
    m: VmemModel,
    start: int,
    end: int,
    identity: InitializationId,
)
    ensures
        owns(m, start, end, identity) <==> forall|k: int|
            start <= k < end ==> #[trigger] lookup(m.pending, k) == Some(identity),
{
}

/// A mapping that is handed to a callback belongs to it in the table and in the mapping itself, and
/// nothing else changes: the callback can finish it. When it does, no address of the range is being
/// initialized, and the mapping is as it was.
pub proof fn lemma_claim_and_finish(
    before: VmemModel,
    start: int,
    end: int,
    identity: InitializationId,
    k: int,
)
    requires
        start < end,
        lookup(before.areas, start) matches Some(area) && uniform(before.areas, start, end, area),
    ensures
        owns(claimed(before, start, end, identity), start, end, identity),
        start <= k < end ==> {
            let held = lookup(claimed(before, start, end, identity).areas, k);
            let done = lookup(invalidated(claimed(before, start, end, identity), start, end).areas, k);
            &&& lookup(claimed(before, start, end, identity).pending, k) == Some(identity)
            &&& lookup(invalidated(claimed(before, start, end, identity), start, end).pending, k) is None
            &&& held == Some(VmArea { initialization: Some(identity), ..before.areas[k] })
            &&& done == Some(VmArea { initialization: None, ..before.areas[k] })
        },
        !(start <= k < end) ==> {
            let held = claimed(before, start, end, identity);
            let done = invalidated(held, start, end);
            &&& lookup(held.areas, k) == lookup(before.areas, k)
            &&& lookup(held.pending, k) == lookup(before.pending, k)
            &&& lookup(done.areas, k) == lookup(before.areas, k)
            &&& lookup(done.pending, k) == lookup(before.pending, k)
        },
{
    if start <= k < end {
        assert(lookup(before.areas, k) == lookup(before.areas, start));
    }
}

/// What a cleanup leaves of one address: what the callback did not own in the range is as it was, and
/// what it owned is gone or as it was.
pub open spec fn is_cleaned_at(
    before: VmemModel,
    range: (int, int),
    identity: InitializationId,
    after: VmemModel,
    k: int,
) -> bool {
    ||| lookup(after.areas, k) == lookup(before.areas, k) && lookup(after.pending, k) == lookup(
        before.pending,
        k,
    )
    ||| {
        &&& range.0 <= k < range.1
        &&& lookup(before.pending, k) == Some(identity)
        &&& lookup(after.areas, k) is None
        &&& lookup(after.pending, k) is None
    }
}

/// What tearing pieces down leaves.
proof fn lemma_torn_down(
    m: VmemModel,
    list: Seq<(int, int, InitializationId)>,
    answers: Seq<Result<(), VmemUnmapError>>,
    k: int,
)
    requires
        list.len() == answers.len(),
    ensures
        !covered(list, k) ==> lookup(torn_down(m, list, answers).areas, k) == lookup(m.areas, k)
            && lookup(torn_down(m, list, answers).pending, k) == lookup(m.pending, k),
        (lookup(torn_down(m, list, answers).areas, k) is None && lookup(
            torn_down(m, list, answers).pending,
            k,
        ) is None) || (lookup(torn_down(m, list, answers).areas, k) == lookup(m.areas, k) && lookup(
            torn_down(m, list, answers).pending,
            k,
        ) == lookup(m.pending, k)),
        first_refusal(answers) is Ok && covered(list, k) ==> lookup(
            torn_down(m, list, answers).areas,
            k,
        ) is None && lookup(torn_down(m, list, answers).pending, k) is None,
        first_refusal(answers) is Ok <==> forall|i: int|
            0 <= i < answers.len() ==> (#[trigger] answers[i]) is Ok,
    decreases list.len(),
{
    if list.len() > 0 {
        let (less, fewer) = (list.drop_last(), answers.drop_last());
        lemma_torn_down(m, less, fewer, k);
        let (start, end, _) = list.last();
        if covered(less, k) {
            let i = choose|i: int| 0 <= i < less.len() && (#[trigger] less[i]).0 <= k < less[i].1;
            assert(list[i].0 <= k < list[i].1);
        }
        if start <= k < end {
            assert(list[list.len() - 1].0 <= k < list[list.len() - 1].1);
        }
        if covered(list, k) && !(start <= k < end) {
            let i = choose|i: int| 0 <= i < list.len() && (#[trigger] list[i]).0 <= k < list[i].1;
            assert(less[i].0 <= k < less[i].1);
        }
        assert forall|i: int| (forall|j: int| 0 <= j < answers.len() ==> (#[trigger] answers[j]) is Ok) && 0
            <= i < fewer.len() implies (#[trigger] fewer[i]) is Ok by {
            assert(fewer[i] == answers[i]);
        }
        if first_refusal(answers) is Ok {
            assert forall|i: int| 0 <= i < answers.len() implies (#[trigger] answers[i]) is Ok by {
                if i < fewer.len() {
                    assert(fewer[i] is Ok);
                }
            }
        } else if forall|j: int| 0 <= j < answers.len() ==> (#[trigger] answers[j]) is Ok {
            assert(answers[answers.len() - 1] is Ok);
            assert forall|i: int| 0 <= i < fewer.len() implies (#[trigger] fewer[i]) is Ok by {
                assert(answers[i] is Ok);
            }
        }
    }
}

/// The pieces that a callback owns.
proof fn lemma_owned(
    list: Seq<(int, int, InitializationId)>,
    identity: InitializationId,
)
    ensures
        forall|i: int|
            0 <= i < owned_pieces(list, identity).len() ==> list.contains(
                #[trigger] owned_pieces(list, identity)[i],
            ) && owned_pieces(list, identity)[i].2 == identity,
        forall|j: int|
            0 <= j < list.len() && (#[trigger] list[j]).2 == identity ==> owned_pieces(
                list,
                identity,
            ).contains(list[j]),
    decreases list.len(),
{
    reveal(Seq::filter);
    let pick = owned_by(identity);
    if list.len() > 0 {
        let less = list.drop_last();
        lemma_owned(less, identity);
        let (before, picked) = (owned_pieces(less, identity), owned_pieces(list, identity));
        assert forall|i: int| 0 <= i < picked.len() implies list.contains(#[trigger] picked[i])
            && picked[i].2 == identity by {
            if i < before.len() {
                assert(picked[i] == before[i]);
                let j = choose|j: int| 0 <= j < less.len() && less[j] == before[i];
                assert(list[j] == before[i]);
            } else {
                assert(list[list.len() - 1] == picked[i]);
            }
        }
        assert forall|j: int| 0 <= j < list.len() && (#[trigger] list[j]).2 == identity implies picked.contains(
            list[j],
        ) by {
            if j < less.len() {
                assert(less[j] == list[j]);
                assert(before.contains(less[j]));
                let i = choose|i: int| 0 <= i < before.len() && before[i] == less[j];
                assert(picked[i] == before[i]);
            } else {
                assert(picked[before.len() as int] == list[j]);
            }
        }
    }
}

/// A cleanup takes away what its callback owned in the range and nothing else: addresses of other
/// callbacks, and those that nobody initializes, are as they were. Where it succeeds nothing is left of
/// what the callback owned there.
pub proof fn lemma_cleanup_is_confined<P: PageManagementProvider<ALIGN>, const ALIGN: usize>(
    platform: &P,
    before: VmemModel,
    range: (int, int),
    identity: InitializationId,
    after: VmemModel,
    result: Result<(), VmemUnmapError>,
    k: int,
)
    requires
        range.0 < range.1,
        cleaned_up(platform, before, range, identity, after, result),
    ensures
        is_cleaned_at(before, range, identity, after, k),
        result is Ok && range.0 <= k < range.1 && lookup(before.pending, k) == Some(identity) ==> lookup(
            after.areas,
            k,
        ) is None && lookup(after.pending, k) is None,
{
    let list = pieces(before.pending, range.0, range.1);
    lemma_pieces(before.pending, range.0, range.1);
    let owned = owned_pieces(list, identity);
    let answers = choose|answers: Seq<Result<(), VmemUnmapError>>| #[trigger]
        cleanup_answered(platform, before, range, identity, after, result, answers);
    lemma_owned(list, identity);
    lemma_torn_down(before, owned, answers, k);
    if covered(owned, k) {
        let i = choose|i: int| 0 <= i < owned.len() && (#[trigger] owned[i]).0 <= k < owned[i].1;
        let j = choose|j: int| 0 <= j < list.len() && list[j] == owned[i];
        assert(lookup(before.pending, k) == Some(list[j].2));
    }
    if range.0 <= k < range.1 && lookup(before.pending, k) == Some(identity) {
        assert(covered(list, k));
        let j = choose|j: int| 0 <= j < list.len() && (#[trigger] list[j]).0 <= k < list[j].1;
        assert(lookup(before.pending, k) == Some(list[j].2));
        assert(owned.contains(list[j]));
        let i = choose|i: int| 0 <= i < owned.len() && owned[i] == list[j];
        assert(owned[i].0 <= k < owned[i].1);
        assert(covered(owned, k));
    }
}

} // verus!
