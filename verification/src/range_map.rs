//! The interval map of the `rangemap` crate, as the rest of the library sees it.
//!
//! A map from half-open address ranges to words is described by what it says of each single
//! address: `stored` gives the words that an address maps to. The crate coalesces touching ranges
//! with equal words, so the ranges it hands out are the maximal runs of that pointwise map.
use rangemap::RangeMap;
use vstd::prelude::*;

verus! {

/// `rangemap::RangeMap`, carried as an opaque value.
#[verifier::external_type_specification]
#[verifier::external_body]
#[verifier::reject_recursive_types(K)]
#[verifier::reject_recursive_types(V)]
pub struct ExRangeMap<K, V>(rangemap::RangeMap<K, V>);

/// What a range map holds: the words stored at each covered address.
pub uninterp spec fn stored(map: RangeMap<usize, Vec<u64>>) -> Map<int, Seq<u64>>;

/// What a pointwise map says of one address.
pub open spec fn lookup<M>(map: Map<int, M>, address: int) -> Option<M> {
    if map.dom().contains(address) {
        Some(map[address])
    } else {
        None
    }
}

/// The map after every address of `[start, end)` was set to `value`.
pub open spec fn put<M>(map: Map<int, M>, start: int, end: int, value: M) -> Map<int, M> {
    Map::new(
        |k: int| start <= k < end || map.dom().contains(k),
        |k: int| if start <= k < end { value } else { map[k] },
    )
}

/// The map after every address of `[start, end)` was forgotten.
pub open spec fn cut<M>(map: Map<int, M>, start: int, end: int) -> Map<int, M> {
    Map::new(|k: int| !(start <= k < end) && map.dom().contains(k), |k: int| map[k])
}

/// Every address of `[start, end)` maps to `value`.
pub open spec fn uniform<M>(map: Map<int, M>, start: int, end: int, value: M) -> bool {
    forall|k: int| start <= k < end ==> #[trigger] lookup(map, k) == Some(value)
}

/// `[start, end)` is a maximal non-empty run of addresses that map to `value`.
pub open spec fn is_run<M>(map: Map<int, M>, start: int, end: int, value: M) -> bool {
    &&& start < end
    &&& uniform(map, start, end, value)
    &&& lookup(map, start - 1) != Some(value)
    &&& lookup(map, end) != Some(value)
}

/// Around an address that a bounded map holds there is a run.
pub proof fn lemma_run_around<M>(map: Map<int, M>, k: int, low: int, high: int) -> (run: (int, int))
    requires
        lookup(map, k) is Some,
        forall|j: int| #[trigger] lookup(map, j) is Some ==> low <= j < high,
    ensures
        run.0 <= k < run.1,
        is_run(map, run.0, run.1, lookup(map, k)->0),
{
    (lemma_run_start(map, k, low), lemma_run_end(map, k, high))
}

proof fn lemma_run_start<M>(map: Map<int, M>, k: int, low: int) -> (start: int)
    requires
        lookup(map, k) is Some,
        forall|j: int| #[trigger] lookup(map, j) is Some ==> low <= j,
    ensures
        start <= k,
        lookup(map, start - 1) != lookup(map, k),
        forall|j: int| start <= j <= k ==> #[trigger] lookup(map, j) == lookup(map, k),
    decreases k - low,
{
    if lookup(map, k - 1) == lookup(map, k) {
        lemma_run_start(map, k - 1, low)
    } else {
        k
    }
}

proof fn lemma_run_end<M>(map: Map<int, M>, k: int, high: int) -> (end: int)
    requires
        lookup(map, k) is Some,
        forall|j: int| #[trigger] lookup(map, j) is Some ==> j < high,
    ensures
        k < end,
        lookup(map, end) != lookup(map, k),
        forall|j: int| k <= j < end ==> #[trigger] lookup(map, j) == lookup(map, k),
    decreases high - k,
{
    if lookup(map, k + 1) == lookup(map, k) {
        lemma_run_end(map, k + 1, high)
    } else {
        k + 1
    }
}

/// `[start, end)` shares its extent with some run entry of `list` at `address`.
pub open spec fn covered<M>(list: Seq<(int, int, M)>, address: int) -> bool {
    exists|i: int| 0 <= i < list.len() && (#[trigger] list[i]).0 <= address < list[i].1
}

/// `list` holds, in address order, the maximal runs of `map` that reach into `[start, end)`.
pub open spec fn runs_of<M>(list: Seq<(int, int, M)>, map: Map<int, M>, start: int, end: int) -> bool {
    &&& forall|i: int|
        0 <= i < list.len() ==> is_run(map, (#[trigger] list[i]).0, list[i].1, list[i].2)
            && list[i].0 < end && start < list[i].1
    &&& forall|i: int, j: int|
        0 <= i < j < list.len() ==> (#[trigger] list[i]).1 <= (#[trigger] list[j]).0
    &&& forall|k: int|
        start <= k < end && #[trigger] lookup(map, k) is Some ==> covered(list, k)
}

/// Reading back one address after a range was set.
pub broadcast proof fn lemma_lookup_put<M>(map: Map<int, M>, start: int, end: int, value: M, k: int)
    ensures
        #[trigger] lookup(put(map, start, end, value), k) == (if start <= k < end {
            Some(value)
        } else {
            lookup(map, k)
        }),
{
}

/// Reading back one address after a range was forgotten.
pub broadcast proof fn lemma_lookup_cut<M>(map: Map<int, M>, start: int, end: int, k: int)
    ensures
        #[trigger] lookup(cut(map, start, end), k) == (if start <= k < end {
            None
        } else {
            lookup(map, k)
        }),
{
}

/// Two pointwise maps that answer every lookup alike are the same map.
pub proof fn lemma_same_lookups<M>(a: Map<int, M>, b: Map<int, M>)
    requires
        forall|k: int| #[trigger] lookup(a, k) == lookup(b, k),
    ensures
        a == b,
{
    assert forall|k: int| a.dom().contains(k) == b.dom().contains(k) by {
        assert(lookup(a, k) == lookup(b, k));
    }
    assert forall|k: int| a.dom().contains(k) implies a[k] == b[k] by {
        assert(lookup(a, k) == lookup(b, k));
    }
    assert(a =~= b);
}

/// `list` holds, in address order, the maximal runs of `map` inside `[start, end)`: the runs that
/// reach into it, cut off at its edges.
pub open spec fn pieces_of<M>(list: Seq<(int, int, M)>, map: Map<int, M>, start: int, end: int) -> bool {
    &&& forall|i: int|
        0 <= i < list.len() ==> start <= (#[trigger] list[i]).0 < list[i].1 <= end && uniform(
            map,
            list[i].0,
            list[i].1,
            list[i].2,
        ) && (list[i].0 == start || lookup(map, list[i].0 - 1) != Some(list[i].2)) && (list[i].1 == end
            || lookup(map, list[i].1) != Some(list[i].2))
    &&& forall|i: int, j: int|
        0 <= i < j < list.len() ==> (#[trigger] list[i]).1 <= (#[trigger] list[j]).0
    &&& forall|k: int|
        start <= k < end && #[trigger] lookup(map, k) is Some ==> covered(list, k)
}

/// The map after `f` was applied to what every address of `[start, end)` maps to.
pub open spec fn revise<M>(map: Map<int, M>, start: int, end: int, f: spec_fn(M) -> M) -> Map<int, M> {
    Map::new(
        |k: int| map.dom().contains(k),
        |k: int| if start <= k < end { f(map[k]) } else { map[k] },
    )
}

/// Reading back one address after a range was revised.
pub broadcast proof fn lemma_lookup_revise<M>(
    map: Map<int, M>,
    start: int,
    end: int,
    f: spec_fn(M) -> M,
    k: int,
)
    ensures
        #[trigger] lookup(revise(map, start, end, f), k) == (match lookup(map, k) {
            Some(value) => Some(if start <= k < end { f(value) } else { value }),
            None => None,
        }),
{
}

/// A pointwise map has one list of pieces: its maximal runs leave no freedom.
pub proof fn lemma_pieces_unique<M>(
    a: Seq<(int, int, M)>,
    b: Seq<(int, int, M)>,
    map: Map<int, M>,
    start: int,
    end: int,
)
    requires
        pieces_of(a, map, start, end),
        pieces_of(b, map, start, end),
    ensures
        a == b,
{
    lemma_pieces_prefix(a, b, map, start, end, a.len() as int);
    if a.len() < b.len() {
        let k = b[a.len() as int].0;
        assert(lookup(map, k) == Some(b[a.len() as int].2));
        assert(covered(a, k));
        let i = choose|i: int| 0 <= i < a.len() && (#[trigger] a[i]).0 <= k < a[i].1;
        assert(a[i] == b[i]);
        assert(b[i].1 <= b[a.len() as int].0);
    }
    assert(a =~= b);
}

proof fn lemma_pieces_prefix<M>(
    a: Seq<(int, int, M)>,
    b: Seq<(int, int, M)>,
    map: Map<int, M>,
    start: int,
    end: int,
    n: int,
)
    requires
        pieces_of(a, map, start, end),
        pieces_of(b, map, start, end),
        0 <= n <= a.len(),
    ensures
        n <= b.len(),
        forall|i: int| 0 <= i < n ==> #[trigger] a[i] == b[i],
    decreases n,
{
    if n > 0 {
        lemma_pieces_prefix(a, b, map, start, end, n - 1);
        let x = a[n - 1];
        assert(lookup(map, x.0) == Some(x.2));
        assert(covered(b, x.0));
        let j = choose|j: int| 0 <= j < b.len() && (#[trigger] b[j]).0 <= x.0 < b[j].1;
        if j < n - 1 {
            assert(a[j] == b[j]);
            assert(a[j].1 <= a[n - 1].0);
        }
        let y = b[n - 1];
        assert(y.0 <= x.0) by {
            if j > n - 1 {
                assert(b[n - 1].1 <= b[j].0);
            }
        }
        assert(lookup(map, y.0) == Some(y.2));
        assert(covered(a, y.0));
        let i = choose|i: int| 0 <= i < a.len() && (#[trigger] a[i]).0 <= y.0 < a[i].1;
        if i < n - 1 {
            assert(a[i] == b[i]);
            assert(b[i].1 <= b[n - 1].0);
        }
        if i > n - 1 {
            assert(a[n - 1].1 <= a[i].0);
        }
        assert(x.0 == y.0);
        assert(x.2 == y.2);
        if x.1 < y.1 {
            assert(lookup(map, x.1) == Some(y.2));
        }
        if y.1 < x.1 {
            assert(lookup(map, y.1) == Some(x.2));
        }
        assert(a[n - 1] == b[n - 1]);
    }
}

/// Every range of a pointwise map has a list of pieces.
pub proof fn lemma_pieces_exist<M>(map: Map<int, M>, start: int, end: int) -> (list: Seq<(int, int, M)>)
    requires
        start <= end,
    ensures
        pieces_of(list, map, start, end),
    decreases end - start,
{
    if start == end {
        Seq::empty()
    } else {
        let shorter = lemma_pieces_exist(map, start, end - 1);
        let k = end - 1;
        let n = shorter.len() as int;
        if n > 0 {
            assert(shorter[n - 1].1 <= k);
        }
        match lookup(map, k) {
            None => {
                assert forall|x: int| start <= x < end && #[trigger] lookup(map, x) is Some implies covered(
                    shorter,
                    x,
                ) by {}
                shorter
            },
            Some(v) => {
                if n > 0 && shorter[n - 1].1 == k && shorter[n - 1].2 == v {
                    let last = shorter[n - 1];
                    let list = shorter.update(n - 1, (last.0, end, v));
                    assert forall|i: int| 0 <= i < list.len() implies start <= (#[trigger] list[i]).0
                        < list[i].1 <= end && uniform(map, list[i].0, list[i].1, list[i].2) && (list[i].0
                        == start || lookup(map, list[i].0 - 1) != Some(list[i].2)) && (list[i].1 == end
                        || lookup(map, list[i].1) != Some(list[i].2)) by {
                        assert(shorter[i].1 <= k);
                        if i < n - 1 {
                            assert(shorter[i].1 <= shorter[n - 1].0);
                        }
                    }
                    assert forall|i: int, j: int| 0 <= i < j < list.len() implies (#[trigger] list[i]).1 <= (
                    #[trigger] list[j]).0 by {
                        assert(shorter[i].1 <= shorter[j].0);
                    }
                    assert forall|x: int| start <= x < end && #[trigger] lookup(map, x) is Some implies covered(
                        list,
                        x,
                    ) by {
                        if x == k {
                            assert(list[n - 1].0 <= x < list[n - 1].1);
                        } else {
                            assert(covered(shorter, x));
                            let i = choose|i: int|
                                0 <= i < shorter.len() && (#[trigger] shorter[i]).0 <= x < shorter[i].1;
                            assert(list[i].0 <= x < list[i].1);
                        }
                    }
                    list
                } else {
                    let list = shorter.push((k, end, v));
                    assert(k == start || lookup(map, k - 1) != Some(v)) by {
                        if k > start && lookup(map, k - 1) == Some(v) {
                            assert(covered(shorter, k - 1));
                            let i = choose|i: int|
                                0 <= i < shorter.len() && (#[trigger] shorter[i]).0 <= k - 1 < shorter[i].1;
                            assert(shorter[i].1 == k);
                            if i < n - 1 {
                                assert(shorter[i].1 <= shorter[n - 1].0);
                            }
                            assert(lookup(map, k - 1) == Some(shorter[i].2));
                        }
                    }
                    assert forall|i: int| 0 <= i < list.len() implies start <= (#[trigger] list[i]).0
                        < list[i].1 <= end && uniform(map, list[i].0, list[i].1, list[i].2) && (list[i].0
                        == start || lookup(map, list[i].0 - 1) != Some(list[i].2)) && (list[i].1 == end
                        || lookup(map, list[i].1) != Some(list[i].2)) by {
                        if i < n {
                            assert(shorter[i] == list[i]);
                            if i < n - 1 {
                                assert(shorter[i].1 <= shorter[n - 1].0);
                            }
                        }
                    }
                    assert forall|i: int, j: int| 0 <= i < j < list.len() implies (#[trigger] list[i]).1 <= (
                    #[trigger] list[j]).0 by {
                        assert(shorter[i] == list[i]);
                    }
                    assert forall|x: int| start <= x < end && #[trigger] lookup(map, x) is Some implies covered(
                        list,
                        x,
                    ) by {
                        if x == k {
                            assert(list[n].0 <= x < list[n].1);
                        } else {
                            assert(covered(shorter, x));
                            let i = choose|i: int|
                                0 <= i < shorter.len() && (#[trigger] shorter[i]).0 <= x < shorter[i].1;
                            assert(list[i].0 <= x < list[i].1);
                        }
                    }
                    list
                }
            },
        }
    }
}

/// The pieces of a range of a pointwise map: its maximal runs, cut off at the edges of the range.
pub open spec fn pieces<M>(map: Map<int, M>, start: int, end: int) -> Seq<(int, int, M)> {
    choose|list: Seq<(int, int, M)>| pieces_of(list, map, start, end)
}

/// The pieces of a range are the only list of their kind.
pub proof fn lemma_pieces<M>(map: Map<int, M>, start: int, end: int)
    requires
        start <= end,
    ensures
        pieces_of(pieces(map, start, end), map, start, end),
        forall|list: Seq<(int, int, M)>| #[trigger]
            pieces_of(list, map, start, end) ==> list == pieces(map, start, end),
{
    let list = lemma_pieces_exist(map, start, end);
    let chosen = pieces(map, start, end);
    assert forall|list: Seq<(int, int, M)>| #[trigger] pieces_of(list, map, start, end) implies list
        == chosen by {
        lemma_pieces_unique(list, chosen, map, start, end);
    }
}

/// Cutting the runs that reach into a range off at its edges gives its pieces.
pub proof fn lemma_clip<M>(
    runs: Seq<(int, int, M)>,
    pieces: Seq<(int, int, M)>,
    map: Map<int, M>,
    start: int,
    end: int,
)
    requires
        start < end,
        runs_of(runs, map, start, end),
        pieces.len() == runs.len(),
        forall|i: int|
            0 <= i < runs.len() ==> (#[trigger] pieces[i]).0 == (if runs[i].0 < start {
                start
            } else {
                runs[i].0
            }) && pieces[i].1 == (if runs[i].1 > end {
                end
            } else {
                runs[i].1
            }) && pieces[i].2 == runs[i].2,
    ensures
        pieces_of(pieces, map, start, end),
{
    assert forall|i: int| 0 <= i < pieces.len() implies start <= (#[trigger] pieces[i]).0 < pieces[i].1
        <= end && uniform(map, pieces[i].0, pieces[i].1, pieces[i].2) && (pieces[i].0 == start || lookup(
        map,
        pieces[i].0 - 1,
    ) != Some(pieces[i].2)) && (pieces[i].1 == end || lookup(map, pieces[i].1) != Some(pieces[i].2)) by {
        assert(is_run(map, runs[i].0, runs[i].1, runs[i].2));
    }
    assert forall|i: int, j: int| 0 <= i < j < pieces.len() implies (#[trigger] pieces[i]).1 <= (
    #[trigger] pieces[j]).0 by {
        assert(runs[i].1 <= runs[j].0);
    }
    assert forall|k: int| start <= k < end && #[trigger] lookup(map, k) is Some implies covered(
        pieces,
        k,
    ) by {
        assert(covered(runs, k));
        let i = choose|i: int| 0 <= i < runs.len() && (#[trigger] runs[i]).0 <= k < runs[i].1;
        assert(pieces[i].0 <= k < pieces[i].1);
    }
}

/// The entries of an executable list, as mathematical values.
pub open spec fn entries(list: Seq<(usize, usize, Vec<u64>)>) -> Seq<(int, int, Seq<u64>)> {
    Seq::new(list.len(), |i: int| (list[i].0 as int, list[i].1 as int, list[i].2@))
}

/// `RangeMap::new`: the new map covers no address.
#[verifier::external_body]
pub(crate) fn range_map_new() -> (map: RangeMap<usize, Vec<u64>>)
    ensures
        stored(map).dom() =~= Set::empty(),
{
    RangeMap::new()
}

/// `RangeMap::insert`: the given range maps to the given words afterwards, every other address
/// keeps what it had. The crate panics on an empty range.
#[verifier::external_body]
pub(crate) fn range_map_insert(map: &mut RangeMap<usize, Vec<u64>>, start: usize, end: usize, words: Vec<u64>)
    requires
        start < end,
    ensures
        stored(*final(map)) == put(stored(*old(map)), start as int, end as int, words@),
{
    map.insert(start..end, words)
}

/// `RangeMap::remove`: the given range is uncovered afterwards, every other address keeps what it
/// had. The crate panics on an empty range.
#[verifier::external_body]
pub(crate) fn range_map_remove(map: &mut RangeMap<usize, Vec<u64>>, start: usize, end: usize)
    requires
        start < end,
    ensures
        stored(*final(map)) == cut(stored(*old(map)), start as int, end as int),
{
    map.remove(start..end)
}

/// `RangeMap::get_key_value`: the whole coalesced range around a covered address and its words,
/// nothing for an uncovered one.
#[verifier::external_body]
pub(crate) fn range_map_get_key_value(map: &RangeMap<usize, Vec<u64>>, address: usize) -> (found: Option<
    (usize, usize, Vec<u64>),
>)
    ensures
        found is Some <==> stored(*map).dom().contains(address as int),
        found matches Some(entry) ==> entry.0 <= address < entry.1 && is_run(
            stored(*map),
            entry.0 as int,
            entry.1 as int,
            entry.2@,
        ),
{
    map.get_key_value(&address).map(|(range, words)| (range.start, range.end, words.clone()))
}

/// `RangeMap::overlapping`, collected: the stored coalesced ranges that reach into the given one,
/// in address order, each with its whole extent and its words.
#[verifier::external_body]
pub(crate) fn range_map_overlapping(map: &RangeMap<usize, Vec<u64>>, start: usize, end: usize) -> (found: Vec<
    (usize, usize, Vec<u64>),
>)
    ensures
        runs_of(entries(found@), stored(*map), start as int, end as int),
{
    map.overlapping(start..end).map(|(range, words)| (range.start, range.end, words.clone())).collect()
}

/// `RangeMap::gaps`, asked only whether it yields anything: some address of the given range is
/// uncovered.
#[verifier::external_body]
pub(crate) fn range_map_has_gap(map: &RangeMap<usize, Vec<u64>>, start: usize, end: usize) -> (found: bool)
    requires
        start < end,
    ensures
        found == (exists|k: int| start <= k < end && #[trigger] lookup(stored(*map), k) is None),
{
    map.gaps(&(start..end)).next().is_some()
}

} // verus!
