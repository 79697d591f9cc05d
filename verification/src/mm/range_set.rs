//! A set of addresses, kept as sorted ranges that neither overlap nor touch.
use vstd::prelude::*;

verus! {

/// A set of addresses.
pub struct RangeSet {
    ranges: Vec<(usize, usize)>,
}

/// Some range of the list holds the address.
pub open spec fn in_ranges(ranges: Seq<(usize, usize)>, address: int) -> bool {
    exists|i: int| 0 <= i < ranges.len() && (#[trigger] ranges[i]).0 <= address < ranges[i].1
}

/// Every range is non-empty and ends strictly before the next begins.
pub open spec fn separated(ranges: Seq<(usize, usize)>) -> bool {
    &&& forall|i: int| 0 <= i < ranges.len() ==> (#[trigger] ranges[i]).0 < ranges[i].1
    &&& forall|i: int, j: int|
        0 <= i < j < ranges.len() ==> (#[trigger] ranges[i]).1 < (#[trigger] ranges[j]).0
}

proof fn lemma_push(ranges: Seq<(usize, usize)>, range: (usize, usize))
    ensures
        forall|k: int| #[trigger]
            in_ranges(ranges.push(range), k) <==> in_ranges(ranges, k) || range.0 <= k < range.1,
{
    let longer = ranges.push(range);
    assert forall|k: int| #[trigger] in_ranges(longer, k) <==> in_ranges(ranges, k) || range.0 <= k
        < range.1 by {
        if in_ranges(ranges, k) {
            let i = choose|i: int| 0 <= i < ranges.len() && (#[trigger] ranges[i]).0 <= k < ranges[i].1;
            assert(longer[i] == ranges[i]);
        }
        if range.0 <= k < range.1 {
            assert(longer[ranges.len() as int] == range);
        }
        if in_ranges(longer, k) {
            let i = choose|i: int| 0 <= i < longer.len() && (#[trigger] longer[i]).0 <= k < longer[i].1;
            if i < ranges.len() {
                assert(longer[i] == ranges[i]);
            }
        }
    }
}

/// Replacing the ranges `[at.0, at.1)` of the list, which are those that overlap or touch a new
/// range, by their hull with it adds exactly the new range.
proof fn lemma_merge(
    before: Seq<(usize, usize)>,
    at: (int, int),
    new: (int, int),
    hull: (usize, usize),
    after: Seq<(usize, usize)>,
)
    requires
        separated(before),
        0 <= at.0 <= at.1 <= before.len(),
        new.0 < new.1,
        hull.0 <= new.0,
        hull.1 >= new.1,
        forall|j: int| 0 <= j < at.0 ==> (#[trigger] before[j]).1 < new.0,
        forall|j: int| at.0 <= j < at.1 ==> (#[trigger] before[j]).1 >= new.0 && before[j].0 <= new.1,
        at.1 < before.len() ==> before[at.1].0 > new.1,
        hull.0 == new.0 || (at.0 < at.1 && hull.0 == before[at.0].0),
        hull.1 == new.1 || (at.0 < at.1 && hull.1 == before[at.1 - 1].1),
        at.0 < at.1 ==> hull.0 <= before[at.0].0 && hull.1 >= before[at.1 - 1].1,
        after == before.take(at.0).push(hull) + before.subrange(at.1, before.len() as int),
    ensures
        separated(after),
        forall|k: int| #[trigger] in_ranges(after, k) <==> in_ranges(before, k) || new.0 <= k < new.1,
{
    let (first, next) = at;
    let (start, end) = new;
    let shift = first + 1 - next;
    assert(forall|j: int| 0 <= j < first ==> #[trigger] after[j] == before[j]);
    assert(after[first] == hull);
    assert(forall|j: int| first < j < after.len() ==> (#[trigger] after[j]) == before[j - shift]);
    assert forall|j: int| next <= j < before.len() implies (#[trigger] before[j]).0 > end by {
        if j > next {
            assert(before[next].1 < before[j].0);
            assert(before[next].0 < before[next].1);
        }
    }
    assert forall|a: int, b: int| 0 <= a < b < after.len() implies (#[trigger] after[a]).1 < (
    #[trigger] after[b]).0 by {
        let b0 = if b < first { b } else { b - shift };
        if a < first {
            if b == first {
                if first < next {
                    assert(before[a].1 < before[first].0);
                }
            } else {
                assert(before[a].1 < before[b0].0);
            }
        } else if a == first {
            assert(before[b0].0 > end);
            if first < next {
                assert(before[next - 1].1 < before[b0].0);
            }
        } else {
            assert(before[a - shift].1 < before[b0].0);
        }
    }
    assert forall|k: int| #[trigger] in_ranges(after, k) <==> in_ranges(before, k) || start <= k < end by {
        if in_ranges(before, k) {
            let j = choose|j: int| 0 <= j < before.len() && (#[trigger] before[j]).0 <= k < before[j].1;
            if j < first {
                assert(after[j] == before[j]);
            } else if j < next {
                if j > first {
                    assert(before[first].1 < before[j].0);
                    assert(before[first].0 < before[first].1);
                }
                if j < next - 1 {
                    assert(before[j].1 < before[next - 1].0);
                    assert(before[next - 1].0 < before[next - 1].1);
                }
                assert(after[first].0 <= k < after[first].1);
            } else {
                assert(after[j + shift] == before[j]);
            }
        }
        if start <= k < end {
            assert(after[first].0 <= k < after[first].1);
        }
        if in_ranges(after, k) {
            let j = choose|j: int| 0 <= j < after.len() && (#[trigger] after[j]).0 <= k < after[j].1;
            if j < first {
                assert(before[j].0 <= k < before[j].1);
            } else if j > first {
                assert(before[j - shift].0 <= k < before[j - shift].1);
            } else if k < start {
                assert(before[first].0 <= k < before[first].1);
            } else if k >= end {
                assert(before[next - 1].0 <= k < before[next - 1].1);
            }
        }
    }
}

impl View for RangeSet {
    type V = Set<int>;

    closed spec fn view(&self) -> Set<int> {
        Set::new(|k: int| in_ranges(self.ranges@, k))
    }
}

impl RangeSet {
    /// Sorted, non-empty, apart from each other.
    pub closed spec fn wf(&self) -> bool {
        separated(self.ranges@)
    }

    pub fn new() -> (set: Self)
        ensures
            set.wf(),
            set@ == Set::<int>::empty(),
    {
        let set = RangeSet { ranges: Vec::new() };
        proof {
            assert(set@ =~= Set::<int>::empty());
        }
        set
    }

    /// The lowest address of the set in a non-empty range.
    pub fn first_in(&self, start: usize, end: usize) -> (found: Option<usize>)
        requires
            self.wf(),
            start < end,
        ensures
            match found {
                Some(first) => start <= first < end && self@.contains(first as int) && forall|k: int|
                    start <= k < first ==> !#[trigger] self@.contains(k),
                None => forall|k: int| start <= k < end ==> !#[trigger] self@.contains(k),
            },
    {
        let mut i: usize = 0;
        while i < self.ranges.len()
            invariant
                self.wf(),
                start < end,
                i <= self.ranges@.len(),
                forall|j: int| 0 <= j < i ==> (#[trigger] self.ranges@[j]).1 <= start,
            decreases self.ranges@.len() - i,
        {
            let (from, to) = self.ranges[i];
            if to > start {
                let first: usize = if from < start {
                    start
                } else {
                    from
                };
                proof {
                    assert forall|k: int| start <= k < first implies !#[trigger] self@.contains(k) by {
                        if in_ranges(self.ranges@, k) {
                            let j = choose|j: int|
                                0 <= j < self.ranges@.len() && (#[trigger] self.ranges@[j]).0 <= k
                                    < self.ranges@[j].1;
                            if j > i {
                                assert(self.ranges@[i as int].1 < self.ranges@[j].0);
                            }
                        }
                    }
                    assert(self.ranges@[i as int].0 <= first < self.ranges@[i as int].1);
                    assert(in_ranges(self.ranges@, first as int));
                }
                if first < end {
                    return Some(first);
                }
                return None;
            }
            i += 1;
        }
        proof {
            assert forall|k: int| start <= k < end implies !#[trigger] self@.contains(k) by {
                if in_ranges(self.ranges@, k) {
                    let j = choose|j: int|
                        0 <= j < self.ranges@.len() && (#[trigger] self.ranges@[j]).0 <= k
                            < self.ranges@[j].1;
                    assert(self.ranges@[j].1 <= start);
                }
            }
        }
        None
    }

    /// Whether the set holds no address.
    pub fn is_empty(&self) -> (empty: bool)
        requires
            self.wf(),
        ensures
            empty == (self@ == Set::<int>::empty()),
    {
        proof {
            if self.ranges@.len() > 0 {
                assert(in_ranges(self.ranges@, self.ranges@[0].0 as int));
                assert(self@.contains(self.ranges@[0].0 as int));
            } else {
                assert(self@ =~= Set::<int>::empty());
            }
        }
        self.ranges.len() == 0
    }

    /// Whether some address of a range is in the set.
    pub fn overlaps(&self, start: usize, end: usize) -> (found: bool)
        requires
            self.wf(),
            start < end,
        ensures
            found == (exists|k: int| start <= k < end && self@.contains(k)),
    {
        let mut i: usize = 0;
        while i < self.ranges.len()
            invariant
                i <= self.ranges@.len(),
                start < end,
                self.wf(),
                forall|j: int, k: int|
                    0 <= j < i && start <= k < end ==> !((#[trigger] self.ranges@[j]).0 <= k
                        < self.ranges@[j].1) || !(#[trigger] in_ranges(self.ranges@, k)),
            decreases self.ranges@.len() - i,
        {
            let (s, e) = self.ranges[i];
            if s < end && start < e {
                proof {
                    let k = if s <= start { start as int } else { s as int };
                    assert(self.ranges@[i as int].0 <= k < self.ranges@[i as int].1);
                    assert(in_ranges(self.ranges@, k));
                    assert(self@.contains(k));
                }
                return true;
            }
            i += 1;
        }
        proof {
            assert forall|k: int| start <= k < end implies !self@.contains(k) by {
                if in_ranges(self.ranges@, k) {
                    let j = choose|j: int|
                        0 <= j < self.ranges@.len() && (#[trigger] self.ranges@[j]).0 <= k
                            < self.ranges@[j].1;
                    assert(false);
                }
            }
        }
        false
    }

    /// Adds a range. Ranges that overlap or touch it are merged with it.
    pub fn insert(&mut self, start: usize, end: usize)
        requires
            old(self).wf(),
            start < end,
        ensures
            final(self).wf(),
            final(self)@ == old(self)@.union(Set::new(|k: int| start <= k < end)),
    {
        let n: usize = self.ranges.len();
        let mut out: Vec<(usize, usize)> = Vec::new();
        let mut i: usize = 0;
        while i < n && self.ranges[i].1 < start
            invariant
                n == self.ranges@.len(),
                i <= n,
                separated(self.ranges@),
                out@ =~= self.ranges@.take(i as int),
                forall|j: int| 0 <= j < i ==> (#[trigger] self.ranges@[j]).1 < start,
            decreases n - i,
        {
            out.push(self.ranges[i]);
            i += 1;
        }
        let ghost first = i;
        let mut low: usize = start;
        let mut high: usize = end;
        while i < n && self.ranges[i].0 <= end
            invariant
                n == self.ranges@.len(),
                first <= i <= n,
                separated(self.ranges@),
                start < end,
                low <= start,
                high >= end,
                first < n ==> self.ranges@[first as int].1 >= start,
                out@ =~= self.ranges@.take(first as int),
                forall|j: int| 0 <= j < first ==> (#[trigger] self.ranges@[j]).1 < start,
                forall|j: int| first <= j < i ==> (#[trigger] self.ranges@[j]).1 >= start
                    && self.ranges@[j].0 <= end,
                low == start || (first < i && low == self.ranges@[first as int].0),
                high == end || (first < i && high == self.ranges@[i - 1].1),
                first < i ==> low <= self.ranges@[first as int].0 && high >= self.ranges@[i - 1].1,
            decreases n - i,
        {
            let (s, e) = self.ranges[i];
            proof {
                if first < i {
                    assert(self.ranges@[first as int].1 < self.ranges@[i as int].0);
                    assert(self.ranges@[i - 1].1 < self.ranges@[i as int].0);
                }
            }
            if s < low {
                low = s;
            }
            if e > high {
                high = e;
            }
            i += 1;
        }
        let ghost next = i;
        out.push((low, high));
        while i < n
            invariant
                n == self.ranges@.len(),
                next <= i <= n,
                first <= next,
                out@ =~= self.ranges@.take(first as int).push((low, high)) + self.ranges@.subrange(
                    next as int,
                    i as int,
                ),
            decreases n - i,
        {
            out.push(self.ranges[i]);
            i += 1;
        }
        proof {
            lemma_merge(
                self.ranges@,
                (first as int, next as int),
                (start as int, end as int),
                (low, high),
                out@,
            );
        }
        self.ranges = out;
        proof {
            assert(self@ =~= old(self)@.union(Set::new(|k: int| start <= k < end)));
        }
    }

    /// Takes a range out. A range that it cuts into keeps its other parts.
    pub fn remove(&mut self, start: usize, end: usize)
        requires
            old(self).wf(),
            start < end,
        ensures
            final(self).wf(),
            final(self)@ == old(self)@.difference(Set::new(|k: int| start <= k < end)),
    {
        let n: usize = self.ranges.len();
        let mut out: Vec<(usize, usize)> = Vec::new();
        let mut i: usize = 0;
        proof {
            assert(self.ranges@.take(0) =~= Seq::empty());
        }
        while i < n
            invariant
                n == self.ranges@.len(),
                i <= n,
                start < end,
                separated(self.ranges@),
                separated(out@),
                forall|j: int| 0 <= j < out@.len() && i < n ==> (#[trigger] out@[j]).1
                    < self.ranges@[i as int].0,
                out@.len() > 0 ==> i > 0 && out@.last().1 <= self.ranges@[i - 1].1,
                forall|k: int| #[trigger]
                    in_ranges(out@, k) <==> in_ranges(self.ranges@.take(i as int), k) && !(start <= k
                        < end),
            decreases n - i,
        {
            let (s, e) = self.ranges[i];
            let ghost done = self.ranges@.take(i as int);
            proof {
                assert(self.ranges@.take(i + 1) =~= done.push((s, e)));
                lemma_push(done, (s, e));
                if i + 1 < n {
                    assert(self.ranges@[i as int].1 < self.ranges@[i + 1].0);
                }
            }
            if e <= start || end <= s {
                proof {
                    lemma_push(out@, (s, e));
                }
                out.push((s, e));
            } else {
                if s < start {
                    proof {
                        lemma_push(out@, (s, start));
                    }
                    out.push((s, start));
                }
                if end < e {
                    proof {
                        lemma_push(out@, (end, e));
                    }
                    out.push((end, e));
                }
            }
            i += 1;
        }
        proof {
            assert(self.ranges@.take(n as int) =~= self.ranges@);
        }
        self.ranges = out;
        proof {
            assert(self@ =~= old(self)@.difference(Set::new(|k: int| start <= k < end)));
        }
    }
}

} // verus!
