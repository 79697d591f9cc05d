//! A record of recently committed permission flips, for observability.
use crate::ids::VmViewId;
use vstd::prelude::*;

verus! {

use vstd::arithmetic::power2::pow2;

/// One recorded permission flip, kept by [`WxLedger`].
#[derive(Clone, Copy, Debug, PartialEq, Eq, Structural)]
pub struct WxLedgerEntry {
    /// The view whose custody was revalidated for this flip.
    pub view: VmViewId,
    /// The page address that was flipped.
    pub page: usize,
    /// Whether the page became executable (`true`) or writable (`false`).
    pub executable: bool,
    /// This flip's own mutation identity, 0 only if that space is exhausted.
    pub mutation: u64,
    /// How long the host call took, in nanoseconds; 0 where none was made.
    pub duration_nanos: u64,
}

/// How many flips are kept.
pub const WX_LEDGER_SLOTS: usize = 64;

/// How many buckets the latency histogram has: bucket `i` counts durations from
/// `2^(i + WX_LATENCY_HISTOGRAM_SHIFT)` up to twice that, the first one everything shorter too, and
/// the last one everything longer.
pub const WX_LATENCY_HISTOGRAM_BUCKETS: usize = 12;

/// See [`WX_LATENCY_HISTOGRAM_BUCKETS`].
pub const WX_LATENCY_HISTOGRAM_SHIFT: u32 = 10;

/// The number of times a value can be halved before it is 1 or less.
pub open spec fn log2(value: nat) -> nat
    decreases value,
{
    if value <= 1 {
        0
    } else {
        1 + log2(value / 2)
    }
}

/// The bucket of a duration.
pub open spec fn bucket_of(duration_nanos: u64) -> int {
    let log = log2(duration_nanos as nat) as int;
    if log <= WX_LATENCY_HISTOGRAM_SHIFT {
        0
    } else if log - WX_LATENCY_HISTOGRAM_SHIFT >= WX_LATENCY_HISTOGRAM_BUCKETS {
        WX_LATENCY_HISTOGRAM_BUCKETS - 1
    } else {
        log - WX_LATENCY_HISTOGRAM_SHIFT
    }
}

/// The next value of a counter that wraps.
pub open spec fn counted(n: u64) -> u64 {
    if n == u64::MAX {
        0
    } else {
        (n + 1) as u64
    }
}

/// The sum of a list of counts.
pub open spec fn total(counts: Seq<u64>) -> int
    decreases counts.len(),
{
    if counts.len() == 0 {
        0
    } else {
        total(counts.drop_last()) + counts.last()
    }
}

/// The mathematical value of a ledger.
#[verifier::ext_equal]
pub struct LedgerModel {
    /// The slots, in slot order.
    pub slots: Seq<Option<WxLedgerEntry>>,
    /// The slot that is written next.
    pub next: usize,
    pub buckets: Seq<u64>,
    pub samples: u64,
}

/// A ledger that nothing was recorded in.
pub open spec fn empty_ledger() -> LedgerModel {
    LedgerModel {
        slots: Seq::new(WX_LEDGER_SLOTS as nat, |i: int| None),
        next: 0,
        buckets: Seq::new(WX_LATENCY_HISTOGRAM_BUCKETS as nat, |i: int| 0u64),
        samples: 0,
    }
}

/// The ledger once a flip was recorded: in the next slot, over the oldest one if all are full.
pub open spec fn recorded(m: LedgerModel, entry: WxLedgerEntry) -> LedgerModel {
    let bucket = bucket_of(entry.duration_nanos);
    LedgerModel {
        slots: m.slots.update(m.next as int, Some(entry)),
        next: ((m.next + 1) % WX_LEDGER_SLOTS as int) as usize,
        buckets: m.buckets.update(bucket, counted(m.buckets[bucket])),
        samples: counted(m.samples),
    }
}

/// The slots, the one that is overwritten next first.
pub open spec fn oldest_first(m: LedgerModel) -> Seq<Option<WxLedgerEntry>> {
    m.slots.skip(m.next as int) + m.slots.take(m.next as int)
}

/// The entries of a list of slots.
pub open spec fn populated(slots: Seq<Option<WxLedgerEntry>>) -> Seq<WxLedgerEntry>
    decreases slots.len(),
{
    if slots.len() == 0 {
        Seq::empty()
    } else {
        let rest = populated(slots.drop_last());
        match slots.last() {
            Some(entry) => rest.push(entry),
            None => rest,
        }
    }
}

/// What was recorded last comes last.
pub proof fn lemma_newest_is_last(m: LedgerModel, entry: WxLedgerEntry)
    requires
        m.slots.len() == WX_LEDGER_SLOTS,
        m.next < WX_LEDGER_SLOTS,
    ensures
        populated(oldest_first(recorded(m, entry))).len() > 0,
        populated(oldest_first(recorded(m, entry))).last() == entry,
{
    let after = recorded(m, entry);
    assert(oldest_first(after).last() == after.slots[m.next as int]);
}

/// The ring keeps the order of what was recorded: a new entry comes behind everything that is kept, and
/// only what stood first is forgotten.
pub proof fn lemma_ring_forgets_only_the_oldest(m: LedgerModel, entry: WxLedgerEntry)
    requires
        m.slots.len() == 64,
        m.next < 64,
    ensures
        oldest_first(recorded(m, entry)) == oldest_first(m).drop_first().push(Some(entry)),
        oldest_first(recorded(m, entry)).len() == 64,
{
    let after = recorded(m, entry);
    assert(oldest_first(after) =~= oldest_first(m).drop_first().push(Some(entry)));
}

/// What a list of slots shows are its entries in their order, without the slots that hold none.
pub proof fn lemma_populated_keeps_order(slots: Seq<Option<WxLedgerEntry>>, more: Seq<Option<WxLedgerEntry>>)
    ensures
        populated(slots + more) == populated(slots) + populated(more),
        more.len() == 1 ==> populated(more) == (match more[0] {
            Some(entry) => seq![entry],
            None => Seq::empty(),
        }),
    decreases more.len(),
{
    if more.len() == 0 {
        assert(slots + more =~= slots);
        assert(populated(slots) + populated(more) =~= populated(slots));
    } else {
        let less = more.drop_last();
        lemma_populated_keeps_order(slots, less);
        assert((slots + more).drop_last() =~= slots + less);
        assert(populated(slots + more) =~= populated(slots) + populated(more));
        if more.len() == 1 {
            assert(less =~= Seq::empty());
            assert(populated(less) =~= Seq::empty());
            assert(populated(more) =~= (match more[0] {
                Some(entry) => seq![entry],
                None => Seq::empty(),
            }));
        }
    }
}

/// A number lies between the power of two of its logarithm and the next one.
proof fn lemma_log2(value: nat)
    requires
        value > 0,
    ensures
        pow2(log2(value)) <= value < 2 * pow2(log2(value)),
    decreases value,
{
    if value == 1 {
        vstd::arithmetic::power2::lemma2_to64();
    } else {
        lemma_log2(value / 2);
        vstd::arithmetic::power2::lemma_pow2_unfold(log2(value));
    }
}

/// A duration is counted in the bucket of its size: each bucket but the first begins at a power of two
/// of at least 2048 nanoseconds, each but the last ends at the next one, and each power has its own.
pub proof fn lemma_bucket_fits(duration_nanos: u64)
    ensures
        0 <= bucket_of(duration_nanos) < 12,
        bucket_of(duration_nanos) > 0 ==> 1024 * pow2(bucket_of(duration_nanos) as nat)
            <= duration_nanos,
        bucket_of(duration_nanos) < 11 ==> duration_nanos < 2048 * pow2(
            bucket_of(duration_nanos) as nat,
        ),
{
    let bucket = bucket_of(duration_nanos) as nat;
    vstd::arithmetic::power2::lemma2_to64();
    vstd::arithmetic::power2::lemma_pow2_pos(bucket);
    if duration_nanos > 0 {
        let log = log2(duration_nanos as nat);
        lemma_log2(duration_nanos as nat);
        if log <= 10 {
            if log < 10 {
                vstd::arithmetic::power2::lemma_pow2_strictly_increases(log, 10);
            }
        } else if log - 10 >= 12 {
            vstd::arithmetic::power2::lemma_pow2_strictly_increases(21, log);
            vstd::arithmetic::power2::lemma_pow2_adds(10, 11);
        } else {
            vstd::arithmetic::power2::lemma_pow2_adds(10, bucket);
            assert(log == 10 + bucket);
        }
    }
}

/// Raising one count raises the sum by as much.
pub proof fn lemma_total_update(counts: Seq<u64>, i: int)
    requires
        0 <= i < counts.len(),
        counts[i] < u64::MAX,
    ensures
        total(counts.update(i, counted(counts[i]))) == total(counts) + 1,
    decreases counts.len(),
{
    let after = counts.update(i, counted(counts[i]));
    if i == counts.len() - 1 {
        assert(after.drop_last() =~= counts.drop_last());
    } else {
        assert(after.drop_last() =~= counts.drop_last().update(i, counted(counts[i])));
        lemma_total_update(counts.drop_last(), i);
    }
}

/// No single count exceeds the sum.
pub proof fn lemma_total_bounds(counts: Seq<u64>, i: int)
    requires
        0 <= i < counts.len(),
    ensures
        counts[i] <= total(counts),
        0 <= total(counts),
    decreases counts.len(),
{
    if counts.len() > 1 {
        lemma_total_bounds(
            counts.drop_last(),
            if i < counts.len() - 1 {
                i
            } else {
                0
            },
        );
    } else {
        assert(total(counts.drop_last()) == 0);
    }
}

/// As long as the sample counter has not wrapped, the buckets add up to it.
pub proof fn lemma_histogram_adds_up(m: LedgerModel, entry: WxLedgerEntry)
    requires
        m.buckets.len() == WX_LATENCY_HISTOGRAM_BUCKETS,
        total(m.buckets) == m.samples,
        m.samples < u64::MAX,
    ensures
        total(recorded(m, entry).buckets) == recorded(m, entry).samples,
{
    let bucket = bucket_of(entry.duration_nanos);
    lemma_total_bounds(m.buckets, bucket);
    lemma_total_update(m.buckets, bucket);
}

/// A bounded ring of recently committed flips, with a latency histogram over every one of them.
/// Never consulted for correctness.
pub struct WxLedger {
    slots: Vec<Option<WxLedgerEntry>>,
    next: usize,
    latency_histogram: Vec<u64>,
    latency_samples: u64,
}

impl View for WxLedger {
    type V = LedgerModel;

    closed spec fn view(&self) -> LedgerModel {
        LedgerModel {
            slots: self.slots@,
            next: self.next,
            buckets: self.latency_histogram@,
            samples: self.latency_samples,
        }
    }
}

impl WxLedger {
    /// The ring and the histogram have their fixed sizes.
    pub open spec fn wf(&self) -> bool {
        &&& self@.slots.len() == WX_LEDGER_SLOTS
        &&& self@.next < WX_LEDGER_SLOTS
        &&& self@.buckets.len() == WX_LATENCY_HISTOGRAM_BUCKETS
    }

    /// Creates an empty ledger.
    pub fn new() -> (ledger: Self)
        ensures
            ledger.wf(),
            ledger@ == empty_ledger(),
            total(ledger@.buckets) == ledger@.samples,
    {
        let mut slots: Vec<Option<WxLedgerEntry>> = Vec::new();
        let mut i: usize = 0;
        while i < WX_LEDGER_SLOTS
            invariant
                i <= WX_LEDGER_SLOTS,
                slots@ == Seq::new(i as nat, |j: int| None::<WxLedgerEntry>),
            decreases WX_LEDGER_SLOTS - i,
        {
            slots.push(None);
            i += 1;
            proof {
                assert(slots@ =~= Seq::new(i as nat, |j: int| None::<WxLedgerEntry>));
            }
        }
        let mut latency_histogram: Vec<u64> = Vec::new();
        let mut k: usize = 0;
        proof {
            assert(total(latency_histogram@) == 0);
        }
        while k < WX_LATENCY_HISTOGRAM_BUCKETS
            invariant
                k <= WX_LATENCY_HISTOGRAM_BUCKETS,
                latency_histogram@ == Seq::new(k as nat, |j: int| 0u64),
                total(latency_histogram@) == 0,
            decreases WX_LATENCY_HISTOGRAM_BUCKETS - k,
        {
            let ghost before = latency_histogram@;
            latency_histogram.push(0);
            k += 1;
            proof {
                assert(latency_histogram@ =~= Seq::new(k as nat, |j: int| 0u64));
                assert(latency_histogram@.drop_last() =~= before);
            }
        }
        let ledger = WxLedger { slots, next: 0, latency_histogram, latency_samples: 0 };
        proof {
            assert(ledger@ =~= empty_ledger());
        }
        ledger
    }

    /// The bucket of a duration.
    fn bucket(duration_nanos: u64) -> (bucket: usize)
        ensures
            bucket == bucket_of(duration_nanos),
            bucket < WX_LATENCY_HISTOGRAM_BUCKETS,
    {
        let mut rest: u64 = duration_nanos;
        let mut log: u32 = 0;
        while rest > 1
            invariant
                log + log2(rest as nat) == log2(duration_nanos as nat),
                log < WX_LATENCY_HISTOGRAM_SHIFT + WX_LATENCY_HISTOGRAM_BUCKETS - 1,
            decreases rest,
        {
            rest = rest / 2;
            log += 1;
            if log as usize == WX_LATENCY_HISTOGRAM_SHIFT as usize + WX_LATENCY_HISTOGRAM_BUCKETS - 1 {
                return WX_LATENCY_HISTOGRAM_BUCKETS - 1;
            }
        }
        if log <= WX_LATENCY_HISTOGRAM_SHIFT {
            0
        } else {
            (log - WX_LATENCY_HISTOGRAM_SHIFT) as usize
        }
    }

    /// Records one committed flip, overwriting the oldest slot once the ring is full, and counts
    /// its duration.
    pub fn record(&mut self, entry: WxLedgerEntry)
        requires
            old(self).wf(),
        ensures
            final(self).wf(),
            final(self)@ == recorded(old(self)@, entry),
    {
        let slot: usize = self.next;
        self.slots.set(slot, Some(entry));
        self.next = if slot + 1 == WX_LEDGER_SLOTS {
            0
        } else {
            slot + 1
        };
        let bucket = Self::bucket(entry.duration_nanos);
        let count: u64 = self.latency_histogram[bucket].wrapping_add(1);
        self.latency_histogram.set(bucket, count);
        self.latency_samples = self.latency_samples.wrapping_add(1);
    }

    /// Every recorded entry, oldest first.
    pub fn snapshot(&self) -> (entries: Vec<WxLedgerEntry>)
        requires
            self.wf(),
        ensures
            entries@ == populated(oldest_first(self@)),
    {
        let ghost list = oldest_first(self@);
        let mut entries: Vec<WxLedgerEntry> = Vec::new();
        let mut i: usize = 0;
        while i < WX_LEDGER_SLOTS
            invariant
                self.wf(),
                i <= WX_LEDGER_SLOTS,
                list == oldest_first(self@),
                list.len() == WX_LEDGER_SLOTS,
                entries@ == populated(list.take(i as int)),
            decreases WX_LEDGER_SLOTS - i,
        {
            let left: usize = WX_LEDGER_SLOTS - self.next;
            let slot: usize = if i < left {
                self.next + i
            } else {
                i - left
            };
            proof {
                assert(list.take(i + 1).drop_last() =~= list.take(i as int));
                assert(list.take(i + 1).last() == self@.slots[slot as int]);
            }
            if let Some(entry) = self.slots[slot] {
                entries.push(entry);
            }
            i += 1;
        }
        proof {
            assert(list.take(list.len() as int) =~= list);
        }
        entries
    }

    /// The latency histogram, in order of ascending latency, and how many samples went into it.
    pub fn latency_histogram(&self) -> (histogram: (Vec<u64>, u64))
        ensures
            histogram.0@ == self@.buckets,
            histogram.1 == self@.samples,
    {
        (self.latency_histogram.clone(), self.latency_samples)
    }
}

impl Default for WxLedger {
    fn default() -> (ledger: Self)
        ensures
            ledger.wf(),
            ledger@ == empty_ledger(),
    {
        WxLedger::new()
    }
}

} // verus!
