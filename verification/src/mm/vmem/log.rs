//! How many changes of the mapping table each operation puts on the change log.
use crate::mm::area::VmArea;
use crate::mm::errors::{VmemResetError, VmemUnmapError};
use crate::mm::flags::VmFlags;
use crate::mm::vmem::effects::InsertAdmission;
use crate::platform::page_mgmt::FixedAddressBehavior;
use vstd::prelude::*;

verus! {

use crate::mm::flags::carries;
use crate::mm::vmem::effects::{anchored, backed, deferred, insert_admission, settled};
use crate::mm::vmem::VmemModel;
use crate::mm::vmem::protect::{changed, FlagChange};
use crate::range_map::{covered, cut, lemma_pieces, lookup, pieces, pieces_of, put, uniform};

broadcast use {crate::range_map::lemma_lookup_put, crate::range_map::lemma_lookup_cut};

/// A piece that an initialization owns.
pub open spec fn is_marked() -> spec_fn((int, int, VmArea)) -> bool {
    |piece: (int, int, VmArea)| piece.2.initialization is Some
}

/// How many mappings of a range an initialization owns: each is a change once it owns none.
pub open spec fn marks(areas: Map<int, VmArea>, start: int, end: int) -> nat {
    pieces(areas, start, end).filter(is_marked()).len()
}

/// The changes that entering an area makes: one, and one more if it comes with the mark of an
/// initialization, which it does not keep.
pub open spec fn entries_of(area: VmArea) -> nat {
    if area.initialization is Some {
        2
    } else {
        1
    }
}

/// A piece whose flags are not the same after a change of flags.
pub open spec fn is_changed(change: FlagChange) -> spec_fn((int, int, VmArea)) -> bool {
    |piece: (int, int, VmArea)| changed(change, piece.2.flags.bits) != piece.2.flags.bits
}

/// The changes that giving a piece of a mapping another area makes: the mapping leaves the table, and
/// the piece and what lies around it enter.
pub open spec fn rewrites(areas: Map<int, VmArea>, piece: (int, int, VmArea)) -> nat {
    2 + (if lookup(areas, piece.0 - 1) == Some(piece.2) {
        1nat
    } else {
        0nat
    }) + (if lookup(areas, piece.1) == Some(piece.2) {
        1nat
    } else {
        0nat
    })
}

/// The changes that giving another area to the chosen ones of the first pieces of a list makes.
pub open spec fn rewritten(
    areas: Map<int, VmArea>,
    list: Seq<(int, int, VmArea)>,
    chosen: spec_fn((int, int, VmArea)) -> bool,
    n: int,
) -> nat
    decreases n,
{
    if n <= 0 {
        0
    } else {
        rewritten(areas, list, chosen, n - 1) + (if chosen(list[n - 1]) {
            rewrites(areas, list[n - 1])
        } else {
            0
        })
    }
}

/// The changes that a change of flags makes in a range.
pub open spec fn changes(areas: Map<int, VmArea>, start: int, end: int, change: FlagChange) -> nat {
    let list = pieces(areas, start, end);
    rewritten(areas, list, is_changed(change), list.len() as int)
}

/// A piece that is mapped otherwise afterwards.
pub open spec fn is_altered(after: Map<int, VmArea>) -> spec_fn((int, int, VmArea)) -> bool {
    |piece: (int, int, VmArea)| lookup(after, piece.0) != Some(piece.2)
}

/// The changes that giving other areas to the mappings of a range that are mapped otherwise
/// afterwards makes.
pub open spec fn alterations(before: Map<int, VmArea>, start: int, end: int, after: Map<int, VmArea>) -> nat {
    let list = pieces(before, start, end);
    rewritten(before, list, is_altered(after), list.len() as int)
}

/// The changes that entering an area so many times makes.
pub open spec fn entries_in(area: VmArea, times: nat) -> nat {
    if area.initialization is Some {
        times + times
    } else {
        times
    }
}

/// A stretch of a range begins here: its first address, or one that is mapped where the address
/// before it is not, or the other way round.
pub open spec fn begins(areas: Map<int, VmArea>, start: int, k: int) -> bool {
    k == start || (lookup(areas, k) is Some) != (lookup(areas, k - 1) is Some)
}

/// How many stretches of a range begin below an address.
pub open spec fn stretches(areas: Map<int, VmArea>, start: int, to: int) -> nat
    decreases to - start,
{
    if to <= start {
        0
    } else {
        stretches(areas, start, to - 1) + (if begins(areas, start, to - 1) {
            1nat
        } else {
            0nat
        })
    }
}

/// What an insertion stretch by stretch put on the log: the entries of every stretch below the first
/// that was refused.
pub open spec fn stretches_logged(
    before: Map<int, VmArea>,
    range: (int, int),
    area: VmArea,
    after: Map<int, VmArea>,
    all: bool,
    grown: int,
) -> bool {
    exists|reached: int|
        range.0 <= reached <= range.1 && (all <==> reached == range.1) && #[trigger] uniform(
            after,
            range.0,
            reached,
            settled(area),
        ) && (forall|k: int|
            reached <= k < range.1 ==> #[trigger] lookup(after, k) == lookup(before, k)) && grown
            == entries_in(area, stretches(before, range.0, reached))
}

/// What an insertion put on the log.
pub open spec fn insert_logged(
    task: (int, int),
    before: VmemModel,
    range: (int, int),
    area: VmArea,
    behavior: FixedAddressBehavior,
    after: Map<int, VmArea>,
    granted: bool,
    grown: int,
) -> bool {
    match insert_admission(task, before.areas, range.0, range.1, area, behavior) {
        InsertAdmission::AskEach => stretches_logged(
            before.areas,
            range,
            anchored(backed(area, before.next_futex), range.0 as usize),
            after,
            granted,
            grown,
        ),
        _ => grown == (if granted {
            entries_of(area)
        } else {
            0
        }),
    }
}

/// A mapping that a reset replaces by fresh pages.
pub open spec fn takes_fresh_pages(area: VmArea) -> bool {
    !carries(area.flags.bits, VmFlags::VM_SHARED) && !area.is_file_backed && !deferred(area)
}

/// The changes that replacing the first pieces of a list by fresh pages makes.
pub open spec fn reset_entries(list: Seq<(int, int, VmArea)>, n: int) -> nat
    decreases n,
{
    if n <= 0 {
        0
    } else {
        reset_entries(list, n - 1) + (if takes_fresh_pages(list[n - 1].2) {
            entries_of(list[n - 1].2)
        } else {
            0
        })
    }
}

/// What a reset put on the log: the entries of every mapping that it replaced, which are all of
/// them unless one was refused.
pub open spec fn reset_logged(
    areas: Map<int, VmArea>,
    range: (int, int),
    result: Result<(), VmemResetError>,
    grown: int,
) -> bool {
    let list = pieces(areas, range.0, range.1);
    exists|n: int|
        0 <= n <= list.len() && (match result {
            Err(VmemResetError::FileBacked) => n < list.len() && list[n].2.is_file_backed && !carries(
                list[n].2.flags.bits,
                VmFlags::VM_SHARED,
            ),
            Err(VmemResetError::Platform(_)) => n < list.len() && takes_fresh_pages(list[n].2),
            _ => n == list.len(),
        }) && grown == #[trigger] reset_entries(list, n)
}

/// How many of the answers were granted.
pub open spec fn granted(answers: Seq<Result<(), VmemUnmapError>>) -> nat
    decreases answers.len(),
{
    if answers.len() == 0 {
        0
    } else {
        granted(answers.drop_last()) + (if answers.last() is Ok {
            1nat
        } else {
            0nat
        })
    }
}

/// A range that was just entered as one area has the mark of that area or none; one that was just
/// removed has none.
pub proof fn lemma_marks(areas: Map<int, VmArea>, start: int, end: int, area: VmArea)
    requires
        start < end,
    ensures
        marks(put(areas, start, end, area), start, end) + 1 == entries_of(area),
        marks(cut(areas, start, end), start, end) == 0,
{
    reveal(Seq::filter);
    let one = seq![(start, end, area)];
    let entered = put(areas, start, end, area);
    lemma_pieces(entered, start, end);
    assert(one[0] == (start, end, area));
    assert forall|k: int| start <= k < end && #[trigger] lookup(entered, k) is Some implies covered(one, k) by {
        assert(one[0].0 <= k < one[0].1);
    }
    assert(pieces_of(one, entered, start, end));
    assert(one.drop_last() =~= Seq::empty());
    assert(one.drop_last().filter(is_marked()) =~= Seq::empty());
    let none = Seq::<(int, int, VmArea)>::empty();
    lemma_pieces(cut(areas, start, end), start, end);
    assert(pieces_of(none, cut(areas, start, end), start, end));
    assert(none.filter(is_marked()) =~= none);
}

/// A range without a mapping has no mark.
pub proof fn lemma_no_marks(areas: Map<int, VmArea>, start: int, end: int)
    requires
        start < end,
        forall|k: int| start <= k < end ==> #[trigger] lookup(areas, k) is None,
    ensures
        marks(areas, start, end) == 0,
{
    reveal(Seq::filter);
    let none = Seq::<(int, int, VmArea)>::empty();
    lemma_pieces(areas, start, end);
    assert(pieces_of(none, areas, start, end));
    assert(none.filter(is_marked()) =~= none);
}

/// Filtering one entry more.
pub proof fn lemma_filter_step<A>(list: Seq<A>, chosen: spec_fn(A) -> bool, i: int)
    requires
        0 <= i < list.len(),
    ensures
        list.take(i + 1).filter(chosen).len() == list.take(i).filter(chosen).len() + (if chosen(list[i]) {
            1nat
        } else {
            0nat
        }),
{
    reveal(Seq::filter);
    assert(list.take(i + 1).drop_last() =~= list.take(i));
    assert(list.take(i + 1).last() == list[i]);
}

/// Two choices that agree on the first pieces of two lists, which are the same, after which the second
/// chooses nothing more, make the same changes.
pub proof fn lemma_same_rewrites(
    areas: Map<int, VmArea>,
    short: Seq<(int, int, VmArea)>,
    list: Seq<(int, int, VmArea)>,
    a: spec_fn((int, int, VmArea)) -> bool,
    b: spec_fn((int, int, VmArea)) -> bool,
    n: int,
    m: int,
)
    requires
        0 <= n <= m <= list.len(),
        n <= short.len(),
        forall|j: int| 0 <= j < n ==> short[j] == #[trigger] list[j] && a(list[j]) == b(list[j]),
        forall|j: int| n <= j < m ==> !b(#[trigger] list[j]),
    ensures
        rewritten(areas, list, b, m) == rewritten(areas, short, a, n),
    decreases m,
{
    if m > n {
        lemma_same_rewrites(areas, short, list, a, b, n, m - 1);
        assert(!b(list[m - 1]));
    } else if n > 0 {
        assert(short[n - 1] == list[n - 1]);
        lemma_same_rewrites(areas, short, list, a, b, n - 1, m - 1);
    }
}

/// One stretch more.
pub proof fn lemma_one_stretch(areas: Map<int, VmArea>, start: int, from: int, to: int)
    requires
        start <= from < to,
        begins(areas, start, from),
        forall|k: int|
            from <= k < to ==> (#[trigger] lookup(areas, k) is Some) == (lookup(areas, from) is Some),
    ensures
        stretches(areas, start, to) == stretches(areas, start, from) + 1,
    decreases to - from,
{
    if to - 1 > from {
        lemma_one_stretch(areas, start, from, to - 1);
        assert((lookup(areas, to - 1) is Some) == (lookup(areas, from) is Some));
        assert((lookup(areas, to - 2) is Some) == (lookup(areas, from) is Some));
    }
}

/// Where nothing is mapped otherwise afterwards, nothing was changed.
pub proof fn lemma_nothing_altered(areas: Map<int, VmArea>, start: int, end: int)
    requires
        start <= end,
    ensures
        alterations(areas, start, end, areas) == 0,
{
    lemma_pieces(areas, start, end);
    let list = pieces(areas, start, end);
    assert forall|j: int| 0 <= j < list.len() implies !(is_altered(areas)(#[trigger] list[j])) by {
        assert(lookup(areas, list[j].0) == Some(list[j].2));
    }
    lemma_same_rewrites(areas, list, list, is_altered(areas), is_altered(areas), 0, list.len() as int);
}

} // verus!
