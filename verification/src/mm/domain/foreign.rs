//! What other families hold at the same addresses.
use crate::ids::VmViewId;
use crate::mm::custody::{Custody, CustodyModel, SpanKind};
use crate::mm::domain::GuestVaDomain;
use crate::range_table::RangeTable;
use core::ops::Range;
use vstd::prelude::*;

verus! {

use crate::mm::domain::registry::family_of;
use crate::mm::domain::DomainModel;
use crate::range_map::{lemma_same_lookups, lookup, pieces};
use crate::range_table::modelled;

broadcast use {crate::range_map::lemma_lookup_put, crate::range_map::lemma_lookup_cut};

/// A custody under which real pages are, or are just being torn down.
pub open spec fn is_held(custody: CustodyModel) -> bool {
    custody is Present || custody is Retiring
}

/// A family holds an address with real pages.
pub open spec fn holds(m: DomainModel, family: u64, address: int) -> bool {
    lookup(m.maps[family].custody, address) matches Some(custody) && is_held(custody)
}

/// Some live family other than `own` holds an address.
pub open spec fn foreign_at(m: DomainModel, own: u64, address: int) -> bool {
    exists|family: u64| #[trigger]
        m.maps.dom().contains(family) && family != own && m.families[family].members > 0 && holds(
            m,
            family,
            address,
        )
}

/// The addresses that some live family other than `own` holds inside a range.
pub open spec fn foreign_map(m: DomainModel, own: u64, start: int, end: int) -> Map<int, SpanKind> {
    Map::new(|k: int| start <= k < end && foreign_at(m, own, k), |k: int| SpanKind::Present)
}

/// Ranges, as mathematical values.
pub open spec fn span_models(list: Seq<Range<usize>>) -> Seq<(int, int, SpanKind)> {
    Seq::new(list.len(), |i: int| (list[i].start as int, list[i].end as int, SpanKind::Present))
}

/// An exited family is foreign to nobody, whatever its tables still say.
pub proof fn lemma_exited_family_is_not_foreign(m: DomainModel, own: u64, address: int)
    requires
        forall|family: u64| #[trigger]
            m.maps.dom().contains(family) && family != own ==> m.families[family].members == 0
                || !holds(m, family, address),
    ensures
        !foreign_at(m, own, address),
{
}

impl GuestVaDomain {
    /// Enters what the first `n` families of the iteration hold inside a range.
    fn gather_foreign(&self, own: u64, start: usize, end: usize) -> (gathered: RangeTable<SpanKind>)
        requires
            self.wf(),
            start < end,
        ensures
            gathered.wf(),
            gathered@ == foreign_map(self@, own, start as int, end as int),
    {
        let mut gathered: RangeTable<SpanKind> = RangeTable::new();
        let ghost order = self.per_family.order();
        let n: usize = self.per_family.len();
        let mut i: usize = 0;
        while i < n
            invariant
                self.wf(),
                start < end,
                gathered.wf(),
                order == self.per_family.order(),
                n == order.len(),
                i <= n,
                forall|k: int| #[trigger]
                    lookup(gathered@, k) == (if start <= k < end && foreign_upto(
                        self@,
                        order,
                        i as int,
                        own,
                        k,
                    ) {
                        Some(SpanKind::Present)
                    } else {
                        None
                    }),
            decreases n - i,
        {
            let id = self.per_family.id_at(i);
            let ghost before = gathered@;
            let live = match self.families.get(id) {
                Some(record) => record.members > 0,
                None => false,
            };
            proof {
                assert(self@.maps.dom().contains(id));
                assert(self@.families.dom().contains(id));
            }
            if id != own && live {
                self.gather_family(id, start, end, &mut gathered);
            }
            proof {
                assert forall|k: int| #[trigger]
                    lookup(gathered@, k) == (if start <= k < end && foreign_upto(
                        self@,
                        order,
                        i + 1,
                        own,
                        k,
                    ) {
                        Some(SpanKind::Present)
                    } else {
                        None
                    }) by {
                    assert(lookup(before, k) == lookup(before, k));
                    if foreign_upto(self@, order, i as int, own, k) {
                        let j = choose|j: int|
                            0 <= j < i && #[trigger] foreign_one(self@, order[j], own, k);
                        assert(foreign_one(self@, order[j], own, k));
                    }
                    if foreign_upto(self@, order, i + 1, own, k) {
                        let j = choose|j: int|
                            0 <= j < i + 1 && #[trigger] foreign_one(self@, order[j], own, k);
                        assert(foreign_one(self@, order[j], own, k));
                    }
                    assert(foreign_one(self@, order[i as int], own, k) == (id != own && live && holds(
                        self@,
                        id,
                        k,
                    )));
                }
            }
            i += 1;
        }
        proof {
            self.per_family.lemma_order();
            let goal = foreign_map(self@, own, start as int, end as int);
            assert forall|k: int| #[trigger] lookup(gathered@, k) == lookup(goal, k) by {
                if foreign_at(self@, own, k) {
                    let family = choose|family: u64| #[trigger]
                        self@.maps.dom().contains(family) && family != own
                            && self@.families[family].members > 0 && holds(self@, family, k);
                    assert(order.contains(family));
                    let j = choose|j: int| 0 <= j < order.len() && order[j] == family;
                    assert(foreign_one(self@, order[j], own, k));
                }
                if foreign_upto(self@, order, n as int, own, k) {
                    let j = choose|j: int|
                        0 <= j < n && #[trigger] foreign_one(self@, order[j], own, k);
                    assert(order.contains(order[j]));
                    assert(self@.maps.dom().contains(order[j]));
                }
            }
            lemma_same_lookups(gathered@, goal);
        }
        gathered
    }

    /// Enters what one family holds inside a range.
    fn gather_family(&self, family: u64, start: usize, end: usize, gathered: &mut RangeTable<SpanKind>)
        requires
            self.wf(),
            self@.maps.dom().contains(family),
            old(gathered).wf(),
            start < end,
        ensures
            final(gathered).wf(),
            forall|k: int| #[trigger]
                lookup(final(gathered)@, k) == (if start <= k < end && holds(self@, family, k) {
                    Some(SpanKind::Present)
                } else {
                    lookup(old(gathered)@, k)
                }),
    {
        let ghost first = gathered@;
        let ghost custody = self@.maps[family].custody;
        let spans = match self.per_family.get(family) {
            Some(maps) => maps.custody.pieces(start, end),
            None => Vec::new(),
        };
        let ghost list = modelled(spans@);
        let mut i: usize = 0;
        proof {
            crate::range_map::lemma_pieces(custody, start as int, end as int);
        }
        while i < spans.len()
            invariant
                i <= spans@.len(),
                list == modelled(spans@),
                gathered.wf(),
                crate::range_map::pieces_of(list, custody, start as int, end as int),
                forall|k: int| #[trigger]
                    lookup(gathered@, k) == (if held_upto(list, i as int, k) {
                        Some(SpanKind::Present)
                    } else {
                        lookup(first, k)
                    }),
            decreases spans@.len() - i,
        {
            let ghost before = gathered@;
            let (from, to) = (spans[i].0, spans[i].1);
            let hit = match &spans[i].2 {
                Custody::Present { .. } => true,
                Custody::Retiring { .. } => true,
                _ => false,
            };
            proof {
                assert(list[i as int] == (from as int, to as int, spans@[i as int].2@));
                assert(hit == is_held(list[i as int].2));
            }
            if hit {
                gathered.insert(from, to, &SpanKind::Present);
            }
            proof {
                assert forall|k: int| #[trigger]
                    lookup(gathered@, k) == (if held_upto(list, i + 1, k) {
                        Some(SpanKind::Present)
                    } else {
                        lookup(first, k)
                    }) by {
                    assert(lookup(before, k) == lookup(before, k));
                    if held_upto(list, i as int, k) {
                        let j = choose|j: int| 0 <= j < i && #[trigger] held_one(list[j], k);
                        assert(held_one(list[j], k));
                    }
                    if held_upto(list, i + 1, k) {
                        let j = choose|j: int| 0 <= j < i + 1 && #[trigger] held_one(list[j], k);
                        assert(held_one(list[j], k));
                    }
                    assert(held_one(list[i as int], k) == (hit && from <= k < to));
                }
            }
            i += 1;
        }
        proof {
            assert forall|k: int| held_upto(list, list.len() as int, k) == (start <= k < end && holds(
                self@,
                family,
                k,
            )) by {
                if held_upto(list, list.len() as int, k) {
                    let j = choose|j: int| 0 <= j < list.len() && #[trigger] held_one(list[j], k);
                    assert(lookup(custody, k) == Some(list[j].2));
                }
                if start <= k < end && holds(self@, family, k) {
                    assert(lookup(custody, k) is Some);
                    assert(crate::range_map::covered(list, k));
                    let j = choose|j: int|
                        0 <= j < list.len() && (#[trigger] list[j]).0 <= k < list[j].1;
                    assert(lookup(custody, k) == Some(list[j].2));
                    assert(held_one(list[j], k));
                }
            }
            assert forall|k: int| #[trigger]
                lookup(gathered@, k) == (if start <= k < end && holds(self@, family, k) {
                    Some(SpanKind::Present)
                } else {
                    lookup(first, k)
                }) by {
                assert(held_upto(list, list.len() as int, k) == (start <= k < end && holds(
                    self@,
                    family,
                    k,
                )));
            }
        }
    }

    /// Whether some other, live family holds real pages anywhere in a range. `false` for an empty
    /// range or an unregistered view.
    pub fn foreign_family_present(&self, view: VmViewId, range: Range<usize>) -> (found: bool)
        requires
            self.wf(),
        ensures
            found == (match family_of(self@, view) {
                Some(family) => exists|k: int|
                    range.start <= k < range.end && #[trigger] foreign_at(self@, family.raw, k),
                None => false,
            }),
    {
        let (start, end) = (range.start, range.end);
        if start >= end {
            return false;
        }
        let family = match self.family_of_view(view) {
            Some(family) => family,
            None => {
                return false;
            },
        };
        let gathered = self.gather_foreign(family.raw, start, end);
        let found = gathered.overlaps(start, end);
        proof {
            if found {
                let k = choose|k: int| start <= k < end && #[trigger] lookup(gathered@, k) is Some;
                assert(foreign_at(self@, family.raw, k));
            }
            if exists|k: int| start <= k < end && #[trigger] foreign_at(self@, family.raw, k) {
                let k = choose|k: int|
                    start <= k < end && #[trigger] foreign_at(self@, family.raw, k);
                assert(lookup(gathered@, k) is Some);
            }
        }
        found
    }

    /// Every maximal part of a range that some other, live family holds with real pages, in
    /// address order.
    pub fn foreign_family_present_fragments(&self, view: VmViewId, range: Range<usize>) -> (found: Vec<
        Range<usize>,
    >)
        requires
            self.wf(),
        ensures
            span_models(found@) == (match family_of(self@, view) {
                Some(family) if range.start < range.end => pieces(
                    foreign_map(self@, family.raw, range.start as int, range.end as int),
                    range.start as int,
                    range.end as int,
                ),
                _ => Seq::empty(),
            }),
    {
        let (start, end) = (range.start, range.end);
        let mut found: Vec<Range<usize>> = Vec::new();
        proof {
            assert(span_models(found@) =~= Seq::empty());
        }
        if start >= end {
            return found;
        }
        let family = match self.family_of_view(view) {
            Some(family) => family,
            None => {
                return found;
            },
        };
        let gathered = self.gather_foreign(family.raw, start, end);
        let spans = gathered.pieces(start, end);
        let ghost list = modelled(spans@);
        proof {
            crate::range_map::lemma_pieces(gathered@, start as int, end as int);
            assert forall|j: int| 0 <= j < list.len() implies (#[trigger] list[j]).2
                == SpanKind::Present by {
                assert(lookup(gathered@, list[j].0) == Some(list[j].2));
            }
        }
        let mut i: usize = 0;
        while i < spans.len()
            invariant
                i <= spans@.len(),
                list == modelled(spans@),
                forall|j: int| 0 <= j < list.len() ==> (#[trigger] list[j]).2 == SpanKind::Present,
                found@.len() == i,
                span_models(found@) == list.take(i as int),
            decreases spans@.len() - i,
        {
            let ghost before = found@;
            found.push(spans[i].0..spans[i].1);
            i += 1;
            proof {
                assert(list[i - 1].2 == SpanKind::Present);
                assert forall|j: int| 0 <= j < i implies #[trigger] span_models(found@)[j] == list[j] by {
                    if j < i - 1 {
                        assert(span_models(before)[j] == list.take(i - 1)[j]);
                    }
                }
                assert(span_models(found@) =~= list.take(i as int));
            }
        }
        proof {
            assert(list.take(list.len() as int) =~= list);
        }
        found
    }
}

/// A span that is held and takes an address in.
spec fn held_one(span: (int, int, CustodyModel), address: int) -> bool {
    is_held(span.2) && span.0 <= address < span.1
}

/// One of the first `n` spans is held and takes an address in.
spec fn held_upto(list: Seq<(int, int, CustodyModel)>, n: int, address: int) -> bool {
    exists|j: int| 0 <= j < n && #[trigger] held_one(list[j], address)
}

spec fn foreign_one(m: DomainModel, family: u64, own: u64, address: int) -> bool {
    family != own && m.families[family].members > 0 && holds(m, family, address)
}

/// One of the first `n` families is live, not `own`, and holds an address.
spec fn foreign_upto(m: DomainModel, order: Seq<u64>, n: int, own: u64, address: int) -> bool {
    exists|j: int| 0 <= j < n && #[trigger] foreign_one(m, order[j], own, address)
}

} // verus!
