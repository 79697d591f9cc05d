//! Who has custody of an address: within a family, and through the lineage it was forked from.
use crate::ids::{FamilyId, VmViewId};
use crate::mm::custody::{BlockOrigin, Custody, CustodyModel};
use crate::mm::domain::{FamilyMaps, GuestVaDomain};
use crate::range_table::{Coded, Extent, RangeTable};
use core::ops::Range;
use vstd::prelude::*;

verus! {

use crate::mm::domain::registry::family_of;
use crate::mm::domain::{lineage_ok, DomainModel, FamilyModel};
use crate::range_map::{covered, lemma_pieces, lookup, pieces, pieces_of, uniform};
use crate::range_table::{modelled, touched};

broadcast use {crate::range_map::lemma_lookup_put, crate::range_map::lemma_lookup_cut};

/// What a family records about custody.
pub open spec fn custody_of(m: DomainModel, family: FamilyId) -> Map<int, CustodyModel> {
    if m.maps.dom().contains(family.raw) {
        m.maps[family.raw].custody
    } else {
        Map::empty()
    }
}

/// The one custody that covers a whole range within a family: recorded by the family, or blocked
/// where the family records nothing at all or only that nobody claimed it, or unclaimed where nobody
/// records anything else.
pub open spec fn uniform_custody(m: DomainModel, family: FamilyId, start: int, end: int) -> Option<
    CustodyModel,
> {
    let custody = custody_of(m, family);
    if touched(custody, start, end) && !uniform(custody, start, end, CustodyModel::Unclaimed) {
        match lookup(custody, start) {
            Some(value) => if uniform(custody, start, end, value) {
                Some(value)
            } else {
                None
            },
            None => None,
        }
    } else if touched(m.blocked, start, end) {
        match lookup(m.blocked, start) {
            Some(origin) => if uniform(m.blocked, start, end, origin) {
                Some(CustodyModel::DomainBlocked(origin))
            } else {
                None
            },
            None => None,
        }
    } else {
        Some(CustodyModel::Unclaimed)
    }
}

/// The custody of an address where a family records nothing: blocked or unclaimed.
pub open spec fn blocked_or_unclaimed(m: DomainModel, address: int) -> CustodyModel {
    match lookup(m.blocked, address) {
        Some(origin) => CustodyModel::DomainBlocked(origin),
        None => CustodyModel::Unclaimed,
    }
}

/// The custody of an address within a view's own family.
pub open spec fn custody_within(m: DomainModel, view: VmViewId, address: int) -> CustodyModel {
    match family_of(m, view) {
        None => CustodyModel::Unclaimed,
        Some(family) => match lookup(custody_of(m, family), address) {
            Some(value) if value != CustodyModel::Unclaimed => value,
            _ => blocked_or_unclaimed(m, address),
        },
    }
}

/// Two lists in address order, merged in address order; at equal starts the first list goes first.
pub open spec fn merged(
    a: Seq<(int, int, CustodyModel)>,
    b: Seq<(int, int, CustodyModel)>,
) -> Seq<(int, int, CustodyModel)>
    decreases a.len() + b.len(),
{
    if a.len() == 0 {
        b
    } else if b.len() == 0 {
        a
    } else if a[0].0 <= b[0].0 {
        seq![a[0]] + merged(a.drop_first(), b)
    } else {
        seq![b[0]] + merged(a, b.drop_first())
    }
}

/// Blocked spans, as custody.
pub open spec fn as_custody(spans: Seq<(int, int, BlockOrigin)>) -> Seq<(int, int, CustodyModel)> {
    Seq::new(
        spans.len(),
        |i: int| (spans[i].0, spans[i].1, CustodyModel::DomainBlocked(spans[i].2)),
    )
}

/// Every custody recorded in a range, in address order: what the view's family records, and what
/// is blocked for everybody.
pub open spec fn fragments(m: DomainModel, view: VmViewId, start: int, end: int) -> Seq<
    (int, int, CustodyModel),
> {
    match family_of(m, view) {
        Some(family) if start < end => merged(
            pieces(custody_of(m, family), start, end),
            as_custody(pieces(m.blocked, start, end)),
        ),
        _ => Seq::empty(),
    }
}

/// What the lineage of a family says of an address.
pub enum Found {
    /// Recorded `hops` families up: kept for descendants, or live.
    Held { hops: u64, kept: bool, custody: CustodyModel },
    /// Recorded by no family, and blocked.
    Blocked(BlockOrigin),
}

/// What a family shows of what it kept for its descendants: nothing to itself, all of it to a
/// family that is some hops away.
pub open spec fn kept_for(maps: FamilyModel, hops: u64, address: int) -> Option<CustodyModel> {
    if hops > 0 {
        lookup(maps.snapshot, address)
    } else {
        None
    }
}

/// What the lineage says of an address: the nearest family that records it decides, and in an
/// ancestor what it kept for its descendants outranks what it records now. A family's own record
/// always comes before anything that it kept for others. An address recorded as unclaimed counts as
/// not recorded.
pub open spec fn found_at(m: DomainModel, family: u64, hops: u64, address: int) -> Option<Found>
    decreases family,
{
    let maps = m.maps[family];
    match kept_for(maps, hops, address) {
        Some(custody) => Some(Found::Held { hops, kept: true, custody }),
        None => match lookup(maps.custody, address) {
            Some(custody) if custody != CustodyModel::Unclaimed => Some(
                Found::Held { hops, kept: false, custody },
            ),
            _ => match m.families[family].parent {
                Some(parent) if parent.raw < family => found_at(
                    m,
                    parent.raw,
                    (hops + 1) as u64,
                    address,
                ),
                _ => match lookup(m.blocked, address) {
                    Some(origin) => Some(Found::Blocked(origin)),
                    None => None,
                },
            },
        },
    }
}

/// The custody behind what the lineage says.
pub open spec fn custody_found(found: Option<Found>) -> CustodyModel {
    match found {
        Some(Found::Held { hops, kept, custody }) => custody,
        Some(Found::Blocked(origin)) => CustodyModel::DomainBlocked(origin),
        None => CustodyModel::Unclaimed,
    }
}

/// The custody of an address through a view's lineage.
pub open spec fn custody_via_lineage(m: DomainModel, view: VmViewId, address: int) -> CustodyModel {
    match family_of(m, view) {
        None => CustodyModel::Unclaimed,
        Some(family) => custody_found(found_at(m, family.raw, 0, address)),
    }
}

/// What the lineage says of every address.
pub open spec fn lineage_map(m: DomainModel, family: u64, hops: u64) -> Map<int, Found> {
    Map::new(
        |k: int| found_at(m, family, hops, k) is Some,
        |k: int| found_at(m, family, hops, k)->0,
    )
}

/// A fragment of custody and whether it is held only through lineage.
pub open spec fn lineage_fragment(piece: (int, int, Found)) -> (int, int, CustodyModel, bool) {
    (
        piece.0,
        piece.1,
        custody_found(Some(piece.2)),
        piece.2 matches Found::Held { hops, kept, custody } && hops > 0,
    )
}

/// Every custody found in a range through a view's lineage, in address order.
pub open spec fn lineage_fragments(m: DomainModel, view: VmViewId, start: int, end: int) -> Seq<
    (int, int, CustodyModel, bool),
> {
    match family_of(m, view) {
        Some(family) if start < end => {
            let found = pieces(lineage_map(m, family.raw, 0), start, end);
            Seq::new(found.len(), |i: int| lineage_fragment(found[i]))
        },
        _ => Seq::empty(),
    }
}

/// A list of ranges with custody, as mathematical values.
pub open spec fn fragment_models(list: Seq<(Range<usize>, Custody)>) -> Seq<(int, int, CustodyModel)> {
    Seq::new(list.len(), |i: int| (list[i].0.start as int, list[i].0.end as int, list[i].1@))
}

/// A list of ranges with custody and lineage mark, as mathematical values.
pub open spec fn lineage_models(list: Seq<(Range<usize>, Custody, bool)>) -> Seq<
    (int, int, CustodyModel, bool),
> {
    Seq::new(
        list.len(),
        |i: int| (list[i].0.start as int, list[i].0.end as int, list[i].1@, list[i].2),
    )
}

/// The fragments through lineage say of each address what the point query says, and leave out
/// exactly the addresses that nobody records.
pub proof fn lemma_lineage_fragments_agree(m: DomainModel, view: VmViewId, start: int, end: int, k: int)
    requires
        family_of(m, view) is Some,
        start <= k < end,
    ensures
        forall|i: int|
            0 <= i < lineage_fragments(m, view, start, end).len() && (#[trigger] lineage_fragments(
                m,
                view,
                start,
                end,
            )[i]).0 <= k < lineage_fragments(m, view, start, end)[i].1 ==> custody_via_lineage(m, view, k)
                == lineage_fragments(m, view, start, end)[i].2,
        custody_via_lineage(m, view, k) != CustodyModel::Unclaimed ==> exists|i: int|
            0 <= i < lineage_fragments(m, view, start, end).len() && (#[trigger] lineage_fragments(
                m,
                view,
                start,
                end,
            )[i]).0 <= k < lineage_fragments(m, view, start, end)[i].1,
{
    let family = m.views[view.raw].family.raw;
    let map = lineage_map(m, family, 0);
    let found = pieces(map, start, end);
    let list = lineage_fragments(m, view, start, end);
    lemma_pieces(map, start, end);
    assert(lookup(map, k) == found_at(m, family, 0, k));
    assert forall|i: int| 0 <= i < list.len() && (#[trigger] list[i]).0 <= k < list[i].1 implies custody_via_lineage(
        m,
        view,
        k,
    ) == list[i].2 by {
        assert(found[i].0 <= k < found[i].1);
        assert(lookup(map, k) == Some(found[i].2));
    }
    if custody_via_lineage(m, view, k) != CustodyModel::Unclaimed {
        assert(lookup(map, k) is Some);
        assert(covered(found, k));
        let i = choose|i: int| 0 <= i < found.len() && (#[trigger] found[i]).0 <= k < found[i].1;
        assert(list[i].0 <= k < list[i].1);
    }
}

/// A scratch value of the lineage walk.
pub enum FoundCell {
    Held { hops: u64, kept: bool, custody: Custody },
    Blocked(BlockOrigin),
}

impl Coded for FoundCell {
    type Model = Found;

    open spec fn model(&self) -> Found {
        match self {
            FoundCell::Held { hops, kept, custody } => Found::Held {
                hops: *hops,
                kept: *kept,
                custody: custody@,
            },
            FoundCell::Blocked(origin) => Found::Blocked(*origin),
        }
    }

    open spec fn code(model: Found) -> Seq<u64> {
        match model {
            Found::Held { hops, kept, custody } => seq![
                if kept { 1u64 } else { 0u64 },
                hops,
            ] + Custody::code(custody),
            Found::Blocked(origin) => seq![2u64, BlockOrigin::code(origin)[0]],
        }
    }

    open spec fn decoded(words: Seq<u64>) -> Found {
        if words[0] == 2 {
            Found::Blocked(crate::mm::custody::origin_of(words[1]))
        } else {
            Found::Held {
                hops: words[1],
                kept: words[0] == 1,
                custody: Custody::decoded(words.subrange(2, words.len() as int)),
            }
        }
    }

    proof fn lemma_round_trip(model: Found) {
        if let Found::Held { hops, kept, custody } = model {
            let words = Self::code(model);
            Custody::lemma_round_trip(custody);
            assert(words.subrange(2, words.len() as int) =~= Custody::code(custody));
        }
    }

    fn encode(&self) -> (words: Vec<u64>) {
        let mut words: Vec<u64> = Vec::new();
        match self {
            FoundCell::Held { hops, kept, custody } => {
                words.push(if *kept { 1 } else { 0 });
                words.push(*hops);
                let mut rest = custody.encode();
                words.append(&mut rest);
            },
            FoundCell::Blocked(origin) => {
                words.push(2);
                let mut rest = origin.encode();
                words.append(&mut rest);
            },
        }
        proof {
            assert(words@ =~= Self::code(self.model()));
        }
        words
    }

    fn decode(words: &Vec<u64>) -> (value: Self) {
        proof {
            assert(words@.len() >= 2);
        }
        let mut rest: Vec<u64> = Vec::new();
        let mut i: usize = if words[0] == 2 { 1 } else { 2 };
        let ghost from = i as int;
        while i < words.len()
            invariant
                0 <= from <= i <= words@.len(),
                rest@ =~= words@.subrange(from, i as int),
            decreases words@.len() - i,
        {
            rest.push(words[i]);
            i += 1;
        }
        if words[0] == 2 {
            proof {
                assert(rest@[0] == words@[1]);
                assert(rest@ =~= BlockOrigin::code(crate::mm::custody::origin_of(words@[1])));
            }
            FoundCell::Blocked(BlockOrigin::decode(&rest))
        } else {
            proof {
                assert(Self::decoded(words@) is Held);
                assert(rest@ =~= Custody::code(Custody::decoded(rest@))) by {
                    let whole = Self::code(Self::decoded(words@));
                    assert(whole.subrange(2, whole.len() as int) =~= Custody::code(
                        Custody::decoded(words@.subrange(2, words@.len() as int)),
                    ));
                }
            }
            FoundCell::Held { hops: words[1], kept: words[0] == 1, custody: Custody::decode(&rest) }
        }
    }
}

impl GuestVaDomain {
    /// The one custody that covers a whole non-empty range within a family, if there is one.
    pub(crate) fn custody_lookup(&self, family: FamilyId, start: usize, end: usize) -> (custody: Option<Custody>)
        requires
            self.wf(),
            start < end,
        ensures
            match custody {
                Some(value) => uniform_custody(self@, family, start as int, end as int) == Some(value@),
                None => uniform_custody(self@, family, start as int, end as int) is None,
            },
    {
        if let Some(maps) = self.per_family.get(family.raw) {
            match maps.custody.extent(start, end) {
                Extent::Uniform(Custody::Unclaimed) => {
                    proof {
                        assert(uniform(
                            custody_of(self@, family),
                            start as int,
                            end as int,
                            CustodyModel::Unclaimed,
                        ));
                    }
                },
                Extent::Uniform(value) => {
                    proof {
                        assert(lookup(maps.custody@, start as int) == Some(value@));
                    }
                    return Some(value);
                },
                Extent::Mixed => {
                    return None;
                },
                Extent::Uncovered => {},
            }
        } else {
            proof {
                assert forall|k: int| #[trigger] lookup(custody_of(self@, family), k) is None by {}
            }
        }
        match self.domain_blocked.extent(start, end) {
            Extent::Uniform(origin) => {
                proof {
                    assert(lookup(self.domain_blocked@, start as int) == Some(origin));
                }
                Some(Custody::DomainBlocked(origin))
            },
            Extent::Mixed => None,
            Extent::Uncovered => Some(Custody::Unclaimed),
        }
    }

    /// The custody recorded at an address within a view's own family. Unclaimed if the view is not
    /// registered.
    pub fn custody_at(&self, view: VmViewId, addr: usize) -> (custody: Custody)
        requires
            self.wf(),
        ensures
            custody@ == custody_within(self@, view, addr as int),
    {
        let family = match self.family_of_view(view) {
            Some(family) => family,
            None => {
                return Custody::Unclaimed;
            },
        };
        proof {
            assert(self@.views.dom().contains(view.raw));
        }
        if let Some(maps) = self.per_family.get(family.raw) {
            match maps.custody.get(addr) {
                Some(Custody::Unclaimed) | None => {},
                Some(custody) => {
                    return custody;
                },
            }
        }
        self.blocked_at(addr)
    }

    fn blocked_at(&self, addr: usize) -> (custody: Custody)
        requires
            self.wf(),
        ensures
            custody@ == blocked_or_unclaimed(self@, addr as int),
    {
        match self.domain_blocked.get(addr) {
            Some(origin) => Custody::DomainBlocked(origin),
            None => Custody::Unclaimed,
        }
    }

    /// Every recorded custody fragment of a range within a view's own family, and every blocked
    /// one, in address order, each cut off at the range. Gaps are unclaimed.
    pub fn custody_fragments(&self, view: VmViewId, range: Range<usize>) -> (found: Vec<(Range<usize>, Custody)>)
        requires
            self.wf(),
        ensures
            fragment_models(found@) == fragments(
                self@,
                view,
                range.start as int,
                range.end as int,
            ),
    {
        let (start, end) = (range.start, range.end);
        let mut found: Vec<(Range<usize>, Custody)> = Vec::new();
        proof {
            assert(fragment_models(found@) =~= Seq::empty());
        }
        if start >= end {
            return found;
        }
        let family = match self.family_of_view(view) {
            Some(family) => family,
            None => {
                return found;
            },
        };
        proof {
            assert(self@.views.dom().contains(view.raw));
        }
        let own = match self.per_family.get(family.raw) {
            Some(maps) => maps.custody.pieces(start, end),
            None => Vec::new(),
        };
        let blocked = self.domain_blocked.pieces(start, end);
        let ghost a = modelled(own@);
        let ghost b = as_custody(modelled(blocked@));
        let mut i: usize = 0;
        let mut j: usize = 0;
        proof {
            assert(a.skip(0) =~= a);
            assert(b.skip(0) =~= b);
            assert(fragment_models(found@) + merged(a, b) =~= merged(a, b));
        }
        while i < own.len() || j < blocked.len()
            invariant
                i <= own@.len(),
                j <= blocked@.len(),
                a == modelled(own@),
                b == as_custody(modelled(blocked@)),
                fragment_models(found@) + merged(a.skip(i as int), b.skip(j as int)) == merged(a, b),
            decreases own@.len() - i + blocked@.len() - j,
        {
            let ghost before = fragment_models(found@);
            let ghost left = a.skip(i as int);
            let ghost right = b.skip(j as int);
            let take_own = if i >= own.len() {
                false
            } else if j >= blocked.len() {
                true
            } else {
                own[i].0 <= blocked[j].0
            };
            proof {
                if i < own@.len() {
                    assert(left[0] == a[i as int]);
                    assert(left.drop_first() =~= a.skip(i + 1));
                }
                if j < blocked@.len() {
                    assert(right[0] == b[j as int]);
                    assert(right.drop_first() =~= b.skip(j + 1));
                }
                if left.len() == 0 {
                    assert(merged(left, right) =~= seq![right[0]] + merged(left, right.drop_first()));
                }
                if right.len() == 0 {
                    assert(merged(left, right) =~= seq![left[0]] + merged(left.drop_first(), right));
                }
            }
            if take_own {
                let custody = own[i].2.clone();
                found.push((own[i].0..own[i].1, custody));
                proof {
                    assert(fragment_models(found@) =~= before.push(left[0]));
                }
                i += 1;
            } else {
                found.push((blocked[j].0..blocked[j].1, Custody::DomainBlocked(blocked[j].2)));
                proof {
                    assert(fragment_models(found@) =~= before.push(right[0]));
                }
                j += 1;
            }
            proof {
                assert(fragment_models(found@) + merged(a.skip(i as int), b.skip(j as int)) =~= before
                    + merged(left, right));
            }
        }
        proof {
            assert(merged(a.skip(i as int), b.skip(j as int)) =~= Seq::empty());
            assert(fragment_models(found@) =~= merged(a, b));
            if !self@.maps.dom().contains(family.raw) {
                assert(false);
            }
        }
        found
    }

    /// The custody of an address, resolved through the families that a view's own was forked from
    /// where its own records nothing.
    pub fn custody_at_via_lineage(&self, view: VmViewId, addr: usize) -> (custody: Custody)
        requires
            self.wf(),
        ensures
            custody@ == custody_via_lineage(self@, view, addr as int),
    {
        let first = match self.family_of_view(view) {
            Some(family) => family,
            None => {
                return Custody::Unclaimed;
            },
        };
        proof {
            assert(self@.views.dom().contains(view.raw));
        }
        let mut family = first;
        let mut inherited: bool = false;
        let ghost mut hops: u64 = 0;
        loop
            invariant
                inherited == (hops > 0),
                self.wf(),
                lineage_ok(self@),
                family_of(self@, view) is Some,
                self@.families.dom().contains(family.raw),
                hops + family.raw <= u64::MAX,
                custody_via_lineage(self@, view, addr as int) == custody_found(
                    found_at(self@, family.raw, hops, addr as int),
                ),
            decreases family.raw,
        {
            if let Some(maps) = self.per_family.get(family.raw) {
                if inherited {
                    if let Some(kept) = maps.retired_lineage_snapshot.get(addr) {
                        return kept;
                    }
                }
                if let Some(custody) = maps.custody.get(addr) {
                    if !custody.is_unclaimed() {
                        return custody;
                    }
                }
            }
            proof {
                assert(self@.maps.dom().contains(family.raw));
            }
            match self.family_parent(family) {
                Some(parent) => {
                    proof {
                        hops = (hops + 1) as u64;
                    }
                    inherited = true;
                    family = parent;
                },
                None => {
                    return self.blocked_at(addr);
                },
            }
        }
    }

    /// The lineage of a registered family: itself, the family it was forked from, and so on.
    pub(crate) fn lineage(&self, family: FamilyId) -> (chain: Vec<FamilyId>)
        requires
            self.wf(),
            self@.families.dom().contains(family.raw),
        ensures
            is_chain(self@, family.raw, chain@),
    {
        let mut chain: Vec<FamilyId> = vec![family];
        let mut last = family;
        loop
            invariant
                self.wf(),
                lineage_ok(self@),
                chain@.len() > 0,
                chain@[0] == family,
                chain@.last() == last,
                chain@.len() + last.raw <= family.raw + 1,
                forall|i: int| 0 <= i < chain@.len() ==> self@.families.dom().contains(
                    (#[trigger] chain@[i]).raw,
                ),
                forall|i: int|
                    #![trigger chain@[i]]
                    0 <= i < chain@.len() - 1 ==> self@.families[chain@[i].raw].parent == Some(chain@[i + 1]),
            decreases last.raw,
        {
            match self.family_parent(last) {
                Some(parent) => {
                    proof {
                        assert(self@.families.dom().contains(last.raw));
                    }
                    let ghost before = chain@;
                    chain.push(parent);
                    proof {
                        assert forall|i: int|
                            #![trigger chain@[i]]
                            0 <= i < chain@.len() - 1 implies self@.families[chain@[i].raw].parent == Some(
                            chain@[i + 1],
                        ) by {
                            if i < before.len() - 1 {
                                assert(before[i] == chain@[i]);
                                assert(before[i + 1] == chain@[i + 1]);
                            }
                        }
                    }
                    last = parent;
                },
                None => {
                    return chain;
                },
            }
        }
    }

    /// Every recorded custody fragment of a range, in address order, resolved through a view's own
    /// family first and then each family it descends from for whatever the nearer ones leave
    /// unrecorded. The flag says whether the fragment came from an ancestor.
    pub fn custody_fragments_via_lineage(&self, view: VmViewId, range: Range<usize>) -> (found: Vec<
        (Range<usize>, Custody, bool),
    >)
        requires
            self.wf(),
        ensures
            lineage_models(found@) == lineage_fragments(
                self@,
                view,
                range.start as int,
                range.end as int,
            ),
    {
        let (start, end) = (range.start, range.end);
        let mut found: Vec<(Range<usize>, Custody, bool)> = Vec::new();
        proof {
            assert(lineage_models(found@) =~= Seq::empty());
        }
        if start >= end {
            return found;
        }
        let family = match self.family_of_view(view) {
            Some(family) => family,
            None => {
                return found;
            },
        };
        proof {
            assert(self@.views.dom().contains(view.raw));
        }
        let scratch = self.lineage_table(family, start, end);
        let cells = scratch.pieces(start, end);
        let ghost list = modelled(cells@);
        proof {
            let whole = lineage_map(self@, family.raw, 0);
            assert forall|k: int| start <= k < end implies #[trigger] lookup(whole, k) == lookup(
                scratch@,
                k,
            ) by {
                assert(lookup(whole, k) == found_at(self@, family.raw, 0, k));
            }
            lemma_same_pieces(list, scratch@, whole, start as int, end as int);
            lemma_pieces(whole, start as int, end as int);
        }
        let mut i: usize = 0;
        while i < cells.len()
            invariant
                i <= cells@.len(),
                list == modelled(cells@),
                lineage_models(found@) =~= Seq::new(i as nat, |j: int| lineage_fragment(list[j])),
            decreases cells@.len() - i,
        {
            let (s, e) = (cells[i].0, cells[i].1);
            let ghost before = lineage_models(found@);
            proof {
                assert(list[i as int] == (s as int, e as int, cells@[i as int].2.model()));
            }
            match &cells[i].2 {
                FoundCell::Held { hops, kept, custody } => {
                    let copy = custody.clone();
                    found.push((s..e, copy, *hops > 0));
                },
                FoundCell::Blocked(origin) => {
                    found.push((s..e, Custody::DomainBlocked(*origin), false));
                },
            }
            proof {
                assert(lineage_models(found@) =~= before.push(lineage_fragment(list[i as int])));
            }
            i += 1;
        }
        proof {
            assert(lineage_models(found@) =~= lineage_fragments(
                self@,
                view,
                start as int,
                end as int,
            ));
        }
        found
    }

    /// What the lineage of a family says of the addresses of a range. The farthest family is
    /// entered first, so that nearer ones overwrite it.
    fn lineage_table(&self, family: FamilyId, start: usize, end: usize) -> (scratch: RangeTable<FoundCell>)
        requires
            self.wf(),
            start < end,
            self@.families.dom().contains(family.raw),
        ensures
            scratch.wf(),
            forall|k: int|
                start <= k < end ==> #[trigger] lookup(scratch@, k) == found_at(
                    self@,
                    family.raw,
                    0,
                    k,
                ),
    {
        let chain = self.lineage(family);
        let mut scratch: RangeTable<FoundCell> = RangeTable::new();
        let blocked = self.domain_blocked.pieces(start, end);
        let ghost spans = modelled(blocked@);
        let mut b: usize = 0;
        while b < blocked.len()
            invariant
                b <= blocked@.len(),
                start < end,
                spans == modelled(blocked@),
                scratch.wf(),
                pieces_of(spans, self@.blocked, start as int, end as int),
                forall|k: int| #[trigger]
                    lookup(scratch@, k) == (if covered(spans.take(b as int), k) {
                        Some(Found::Blocked(self@.blocked[k]))
                    } else {
                        None
                    }),
            decreases blocked@.len() - b,
        {
            let ghost before = scratch@;
            let (s, e, origin) = blocked[b];
            proof {
                assert(spans[b as int] == (s as int, e as int, origin));
            }
            scratch.insert(s, e, &FoundCell::Blocked(origin));
            proof {
                assert forall|k: int| #[trigger]
                    lookup(scratch@, k) == (if covered(spans.take(b + 1), k) {
                        Some(Found::Blocked(self@.blocked[k]))
                    } else {
                        None
                    }) by {
                    assert(lookup(before, k) == lookup(before, k));
                    lemma_covered_take(spans, b as int, k);
                    if s <= k < e {
                        assert(lookup(self@.blocked, k) == Some(origin));
                    }
                }
            }
            b += 1;
        }
        proof {
            assert(spans.take(spans.len() as int) =~= spans);
            assert forall|k: int| start <= k < end implies #[trigger] lookup(scratch@, k) == blocked_found(
                self@,
                k,
            ) by {
                if lookup(self@.blocked, k) is Some {
                    assert(covered(spans, k));
                }
                if covered(spans, k) {
                    let i = choose|i: int| 0 <= i < spans.len() && (#[trigger] spans[i]).0 <= k < spans[i].1;
                    assert(lookup(self@.blocked, k) == Some(spans[i].2));
                }
            }
        }
        let mut n: usize = chain.len();
        while n > 0
            invariant
                self.wf(),
                start < end,
                n <= chain@.len(),
                chain@.len() <= u64::MAX,
                is_chain(self@, family.raw, chain@),
                scratch.wf(),
                forall|k: int|
                    start <= k < end ==> #[trigger] lookup(scratch@, k) == (if n == chain@.len() {
                        blocked_found(self@, k)
                    } else {
                        found_at(self@, chain@[n as int].raw, n as u64, k)
                    }),
            decreases n,
        {
            let level: usize = n - 1;
            let ghost before = scratch@;
            let ghost at = chain@[level as int].raw;
            proof {
                assert(self@.families.dom().contains(at));
                assert(self@.maps.dom().contains(at));
            }
            if let Some(maps) = self.per_family.get(chain[level].raw) {
                maps.enter(&mut scratch, start, end, level as u64);
                proof {
                    assert(maps@ == self@.maps[at]);
                    assert forall|k: int| start <= k < end implies #[trigger] lookup(scratch@, k) == found_at(
                        self@,
                        at,
                        level as u64,
                        k,
                    ) by {
                        assert(lookup(before, k) == lookup(before, k));
                        if n < chain@.len() {
                            assert(self@.families[chain@[level as int].raw].parent == Some(
                                chain@[level + 1],
                            ));
                            assert(self@.families.dom().contains(chain@[level as int].raw));
                            assert((level as u64 + 1) as u64 == n as u64);
                        }
                    }
                }
            }
            n = level;
        }
        scratch
    }
}

/// What is left of an address that no family records.
pub open spec fn blocked_found(m: DomainModel, address: int) -> Option<Found> {
    match lookup(m.blocked, address) {
        Some(origin) => Some(Found::Blocked(origin)),
        None => None,
    }
}

/// The list is a family's lineage: itself, its parent, and so on up to a family without one.
pub open spec fn is_chain(m: DomainModel, family: u64, chain: Seq<FamilyId>) -> bool {
    &&& chain.len() > 0
    &&& chain[0].raw == family
    &&& chain.len() <= family + 1
    &&& forall|i: int| 0 <= i < chain.len() ==> m.families.dom().contains((#[trigger] chain[i]).raw)
    &&& forall|i: int|
        #![trigger chain[i]]
        0 <= i < chain.len() - 1 ==> m.families[chain[i].raw].parent == Some(chain[i + 1])
    &&& m.families[chain.last().raw].parent is None
}

proof fn lemma_covered_take<M>(list: Seq<(int, int, M)>, n: int, k: int)
    requires
        0 <= n < list.len(),
    ensures
        covered(list.take(n + 1), k) <==> covered(list.take(n), k) || list[n].0 <= k < list[n].1,
{
    let shorter = list.take(n);
    let longer = list.take(n + 1);
    if covered(shorter, k) {
        let i = choose|i: int| 0 <= i < shorter.len() && (#[trigger] shorter[i]).0 <= k < shorter[i].1;
        assert(longer[i].0 <= k < longer[i].1);
    }
    if list[n].0 <= k < list[n].1 {
        assert(longer[n].0 <= k < longer[n].1);
    }
    if covered(longer, k) {
        let i = choose|i: int| 0 <= i < longer.len() && (#[trigger] longer[i]).0 <= k < longer[i].1;
        if i < n {
            assert(shorter[i].0 <= k < shorter[i].1);
        }
    }
}

/// The pieces of a range depend on the addresses of the range alone.
pub proof fn lemma_same_pieces<M>(
    list: Seq<(int, int, M)>,
    a: Map<int, M>,
    b: Map<int, M>,
    start: int,
    end: int,
)
    requires
        pieces_of(list, a, start, end),
        forall|k: int| start <= k < end ==> #[trigger] lookup(b, k) == lookup(a, k),
    ensures
        pieces_of(list, b, start, end),
{
    assert forall|i: int| 0 <= i < list.len() implies start <= (#[trigger] list[i]).0 < list[i].1 <= end
        && uniform(b, list[i].0, list[i].1, list[i].2) && (list[i].0 == start || lookup(
        b,
        list[i].0 - 1,
    ) != Some(list[i].2)) && (list[i].1 == end || lookup(b, list[i].1) != Some(list[i].2)) by {
        assert forall|k: int| list[i].0 <= k < list[i].1 implies #[trigger] lookup(b, k) == Some(
            list[i].2,
        ) by {
            assert(lookup(a, k) == Some(list[i].2));
        }
        if list[i].0 != start {
            assert(lookup(b, list[i].0 - 1) == lookup(a, list[i].0 - 1));
        }
        if list[i].1 != end {
            assert(lookup(b, list[i].1) == lookup(a, list[i].1));
        }
    }
}

/// What one family says of an address, and what was said before where it says nothing.
pub open spec fn level_found(maps: FamilyModel, hops: u64, before: Option<Found>, address: int) -> Option<
    Found,
> {
    match kept_for(maps, hops, address) {
        Some(custody) => Some(Found::Held { hops, kept: true, custody }),
        None => match lookup(maps.custody, address) {
            Some(custody) if custody != CustodyModel::Unclaimed => Some(
                Found::Held { hops, kept: false, custody },
            ),
            _ => before,
        },
    }
}

impl FamilyMaps {
    /// Enters what this family says of a range into a scratch table: what it records now, and for a
    /// descendant over that what it kept.
    fn enter(&self, scratch: &mut RangeTable<FoundCell>, start: usize, end: usize, hops: u64)
        requires
            self.wf(),
            old(scratch).wf(),
            start < end,
        ensures
            final(scratch).wf(),
            forall|k: int|
                start <= k < end ==> #[trigger] lookup(final(scratch)@, k) == level_found(
                    self@,
                    hops,
                    lookup(old(scratch)@, k),
                    k,
                ),
    {
        let live = self.custody.pieces(start, end);
        let kept = if hops > 0 {
            self.retired_lineage_snapshot.pieces(start, end)
        } else {
            Vec::new()
        };
        let ghost shown: Map<int, CustodyModel> = if hops > 0 {
            self@.snapshot
        } else {
            Map::empty()
        };
        let ghost a = modelled(live@);
        let ghost b = modelled(kept@);
        assert(pieces_of(b, shown, start as int, end as int));
        let ghost before = scratch@;
        let mut i: usize = 0;
        while i < live.len()
            invariant
                i <= live@.len(),
                start < end,
                a == modelled(live@),
                pieces_of(a, self@.custody, start as int, end as int),
                scratch.wf(),
                forall|k: int| #[trigger]
                    lookup(scratch@, k) == (if covered(a.take(i as int), k) && lookup(self@.custody, k)
                        != Some(CustodyModel::Unclaimed) {
                        Some(Found::Held { hops, kept: false, custody: self@.custody[k] })
                    } else {
                        lookup(before, k)
                    }),
            decreases live@.len() - i,
        {
            let ghost middle = scratch@;
            let (s, e) = (live[i].0, live[i].1);
            proof {
                assert(a[i as int] == (s as int, e as int, live@[i as int].2@));
            }
            if !live[i].2.is_unclaimed() {
                let custody = live[i].2.clone();
                scratch.insert(s, e, &FoundCell::Held { hops, kept: false, custody });
            }
            proof {
                assert forall|k: int| #[trigger]
                    lookup(scratch@, k) == (if covered(a.take(i + 1), k) && lookup(self@.custody, k)
                        != Some(CustodyModel::Unclaimed) {
                        Some(Found::Held { hops, kept: false, custody: self@.custody[k] })
                    } else {
                        lookup(before, k)
                    }) by {
                    assert(lookup(middle, k) == lookup(middle, k));
                    lemma_covered_take(a, i as int, k);
                    if s <= k < e {
                        assert(lookup(self@.custody, k) == Some(live@[i as int].2@));
                        if covered(a.take(i as int), k) {
                            let j = choose|j: int|
                                0 <= j < i && (#[trigger] a.take(i as int)[j]).0 <= k < a.take(i as int)[j].1;
                            assert(a[j].1 <= a[i as int].0);
                        }
                    }
                }
            }
            i += 1;
        }
        proof {
            assert(a.take(a.len() as int) =~= a);
        }
        let ghost with_live = scratch@;
        let mut j: usize = 0;
        while j < kept.len()
            invariant
                j <= kept@.len(),
                start < end,
                b == modelled(kept@),
                pieces_of(b, shown, start as int, end as int),
                scratch.wf(),
                forall|k: int| #[trigger]
                    lookup(scratch@, k) == (if covered(b.take(j as int), k) {
                        Some(Found::Held { hops, kept: true, custody: shown[k] })
                    } else {
                        lookup(with_live, k)
                    }),
            decreases kept@.len() - j,
        {
            let ghost middle = scratch@;
            let (s, e) = (kept[j].0, kept[j].1);
            let custody = kept[j].2.clone();
            proof {
                assert(b[j as int] == (s as int, e as int, kept@[j as int].2@));
            }
            scratch.insert(s, e, &FoundCell::Held { hops, kept: true, custody });
            proof {
                assert forall|k: int| #[trigger]
                    lookup(scratch@, k) == (if covered(b.take(j + 1), k) {
                        Some(Found::Held { hops, kept: true, custody: shown[k] })
                    } else {
                        lookup(with_live, k)
                    }) by {
                    assert(lookup(middle, k) == lookup(middle, k));
                    lemma_covered_take(b, j as int, k);
                    if s <= k < e {
                        assert(lookup(shown, k) == Some(kept@[j as int].2@));
                    }
                }
            }
            j += 1;
        }
        proof {
            assert(b.take(b.len() as int) =~= b);
            assert forall|k: int| start <= k < end implies #[trigger] lookup(scratch@, k) == level_found(
                self@,
                hops,
                lookup(before, k),
                k,
            ) by {
                assert(lookup(with_live, k) == lookup(with_live, k));
                assert(lookup(shown, k) == kept_for(self@, hops, k));
                if lookup(self@.custody, k) is Some {
                    assert(covered(a, k));
                } else if covered(a, k) {
                    let i = choose|i: int| 0 <= i < a.len() && (#[trigger] a[i]).0 <= k < a[i].1;
                    assert(lookup(self@.custody, k) == Some(a[i].2));
                }
                if lookup(shown, k) is Some {
                    assert(covered(b, k));
                } else if covered(b, k) {
                    let i = choose|i: int| 0 <= i < b.len() && (#[trigger] b[i]).0 <= k < b[i].1;
                    assert(lookup(shown, k) == Some(b[i].2));
                }
            }
        }
    }
}

} // verus!
