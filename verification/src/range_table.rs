//! A range map over typed values.
//!
//! Each value type says how it is written as words ([`Coded`]); the table keeps only words that
//! came from a value, so equal words mean equal values and the maximal runs of words are the
//! maximal runs of values.
use crate::range_map::{
    range_map_get_key_value, range_map_has_gap, range_map_insert, range_map_new,
    range_map_overlapping, range_map_remove,
};
use core::marker::PhantomData;
use rangemap::RangeMap;
use vstd::prelude::*;

verus! {

use crate::range_map::{
    covered, cut, entries, is_run, lemma_clip, lemma_pieces, lookup, pieces, pieces_of, put, runs_of,
    stored, uniform,
};

broadcast use {crate::range_map::lemma_lookup_put, crate::range_map::lemma_lookup_cut};

/// A value that a range table can hold.
pub trait Coded: Sized {
    /// The mathematical value behind an executable one.
    type Model;

    spec fn model(&self) -> Self::Model;

    /// The words of a value.
    spec fn code(model: Self::Model) -> Seq<u64>;

    /// The value behind words.
    spec fn decoded(words: Seq<u64>) -> Self::Model;

    /// Words determine their value.
    proof fn lemma_round_trip(model: Self::Model)
        ensures
            Self::decoded(Self::code(model)) == model,
    ;

    fn encode(&self) -> (words: Vec<u64>)
        ensures
            words@ == Self::code(self.model()),
    ;

    fn decode(words: &Vec<u64>) -> (value: Self)
        requires
            words@ == Self::code(Self::decoded(words@)),
        ensures
            value.model() == Self::decoded(words@),
    ;
}

/// A range map from addresses to values of `T`.
pub struct RangeTable<T: Coded> {
    words: RangeMap<usize, Vec<u64>>,
    marker: PhantomData<T>,
}

/// What a table says of a whole range.
pub enum Extent<T> {
    /// No address is covered.
    Uncovered,
    /// Every address maps to this value.
    Uniform(T),
    /// Anything else.
    Mixed,
}

/// Some address of a range is covered.
pub open spec fn touched<M>(map: Map<int, M>, start: int, end: int) -> bool {
    exists|k: int| start <= k < end && #[trigger] lookup(map, k) is Some
}

/// The entries of an executable list, as mathematical values.
pub open spec fn modelled<T: Coded>(list: Seq<(usize, usize, T)>) -> Seq<(int, int, T::Model)> {
    Seq::new(list.len(), |i: int| (list[i].0 as int, list[i].1 as int, list[i].2.model()))
}

impl<T: Coded> View for RangeTable<T> {
    type V = Map<int, T::Model>;

    closed spec fn view(&self) -> Map<int, T::Model> {
        let words = stored(self.words);
        Map::new(|k: int| words.dom().contains(k), |k: int| T::decoded(words[k]))
    }
}

impl<T: Coded> RangeTable<T> {
    /// Every stored word sequence is the code of a value, and no address lies at the very top of
    /// the address type, which no half-open range can reach.
    pub closed spec fn wf(&self) -> bool {
        forall|k: int| #[trigger]
            stored(self.words).dom().contains(k) ==> 0 <= k < usize::MAX && stored(self.words)[k]
                == T::code(T::decoded(stored(self.words)[k]))
    }

    /// Addresses of a table are addresses.
    pub proof fn lemma_bounds(&self)
        requires
            self.wf(),
        ensures
            forall|k: int| #[trigger] lookup(self@, k) is Some ==> 0 <= k < usize::MAX,
    {
    }

    proof fn lemma_lookup(&self, k: int)
        requires
            self.wf(),
        ensures
            lookup(self@, k) is Some == lookup(stored(self.words), k) is Some,
            lookup(self@, k) is Some ==> lookup(self@, k) == Some(
                T::decoded(lookup(stored(self.words), k)->0),
            ) && lookup(stored(self.words), k) == Some(T::code(lookup(self@, k)->0)),
    {
    }

    proof fn lemma_run(&self, start: int, end: int, words: Seq<u64>)
        requires
            self.wf(),
            is_run(stored(self.words), start, end, words),
        ensures
            is_run(self@, start, end, T::decoded(words)),
            words == T::code(T::decoded(words)),
    {
        assert(lookup(stored(self.words), start) == Some(words));
        assert forall|k: int| start <= k < end implies #[trigger] lookup(self@, k) == Some(
            T::decoded(words),
        ) by {
            assert(lookup(stored(self.words), k) == Some(words));
        }
        self.lemma_lookup(start);
        self.lemma_lookup(start - 1);
        self.lemma_lookup(end);
    }

    pub fn new() -> (table: Self)
        ensures
            table.wf(),
            table@ == Map::<int, T::Model>::empty(),
    {
        let table = RangeTable { words: range_map_new(), marker: PhantomData };
        proof {
            assert(table@ =~= Map::<int, T::Model>::empty());
        }
        table
    }

    /// Sets every address of a non-empty range.
    pub fn insert(&mut self, start: usize, end: usize, value: &T)
        requires
            old(self).wf(),
            start < end,
        ensures
            final(self).wf(),
            final(self)@ == put(old(self)@, start as int, end as int, value.model()),
    {
        let words = value.encode();
        proof {
            T::lemma_round_trip(value.model());
        }
        range_map_insert(&mut self.words, start, end, words);
        proof {
            assert(self@ =~= put(old(self)@, start as int, end as int, value.model()));
        }
    }

    /// Forgets every address of a non-empty range.
    pub fn remove(&mut self, start: usize, end: usize)
        requires
            old(self).wf(),
            start < end,
        ensures
            final(self).wf(),
            final(self)@ == cut(old(self)@, start as int, end as int),
    {
        range_map_remove(&mut self.words, start, end);
        proof {
            assert(self@ =~= cut(old(self)@, start as int, end as int));
        }
    }

    /// The maximal run around an address, and its value.
    pub fn get_key_value(&self, address: usize) -> (found: Option<(usize, usize, T)>)
        requires
            self.wf(),
        ensures
            found is Some <==> lookup(self@, address as int) is Some,
            found matches Some(entry) ==> entry.0 <= address < entry.1 && is_run(
                self@,
                entry.0 as int,
                entry.1 as int,
                entry.2.model(),
            ) && lookup(self@, address as int) == Some(entry.2.model()),
    {
        match range_map_get_key_value(&self.words, address) {
            None => None,
            Some((start, end, words)) => {
                proof {
                    self.lemma_run(start as int, end as int, words@);
                    assert(lookup(self@, address as int) == Some(T::decoded(words@)));
                }
                let value = T::decode(&words);
                Some((start, end, value))
            },
        }
    }

    /// The value at an address.
    pub fn get(&self, address: usize) -> (found: Option<T>)
        requires
            self.wf(),
        ensures
            found is Some <==> lookup(self@, address as int) is Some,
            found matches Some(value) ==> lookup(self@, address as int) == Some(value.model()),
    {
        match self.get_key_value(address) {
            None => None,
            Some((_, _, value)) => Some(value),
        }
    }

    /// The maximal runs that reach into a range, in address order.
    pub fn overlapping(&self, start: usize, end: usize) -> (found: Vec<(usize, usize, T)>)
        requires
            self.wf(),
        ensures
            runs_of(modelled(found@), self@, start as int, end as int),
    {
        let raw = range_map_overlapping(&self.words, start, end);
        let mut found: Vec<(usize, usize, T)> = Vec::new();
        let mut i: usize = 0;
        while i < raw.len()
            invariant
                self.wf(),
                runs_of(entries(raw@), stored(self.words), start as int, end as int),
                i <= raw.len(),
                found.len() == i,
                forall|j: int|
                    0 <= j < i ==> (#[trigger] found@[j]).0 == raw@[j].0 && found@[j].1 == raw@[j].1
                        && found@[j].2.model() == T::decoded(raw@[j].2@),
            decreases raw.len() - i,
        {
            proof {
                let entry = entries(raw@)[i as int];
                assert(is_run(stored(self.words), entry.0, entry.1, entry.2));
                self.lemma_run(entry.0, entry.1, entry.2);
            }
            let value = T::decode(&raw[i].2);
            found.push((raw[i].0, raw[i].1, value));
            i += 1;
        }
        proof {
            let list = modelled(found@);
            let source = entries(raw@);
            assert forall|j: int| 0 <= j < list.len() implies is_run(
                self@,
                (#[trigger] list[j]).0,
                list[j].1,
                list[j].2,
            ) && list[j].0 < end && start < list[j].1 by {
                assert(found@[j].0 == raw@[j].0);
                assert(is_run(stored(self.words), source[j].0, source[j].1, source[j].2));
                self.lemma_run(source[j].0, source[j].1, source[j].2);
            }
            assert forall|a: int, b: int| 0 <= a < b < list.len() implies (#[trigger] list[a]).1 <= (
            #[trigger] list[b]).0 by {
                assert(found@[a].0 == raw@[a].0 && found@[b].0 == raw@[b].0);
                assert(source[a].1 <= source[b].0);
            }
            assert forall|k: int| start <= k < end && #[trigger] lookup(self@, k) is Some implies covered(
                list,
                k,
            ) by {
                self.lemma_lookup(k);
                assert(lookup(stored(self.words), k) is Some);
                let j = choose|j: int|
                    0 <= j < source.len() && (#[trigger] source[j]).0 <= k < source[j].1;
                assert(found@[j].0 == raw@[j].0);
                assert(list[j].0 <= k < list[j].1);
            }
        }
        found
    }

    /// The maximal runs inside a non-empty range, in address order.
    pub fn pieces(&self, start: usize, end: usize) -> (found: Vec<(usize, usize, T)>)
        requires
            self.wf(),
            start < end,
        ensures
            pieces_of(modelled(found@), self@, start as int, end as int),
            modelled(found@) == pieces(self@, start as int, end as int),
    {
        let mut found = self.overlapping(start, end);
        let ghost runs = modelled(found@);
        let mut i: usize = 0;
        while i < found.len()
            invariant
                i <= found.len(),
                found.len() == runs.len(),
                forall|j: int|
                    i <= j < runs.len() ==> (#[trigger] found@[j]).0 == runs[j].0 && found@[j].1
                        == runs[j].1 && found@[j].2.model() == runs[j].2,
                forall|j: int|
                    0 <= j < i ==> (#[trigger] found@[j]).0 == (if runs[j].0 < start {
                        start as int
                    } else {
                        runs[j].0
                    }) && found@[j].1 == (if runs[j].1 > end {
                        end as int
                    } else {
                        runs[j].1
                    }) && found@[j].2.model() == runs[j].2,
            decreases found.len() - i,
        {
            if found[i].0 < start {
                found[i].0 = start;
            }
            if found[i].1 > end {
                found[i].1 = end;
            }
            i += 1;
        }
        proof {
            lemma_clip(runs, modelled(found@), self@, start as int, end as int);
            lemma_pieces(self@, start as int, end as int);
        }
        found
    }

    /// Every run, in address order.
    pub fn iter(&self) -> (found: Vec<(usize, usize, T)>)
        requires
            self.wf(),
        ensures
            runs_of(modelled(found@), self@, 0, usize::MAX as int),
    {
        self.overlapping(0, usize::MAX)
    }

    /// Whether a non-empty range is uncovered, maps to one value throughout, or neither.
    pub fn extent(&self, start: usize, end: usize) -> (extent: Extent<T>)
        requires
            self.wf(),
            start < end,
        ensures
            match extent {
                Extent::Uncovered => !touched(self@, start as int, end as int),
                Extent::Uniform(value) => uniform(self@, start as int, end as int, value.model()),
                Extent::Mixed => touched(self@, start as int, end as int) && !(lookup(
                    self@,
                    start as int,
                ) matches Some(value) && uniform(self@, start as int, end as int, value)),
            },
    {
        let mut found = self.overlapping(start, end);
        let ghost runs = modelled(found@);
        proof {
            if runs.len() > 0 {
                let first = runs[0];
                assert(is_run(self@, first.0, first.1, first.2));
                let k = if first.0 <= start { start as int } else { first.0 };
                assert(lookup(self@, k) == Some(first.2));
                if first.0 > start {
                    if lookup(self@, start as int) is Some {
                        assert(covered(runs, start as int));
                        let i = choose|i: int|
                            0 <= i < runs.len() && (#[trigger] runs[i]).0 <= start < runs[i].1;
                        if i > 0 {
                            assert(runs[0].1 <= runs[i].0);
                        }
                    }
                } else if first.1 < end {
                    assert(lookup(self@, first.1) != Some(first.2));
                }
            } else {
                assert forall|k: int| start <= k < end implies #[trigger] lookup(self@, k) is None by {
                    if lookup(self@, k) is Some {
                        assert(covered(runs, k));
                    }
                }
            }
        }
        if found.len() == 0 {
            return Extent::Uncovered;
        }
        let (run_start, run_end, value) = found.swap_remove(0);
        if run_start > start || run_end < end {
            return Extent::Mixed;
        }
        Extent::Uniform(value)
    }

    /// What the first address of a non-empty range maps to, and how far into the range the same
    /// holds.
    pub fn segment(&self, start: usize, end: usize) -> (found: (Option<T>, usize))
        requires
            self.wf(),
            start < end,
        ensures
            start < found.1 <= end,
            forall|k: int|
                start <= k < found.1 ==> #[trigger] lookup(self@, k) == (match found.0 {
                    Some(value) => Some(value.model()),
                    None => None,
                }),
    {
        let mut list = self.overlapping(start, end);
        let ghost runs = modelled(list@);
        if list.len() == 0 {
            proof {
                assert forall|k: int| start <= k < end implies #[trigger] lookup(self@, k) is None by {
                    if lookup(self@, k) is Some {
                        assert(covered(runs, k));
                    }
                }
            }
            return (None, end);
        }
        let (from, to, value) = list.swap_remove(0);
        proof {
            assert(runs[0] == (from as int, to as int, value.model()));
            assert(is_run(self@, runs[0].0, runs[0].1, runs[0].2));
        }
        if from > start {
            proof {
                assert forall|k: int| start <= k < from implies #[trigger] lookup(self@, k) is None by {
                    if lookup(self@, k) is Some {
                        assert(covered(runs, k));
                        let i = choose|i: int|
                            0 <= i < runs.len() && (#[trigger] runs[i]).0 <= k < runs[i].1;
                        if i > 0 {
                            assert(runs[0].1 <= runs[i].0);
                        }
                    }
                }
            }
            return (None, from);
        }
        let stop: usize = if to < end {
            to
        } else {
            end
        };
        (Some(value), stop)
    }

    /// Some address of the range is covered.
    pub fn overlaps(&self, start: usize, end: usize) -> (found: bool)
        requires
            self.wf(),
            start < end,
        ensures
            found == (exists|k: int| start <= k < end && #[trigger] lookup(self@, k) is Some),
    {
        let list = self.overlapping(start, end);
        proof {
            let models = modelled(list@);
            if models.len() > 0 {
                let s = models[0].0;
                let e = models[0].1;
                assert(is_run(self@, s, e, models[0].2));
                let k = if s <= start { start as int } else { s };
                assert(lookup(self@, k) == Some(models[0].2));
            }
            if exists|k: int| start <= k < end && #[trigger] lookup(self@, k) is Some {
                let k = choose|k: int| start <= k < end && #[trigger] lookup(self@, k) is Some;
                assert(covered(models, k));
            }
        }
        list.len() > 0
    }

    /// Some address of the range is uncovered.
    pub fn has_gap(&self, start: usize, end: usize) -> (found: bool)
        requires
            self.wf(),
        ensures
            found == (exists|k: int| start <= k < end && #[trigger] lookup(self@, k) is None),
    {
        if start >= end {
            return false;
        }
        let found = range_map_has_gap(&self.words, start, end);
        proof {
            assert forall|k: int| (#[trigger] lookup(self@, k) is None) == (lookup(
                stored(self.words),
                k,
            ) is None) by {
                self.lemma_lookup(k);
            }
            if found {
                let k = choose|k: int| start <= k < end && #[trigger] lookup(stored(self.words), k) is None;
                assert(lookup(self@, k) is None);
            }
            if exists|k: int| start <= k < end && #[trigger] lookup(self@, k) is None {
                let k = choose|k: int| start <= k < end && #[trigger] lookup(self@, k) is None;
                assert(lookup(stored(self.words), k) is None);
            }
        }
        found
    }
}

} // verus!
