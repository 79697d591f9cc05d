//! A map from numeric identities to values, found through the hash map of the `hashbrown` crate.
//!
//! The hash map takes an identity to the position of its value in a plain vector; the vector is
//! what iteration walks. Removing an identity moves the last value into the freed position.
use vstd::prelude::*;

verus! {

/// `hashbrown::HashMap` from identities to positions. Its allocator parameter is bounded by a
/// trait of that crate, so the map is carried inside an opaque struct.
#[verifier::external_body]
pub struct PositionMap {
    map: hashbrown::HashMap<u64, usize>,
}

/// What a position map holds.
pub uninterp spec fn positions(map: PositionMap) -> Map<u64, usize>;

/// `HashMap::new`: the new map holds nothing.
#[verifier::external_body]
fn position_map_new() -> (map: PositionMap)
    ensures
        positions(map).dom() =~= Set::empty(),
{
    PositionMap { map: hashbrown::HashMap::new() }
}

/// `HashMap::insert`: the identity maps to the position afterwards, whatever it had before.
#[verifier::external_body]
fn position_map_insert(map: &mut PositionMap, id: u64, position: usize)
    ensures
        positions(*final(map)) == positions(*old(map)).insert(id, position),
{
    map.map.insert(id, position);
}

/// `HashMap::remove`: the identity maps to nothing afterwards.
#[verifier::external_body]
fn position_map_remove(map: &mut PositionMap, id: u64)
    ensures
        positions(*final(map)) == positions(*old(map)).remove(id),
{
    map.map.remove(&id);
}

/// `HashMap::get`: the position that the identity maps to, if any.
#[verifier::external_body]
fn position_map_get(map: &PositionMap, id: u64) -> (position: Option<usize>)
    ensures
        position is Some <==> positions(*map).dom().contains(id),
        position matches Some(p) ==> p == positions(*map)[id],
{
    map.map.get(&id).copied()
}

/// A map of executable values, as mathematical values.
pub open spec fn modelled_map<T: View>(map: Map<u64, T>) -> Map<u64, T::V> {
    Map::new(|id: u64| map.dom().contains(id), |id: u64| map[id]@)
}

/// Setting a value sets its mathematical value.
pub broadcast proof fn lemma_modelled_insert<T: View>(map: Map<u64, T>, id: u64, value: T)
    ensures
        #[trigger] modelled_map(map.insert(id, value)) == modelled_map(map).insert(id, value@),
{
    assert(modelled_map(map.insert(id, value)) =~= modelled_map(map).insert(id, value@));
}

/// Taking a value out takes its mathematical value out.
pub broadcast proof fn lemma_modelled_remove<T: View>(map: Map<u64, T>, id: u64)
    ensures
        #[trigger] modelled_map(map.remove(id)) == modelled_map(map).remove(id),
{
    assert(modelled_map(map.remove(id)) =~= modelled_map(map).remove(id));
}

/// A map from identities to values.
pub struct IdMap<T> {
    index: PositionMap,
    slots: Vec<(u64, T)>,
}

impl<T> View for IdMap<T> {
    type V = Map<u64, T>;

    closed spec fn view(&self) -> Map<u64, T> {
        Map::new(
            |id: u64| positions(self.index).dom().contains(id),
            |id: u64| self.slots@[positions(self.index)[id] as int].1,
        )
    }
}

impl<T> IdMap<T> {
    /// The index and the slots name each other.
    pub closed spec fn wf(&self) -> bool {
        &&& forall|id: u64| #[trigger]
            positions(self.index).dom().contains(id) ==> positions(self.index)[id] < self.slots@.len()
                && self.slots@[positions(self.index)[id] as int].0 == id
        &&& forall|i: int|
            0 <= i < self.slots@.len() ==> positions(self.index).dom().contains(
                (#[trigger] self.slots@[i]).0,
            ) && positions(self.index)[self.slots@[i].0] == i
    }

    /// The identities, in the order in which [`Self::id_at`] hands them out.
    pub closed spec fn order(&self) -> Seq<u64> {
        Seq::new(self.slots@.len(), |i: int| self.slots@[i].0)
    }

    /// Iteration names every identity exactly once.
    pub proof fn lemma_order(&self)
        requires
            self.wf(),
        ensures
            self.order().no_duplicates(),
            forall|id: u64| #[trigger] self.order().contains(id) <==> self@.dom().contains(id),
    {
        assert forall|i: int, j: int|
            0 <= i < self.order().len() && 0 <= j < self.order().len() && i != j implies self.order()[i]
            != self.order()[j] by {
            assert(positions(self.index)[self.slots@[i].0] == i);
            assert(positions(self.index)[self.slots@[j].0] == j);
        }
        assert forall|id: u64| #[trigger] self.order().contains(id) <==> self@.dom().contains(id) by {
            if self@.dom().contains(id) {
                let i = positions(self.index)[id] as int;
                assert(self.order()[i] == id);
            }
            if self.order().contains(id) {
                let i = choose|i: int| 0 <= i < self.order().len() && self.order()[i] == id;
                assert(self.slots@[i].0 == id);
            }
        }
    }

    pub fn new() -> (map: Self)
        ensures
            map.wf(),
            map@ == Map::<u64, T>::empty(),
    {
        let map = IdMap { index: position_map_new(), slots: Vec::new() };
        proof {
            assert(map@ =~= Map::<u64, T>::empty());
        }
        map
    }

    /// The number of identities.
    pub fn len(&self) -> (n: usize)
        ensures
            n == self.order().len(),
    {
        self.slots.len()
    }

    /// The identity at a position of the iteration order.
    pub fn id_at(&self, i: usize) -> (id: u64)
        requires
            self.wf(),
            i < self.order().len(),
        ensures
            id == self.order()[i as int],
            self@.dom().contains(id),
    {
        self.slots[i].0
    }

    pub fn contains(&self, id: u64) -> (found: bool)
        ensures
            found == self@.dom().contains(id),
    {
        position_map_get(&self.index, id).is_some()
    }

    pub fn get(&self, id: u64) -> (found: Option<&T>)
        requires
            self.wf(),
        ensures
            found is Some <==> self@.dom().contains(id),
            found matches Some(value) ==> *value == self@[id],
    {
        match position_map_get(&self.index, id) {
            None => None,
            Some(i) => Some(&self.slots[i].1),
        }
    }

    /// A borrow of the value of a known identity.
    pub fn get_mut(&mut self, id: u64) -> (value: &mut T)
        requires
            old(self).wf(),
            old(self)@.dom().contains(id),
        ensures
            *value == old(self)@[id],
            final(self).wf(),
            final(self)@ == old(self)@.insert(id, *final(value)),
            final(self).order() == old(self).order(),
    {
        let i: usize = match position_map_get(&self.index, id) {
            Some(i) => i,
            None => 0,
        };
        &mut self.slots[i].1
    }

    /// Sets the value of an identity, new or known.
    pub fn insert(&mut self, id: u64, value: T)
        requires
            old(self).wf(),
        ensures
            final(self).wf(),
            final(self)@ == old(self)@.insert(id, value),
    {
        match position_map_get(&self.index, id) {
            Some(i) => {
                self.slots.set(i, (id, value));
                proof {
                    assert(self@ =~= old(self)@.insert(id, value));
                }
            },
            None => {
                let i: usize = self.slots.len();
                position_map_insert(&mut self.index, id, i);
                self.slots.push((id, value));
                proof {
                    assert(self@ =~= old(self)@.insert(id, value));
                }
            },
        }
    }

    /// Takes an identity and its value out.
    pub fn remove(&mut self, id: u64) -> (removed: Option<T>)
        requires
            old(self).wf(),
        ensures
            final(self).wf(),
            final(self)@ == old(self)@.remove(id),
            removed is Some <==> old(self)@.dom().contains(id),
            removed matches Some(value) ==> value == old(self)@[id],
    {
        match position_map_get(&self.index, id) {
            None => {
                proof {
                    assert(self@ =~= old(self)@.remove(id));
                }
                None
            },
            Some(i) => {
                let (_, value) = self.slots.swap_remove(i);
                position_map_remove(&mut self.index, id);
                if i < self.slots.len() {
                    let moved: u64 = self.slots[i].0;
                    proof {
                        assert(moved == old(self).slots@[old(self).slots@.len() - 1].0);
                        assert(positions(old(self).index)[moved] == old(self).slots@.len() - 1);
                    }
                    position_map_insert(&mut self.index, moved, i);
                }
                proof {
                    assert forall|j: int| 0 <= j < self.slots@.len() implies positions(
                        self.index,
                    ).dom().contains((#[trigger] self.slots@[j]).0) && positions(
                        self.index,
                    )[self.slots@[j].0] == j by {
                        let k = if j == i { old(self).slots@.len() - 1 } else { j };
                        assert(self.slots@[j] == old(self).slots@[k]);
                        assert(positions(old(self).index)[old(self).slots@[k].0] == k);
                        assert(positions(old(self).index)[old(self).slots@[i as int].0] == i);
                    }
                    assert(self@ =~= old(self)@.remove(id));
                }
                Some(value)
            },
        }
    }
}

} // verus!
