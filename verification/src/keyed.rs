//! A table of values under text keys.
//!
//! The slot of every key is kept in a `dashmap::DashMap`; the values
//! themselves stand in a vector, so a table has a definite order of entries:
//! the order of insertion, except that a removal moves the last entry into
//! the hole.

use dashmap::DashMap;
use vstd::prelude::*;

verus! {

/// `dashmap::DashMap`, opaque.
#[verifier::external_type_specification]
#[verifier::external_body]
#[verifier::reject_recursive_types(K)]
#[verifier::reject_recursive_types(V)]
#[verifier::reject_recursive_types(S)]
pub struct ExDashMap<K, V, S>(DashMap<K, V, S>);

/// What a map from text to slot numbers holds.
pub uninterp spec fn slot_map(m: DashMap<String, usize>) -> Map<Seq<char>, usize>;

/// The slot map of an empty table.
pub open spec fn no_slots() -> Map<Seq<char>, usize> {
    Map::empty()
}

/// `DashMap::new`: the new map is empty.
#[verifier::external_body]
fn slots_new() -> (fresh: DashMap<String, usize>)
    ensures
        slot_map(fresh) == no_slots(),
{
    DashMap::new()
}

/// `DashMap::get`, copying the value out of the guard it returns: the value
/// stored under the key, or `None` where the key is absent.
#[verifier::external_body]
fn slots_get(m: &DashMap<String, usize>, key: &str) -> (r: Option<usize>)
    ensures
        r == (if slot_map(*m).contains_key(key@) {
            Some(slot_map(*m)[key@])
        } else {
            None
        }),
{
    m.get(key).map(|slot| *slot)
}

/// `DashMap::insert`: stores the value under the key, replacing what was there.
#[verifier::external_body]
fn slots_insert(m: &mut DashMap<String, usize>, key: String, slot: usize)
    ensures
        slot_map(*final(m)) == slot_map(*old(m)).insert(key@, slot),
{
    m.insert(key, slot);
}

/// `DashMap::remove`: takes the key out, if it is there.
#[verifier::external_body]
fn slots_remove(m: &mut DashMap<String, usize>, key: &str)
    ensures
        slot_map(*final(m)) == slot_map(*old(m)).remove(key@),
{
    m.remove(key);
}

/// The keys of a table after a key was stored.
pub open spec fn with_key(keys: Seq<Seq<char>>, key: Seq<char>) -> Seq<Seq<char>> {
    if keys.contains(key) {
        keys
    } else {
        keys.push(key)
    }
}

/// The keys of a table after a key was taken out: the last key fills the gap.
pub open spec fn without_key(keys: Seq<Seq<char>>, key: Seq<char>) -> Seq<Seq<char>> {
    if keys.contains(key) {
        keys.update(keys.index_of(key), keys.last()).drop_last()
    } else {
        keys
    }
}

/// Values of type `V` under text keys.
pub struct Keyed<V> {
    slots: DashMap<String, usize>,
    items: Vec<(String, V)>,
}

impl<V> View for Keyed<V> {
    type V = Map<Seq<char>, V>;

    /// What is stored under each key.
    closed spec fn view(&self) -> Map<Seq<char>, V> {
        Map::new(
            |k: Seq<char>| slot_map(self.slots).contains_key(k),
            |k: Seq<char>| self.items@[slot_map(self.slots)[k] as int].1,
        )
    }
}

impl<V> Keyed<V> {
    /// The keys, in table order.
    pub closed spec fn keys(&self) -> Seq<Seq<char>> {
        self.items@.map_values(|e: (String, V)| e.0@)
    }

    /// The values, in table order.
    pub closed spec fn values(&self) -> Seq<V> {
        self.items@.map_values(|e: (String, V)| e.1)
    }

    /// Every key stands once, and the slot map gives its place.
    pub closed spec fn wf(&self) -> bool {
        &&& forall|i: int|
            0 <= i < self.items@.len() ==> slot_map(self.slots).contains_key(
                (#[trigger] self.items@[i]).0@,
            ) && slot_map(self.slots)[self.items@[i].0@] == i
        &&& forall|k: Seq<char>| #[trigger]
            slot_map(self.slots).contains_key(k) ==> slot_map(self.slots)[k] < self.items@.len()
                && self.items@[slot_map(self.slots)[k] as int].0@ == k
    }

    /// How the keys, the values and the map of a table hang together.
    pub proof fn lemma_entries(&self)
        requires
            self.wf(),
        ensures
            self.keys().len() == self.values().len(),
            self.keys().no_duplicates(),
            forall|i: int|
                0 <= i < self.keys().len() ==> self@.contains_key(#[trigger] self.keys()[i])
                    && self@[self.keys()[i]] == self.values()[i],
            forall|k: Seq<char>| #[trigger] self@.contains_key(k) <==> self.keys().contains(k),
    {
        let keys = self.keys();
        assert forall|i: int, j: int|
            0 <= i < keys.len() && 0 <= j < keys.len() && i != j implies keys[i] != keys[j] by {
            assert(keys[i] == self.items@[i].0@);
            assert(keys[j] == self.items@[j].0@);
        }
        assert forall|k: Seq<char>| #[trigger] self@.contains_key(k) implies keys.contains(k) by {
            assert(keys[slot_map(self.slots)[k] as int] == k);
        }
        assert forall|i: int| 0 <= i < keys.len() implies self@.contains_key(#[trigger] keys[i])
            && self@[keys[i]] == self.values()[i] by {
            assert(keys[i] == self.items@[i].0@);
        }
    }

    /// An empty table.
    pub fn new() -> (t: Self)
        ensures
            t.wf(),
            t@ == Map::<Seq<char>, V>::empty(),
            t.keys() == Seq::<Seq<char>>::empty(),
            t.values() == Seq::<V>::empty(),
    {
        let t = Keyed { slots: slots_new(), items: Vec::new() };
        assert(t@ =~= Map::<Seq<char>, V>::empty());
        assert(t.keys() =~= Seq::<Seq<char>>::empty());
        assert(t.values() =~= Seq::<V>::empty());
        t
    }

    /// The number of entries.
    pub fn len(&self) -> (n: usize)
        ensures
            n == self.keys().len(),
            n == self.values().len(),
    {
        self.items.len()
    }

    /// The place of a key in table order.
    pub fn position(&self, key: &str) -> (r: Option<usize>)
        requires
            self.wf(),
        ensures
            match r {
                Some(i) => i < self.keys().len() && self.keys()[i as int] == key@
                    && self@.contains_key(key@) && self.values()[i as int] == self@[key@],
                None => !self@.contains_key(key@),
            },
    {
        slots_get(&self.slots, key)
    }

    /// Whether something is stored under the key.
    pub fn contains(&self, key: &str) -> (b: bool)
        ensures
            b == self@.contains_key(key@),
    {
        slots_get(&self.slots, key).is_some()
    }

    /// What is stored under the key.
    pub fn get(&self, key: &str) -> (r: Option<&V>)
        requires
            self.wf(),
        ensures
            match r {
                Some(v) => self@.contains_key(key@) && *v == self@[key@],
                None => !self@.contains_key(key@),
            },
    {
        match slots_get(&self.slots, key) {
            Some(i) => Some(&self.items[i].1),
            None => None,
        }
    }

    /// The key of the `i`th entry.
    pub fn key_at(&self, i: usize) -> (k: &String)
        requires
            i < self.keys().len(),
        ensures
            k@ == self.keys()[i as int],
    {
        &self.items[i].0
    }

    /// The value of the `i`th entry.
    pub fn value_at(&self, i: usize) -> (v: &V)
        requires
            i < self.values().len(),
        ensures
            *v == self.values()[i as int],
    {
        &self.items[i].1
    }

    /// A hold on the value under the key, through which it can be replaced.
    pub fn get_mut(&mut self, key: &str) -> (r: Option<&mut V>)
        requires
            old(self).wf(),
        ensures
            final(self).wf(),
            final(self).keys() == old(self).keys(),
            match r {
                Some(v) => old(self)@.contains_key(key@) && *v == old(self)@[key@] && final(self)@
                    == old(self)@.insert(key@, *final(v)),
                None => !old(self)@.contains_key(key@) && *final(self) == *old(self),
            },
    {
        match slots_get(&self.slots, key) {
            Some(i) => Some(&mut self.items[i].1),
            None => None,
        }
    }

    /// Stores the value under the key. A new key goes to the end of the table;
    /// a key that is there keeps its place.
    pub fn insert(&mut self, key: String, value: V)
        requires
            old(self).wf(),
        ensures
            final(self).wf(),
            final(self)@ == old(self)@.insert(key@, value),
            final(self).keys() == with_key(old(self).keys(), key@),
            !old(self)@.contains_key(key@) ==> final(self).values() == old(self).values().push(value),
    {
        proof {
            self.lemma_entries();
        }
        match slots_get(&self.slots, key.as_str()) {
            Some(i) => {
                self.items[i].1 = value;
                proof {
                    assert(self.keys() =~= old(self).keys());
                    assert(old(self)@.contains_key(key@));
                    assert(self@ =~= old(self)@.insert(key@, value));
                }
            },
            None => {
                let i: usize = self.items.len();
                slots_insert(&mut self.slots, key.clone(), i);
                self.items.push((key, value));
                proof {
                    assert(self.keys() =~= old(self).keys().push(key@));
                    assert(self.values() =~= old(self).values().push(value));
                    assert forall|k: Seq<char>| slot_map(self.slots).contains_key(k) && k
                        != key@ implies slot_map(old(self).slots).contains_key(k) by {};
                    assert(self.wf()) by {
                        assert forall|j: int| 0 <= j < self.items@.len() implies slot_map(
                            self.slots,
                        ).contains_key((#[trigger] self.items@[j]).0@) && slot_map(
                            self.slots,
                        )[self.items@[j].0@] == j by {
                            if j < i {
                                assert(self.items@[j] == old(self).items@[j]);
                            }
                        }
                    }
                    assert(self@ =~= old(self)@.insert(key@, value));
                }
            },
        }
    }

    /// Takes the key out and gives back what was stored under it. The last
    /// entry moves to the place that was freed.
    pub fn remove(&mut self, key: &str) -> (r: Option<V>)
        requires
            old(self).wf(),
        ensures
            final(self).wf(),
            final(self)@ == old(self)@.remove(key@),
            final(self).keys() == without_key(old(self).keys(), key@),
            match r {
                Some(v) => old(self)@.contains_key(key@) && v == old(self)@[key@],
                None => !old(self)@.contains_key(key@),
            },
    {
        proof {
            self.lemma_entries();
        }
        match slots_get(&self.slots, key) {
            Some(i) => {
                let last: usize = self.items.len() - 1;
                if i != last {
                    let moved = self.items[last].0.clone();
                    slots_insert(&mut self.slots, moved, i);
                }
                slots_remove(&mut self.slots, key);
                let (_, value) = self.items.swap_remove(i);
                proof {
                    let before = old(self).items@;
                    assert(before[i as int].0@ == key@);
                    assert(old(self)@.contains_key(key@));
                    assert(old(self).keys()[i as int] == key@);
                    let at = old(self).keys().index_of(key@);
                    assert(old(self).keys()[at] == key@);
                    assert(self.keys() =~= without_key(old(self).keys(), key@));
                    assert(self.wf()) by {
                        assert forall|j: int| 0 <= j < self.items@.len() implies slot_map(
                            self.slots,
                        ).contains_key((#[trigger] self.items@[j]).0@) && slot_map(
                            self.slots,
                        )[self.items@[j].0@] == j by {
                            if j == i {
                                assert(self.items@[j] == before[last as int]);
                            } else {
                                assert(self.items@[j] == before[j]);
                            }
                        }
                        assert forall|k: Seq<char>| #[trigger]
                            slot_map(self.slots).contains_key(k) implies slot_map(self.slots)[k]
                            < self.items@.len() && self.items@[slot_map(self.slots)[k] as int].0@
                            == k by {
                            assert(slot_map(old(self).slots).contains_key(k));
                        }
                    }
                    assert(self@ =~= old(self)@.remove(key@));
                }
                Some(value)
            },
            None => {
                proof {
                    assert(self@ =~= old(self)@.remove(key@));
                }
                None
            },
        }
    }

    /// Takes every entry out.
    pub fn clear(&mut self)
        ensures
            final(self).wf(),
            final(self)@ == Map::<Seq<char>, V>::empty(),
            final(self).keys() == Seq::<Seq<char>>::empty(),
            final(self).values() == Seq::<V>::empty(),
    {
        *self = Keyed::new();
    }
}

} // verus!
