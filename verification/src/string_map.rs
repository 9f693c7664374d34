//! A map from strings to values, kept as two parallel vectors in which no
//! key occurs twice, with a table from the hash of a key to the positions of
//! the keys with that hash.
//!
//! Its model is a `Map<Seq<char>, V>`. The entries can also be walked by
//! position, in the order in which their keys were first inserted.

use std::collections::HashMap;
use vstd::prelude::*;
use vstd::std_specs::hash::group_hash_axioms;
use vstd::utf8::encode_utf8;

verus! {

/// The map that holds `values[i]` under `keys[i]`.
pub open spec fn entries_map<V>(keys: Seq<Seq<char>>, values: Seq<V>) -> Map<Seq<char>, V> {
    Map::new(|k: Seq<char>| keys.contains(k), |k: Seq<char>| values[keys.index_of(k)])
}

/// In a sequence without duplicates every element is found at its own position.
pub proof fn lemma_index_of_unique(keys: Seq<Seq<char>>, i: int)
    requires
        keys.no_duplicates(),
        0 <= i < keys.len(),
    ensures
        keys.contains(keys[i]),
        keys.index_of(keys[i]) == i,
{
    let j = keys.index_of(keys[i]);
    assert(0 <= j < keys.len() && keys[j] == keys[i]);
}

/// The domain of `entries_map` is the set of the keys, which is finite.
pub proof fn lemma_entries_map_dom<V>(keys: Seq<Seq<char>>, values: Seq<V>)
    ensures
        entries_map(keys, values).dom() == keys.to_set(),
        entries_map(keys, values).dom().finite(),
{
    assert(entries_map(keys, values).dom() =~= keys.to_set());
    vstd::seq_lib::seq_to_set_is_finite(keys);
}

/// One step of the hash: the byte is mixed into the state, which is then
/// multiplied by a fixed prime modulo 2^64.
spec fn hash_step(h: u64, b: u8) -> u64 {
    (h ^ (b as u64)).wrapping_mul(0x0000_0100_0000_01b3)
}

/// The hash of a sequence of bytes.
spec fn hash_bytes(bytes: Seq<u8>) -> u64
    decreases bytes.len(),
{
    if bytes.len() == 0 {
        0xcbf2_9ce4_8422_2325
    } else {
        hash_step(hash_bytes(bytes.drop_last()), bytes.last())
    }
}

/// The hash of a key: that of its UTF-8 bytes.
spec fn hash_key(key: Seq<char>) -> u64 {
    hash_bytes(encode_utf8(key))
}

/// Whether the table lists position `i` under the hash `h`.
spec fn lists(slots: Map<u64, Vec<usize>>, h: u64, i: int) -> bool {
    slots.contains_key(h) && exists|j: int| 0 <= j < slots[h].len() && #[trigger] slots[h][j] == i
}

fn hash_of(key: &str) -> (h: u64)
    ensures
        h == hash_key(key@),
{
    let bytes = key.as_bytes();
    let mut h: u64 = 0xcbf2_9ce4_8422_2325;
    let mut i: usize = 0;
    assert(bytes@.take(0) =~= Seq::<u8>::empty());
    while i < bytes.len()
        invariant
            i <= bytes.len(),
            h == hash_bytes(bytes@.take(i as int)),
        decreases bytes.len() - i,
    {
        assert(bytes@.take(i + 1).drop_last() =~= bytes@.take(i as int));
        h = (h ^ (bytes[i] as u64)).wrapping_mul(0x0000_0100_0000_01b3);
        i += 1;
    }
    assert(bytes@.take(bytes.len() as int) =~= bytes@);
    h
}

/// A map from strings to values of type `V`.
#[derive(Debug, Clone)]
pub struct StringMap<V> {
    keys: Vec<String>,
    values: Vec<V>,
    slots: HashMap<u64, Vec<usize>>,
}

impl<V> View for StringMap<V> {
    type V = Map<Seq<char>, V>;

    open spec fn view(&self) -> Map<Seq<char>, V> {
        entries_map(self.spec_keys(), self.spec_values())
    }
}

impl<V> StringMap<V> {
    /// The keys, in the order of their first insertion.
    pub closed spec fn spec_keys(&self) -> Seq<Seq<char>> {
        self.keys@.map_values(|k: String| k@)
    }

    /// The values, each at the position of its key.
    pub closed spec fn spec_values(&self) -> Seq<V> {
        self.values@
    }

    /// Every key has one value, no key occurs twice, and the table of
    /// positions is that of the keys.
    pub open spec fn wf(&self) -> bool {
        &&& self.spec_keys().len() == self.spec_values().len()
        &&& self.spec_keys().no_duplicates()
        &&& self.slots_wf()
    }

    /// The table lists the position of every key under the hash of the key,
    /// and lists positions of keys only.
    pub closed spec fn slots_wf(&self) -> bool {
        &&& forall|i: int|
            0 <= i < self.keys.len() ==> lists(self.slots@, hash_key(#[trigger] self.keys[i]@), i)
        &&& forall|h: u64, j: int|
            self.slots@.contains_key(h) && 0 <= j < self.slots@[h].len()
                ==> #[trigger] self.slots@[h][j] < self.keys.len()
    }

    /// The entry at position `i` is an entry of the map.
    pub proof fn lemma_entry(&self, i: int)
        requires
            self.wf(),
            0 <= i < self.spec_keys().len(),
        ensures
            self@.contains_key(self.spec_keys()[i]),
            self@[self.spec_keys()[i]] == self.spec_values()[i],
    {
        lemma_index_of_unique(self.spec_keys(), i);
    }

    /// Every key of the map stands at some position.
    pub proof fn lemma_key_position(&self, key: Seq<char>) -> (i: int)
        requires
            self.wf(),
            self@.contains_key(key),
        ensures
            0 <= i < self.spec_keys().len(),
            self.spec_keys()[i] == key,
            self.spec_values()[i] == self@[key],
    {
        self.spec_keys().index_of(key)
    }

    /// An empty map.
    pub fn new() -> (m: Self)
        ensures
            m.wf(),
            m.spec_keys() == Seq::<Seq<char>>::empty(),
            m.spec_values() == Seq::<V>::empty(),
            m@ == Map::<Seq<char>, V>::empty(),
    {
        let m = StringMap { keys: Vec::new(), values: Vec::new(), slots: HashMap::new() };
        assert(m.spec_keys() =~= Seq::<Seq<char>>::empty());
        assert(m@ =~= Map::<Seq<char>, V>::empty());
        m
    }

    /// The number of entries.
    pub fn len(&self) -> (n: usize)
        requires
            self.wf(),
        ensures
            n == self.spec_keys().len(),
            n == self@.dom().len(),
    {
        proof {
            lemma_entries_map_dom(self.spec_keys(), self.spec_values());
            self.spec_keys().unique_seq_to_set();
        }
        self.keys.len()
    }

    /// Whether the map has no entry.
    pub fn is_empty(&self) -> (b: bool)
        requires
            self.wf(),
        ensures
            b == (self.spec_keys().len() == 0),
            b == (self@ == Map::<Seq<char>, V>::empty()),
    {
        proof {
            if self.spec_keys().len() == 0 {
                assert(self@ =~= Map::<Seq<char>, V>::empty());
            } else {
                self.lemma_entry(0);
            }
        }
        self.keys.len() == 0
    }

    /// The key at position `i`.
    pub fn key_at(&self, i: usize) -> (key: &String)
        requires
            self.wf(),
            i < self.spec_keys().len(),
        ensures
            key@ == self.spec_keys()[i as int],
            self@.contains_key(key@),
    {
        proof {
            self.lemma_entry(i as int);
        }
        &self.keys[i]
    }

    /// The value at position `i`.
    pub fn value_at(&self, i: usize) -> (value: &V)
        requires
            self.wf(),
            i < self.spec_keys().len(),
        ensures
            *value == self.spec_values()[i as int],
            *value == self@[self.spec_keys()[i as int]],
    {
        proof {
            self.lemma_entry(i as int);
        }
        &self.values[i]
    }

    /// The position of `key`, if the map holds it.
    pub fn position(&self, key: &str) -> (r: Option<usize>)
        requires
            self.wf(),
        ensures
            match r {
                Some(i) => i < self.spec_keys().len() && self.spec_keys()[i as int] == key@,
                None => !self.spec_keys().contains(key@),
            },
            r is Some <==> self@.contains_key(key@),
    {
        broadcast use group_hash_axioms;

        let h = hash_of(key);
        match self.slots.get(&h) {
            None => {
                assert forall|i: int| 0 <= i < self.keys.len() implies self.spec_keys()[i]
                    != key@ by {
                    assert(lists(self.slots@, hash_key(self.keys[i]@), i));
                }
                None
            },
            Some(candidates) => {
                let wanted = key.to_owned();
                let mut j: usize = 0;
                while j < candidates.len()
                    invariant
                        self.wf(),
                        self.slots@.contains_key(h),
                        *candidates == self.slots@[h],
                        j <= candidates.len(),
                        wanted@ == key@,
                        forall|k: int| 0 <= k < j ==> self.keys[candidates[k] as int]@ != key@,
                    decreases candidates.len() - j,
                {
                    let p = candidates[j];
                    assert(self.slots@[h][j as int] < self.keys.len());
                    if self.keys[p] == wanted {
                        return Some(p);
                    }
                    j += 1;
                }
                assert forall|i: int| 0 <= i < self.keys.len() implies self.spec_keys()[i]
                    != key@ by {
                    assert(lists(self.slots@, hash_key(self.keys[i]@), i));
                }
                None
            },
        }
    }

    /// Whether the map holds `key`.
    pub fn contains_key(&self, key: &str) -> (b: bool)
        requires
            self.wf(),
        ensures
            b == self@.contains_key(key@),
    {
        self.position(key).is_some()
    }

    /// The value under `key`, if the map holds it.
    pub fn get(&self, key: &str) -> (r: Option<&V>)
        requires
            self.wf(),
        ensures
            match r {
                Some(value) => self@.contains_key(key@) && *value == self@[key@],
                None => !self@.contains_key(key@),
            },
    {
        match self.position(key) {
            Some(i) => {
                proof {
                    self.lemma_entry(i as int);
                }
                Some(&self.values[i])
            },
            None => None,
        }
    }

    /// Adds an entry for a key that the map does not hold.
    fn append(&mut self, key: String, value: V)
        requires
            old(self).wf(),
            !old(self).spec_keys().contains(key@),
        ensures
            final(self).wf(),
            final(self).spec_keys() == old(self).spec_keys().push(key@),
            final(self).spec_values() == old(self).spec_values().push(value),
    {
        broadcast use group_hash_axioms;

        let ghost old_keys = self.spec_keys();
        let ghost old_slots = self.slots@;
        let h = hash_of(key.as_str());
        let n = self.keys.len();
        self.keys.push(key);
        self.values.push(value);
        let mut positions = match self.slots.remove(&h) {
            Some(positions) => positions,
            None => Vec::new(),
        };
        let ghost before = positions@;
        positions.push(n);
        self.slots.insert(h, positions);
        proof {
            assert(self.spec_keys() =~= old_keys.push(key@));
            assert(old_slots.contains_key(h) ==> before == old_slots[h]@);
            assert(!old_slots.contains_key(h) ==> before.len() == 0);
            assert forall|i: int| 0 <= i < self.keys.len() implies lists(
                self.slots@,
                hash_key(#[trigger] self.keys[i]@),
                i,
            ) by {
                if i < n {
                    let hi = hash_key(old(self).keys[i]@);
                    assert(self.keys[i] == old(self).keys[i]);
                    assert(lists(old_slots, hi, i));
                    if hi == h {
                        let j = choose|j: int|
                            0 <= j < old_slots[h].len() && #[trigger] old_slots[h][j] == i;
                        assert(self.slots@[h][j] == i);
                    } else {
                        assert(self.slots@[hi] == old_slots[hi]);
                    }
                } else {
                    assert(self.slots@[h][before.len() as int] == n);
                }
            }
            assert forall|g: u64, j: int|
                self.slots@.contains_key(g) && 0 <= j < self.slots@[g].len()
                    implies #[trigger] self.slots@[g][j] < self.keys.len() by {
                if g == h {
                    if j < before.len() {
                        assert(old_slots[h][j] < n);
                    }
                } else {
                    assert(old_slots[g][j] < n);
                }
            }
        }
    }

    /// Puts `value` under `key`. A key that the map holds already keeps its
    /// position and gets the new value; a new key goes to the end.
    pub fn insert(&mut self, key: String, value: V)
        requires
            old(self).wf(),
        ensures
            final(self).wf(),
            final(self)@ == old(self)@.insert(key@, value),
            old(self)@.contains_key(key@) ==> {
                &&& final(self).spec_keys() == old(self).spec_keys()
                &&& final(self).spec_values() == old(self).spec_values().update(
                    old(self).spec_keys().index_of(key@),
                    value,
                )
            },
            !old(self)@.contains_key(key@) ==> {
                &&& final(self).spec_keys() == old(self).spec_keys().push(key@)
                &&& final(self).spec_values() == old(self).spec_values().push(value)
            },
    {
        let ghost old_keys = self.spec_keys();
        let ghost old_values = self.spec_values();
        match self.position(key.as_str()) {
            Some(i) => {
                self.values.set(i, value);
                proof {
                    lemma_index_of_unique(old_keys, i as int);
                    assert(self.spec_keys() == old_keys);
                    assert(self.spec_values() == old_values.update(i as int, value));
                    assert forall|k: Seq<char>| old_keys.contains(k) implies #[trigger] self@[k]
                        == old(self)@.insert(key@, value)[k] by {
                        let j = old_keys.index_of(k);
                        lemma_index_of_unique(old_keys, j);
                    }
                    assert(self@ =~= old(self)@.insert(key@, value));
                }
            },
            None => {
                self.append(key, value);
                proof {
                    let new_keys = old_keys.push(key@);
                    assert forall|k: Seq<char>| new_keys.contains(k) <==> (old_keys.contains(k)
                        || k == key@) by {
                        if old_keys.contains(k) {
                            assert(new_keys[old_keys.index_of(k)] == k);
                        }
                        if k == key@ {
                            assert(new_keys[old_keys.len() as int] == k);
                        }
                    }
                    assert forall|k: Seq<char>| new_keys.contains(k) implies #[trigger] self@[k]
                        == old(self)@.insert(key@, value)[k] by {
                        let j = new_keys.index_of(k);
                        lemma_index_of_unique(new_keys, j);
                        if j < old_keys.len() {
                            lemma_index_of_unique(old_keys, j);
                        }
                    }
                    assert(self@ =~= old(self)@.insert(key@, value));
                }
            },
        }
    }
}

impl<V: Copy> StringMap<V> {
    /// A copy of the map, with the same entries at the same positions.
    pub fn duplicate(&self) -> (copy: Self)
        requires
            self.wf(),
        ensures
            copy.wf(),
            copy.spec_keys() == self.spec_keys(),
            copy.spec_values() == self.spec_values(),
            copy@ == self@,
    {
        let mut copy: StringMap<V> = StringMap::new();
        let mut i: usize = 0;
        while i < self.keys.len()
            invariant
                self.wf(),
                i <= self.keys.len(),
                copy.wf(),
                copy.spec_keys() == self.spec_keys().take(i as int),
                copy.spec_values() == self.spec_values().take(i as int),
            decreases self.keys.len() - i,
        {
            proof {
                let key = self.spec_keys()[i as int];
                if copy.spec_keys().contains(key) {
                    let j = copy.spec_keys().index_of(key);
                    assert(self.spec_keys()[j] == key);
                }
                assert(self.spec_keys().take(i + 1) =~= self.spec_keys().take(i as int).push(key));
                assert(self.spec_values().take(i + 1) =~= self.spec_values().take(i as int).push(
                    self.values[i as int],
                ));
            }
            copy.append(self.keys[i].clone(), self.values[i]);
            i += 1;
        }
        proof {
            assert(self.spec_keys().take(self.keys.len() as int) =~= self.spec_keys());
            assert(self.spec_values().take(self.keys.len() as int) =~= self.spec_values());
        }
        copy
    }
}

} // verus!
