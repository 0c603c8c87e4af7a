//! A map whose keys are compared by what they stand for, and which keeps its entries in the order
//! in which they were added.

use vstd::prelude::*;

use std::collections::HashMap;

use crate::select::reversed;

verus! {

/// A value that can be looked up: it is known by its view.
pub trait Key: View + Sized {
    /// Whether both keys have the same view.
    fn same_key(&self, other: &Self) -> (same: bool)
        ensures
            same == (self@ == other@),
    ;

    /// The hash code of a key with a given view.
    spec fn hash_of(view: Self::V) -> u64;

    /// The hash code of this key.
    fn hash_code(&self) -> (hash: u64)
        ensures
            hash == Self::hash_of(self@),
    ;
}

/// A map from keys to values, without two entries of the same key.
pub struct KeyedMap<K: Key, T> {
    keys: Vec<K>,
    values: Vec<T>,
    /// The positions of the keys of each hash code.
    buckets: HashMap<u64, Vec<usize>>,
}

/// Whether the position of every key is in the bucket of its hash code.
spec fn is_index<K: Key>(keys: Seq<K::V>, buckets: Map<u64, Vec<usize>>) -> bool {
    &&& forall|i: int|
        0 <= i < keys.len() ==> buckets.dom().contains(K::hash_of(#[trigger] keys[i]))
            && buckets[K::hash_of(keys[i])]@.contains(i as usize)
    &&& forall|hash: u64, j: int|
        buckets.dom().contains(hash) && 0 <= j < buckets[hash]@.len() ==> (
        #[trigger] buckets[hash]@[j]) < keys.len()
}

impl<K: Key, T> View for KeyedMap<K, T> {
    type V = Map<K::V, T>;

    open spec fn view(&self) -> Map<K::V, T> {
        map_of(self.keys(), self.values())
    }
}

impl<K: Key, T> KeyedMap<K, T> {
    /// The keys, in the order in which they were added.
    pub closed spec fn keys(&self) -> Seq<K::V> {
        self.keys@.map_values(|key: K| key@)
    }

    /// The values, in the order of their keys.
    pub closed spec fn values(&self) -> Seq<T> {
        self.values@
    }

    #[verifier::type_invariant]
    spec fn has_distinct_keys(self) -> bool {
        &&& self.keys@.len() == self.values@.len()
        &&& self.keys().no_duplicates()
        &&& is_index::<K>(self.keys(), self.buckets@)
    }

    /// A map without entries.
    pub fn new() -> (map: Self)
        ensures
            map.keys() == Seq::<K::V>::empty(),
            map.values() == Seq::<T>::empty(),
            map@ == Map::<K::V, T>::empty(),
    {
        broadcast use vstd::std_specs::hash::group_hash_axioms;

        let map = KeyedMap { keys: Vec::new(), values: Vec::new(), buckets: HashMap::new() };
        assert(map.keys() =~= Seq::<K::V>::empty());
        assert(map@ =~= Map::<K::V, T>::empty());
        map
    }

    /// The number of entries.
    pub fn len(&self) -> (len: usize)
        ensures
            len == self.keys().len(),
            len == self.values().len(),
            self.keys().no_duplicates(),
    {
        proof {
            use_type_invariant(self);
        }
        self.keys.len()
    }

    /// The position of a key among the entries.
    pub fn position(&self, key: &K) -> (position: Option<usize>)
        ensures
            match position {
                Some(position) => {
                    &&& position < self.keys().len()
                    &&& self.keys()[position as int] == key@
                    &&& self@.dom().contains(key@)
                    &&& self@[key@] == self.values()[position as int]
                },
                None => !self@.dom().contains(key@),
            },
    {
        proof {
            use_type_invariant(self);
            lemma_index_of(self.keys());
        }
        broadcast use vstd::std_specs::hash::group_hash_axioms;

        let hash: u64 = key.hash_code();
        let bucket = match self.buckets.get(&hash) {
            Some(bucket) => bucket,
            None => {
                return None;
            },
        };
        let mut i: usize = 0;
        while i < bucket.len()
            invariant
                i <= bucket@.len(),
                forall|j: int| 0 <= j < bucket@.len() ==> #[trigger] bucket@[j] < self.keys().len(),
                forall|j: int| 0 <= j < i ==> self.keys()[#[trigger] bucket@[j] as int] != key@,
                forall|j: int|
                    0 <= j < self.keys().len() ==> self.keys().contains(#[trigger] self.keys()[j])
                        && self.keys().index_of(self.keys()[j]) == j,
            decreases bucket@.len() - i,
        {
            let position: usize = bucket[i];
            if self.keys[position].same_key(key) {
                assert(self.keys()[position as int] == key@);
                return Some(position);
            }
            i = i + 1;
        }
        proof {
            if self.keys().contains(key@) {
                let position = self.keys().index_of(key@);
                assert(self.keys@.len() == self.keys.len());
                assert(self.keys()[position] == key@);
                assert(bucket@.contains(position as usize));
                let j = bucket@.index_of(position as usize);
                assert(bucket@[j] == position);
            }
        }
        None
    }

    /// The value of a key.
    pub fn get(&self, key: &K) -> (value: Option<&T>)
        ensures
            match value {
                Some(value) => self@.dom().contains(key@) && *value == self@[key@],
                None => !self@.dom().contains(key@),
            },
    {
        proof {
            use_type_invariant(self);
        }
        match self.position(key) {
            Some(i) => Some(&self.values[i]),
            None => None,
        }
    }

    /// The key at a position.
    pub fn key_at(&self, i: usize) -> (key: &K)
        requires
            i < self.keys().len(),
        ensures
            key@ == self.keys()[i as int],
    {
        &self.keys[i]
    }

    /// The value at a position.
    pub fn value_at(&self, i: usize) -> (value: &T)
        requires
            i < self.keys().len(),
        ensures
            *value == self.values()[i as int],
    {
        proof {
            use_type_invariant(self);
        }
        &self.values[i]
    }

    /// Adds an entry behind the others.
    pub fn add(&mut self, key: K, value: T)
        requires
            !old(self)@.dom().contains(key@),
        ensures
            final(self).keys() == old(self).keys().push(key@),
            final(self).values() == old(self).values().push(value),
            final(self).keys().no_duplicates(),
            final(self).values().len() == final(self).keys().len(),
            final(self)@ == old(self)@.insert(key@, value),
    {
        proof {
            use_type_invariant(&*self);
        }
        broadcast use vstd::std_specs::hash::group_hash_axioms;

        let ghost old_keys = self.keys();
        let ghost old_values = self.values();
        let mut taken = KeyedMap::new();
        std::mem::swap(self, &mut taken);
        let KeyedMap { mut keys, mut values, mut buckets } = taken;
        let position: usize = keys.len();
        let hash: u64 = key.hash_code();
        let ghost old_buckets = buckets@;
        let mut bucket: Vec<usize> = match buckets.remove(&hash) {
            Some(bucket) => bucket,
            None => Vec::new(),
        };
        let ghost old_bucket = bucket@;
        bucket.push(position);
        buckets.insert(hash, bucket);
        keys.push(key);
        values.push(value);
        proof {
            assert(keys@.map_values(|key: K| key@) =~= old_keys.push(key@));
            lemma_push_entry(old_keys, old_values, key@, value);
            let new_keys = old_keys.push(key@);
            assert forall|i: int| 0 <= i < new_keys.len() implies buckets@.dom().contains(
                K::hash_of(#[trigger] new_keys[i]),
            ) && buckets@[K::hash_of(new_keys[i])]@.contains(i as usize) by {
                if i < old_keys.len() {
                    assert(new_keys[i] == old_keys[i]);
                    if K::hash_of(new_keys[i]) == hash {
                        let j = old_bucket.index_of(i as usize);
                        assert(bucket@[j] == i);
                    }
                } else {
                    assert(bucket@[old_bucket.len() as int] == i);
                }
            }
            assert forall|h: u64, j: int|
                buckets@.dom().contains(h) && 0 <= j < buckets@[h]@.len() implies (
            #[trigger] buckets@[h]@[j]) < new_keys.len() by {
                if h == hash {
                    if j < old_bucket.len() {
                        assert(old_bucket == old_buckets[h]@);
                        assert(old_buckets[h]@[j] < old_keys.len());
                    }
                } else {
                    assert(old_buckets[h]@[j] < old_keys.len());
                }
            }
            assert(is_index::<K>(new_keys, buckets@));
        }
        *self = KeyedMap { keys, values, buckets };
    }

    /// The value of a key, to be changed in place.
    pub fn get_mut(&mut self, key: &K) -> (value: Option<&mut T>)
        ensures
            final(self).keys() == old(self).keys(),
            match value {
                Some(value) => {
                    &&& old(self)@.dom().contains(key@)
                    &&& *value == old(self)@[key@]
                    &&& final(self)@ == old(self)@.insert(key@, *final(value))
                },
                None => {
                    &&& !old(self)@.dom().contains(key@)
                    &&& final(self).values() == old(self).values()
                },
            },
    {
        proof {
            use_type_invariant(&*self);
        }
        match self.position(key) {
            Some(i) => Some(&mut self.values[i]),
            None => None,
        }
    }

    /// The value at a position, to be changed in place.
    pub fn value_at_mut(&mut self, i: usize) -> (value: &mut T)
        requires
            i < old(self).keys().len(),
        ensures
            final(self).keys() == old(self).keys(),
            *value == old(self).values()[i as int],
            final(self).values() == old(self).values().update(i as int, *final(value)),
    {
        proof {
            use_type_invariant(&*self);
        }
        &mut self.values[i]
    }

    /// Hands every entry to `change`, which yields the new value of its key, or nothing if the
    /// entry is to be removed.
    pub fn retain<F: Fn(&K, T) -> Option<T>>(&mut self, change: F)
        requires
            forall|key: &K|
                old(self)@.dom().contains(key@) ==> #[trigger] call_requires(
                    change,
                    (key, old(self)@[key@]),
                ),
        ensures
            forall|key: K::V| #[trigger]
                final(self)@.dom().contains(key) ==> old(self)@.dom().contains(key) && changes_to(
                    change,
                    key,
                    old(self)@[key],
                    Some(final(self)@[key]),
                ),
            forall|key: K::V| #[trigger]
                old(self)@.dom().contains(key) && !final(self)@.dom().contains(key) ==> changes_to(
                    change,
                    key,
                    old(self)@[key],
                    None,
                ),
    {
        proof {
            use_type_invariant(&*self);
            lemma_index_of(self.keys());
        }
        let ghost before = *self;
        let mut taken = KeyedMap::new();
        std::mem::swap(self, &mut taken);
        let KeyedMap { keys, values, .. } = taken;
        let ghost len = keys@.len();
        let mut keys = reversed(keys);
        let mut values = reversed(values);
        let mut kept: KeyedMap<K, T> = KeyedMap::new();
        while keys.len() > 0
            invariant
                keys@.len() == values@.len(),
                keys@.len() <= len,
                len == before.keys().len(),
                len == before.values().len(),
                forall|i: int|
                    0 <= i < keys@.len() ==> (#[trigger] keys@[i])@ == before.keys()[len - 1 - i],
                forall|i: int|
                    0 <= i < keys@.len() ==> #[trigger] values@[i] == before.values()[len - 1 - i],
                forall|i: int|
                    0 <= i < len ==> before.keys().contains(#[trigger] before.keys()[i])
                        && before.keys().index_of(before.keys()[i]) == i,
                forall|key: &K|
                    before@.dom().contains(key@) ==> #[trigger] call_requires(
                        change,
                        (key, before@[key@]),
                    ),
                forall|key: K::V| #[trigger]
                    kept@.dom().contains(key) ==> {
                        &&& before@.dom().contains(key)
                        &&& before.keys().index_of(key) < len - keys@.len()
                        &&& changes_to(change, key, before@[key], Some(kept@[key]))
                    },
                forall|key: K::V| #[trigger]
                    before@.dom().contains(key) && before.keys().index_of(key) < len - keys@.len()
                        && !kept@.dom().contains(key) ==> changes_to(
                        change,
                        key,
                        before@[key],
                        None,
                    ),
            decreases keys@.len(),
        {
            let ghost n = len - keys@.len();
            let ghost kept_before = kept@;
            if let (Some(key), Some(value)) = (keys.pop(), values.pop()) {
                let ghost id = key@;
                proof {
                    assert(id == before.keys()[n]);
                    assert(value == before@[id]);
                }
                let changed = change(&key, value);
                assert(changes_to(change, id, before@[id], changed));
                if let Some(new_value) = changed {
                    kept.add(key, new_value);
                }
                proof {
                    assert forall|key: K::V| #[trigger]
                        before@.dom().contains(key) && before.keys().index_of(key) < n + 1
                            && !kept@.dom().contains(key) implies changes_to(
                        change,
                        key,
                        before@[key],
                        None,
                    ) by {
                        if before.keys().index_of(key) == n {
                            assert(key == id);
                        }
                    }
                }
            }
        }
        *self = kept;
    }
}

/// Whether a function can turn the value of a key into another, or into nothing.
pub open spec fn changes_to<K: Key, T, F: Fn(&K, T) -> Option<T>>(
    change: F,
    key: K::V,
    value: T,
    changed: Option<T>,
) -> bool {
    exists|k: &K| (#[trigger] k@) == key && call_ensures(change, (k, value), changed)
}

/// The map of the entries whose keys and values are listed.
pub open spec fn map_of<A, T>(keys: Seq<A>, values: Seq<T>) -> Map<A, T> {
    Map::new(|key: A| keys.contains(key), |key: A| values[keys.index_of(key)])
}

/// In a sequence without duplicates, the index of an element is the one place where it stands.
pub proof fn lemma_index_of<A>(s: Seq<A>)
    requires
        s.no_duplicates(),
    ensures
        forall|i: int| 0 <= i < s.len() ==> s.contains(#[trigger] s[i]) && s.index_of(s[i]) == i,
{
    assert forall|i: int| 0 <= i < s.len() implies s.contains(#[trigger] s[i]) && s.index_of(s[i])
        == i by {
        let j = s.index_of(s[i]);
        assert(0 <= j < s.len() && s[j] == s[i]);
    }
}

/// A map has no more entries than can be counted.
pub(crate) proof fn lemma_entries_fit<K: Key, T>(map: KeyedMap<K, T>)
    ensures
        map.keys().len() <= usize::MAX,
        map.values().len() <= usize::MAX,
{
    assert(map.keys@.len() == map.keys.len());
    assert(map.values@.len() == map.values.len());
}

/// Looking up a key gives the value that is listed with it, and no other key has a value.
pub proof fn law_map_has_listed_entries<A, T>(keys: Seq<A>, values: Seq<T>)
    requires
        keys.len() == values.len(),
        keys.no_duplicates(),
    ensures
        forall|i: int|
            0 <= i < keys.len() ==> map_of(keys, values).dom().contains(#[trigger] keys[i])
                && map_of(keys, values)[keys[i]] == values[i],
        forall|key: A| #[trigger]
            map_of(keys, values).dom().contains(key) ==> exists|i: int|
                0 <= i < keys.len() && #[trigger] keys[i] == key,
{
    lemma_index_of(keys);
}

/// Listing one more entry, of a new key, inserts it into the map.
pub proof fn lemma_push_entry<A, T>(keys: Seq<A>, values: Seq<T>, key: A, value: T)
    requires
        keys.len() == values.len(),
        keys.no_duplicates(),
        !keys.contains(key),
    ensures
        keys.push(key).no_duplicates(),
        map_of(keys.push(key), values.push(value)) == map_of(keys, values).insert(key, value),
{
    let new_keys = keys.push(key);
    let before = map_of(keys, values);
    let after = map_of(new_keys, values.push(value));
    assert(new_keys.no_duplicates());
    lemma_index_of(keys);
    lemma_index_of(new_keys);
    assert(new_keys[keys.len() as int] == key);
    assert forall|k: A| after.dom().contains(k) <==> before.insert(key, value).dom().contains(k) by {
        if keys.contains(k) {
            assert(new_keys[keys.index_of(k)] == k);
        }
        if new_keys.contains(k) && k != key {
            assert(keys[new_keys.index_of(k)] == k);
        }
    }
    assert forall|k: A| after.dom().contains(k) implies after[k] == before.insert(key, value)[k] by {
        if k != key {
            assert(keys[new_keys.index_of(k)] == k);
        }
    }
    assert(after =~= before.insert(key, value));
}

/// What a change makes of the value of a key is what it yields for a key with the same view.
pub proof fn law_changes_are_yielded<K: Key, T, F: Fn(&K, T) -> Option<T>>(
    change: F,
    key: K::V,
    value: T,
    changed: Option<T>,
) -> (k: K)
    requires
        changes_to(change, key, value, changed),
    ensures
        k@ == key,
        call_ensures(change, (&k, value), changed),
{
    let k = choose|k: &K| (#[trigger] k@) == key && call_ensures(change, (k, value), changed);
    *k
}

} // verus!
