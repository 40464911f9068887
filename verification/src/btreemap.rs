//! The collection traits for `BTreeMap`.

use core::cmp::Ordering;
use std::collections::BTreeMap;
use vstd::prelude::*;
use vstd::std_specs::btree::key_obeys_cmp_spec;
use vstd::std_specs::cmp::OrdSpec;
use crate::collection::{Clear, Len, Merge, Retain, Valid};
use crate::deque::{Dequeue, Key, Pop, Push};
use crate::map::{KeyedMap, MapGet, MapInsert, MapMut, MapRemove};

verus! {

broadcast use vstd::std_specs::btree::group_btree_axioms;

/// `BTreeMap::get_mut`: a mutable reference to the value of the key `k`, or
/// `None` where the map has no such key. What is written through the
/// reference becomes the value of the key; nothing else changes.
#[verifier::external_body]
fn btree_map_get_mut<'a, K: Ord, V>(map: &'a mut BTreeMap<K, V>, k: &K) -> (r: Option<&'a mut V>)
    ensures
        key_obeys_cmp_spec::<K>() ==> match r {
            Some(v) => old(map)@.contains_key(*k) && *v == old(map)@[*k]
                && final(map)@ == old(map)@.insert(*k, *final(v)),
            None => !old(map)@.contains_key(*k) && final(map)@ == old(map)@,
        },
{
    map.get_mut(k)
}

/// `BTreeMap::remove_entry`: removes the key `k` and returns the stored key
/// and its value, if the key was in the map.
#[verifier::external_body]
fn btree_map_remove_entry<K: Ord, V>(map: &mut BTreeMap<K, V>, k: &K) -> (r: Option<(K, V)>)
    ensures
        key_obeys_cmp_spec::<K>() ==> final(map)@ == old(map)@.remove(*k) && match r {
            Some(entry) => old(map)@.contains_key(*k) && entry.0 == *k && entry.1 == old(map)@[*k],
            None => !old(map)@.contains_key(*k),
        },
{
    map.remove_entry(k)
}

/// `BTreeMap::retain`: calls `f` for every pair of the map, with the key and a
/// mutable reference to the value. A pair stays exactly if its call returns
/// `true`, with what the call left in the value. No key is added.
#[verifier::external_body]
fn btree_map_retain<K: Ord, V, F: FnMut(&K, &mut V) -> bool>(map: &mut BTreeMap<K, V>, f: F)
    requires
        forall|k: &K, v: &mut V| call_requires(f, (k, v)),
    ensures
        key_obeys_cmp_spec::<K>() ==> final(map)@.dom().subset_of(old(map)@.dom())
            && final(map)@.len() <= old(map)@.len(),
        key_obeys_cmp_spec::<K>() ==> forall|key: K| #[trigger]
            old(map)@.contains_key(key) ==> exists|k: &K, v: &mut V, keep: bool|
                *k == key && *v == old(map)@[key] && #[trigger] call_ensures(f, (k, v), keep) && keep
                    == final(map)@.contains_key(key) && (keep ==> final(map)@[key] == *final(v)),
{
    map.retain(f)
}

/// `BTreeMap::append`: moves every pair of `other` into `map`, in the place
/// of the pair of the same key where `map` has one, and leaves `other` empty.
#[verifier::external_body]
fn btree_map_append<K: Ord, V>(map: &mut BTreeMap<K, V>, other: &mut BTreeMap<K, V>)
    ensures
        key_obeys_cmp_spec::<K>() ==> final(map)@ == old(map)@.union_prefer_right(old(other)@),
        final(other)@.dom() == Set::<K>::empty(),
{
    map.append(other)
}

/// `BTreeMap::pop_first`: removes and returns the pair of the smallest key,
/// or `None` where the map is empty.
#[verifier::external_body]
fn btree_map_pop_first<K: Ord, V>(map: &mut BTreeMap<K, V>) -> (r: Option<(K, V)>)
    ensures
        key_obeys_cmp_spec::<K>() ==> match r {
            Some(entry) => old(map)@.contains_key(entry.0) && old(map)@[entry.0] == entry.1
                && final(map)@ == old(map)@.remove(entry.0) && forall|other: K|
                old(map)@.contains_key(other) ==> #[trigger] entry.0.cmp_spec(&other)
                    != Ordering::Greater,
            None => old(map)@.dom() == Set::<K>::empty() && final(map)@ == old(map)@,
        },
{
    map.pop_first()
}

/// `BTreeMap::pop_last`: removes and returns the pair of the largest key, or
/// `None` where the map is empty.
#[verifier::external_body]
fn btree_map_pop_last<K: Ord, V>(map: &mut BTreeMap<K, V>) -> (r: Option<(K, V)>)
    ensures
        key_obeys_cmp_spec::<K>() ==> match r {
            Some(entry) => old(map)@.contains_key(entry.0) && old(map)@[entry.0] == entry.1
                && final(map)@ == old(map)@.remove(entry.0) && forall|other: K|
                old(map)@.contains_key(other) ==> #[trigger] entry.0.cmp_spec(&other)
                    != Ordering::Less,
            None => old(map)@.dom() == Set::<K>::empty() && final(map)@ == old(map)@,
        },
{
    map.pop_last()
}

/// Whether no key of `pairs` comes before `key`.
pub open spec fn is_first_key<K: Ord, V>(pairs: Map<K, V>, key: K) -> bool {
    forall|other: K|
        pairs.contains_key(other) ==> #[trigger] key.cmp_spec(&other) != Ordering::Greater
}

/// Whether no key of `pairs` comes after `key`.
pub open spec fn is_last_key<K: Ord, V>(pairs: Map<K, V>, key: K) -> bool {
    forall|other: K| pairs.contains_key(other) ==> #[trigger] key.cmp_spec(&other) != Ordering::Less
}

impl<K, V> Valid for BTreeMap<K, V> {
    /// The keys compare as the map expects of them.
    open spec fn valid(&self) -> bool {
        key_obeys_cmp_spec::<K>()
    }
}

impl<K, V> Len for BTreeMap<K, V> {
    open spec fn spec_len(&self) -> nat {
        self@.len()
    }

    fn len(&self) -> (n: usize) {
        BTreeMap::len(self)
    }

    fn is_empty(&self) -> (b: bool) {
        BTreeMap::len(self) == 0
    }
}

impl<K, V> Clear for BTreeMap<K, V> {
    fn clear(&mut self) {
        BTreeMap::clear(self)
    }
}

impl<K, V> KeyedMap for BTreeMap<K, V> {
    type Key = K;

    type Value = V;
}

impl<K: Ord, V> MapGet<K> for BTreeMap<K, V> {
    open spec fn spec_get(&self, key: K) -> Option<V> {
        if self@.contains_key(key) {
            Some(self@[key])
        } else {
            None
        }
    }

    fn get(&self, key: &K) -> (r: Option<&V>) {
        BTreeMap::get(self, key)
    }

    fn contains_key(&self, key: &K) -> (b: bool) {
        BTreeMap::contains_key(self, key)
    }
}

impl<K: Ord, V> MapMut<K> for BTreeMap<K, V> {
    open spec fn is_written(&self, before: &BTreeMap<K, V>, key: K, value: Option<V>) -> bool {
        self@ == (match value {
            Some(v) => before@.insert(key, v),
            None => before@,
        })
    }

    open spec fn is_removed(&self, before: &BTreeMap<K, V>, key: K) -> bool {
        self@ == before@.remove(key)
    }

    fn get_mut(&mut self, key: &K) -> (r: Option<&mut V>) {
        btree_map_get_mut(self, key)
    }

    fn remove(&mut self, key: &K) -> (r: Option<V>) {
        BTreeMap::remove(self, key)
    }
}

impl<K: Ord, V> MapRemove<K> for BTreeMap<K, V> {
    open spec fn spec_key(&self, key: K) -> K {
        key
    }

    open spec fn is_entry_removed(&self, before: &BTreeMap<K, V>, key: K) -> bool {
        self@ == before@.remove(key)
    }

    fn remove(&mut self, key: &K) -> (r: Option<(K, V)>) {
        btree_map_remove_entry(self, key)
    }
}

impl<K: Ord, V> MapInsert for BTreeMap<K, V> {
    open spec fn spec_value(&self, key: K) -> Option<V> {
        if self@.contains_key(key) {
            Some(self@[key])
        } else {
            None
        }
    }

    open spec fn can_insert(&self, key: K) -> bool {
        true
    }

    open spec fn is_inserted(&self, before: &BTreeMap<K, V>, key: K, value: V) -> bool {
        self@ == before@.insert(key, value)
    }

    fn insert(&mut self, key: K, value: V) -> (r: Option<V>) {
        BTreeMap::insert(self, key, value)
    }
}

impl<K: Ord, V> Retain<K, V> for BTreeMap<K, V> {
    open spec fn spec_held(&self, key: K) -> Option<V> {
        if self@.contains_key(key) {
            Some(self@[key])
        } else {
            None
        }
    }

    open spec fn is_same_key(given: K, key: K) -> bool {
        given == key
    }

    open spec fn is_kept_of(&self, before: &BTreeMap<K, V>, kept: Map<K, V>) -> bool {
        self@ == kept && kept.dom().subset_of(before@.dom())
    }

    fn retain<F: FnMut(&K, &mut V) -> bool>(&mut self, f: F) {
        btree_map_retain(self, f);
        proof {
            let kept = self@;
            assert(self.is_kept_of(old(self), kept));
            assert forall|key: K| (#[trigger] old(self).spec_held(key)) is Some implies exists|
                k: &K,
                v: &mut V,
                keep: bool,
            |
                Self::is_same_key(*k, key) && Some(*v) == old(self).spec_held(key)
                    && #[trigger] call_ensures(f, (k, v), keep) && keep == kept.contains_key(key) && (keep
                    ==> kept[key] == *final(v)) by {
                assert(old(self)@.contains_key(key));
            }
        }
    }
}

impl<K: Ord, V> Merge for BTreeMap<K, V> {
    type Output = BTreeMap<K, V>;

    /// Where the keys behave, the merged map has the pairs of both maps, and
    /// for a key of both the value of `rhs`.
    open spec fn is_merge(self, rhs: BTreeMap<K, V>, out: BTreeMap<K, V>) -> bool {
        key_obeys_cmp_spec::<K>() ==> out@ == self@.union_prefer_right(rhs@)
    }

    fn merge(self, rhs: BTreeMap<K, V>) -> (r: BTreeMap<K, V>) {
        let mut merged = self;
        let mut other = rhs;
        btree_map_append(&mut merged, &mut other);
        merged
    }
}

impl<K: Clone + Ord, V: Key<K>> Push for BTreeMap<K, V> {
    type Index = K;

    type Value = V;

    open spec fn can_push(&self) -> bool {
        true
    }

    /// The value stands under a clone of the key that is returned.
    open spec fn is_pushed(&self, before: &BTreeMap<K, V>, value: V, index: K) -> bool {
        exists|key: K| cloned(index, key) && self@ == #[trigger] before@.insert(key, value)
    }

    /// Inserts `value` under its own key and returns the key.
    fn push(&mut self, value: V) -> (index: K) {
        let key = value.key();
        let _ = BTreeMap::insert(self, key.clone(), value);
        key
    }
}

impl<K: Ord, V> Pop for BTreeMap<K, V> {
    type Value = V;

    /// The pair of the smallest key leaves.
    open spec fn is_popped(&self, before: &BTreeMap<K, V>, value: Option<V>) -> bool {
        match value {
            Some(v) => exists|key: K| #[trigger]
                before@.contains_key(key) && before@[key] == v && self@ == before@.remove(key)
                    && is_first_key(before@, key),
            None => before@.len() == 0 && self@ == before@,
        }
    }

    /// Removes the pair of the smallest key and returns its value.
    fn pop(&mut self) -> (r: Option<V>) {
        match btree_map_pop_first(self) {
            Some(entry) => Some(entry.1),
            None => None,
        }
    }
}

impl<K: Ord, V> Dequeue for BTreeMap<K, V> {
    type Value = V;

    /// The pair of the largest key leaves.
    open spec fn is_dequeued(&self, before: &BTreeMap<K, V>, value: Option<V>) -> bool {
        match value {
            Some(v) => exists|key: K| #[trigger]
                before@.contains_key(key) && before@[key] == v && self@ == before@.remove(key)
                    && is_last_key(before@, key),
            None => before@.len() == 0 && self@ == before@,
        }
    }

    /// Removes the pair of the largest key and returns its value.
    fn dequeue(&mut self) -> (r: Option<V>) {
        match btree_map_pop_last(self) {
            Some(entry) => Some(entry.1),
            None => None,
        }
    }
}

} // verus!
