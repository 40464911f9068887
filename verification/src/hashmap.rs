//! The collection traits for `HashMap`.

use core::hash::{BuildHasher, Hash};
use std::collections::HashMap;
use vstd::prelude::*;
use vstd::std_specs::hash::{builds_valid_hashers, obeys_key_model};
use crate::collection::{Clear, Len, Merge, Retain, Valid};
use crate::map::{KeyedMap, MapGet, MapInsert, MapMut, MapRemove};

verus! {

broadcast use vstd::std_specs::hash::group_hash_axioms;

/// `HashMap::get_mut`: a mutable reference to the value of the key `k`, or
/// `None` where the map has no such key. What is written through the
/// reference becomes the value of the key; nothing else changes.
#[verifier::external_body]
fn hash_map_get_mut<'a, K: Eq + Hash, V, S: BuildHasher>(map: &'a mut HashMap<K, V, S>, k: &K) -> (r:
    Option<&'a mut V>)
    ensures
        obeys_key_model::<K>() && builds_valid_hashers::<S>() ==> match r {
            Some(v) => old(map)@.contains_key(*k) && *v == old(map)@[*k]
                && final(map)@ == old(map)@.insert(*k, *final(v)),
            None => !old(map)@.contains_key(*k) && final(map)@ == old(map)@,
        },
{
    map.get_mut(k)
}

/// `HashMap::remove_entry`: removes the key `k` and returns the stored key
/// and its value, if the key was in the map.
#[verifier::external_body]
fn hash_map_remove_entry<K: Eq + Hash, V, S: BuildHasher>(map: &mut HashMap<K, V, S>, k: &K) -> (r:
    Option<(K, V)>)
    ensures
        obeys_key_model::<K>() && builds_valid_hashers::<S>() ==> final(map)@ == old(map)@.remove(
            *k,
        ) && match r {
            Some(entry) => old(map)@.contains_key(*k) && entry.0 == *k && entry.1 == old(map)@[*k],
            None => !old(map)@.contains_key(*k),
        },
{
    map.remove_entry(k)
}

/// `HashMap::retain`: calls `f` for every pair of the map, with the key and a
/// mutable reference to the value. A pair stays exactly if its call returns
/// `true`, with what the call left in the value. No key is added.
#[verifier::external_body]
fn hash_map_retain<K, V, S, F: FnMut(&K, &mut V) -> bool>(map: &mut HashMap<K, V, S>, f: F)
    requires
        forall|k: &K, v: &mut V| call_requires(f, (k, v)),
    ensures
        obeys_key_model::<K>() && builds_valid_hashers::<S>() ==> final(map)@.dom().subset_of(
            old(map)@.dom(),
        ) && final(map)@.len() <= old(map)@.len(),
        obeys_key_model::<K>() && builds_valid_hashers::<S>() ==> forall|key: K| #[trigger]
            old(map)@.contains_key(key) ==> exists|k: &K, v: &mut V, keep: bool|
                *k == key && *v == old(map)@[key] && #[trigger] call_ensures(f, (k, v), keep) && keep
                    == final(map)@.contains_key(key) && (keep ==> final(map)@[key] == *final(v)),
{
    map.retain(f)
}

/// `HashMap::extend` with the pairs of another map: every pair of `other`
/// goes into `map`, in the place of the pair of the same key where `map` has
/// one.
#[verifier::external_body]
fn hash_map_extend<K: Eq + Hash, V, S: BuildHasher>(map: &mut HashMap<K, V, S>, other: HashMap<
    K,
    V,
    S,
>)
    ensures
        obeys_key_model::<K>()
            && builds_valid_hashers::<S>() ==> final(map)@ == old(map)@.union_prefer_right(other@),
{
    map.extend(other)
}

impl<K, V, S> Valid for HashMap<K, V, S> {
    /// The keys compare and hash as the map expects of them.
    open spec fn valid(&self) -> bool {
        obeys_key_model::<K>() && builds_valid_hashers::<S>()
    }
}

impl<K, V, S> Len for HashMap<K, V, S> {
    open spec fn spec_len(&self) -> nat {
        self@.len()
    }

    fn len(&self) -> (n: usize) {
        HashMap::len(self)
    }

    fn is_empty(&self) -> (b: bool) {
        HashMap::len(self) == 0
    }
}

impl<K, V, S> Clear for HashMap<K, V, S> {
    fn clear(&mut self) {
        HashMap::clear(self)
    }
}

impl<K, V, S> KeyedMap for HashMap<K, V, S> {
    type Key = K;

    type Value = V;
}

impl<K: Eq + Hash, V, S: BuildHasher> MapGet<K> for HashMap<K, V, S> {
    open spec fn spec_get(&self, key: K) -> Option<V> {
        if self@.contains_key(key) {
            Some(self@[key])
        } else {
            None
        }
    }

    fn get(&self, key: &K) -> (r: Option<&V>) {
        HashMap::get(self, key)
    }

    fn contains_key(&self, key: &K) -> (b: bool) {
        HashMap::contains_key(self, key)
    }
}

impl<K: Eq + Hash, V, S: BuildHasher> MapMut<K> for HashMap<K, V, S> {
    open spec fn is_written(&self, before: &HashMap<K, V, S>, key: K, value: Option<V>) -> bool {
        self@ == (match value {
            Some(v) => before@.insert(key, v),
            None => before@,
        })
    }

    open spec fn is_removed(&self, before: &HashMap<K, V, S>, key: K) -> bool {
        self@ == before@.remove(key)
    }

    fn get_mut(&mut self, key: &K) -> (r: Option<&mut V>) {
        hash_map_get_mut(self, key)
    }

    fn remove(&mut self, key: &K) -> (r: Option<V>) {
        HashMap::remove(self, key)
    }
}

impl<K: Eq + Hash, V, S: BuildHasher> MapRemove<K> for HashMap<K, V, S> {
    open spec fn spec_key(&self, key: K) -> K {
        key
    }

    open spec fn is_entry_removed(&self, before: &HashMap<K, V, S>, key: K) -> bool {
        self@ == before@.remove(key)
    }

    fn remove(&mut self, key: &K) -> (r: Option<(K, V)>) {
        hash_map_remove_entry(self, key)
    }
}

impl<K: Eq + Hash, V, S: BuildHasher> MapInsert for HashMap<K, V, S> {
    open spec fn spec_value(&self, key: K) -> Option<V> {
        if self@.contains_key(key) {
            Some(self@[key])
        } else {
            None
        }
    }

    open spec fn can_insert(&self, key: K) -> bool {
        true
    }

    open spec fn is_inserted(&self, before: &HashMap<K, V, S>, key: K, value: V) -> bool {
        self@ == before@.insert(key, value)
    }

    fn insert(&mut self, key: K, value: V) -> (r: Option<V>) {
        HashMap::insert(self, key, value)
    }
}

impl<K, V, S> Retain<K, V> for HashMap<K, V, S> {
    open spec fn spec_held(&self, key: K) -> Option<V> {
        if self@.contains_key(key) {
            Some(self@[key])
        } else {
            None
        }
    }

    open spec fn is_same_key(given: K, key: K) -> bool {
        given == key
    }

    open spec fn is_kept_of(&self, before: &HashMap<K, V, S>, kept: Map<K, V>) -> bool {
        self@ == kept && kept.dom().subset_of(before@.dom())
    }

    fn retain<F: FnMut(&K, &mut V) -> bool>(&mut self, f: F) {
        hash_map_retain(self, f);
        proof {
            let kept = self@;
            assert(self.is_kept_of(old(self), kept));
            assert forall|key: K| (#[trigger] old(self).spec_held(key)) is Some implies exists|
                k: &K,
                v: &mut V,
                keep: bool,
            |
                Self::is_same_key(*k, key) && Some(*v) == old(self).spec_held(key)
                    && #[trigger] call_ensures(f, (k, v), keep) && keep == kept.contains_key(key) && (keep
                    ==> kept[key] == *final(v)) by {
                assert(old(self)@.contains_key(key));
            }
        }
    }
}

impl<K: Eq + Hash, V, S: BuildHasher> Merge for HashMap<K, V, S> {
    type Output = HashMap<K, V, S>;

    /// Where the keys behave, the merged map has the pairs of both maps, and
    /// for a key of both the value of `rhs`.
    open spec fn is_merge(self, rhs: HashMap<K, V, S>, out: HashMap<K, V, S>) -> bool {
        obeys_key_model::<K>() && builds_valid_hashers::<S>() ==> out@
            == self@.union_prefer_right(rhs@)
    }

    fn merge(self, rhs: HashMap<K, V, S>) -> (r: HashMap<K, V, S>) {
        let mut merged = self;
        hash_map_extend(&mut merged, rhs);
        merged
    }
}

} // verus!
