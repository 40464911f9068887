//! Map traits.

use vstd::prelude::*;
use crate::collection::Valid;

verus! {

/// A key-value map.
pub trait KeyedMap: Valid {
    /// Key type
    type Key;

    /// Value type
    type Value;
}

/// Getter for a map.
pub trait MapGet<K>: KeyedMap {
    /// The value that the map holds for `key`, if any.
    spec fn spec_get(&self, key: K) -> Option<Self::Value>;

    /// Returns a reference to the value corresponding to the `key` if exists.
    fn get(&self, key: &K) -> (r: Option<&Self::Value>)
        requires
            self.valid(),
        ensures
            self.spec_get(*key) is Some ==> r == Some(&self.spec_get(*key).unwrap()),
            self.spec_get(*key) is None ==> r is None,
    ;

    /// Returns `true` if the map contains a value for the `key`.
    fn contains_key(&self, key: &K) -> (b: bool)
        requires
            self.valid(),
        ensures
            b == self.spec_get(*key) is Some,
    {
        self.get(key).is_some()
    }
}

/// Mutator for a map.
pub trait MapMut<K>: MapGet<K> {
    /// Whether `self` is `before` with `value` in the place of the value of
    /// `key` and nothing else changed. Where `value` is `None`, whether
    /// `self` is as `before` was.
    spec fn is_written(&self, before: &Self, key: K, value: Option<Self::Value>) -> bool;

    /// Returns a mutable reference to the value corresponding to the `key` if
    /// exists. What is written through it becomes the value of the key, and
    /// nothing else changes.
    fn get_mut(&mut self, key: &K) -> (r: Option<&mut Self::Value>)
        requires
            old(self).valid(),
        ensures
            final(self).valid(),
            r is Some <==> old(self).spec_get(*key) is Some,
            r is Some ==> Some(*r.unwrap()) == old(self).spec_get(*key) && final(self).spec_get(
                *key,
            ) == Some(*final(r.unwrap())),
            final(self).is_written(old(self), *key, if r is Some {
                Some(*final(r.unwrap()))
            } else {
                None
            }),
    ;

    /// Whether `self` is what `before` becomes when the element at `key` is
    /// removed.
    spec fn is_removed(&self, before: &Self, key: K) -> bool;

    /// Removes and returns the element at `key` from the map if exists.
    fn remove(&mut self, key: &K) -> (r: Option<Self::Value>)
        requires
            old(self).valid(),
        ensures
            final(self).valid(),
            r == old(self).spec_get(*key),
            final(self).is_removed(old(self), *key),
    ;
}

/// Operation to remove an entry from a map.
pub trait MapRemove<K>: MapGet<K> {
    /// The key that the map keeps for `key`.
    spec fn spec_key(&self, key: K) -> Self::Key;

    /// Whether `self` is what `before` becomes when the entry at `key` is
    /// removed.
    spec fn is_entry_removed(&self, before: &Self, key: K) -> bool;

    /// Removes the entry at `key` from the map and returns its key and its
    /// value, if the map holds one.
    fn remove(&mut self, key: &K) -> (r: Option<(Self::Key, Self::Value)>)
        requires
            old(self).valid(),
        ensures
            final(self).valid(),
            match r {
                Some(entry) => entry.0 == old(self).spec_key(*key)
                    && Some(entry.1) == old(self).spec_get(*key),
                None => old(self).spec_get(*key) is None,
            },
            final(self).is_entry_removed(old(self), *key),
    ;
}

/// Operation to insert into a map.
pub trait MapInsert: KeyedMap {
    /// The value that the map holds for `key`, if any.
    spec fn spec_value(&self, key: Self::Key) -> Option<Self::Value>;

    /// Whether the map accepts `key` for a value.
    spec fn can_insert(&self, key: Self::Key) -> bool;

    /// Whether `self` is what `before` becomes when `value` is inserted for
    /// `key`.
    spec fn is_inserted(&self, before: &Self, key: Self::Key, value: Self::Value) -> bool;

    /// Inserts `value` into the map. The existing value in the map is
    /// returned; where there was one, `value` has taken its place.
    fn insert(&mut self, key: Self::Key, value: Self::Value) -> (r: Option<Self::Value>)
        requires
            old(self).valid(),
            old(self).can_insert(key),
        ensures
            final(self).valid(),
            r == old(self).spec_value(key),
            r is Some ==> final(self).spec_value(key) == Some(value),
            final(self).is_inserted(old(self), key, value),
    ;
}

} // verus!
