//! A map from handles to values on top of a map from raw indices.

use core::marker::PhantomData;
use vstd::prelude::*;
use vstd::std_specs::cmp::{PartialEqSpec, PartialEqSpecImpl};
use crate::collection::{entries_of, keyed_of, Clear, Len, Retain, Rev, Valid};
use crate::genindex::{same_parts, GenIndex};
use crate::map::{KeyedMap, MapGet, MapInsert, MapMut};
use crate::unsigned::UnsignedInt;
use crate::vecmap::VecMap;

verus! {

/// An associative array that uses handles as keys and keeps its entries in a
/// backing map from raw indices, each entry as the pair of the handle and the
/// value. A handle finds a value only where the backing map holds an entry of
/// its raw index with a handle of the same generation.
#[derive(Debug, Hash)]
pub struct GenIndexMap<T, I, M> {
    map: M,
    marker: PhantomData<(I, T)>,
}

/// A [`GenIndexMap`] backed by a [`VecMap`].
pub type GenIndexVecMap<T, I> = GenIndexMap<T, I, VecMap<(I, T)>>;

/// A [`GenIndexMap`] backed by a `BTreeMap` from raw indices.
pub type GenIndexBTreeMap<T, I> = GenIndexMap<T, I, std::collections::BTreeMap<usize, (I, T)>>;

/// A [`GenIndexMap`] backed by a `HashMap` from raw indices.
pub type GenIndexHashMap<T, I> = GenIndexMap<T, I, std::collections::HashMap<usize, (I, T)>>;

/// The raw index of `key` as a key of the backing map, if it fits `usize`.
pub open spec fn raw_key<I: GenIndex>(key: I) -> Option<usize> {
    if key.spec_index() <= usize::MAX {
        Some(key.spec_index() as usize)
    } else {
        None
    }
}

/// Returns the raw index of `key` as a key of the backing map.
fn index_of<I: GenIndex>(key: &I) -> (r: Option<usize>)
    ensures
        r == raw_key(*key),
{
    key.index().to_usize()
}

impl<T, I: GenIndex, M: KeyedMap<Key = usize, Value = (I, T)>> GenIndexMap<T, I, M> {
    /// The backing map.
    pub closed spec fn backing(&self) -> M {
        self.map
    }

    /// Constructs a new, empty map on top of the default backing map.
    pub fn new() -> (r: Self) where M: Default
        ensures
            call_ensures(M::default, (), r.backing()),
    {
        GenIndexMap { map: M::default(), marker: PhantomData }
    }

    /// Builds a map on top of the backing map `map`.
    pub fn from_map(map: M) -> (r: Self)
        ensures
            r.backing() == map,
    {
        GenIndexMap { map, marker: PhantomData }
    }

    /// Returns the backing map.
    pub fn as_map(&self) -> (r: &M)
        ensures
            *r == self.backing(),
    {
        &self.map
    }

    /// Returns the number of entries of the backing map.
    pub fn len(&self) -> (n: usize) where M: Len
        requires
            self.backing().valid(),
        ensures
            n == self.backing().spec_len(),
    {
        self.map.len()
    }

    /// Clears the map, removing all values.
    pub fn clear(&mut self) where M: Clear
        ensures
            old(self).backing().valid() ==> final(self).backing().valid()
                && final(self).backing().spec_len() == 0,
    {
        self.map.clear()
    }
}

impl<T, I: GenIndex, M: MapGet<usize> + KeyedMap<Key = usize, Value = (I, T)>> GenIndexMap<T, I, M> {
    /// The entry that the backing map holds for the raw index of `key`.
    pub open spec fn entry_of(&self, key: I) -> Option<(I, T)> {
        match raw_key(key) {
            Some(raw) => self.backing().spec_get(raw),
            None => None,
        }
    }

    /// The value that `key` refers to: that of the entry of its raw index, if
    /// the handle of the entry is in the generation of `key`.
    pub open spec fn value_of(&self, key: I) -> Option<T> {
        match self.entry_of(key) {
            Some(entry) => if same_parts(entry.0, key) {
                Some(entry.1)
            } else {
                None
            },
            None => None,
        }
    }

    /// Returns a reference to the value corresponding to the `key` if exists.
    pub fn get(&self, key: &I) -> (r: Option<&T>)
        requires
            self.backing().valid(),
        ensures
            self.value_of(*key) is Some ==> r == Some(&self.value_of(*key).unwrap()),
            self.value_of(*key) is None ==> r is None,
    {
        let raw = match index_of(key) {
            Some(raw) => raw,
            None => {
                return None;
            },
        };
        match self.map.get(&raw) {
            Some(entry) => {
                if entry.0.same(key) {
                    Some(&entry.1)
                } else {
                    None
                }
            },
            None => None,
        }
    }
}

impl<T, I: GenIndex, M: MapMut<usize> + KeyedMap<Key = usize, Value = (I, T)>> GenIndexMap<T, I, M> {
    /// Returns a mutable reference to the value corresponding to the `key` if
    /// exists. What is written through it becomes the value of the entry.
    pub fn get_mut(&mut self, key: &I) -> (r: Option<&mut T>)
        requires
            old(self).backing().valid(),
        ensures
            final(self).backing().valid(),
            old(self).value_of(*key) is Some ==> r is Some
                && Some(*r.unwrap()) == old(self).value_of(*key)
                && final(self).entry_of(*key) == Some(
                (old(self).entry_of(*key).unwrap().0, *final(r.unwrap())),
            ),
            old(self).value_of(*key) is None ==> r is None,
            match raw_key(*key) {
                Some(raw) => final(self).backing().is_written(
                    &old(self).backing(),
                    raw,
                    match old(self).backing().spec_get(raw) {
                        Some(entry) => Some(
                            (
                                entry.0,
                                if r is Some {
                                    *final(r.unwrap())
                                } else {
                                    entry.1
                                },
                            ),
                        ),
                        None => None,
                    },
                ),
                None => final(self).backing() == old(self).backing(),
            },
    {
        let raw = match index_of(key) {
            Some(raw) => raw,
            None => {
                return None;
            },
        };
        match self.map.get_mut(&raw) {
            Some(entry) => {
                if entry.0.same(key) {
                    Some(&mut entry.1)
                } else {
                    None
                }
            },
            None => None,
        }
    }

    /// Removes and returns the element at `key` from the map if exists.
    pub fn remove(&mut self, key: &I) -> (r: Option<T>)
        requires
            old(self).backing().valid(),
        ensures
            final(self).backing().valid(),
            r == old(self).value_of(*key),
            r is Some ==> final(self).backing().is_removed(
                &old(self).backing(),
                key.spec_index() as usize,
            ),
            r is None ==> final(self).backing() == old(self).backing(),
    {
        let raw = match index_of(key) {
            Some(raw) => raw,
            None => {
                return None;
            },
        };
        let found = match self.map.get(&raw) {
            Some(entry) => entry.0.same(key),
            None => false,
        };
        if found {
            match self.map.remove(&raw) {
                Some(entry) => Some(entry.1),
                None => None,
            }
        } else {
            None
        }
    }
}

impl<T, I: GenIndex, M: MapInsert + KeyedMap<Key = usize, Value = (I, T)>> GenIndexMap<T, I, M> {
    /// Inserts `value` for `key`: the entry `(key, value)` takes the place of
    /// the raw index of `key` in the backing map. The value of the entry that
    /// was there is returned, whatever its generation.
    pub fn insert(&mut self, key: I, value: T) -> (r: Option<T>)
        requires
            old(self).backing().valid(),
            key.spec_index() <= usize::MAX,
            old(self).backing().can_insert(key.spec_index() as usize),
        ensures
            final(self).backing().valid(),
            match old(self).backing().spec_value(key.spec_index() as usize) {
                Some(entry) => r == Some(entry.1) && final(self).backing().spec_value(
                    key.spec_index() as usize,
                ) == Some((key, value)),
                None => r is None,
            },
            final(self).backing().is_inserted(
                &old(self).backing(),
                key.spec_index() as usize,
                (key, value),
            ),
    {
        let raw = index_of(&key).unwrap();
        match self.map.insert(raw, (key, value)) {
            Some(entry) => Some(entry.1),
            None => None,
        }
    }
}

impl<T, I: GenIndex, M: Retain<usize, (I, T)> + KeyedMap<Key = usize, Value = (I, T)>> GenIndexMap<
    T,
    I,
    M,
> {
    /// Retains only the elements that the predicate accepts, passing it the
    /// handle and a mutable reference to the value of each entry.
    ///
    /// `f` is called for every entry of the backing map. The entry stays
    /// exactly if the call returns `true`, with its handle and with what the
    /// call left in the value.
    pub fn retain<F: Fn(&I, &mut T) -> bool>(&mut self, f: F)
        requires
            old(self).backing().valid(),
            forall|k: &I, v: &mut T| call_requires(f, (k, v)),
        ensures
            final(self).backing().valid(),
            final(self).backing().spec_len() <= old(self).backing().spec_len(),
            exists|kept: Map<usize, (I, T)>| #[trigger]
                final(self).backing().is_kept_of(&old(self).backing(), kept) && forall|raw: usize|
                    (#[trigger] old(self).backing().spec_held(raw)) is Some ==> exists|
                        k: &I,
                        v: &mut T,
                        keep: bool,
                    |
                        *k == old(self).backing().spec_held(raw).unwrap().0 && *v == old(
                            self,
                        ).backing().spec_held(raw).unwrap().1 && #[trigger] call_ensures(f, (k, v), keep)
                            && keep == kept.contains_key(raw) && (keep ==> kept[raw] == (*k, *final(v))),
    {
        let by_ref = &f;
        let on_entry = |raw: &usize, entry: &mut (I, T)| -> (keep: bool)
            ensures
                final(entry).0 == old(entry).0,
                exists|k: &I, v: &mut T|
                    *k == old(entry).0 && *v == old(entry).1 && *final(v) == final(entry).1
                        && #[trigger] call_ensures(*by_ref, (k, v), keep),
            {
                let handle = entry.0;
                by_ref(&handle, &mut entry.1)
            };
        self.map.retain(on_entry);
        proof {
            let before = old(self).backing();
            let kept = choose|kept: Map<usize, (I, T)>| #[trigger]
                self.backing().is_kept_of(&before, kept) && forall|key: usize|
                    (#[trigger] before.spec_held(key)) is Some ==> exists|
                        k: &usize,
                        v: &mut (I, T),
                        keep: bool,
                    |
                        M::is_same_key(*k, key) && Some(*v) == before.spec_held(key)
                            && #[trigger] call_ensures(on_entry, (k, v), keep) && keep
                            == kept.contains_key(key) && (keep ==> kept[key] == *final(v));
            assert forall|raw: usize| (#[trigger] before.spec_held(raw)) is Some implies exists|
                k: &I,
                v: &mut T,
                keep: bool,
            |
                *k == before.spec_held(raw).unwrap().0 && *v == before.spec_held(raw).unwrap().1
                    && #[trigger] call_ensures(f, (k, v), keep) && keep == kept.contains_key(raw) && (keep
                    ==> kept[raw] == (*k, *final(v))) by {
                let (rk, entry, keep) = choose|k: &usize, v: &mut (I, T), keep: bool|
                    M::is_same_key(*k, raw) && Some(*v) == before.spec_held(raw)
                        && #[trigger] call_ensures(on_entry, (k, v), keep) && keep == kept.contains_key(
                        raw,
                    ) && (keep ==> kept[raw] == *final(v));
                let (k, v) = choose|k: &I, v: &mut T|
                    *k == entry.0 && *v == entry.1 && *final(v) == final(entry).1
                        && #[trigger] call_ensures(f, (k, v), keep);
                assert(call_ensures(f, (k, v), keep));
            }
        }
    }
}

impl<T, I: GenIndex> GenIndexMap<T, I, VecMap<(I, T)>> {
    /// Whether `entries` are the entries of the backing map in the order of
    /// their raw indices.
    pub open spec fn lists(&self, entries: Seq<(I, T)>) -> bool {
        exists|keyed: Seq<(usize, (I, T))>| #[trigger]
            self.backing().lists(keyed, self.backing().cells().len() as int) && entries
                == keyed.map_values(|e: (usize, (I, T))| e.1)
    }

    /// Returns the handles and the values of the entries, in the order of
    /// their raw indices.
    pub fn iter(&self) -> (r: Vec<(&I, &T)>)
        ensures
            self.lists(entries_of(r@)),
    {
        let entries = self.map.iter();
        let ghost keyed = keyed_of(entries@);
        let mut out: Vec<(&I, &T)> = Vec::new();
        let mut k: usize = 0;
        while k < entries.len()
            invariant
                k <= entries@.len(),
                out@.len() == k,
                keyed == keyed_of(entries@),
                forall|j: int|
                    0 <= j < k ==> (*(#[trigger] out@[j]).0, *out@[j].1) == keyed[j].1,
            decreases entries@.len() - k,
        {
            let entry = entries[k].1;
            assert(keyed[k as int].1 == *entry);
            out.push((&entry.0, &entry.1));
            k += 1;
        }
        proof {
            assert(entries_of(out@) =~= keyed.map_values(|e: (usize, (I, T))| e.1));
            assert(self.backing().lists(keyed, self.backing().cells().len() as int));
        }
        out
    }

    /// Returns the handle and a mutable reference to the value of every
    /// entry, in the order of their raw indices. What the caller writes
    /// through a reference becomes the value of that entry.
    #[verifier::loop_isolation(false)]
    pub fn iter_mut(&mut self) -> (r: Vec<(&I, &mut T)>)
        requires
            old(self).backing().wf(),
        ensures
            old(self).lists(Seq::new(r@.len(), |j: int| (*r@[j].0, *r@[j].1))),
            final(self).backing().wf(),
            final(self).backing().cells().len() == old(self).backing().cells().len(),
            forall|i: int|
                0 <= i < old(self).backing().cells().len() && old(self).backing().cells()[i] is None
                    ==> #[trigger] final(self).backing().cells()[i] is None,
            exists|keys: Seq<usize>|
                keys.len() == r@.len() && forall|j: int|
                    0 <= j < r@.len() ==> final(self).backing().cells()[(#[trigger] keys[j]) as int]
                        == Some((*r@[j].0, *final(r@[j].1))),
    {
        let mut entries = self.map.iter_mut();
        let ghost all = entries@;
        let ghost keyed = Seq::new(all.len(), |j: int| (all[j].0, *all[j].1));
        let n = entries.len();
        let mut reversed: Vec<(&I, &mut T)> = Vec::new();
        while entries.len() > 0
            invariant
                n == all.len(),
                entries@.len() + reversed@.len() == n,
                entries@ == all.take(entries@.len() as int),
                forall|j: int|
                    0 <= j < reversed@.len() ==> (*(#[trigger] reversed@[j]).0, *reversed@[j].1)
                        == *all[n - 1 - j].1 && *final(all[n - 1 - j].1) == (
                        *reversed@[j].0,
                        *final(reversed@[j].1),
                    ),
            decreases entries@.len(),
        {
            let ghost done = reversed@;
            let entry = entries.pop().unwrap();
            let pair = entry.1;
            let ghost g_pair = pair;
            let handle = &pair.0;
            let value = &mut pair.1;
            let ghost g_value = value;
            proof {
                assert(*final(g_pair) == ((*g_pair).0, *final(g_value)));
                assert(entries@ =~= all.take(entries@.len() as int));
            }
            reversed.push((handle, value));
            proof {
                assert forall|j: int| 0 <= j < reversed@.len() implies (
                    *(#[trigger] reversed@[j]).0,
                    *reversed@[j].1,
                ) == *all[n - 1 - j].1 && *final(all[n - 1 - j].1) == (
                    *reversed@[j].0,
                    *final(reversed@[j].1),
                ) by {
                    if j < done.len() {
                        assert(reversed@[j] == done[j]);
                    }
                }
            }
        }
        let out = crate::collection::Rev::rev(reversed);
        proof {
            let shown = Seq::new(out@.len(), |j: int| (*out@[j].0, *out@[j].1));
            assert forall|j: int| 0 <= j < out@.len() implies (*(#[trigger] out@[j]).0, *out@[j].1)
                == *all[j].1 && *final(all[j].1) == (*out@[j].0, *final(out@[j].1)) by {
                assert(out@[j] == reversed@[n - 1 - j]);
            }
            assert(shown =~= keyed.map_values(|e: (usize, (I, T))| e.1));
            assert(old(self).backing().lists(keyed, old(self).backing().cells().len() as int));
            let keys = Seq::new(all.len(), |j: int| all[j].0);
            assert(keys.len() == out@.len());
            assert forall|j: int| 0 <= j < out@.len() implies Some(*final(all[j].1)) == Some(
                (*(#[trigger] out@[j]).0, *final(out@[j].1)),
            ) by {}
        }
        out
    }

    /// Takes the map apart and returns the handles and the values of the
    /// entries, in the order of their raw indices.
    pub fn into_iter(self) -> (r: Vec<(I, T)>)
        ensures
            self.lists(r@),
    {
        let entries = self.map.into_iter();
        let ghost keyed = entries@;
        let mut stack = crate::collection::Rev::rev(entries);
        let n = stack.len();
        let mut out: Vec<(I, T)> = Vec::new();
        let mut k: usize = 0;
        while k < n
            invariant
                n == keyed.len(),
                k <= n,
                stack@.len() == n - k,
                forall|j: int| 0 <= j < stack@.len() ==> stack@[j] == keyed[n - 1 - j],
                out@.len() == k,
                forall|j: int| 0 <= j < k ==> #[trigger] out@[j] == keyed[j].1,
            decreases n - k,
        {
            let entry = stack.pop().unwrap();
            out.push(entry.1);
            k += 1;
        }
        proof {
            assert(out@ =~= keyed.map_values(|e: (usize, (I, T))| e.1));
            assert(self.backing().lists(keyed, self.backing().cells().len() as int));
        }
        out
    }
}

impl<T, I: GenIndex, M: KeyedMap<Key = usize, Value = (I, T)>> Valid for GenIndexMap<T, I, M> {
    open spec fn valid(&self) -> bool {
        self.backing().valid()
    }
}

impl<T, I: GenIndex, M: Len + KeyedMap<Key = usize, Value = (I, T)>> Len for GenIndexMap<T, I, M> {
    open spec fn spec_len(&self) -> nat {
        self.backing().spec_len()
    }

    fn len(&self) -> (n: usize) {
        GenIndexMap::len(self)
    }
}

impl<T, I: GenIndex, M: Clear + KeyedMap<Key = usize, Value = (I, T)>> Clear for GenIndexMap<
    T,
    I,
    M,
> {
    fn clear(&mut self) {
        GenIndexMap::clear(self)
    }
}

impl<T, I: GenIndex, M: KeyedMap<Key = usize, Value = (I, T)>> KeyedMap for GenIndexMap<T, I, M> {
    type Key = I;

    type Value = T;
}

impl<T, I: GenIndex, M: MapGet<usize> + KeyedMap<Key = usize, Value = (I, T)>> MapGet<
    I,
> for GenIndexMap<T, I, M> {
    open spec fn spec_get(&self, key: I) -> Option<T> {
        self.value_of(key)
    }

    fn get(&self, key: &I) -> (r: Option<&T>) {
        GenIndexMap::get(self, key)
    }
}

impl<T, I: GenIndex, M: MapMut<usize> + KeyedMap<Key = usize, Value = (I, T)>> MapMut<
    I,
> for GenIndexMap<T, I, M> {
    /// The backing map is written at the raw index of `key`: the entry there
    /// keeps its handle and gets `value`, or is left as it was where `key`
    /// refers to no value.
    open spec fn is_written(&self, before: &Self, key: I, value: Option<T>) -> bool {
        match raw_key(key) {
            Some(raw) => self.backing().is_written(
                &before.backing(),
                raw,
                match before.backing().spec_get(raw) {
                    Some(entry) => Some(
                        (
                            entry.0,
                            if same_parts(entry.0, key) && value is Some {
                                value.unwrap()
                            } else {
                                entry.1
                            },
                        ),
                    ),
                    None => None,
                },
            ),
            None => self.backing() == before.backing(),
        }
    }

    /// The entry leaves the backing map where `key` refers to a value;
    /// otherwise the backing map stays as it is.
    open spec fn is_removed(&self, before: &Self, key: I) -> bool {
        if before.value_of(key) is Some {
            self.backing().is_removed(&before.backing(), key.spec_index() as usize)
        } else {
            self.backing() == before.backing()
        }
    }

    fn get_mut(&mut self, key: &I) -> (r: Option<&mut T>) {
        let r = GenIndexMap::get_mut(self, key);
        proof {
            if old(self).value_of(*key) is Some {
                let entry = old(self).entry_of(*key).unwrap();
                assert(same_parts(entry.0, *key));
            }
        }
        r
    }

    fn remove(&mut self, key: &I) -> (r: Option<T>) {
        GenIndexMap::remove(self, key)
    }
}

impl<T, I: GenIndex, M: MapInsert + KeyedMap<Key = usize, Value = (I, T)>> MapInsert for GenIndexMap<
    T,
    I,
    M,
> {
    /// The value of the entry with the raw index of `key`, whatever its
    /// generation.
    open spec fn spec_value(&self, key: I) -> Option<T> {
        match raw_key(key) {
            Some(raw) => match self.backing().spec_value(raw) {
                Some(entry) => Some(entry.1),
                None => None,
            },
            None => None,
        }
    }

    open spec fn can_insert(&self, key: I) -> bool {
        key.spec_index() <= usize::MAX && self.backing().can_insert(key.spec_index() as usize)
    }

    open spec fn is_inserted(&self, before: &Self, key: I, value: T) -> bool {
        self.backing().is_inserted(&before.backing(), key.spec_index() as usize, (key, value))
    }

    fn insert(&mut self, key: I, value: T) -> (r: Option<T>) {
        GenIndexMap::insert(self, key, value)
    }
}

impl<T, I: GenIndex, M: MapInsert + KeyedMap<Key = usize, Value = (I, T)>> GenIndexMap<T, I, M> {
    /// One step of a run of insertions: inserting `entries[j]` into
    /// `states[j]` gives `states[j + 1]`.
    pub open spec fn insert_step(states: Seq<Self>, entries: Seq<(I, T)>, j: int) -> bool {
        states[j + 1].backing().is_inserted(
            &states[j].backing(),
            entries[j].0.spec_index() as usize,
            entries[j],
        )
    }

    /// Whether `self` is what `before` becomes when `entries` are inserted
    /// one after the other.
    pub open spec fn is_extend_of(&self, before: &Self, entries: Seq<(I, T)>) -> bool {
        exists|states: Seq<Self>|
            states.len() == entries.len() + 1 && states[0] == *before && states.last() == *self
                && forall|j: int|
                0 <= j < entries.len() ==> #[trigger] Self::insert_step(states, entries, j)
    }

    /// Whether the backing map takes every one of the entries, whatever it
    /// holds by then.
    pub open spec fn takes_all(entries: Seq<(I, T)>) -> bool {
        forall|j: int|
            0 <= j < entries.len() ==> (#[trigger] entries[j]).0.spec_index() <= usize::MAX
                && Self::always_takes(entries[j].0.spec_index() as usize)
    }

    /// Whether the backing map takes the key `raw`, whatever it holds.
    pub open spec fn always_takes(raw: usize) -> bool {
        forall|map: M| #[trigger] map.can_insert(raw)
    }

    /// Inserts the entries one after the other, as `insert` does.
    pub fn extend(&mut self, entries: Vec<(I, T)>)
        requires
            old(self).backing().valid(),
            Self::takes_all(entries@),
        ensures
            final(self).backing().valid(),
            final(self).is_extend_of(old(self), entries@),
    {
        let ghost before = *self;
        let mut stack = entries.rev();
        let n = stack.len();
        let mut i: usize = 0;
        let ghost mut states: Seq<Self> = seq![before];
        while i < n
            invariant
                n == entries@.len(),
                Self::takes_all(entries@),
                i <= n,
                stack@.len() == n - i,
                forall|k: int| 0 <= k < stack@.len() ==> stack@[k] == entries@[n - 1 - k],
                self.backing().valid(),
                states.len() == i + 1,
                states[0] == before,
                states.last() == *self,
                forall|j: int| 0 <= j < i ==> #[trigger] Self::insert_step(states, entries@, j),
            decreases n - i,
        {
            let ghost at_start = *self;
            let entry = stack.pop().unwrap();
            proof {
                assert(entry == entries@[i as int]);
                assert(entries@[i as int].0.spec_index() <= usize::MAX
                    && at_start.backing().can_insert(
                    entries@[i as int].0.spec_index() as usize,
                ));
            }
            let _ = self.insert(entry.0, entry.1);
            proof {
                let more = states.push(*self);
                assert forall|j: int| 0 <= j < i + 1 implies #[trigger] Self::insert_step(
                    more,
                    entries@,
                    j,
                ) by {
                    if j < i {
                        assert(Self::insert_step(states, entries@, j));
                        assert(more[j + 1] == states[j + 1]);
                        assert(more[j] == states[j]);
                    } else {
                        assert(more[j] == at_start);
                        assert(more[j + 1] == *self);
                    }
                }
                states = more;
            }
            i += 1;
        }
    }
}

impl<
    T,
    I: GenIndex,
    M: Default + MapInsert + KeyedMap<Key = usize, Value = (I, T)>,
> GenIndexMap<T, I, M> {
    /// Creates a map from the entries, inserted one after the other into the
    /// default backing map.
    pub fn from_iter(entries: Vec<(I, T)>) -> (r: Self)
        requires
            Self::takes_all(entries@),
            forall|map: M| call_ensures(M::default, (), map) ==> map.valid(),
        ensures
            r.backing().valid(),
            exists|empty: Self|
                call_ensures(M::default, (), empty.backing()) && #[trigger] r.is_extend_of(
                    &empty,
                    entries@,
                ),
    {
        let mut map: Self = GenIndexMap::new();
        let ghost empty = map;
        map.extend(entries);
        proof {
            assert(map.is_extend_of(&empty, entries@));
        }
        map
    }
}

impl<T, I: GenIndex, M: Default + KeyedMap<Key = usize, Value = (I, T)>> Default for GenIndexMap<
    T,
    I,
    M,
> {
    /// Constructs a new, empty map on top of the default backing map.
    fn default() -> (r: Self)
        ensures
            call_ensures(M::default, (), r.backing()),
    {
        GenIndexMap::new()
    }
}

impl<T, I: GenIndex, M: Clone + KeyedMap<Key = usize, Value = (I, T)>> Clone for GenIndexMap<T, I, M> {
    /// Returns a map on top of a clone of the backing map.
    fn clone(&self) -> (r: Self)
        ensures
            call_ensures(M::clone, (&self.backing(),), r.backing()),
    {
        GenIndexMap { map: self.map.clone(), marker: PhantomData }
    }
}

impl<T, I: GenIndex, M: PartialEq + KeyedMap<Key = usize, Value = (I, T)>> PartialEq for GenIndexMap<T, I, M> {
    fn eq(&self, other: &Self) -> (r: bool) {
        self.map == other.map
    }
}

impl<T, I: GenIndex, M: PartialEq + KeyedMap<Key = usize, Value = (I, T)>> PartialEqSpecImpl for GenIndexMap<T, I, M> {
    open spec fn obeys_eq_spec() -> bool {
        M::obeys_eq_spec()
    }

    open spec fn eq_spec(&self, other: &Self) -> bool {
        self.backing().eq_spec(&other.backing())
    }
}

} // verus!
