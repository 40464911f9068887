//! The sparse set: a dense array of entries and a sparse array that finds them.

use core::cmp::Ordering;
use vstd::prelude::*;
use vstd::std_specs::cmp::{PartialEqSpec, PartialEqSpecImpl};
use crate::collection::{entries_of, Clear, Len, Retain, Rev, Valid};
use crate::genindex::{same_parts, GenIndex};
use crate::map::{KeyedMap, MapGet, MapInsert, MapMut};
use crate::stable_sort::{
    answers_by, arranged, chained, count, lemma_chained_is_sorted_and_stable,
    lemma_order_covers, lists_range, named, sort_range, total_preorder, whole,
};
use crate::unsigned::UnsignedInt;

verus! {

/// Why a list of entries does not make a sparse set.
#[derive(Clone, Copy, Debug, PartialEq, Eq, Structural)]
pub enum EntriesError {
    /// The raw index of a handle does not fit the sparse array.
    InvalidIndex,
    /// Two handles share a raw index.
    DuplicateIndex,
}

/// The mark of an unused cell of the sparse array.
pub const UNUSED: usize = usize::MAX;

/// What is left of `handles` when they are gone through from the position
/// `from` on and each one that `kept` lacks is removed: the last handle moves
/// into its place and is looked at next.
pub open spec fn swept<I>(handles: Seq<I>, from: int, kept: Set<I>) -> Seq<I>
    decreases handles.len() - from,
{
    if from < 0 || from >= handles.len() {
        handles
    } else if kept.contains(handles[from]) {
        swept(handles, from + 1, kept)
    } else {
        swept(handles.update(from, handles.last()).drop_last(), from, kept)
    }
}

/// Whether `kept` fits what a sweep of `before` has decided when it stands
/// at the position `at` of `current`: the handles in front of `at` stay, and
/// those that are gone do not.
pub open spec fn decided<I>(kept: Set<I>, before: Seq<I>, current: Seq<I>, at: int) -> bool {
    &&& forall|j: int| 0 <= j < at && j < current.len() ==> kept.contains(#[trigger] current[j])
    &&& forall|k: int|
        0 <= k < before.len() && !current.contains(before[k]) ==> !kept.contains(
            #[trigger] before[k],
        )
}

/// Whether a sweep of `before` that stands at the position `at` of `current`
/// ends as the sweep of `before` from its start does, whatever it goes on to
/// decide.
pub open spec fn sweeping<I>(before: Seq<I>, current: Seq<I>, at: int) -> bool {
    forall|kept: Set<I>| #[trigger]
        decided(kept, before, current, at) ==> swept(before, 0, kept) == swept(current, at, kept)
}

/// A sweep that keeps the handle it stands at goes on behind it.
pub proof fn lemma_sweep_keeps<I>(before: Seq<I>, current: Seq<I>, at: int)
    requires
        sweeping(before, current, at),
        0 <= at < current.len(),
    ensures
        sweeping(before, current, at + 1),
{
    assert forall|kept: Set<I>| #[trigger] decided(kept, before, current, at + 1) implies swept(
        before,
        0,
        kept,
    ) == swept(current, at + 1, kept) by {
        assert(decided(kept, before, current, at));
        assert(kept.contains(current[at]));
    }
}

/// A sweep that removes the handle it stands at goes on at the same
/// position, where the last handle now is.
pub proof fn lemma_sweep_removes<I>(before: Seq<I>, current: Seq<I>, at: int)
    requires
        sweeping(before, current, at),
        0 <= at < current.len(),
        current.no_duplicates(),
        before.contains(current[at]),
    ensures
        sweeping(before, current.update(at, current.last()).drop_last(), at),
{
    let next = current.update(at, current.last()).drop_last();
    assert forall|kept: Set<I>| #[trigger] decided(kept, before, next, at) implies swept(
        before,
        0,
        kept,
    ) == swept(next, at, kept) by {
        assert forall|j: int| 0 <= j < at && j < current.len() implies kept.contains(
            #[trigger] current[j],
        ) by {
            assert(next[j] == current[j]);
        }
        assert forall|k: int| 0 <= k < before.len() && !current.contains(
            before[k],
        ) implies !kept.contains(#[trigger] before[k]) by {
            if next.contains(before[k]) {
                let j = choose|j: int| 0 <= j < next.len() && next[j] == before[k];
                if j == at {
                    assert(current[current.len() - 1] == before[k]);
                } else {
                    assert(current[j] == before[k]);
                }
            }
        }
        assert(decided(kept, before, current, at));
        let k = choose|k: int| 0 <= k < before.len() && before[k] == current[at];
        assert(!next.contains(before[k])) by {
            if next.contains(before[k]) {
                let j = choose|j: int| 0 <= j < next.len() && next[j] == before[k];
                if j == at {
                    assert(current[current.len() - 1] == current[at]);
                } else {
                    assert(current[j] == current[at]);
                }
            }
        }
        assert(!kept.contains(before[k]));
    }
}

/// A sweep that has gone through all handles has left what the sweep from
/// the start leaves when it keeps exactly these.
pub proof fn lemma_sweep_ends<I>(before: Seq<I>, current: Seq<I>)
    requires
        sweeping(before, current, current.len() as int),
    ensures
        current == swept(before, 0, current.to_set()),
{
    let kept = current.to_set();
    assert(decided(kept, before, current, current.len() as int));
}

/// An associative array from handles to values that keeps its entries packed
/// in a dense array, in the order in which they came, and finds an entry
/// through a sparse array indexed by the raw index of the handle.
///
/// A cell of the sparse array holds the position of the entry of that raw
/// index in the dense array, or `UNUSED`. At most one entry has a given raw
/// index.
#[derive(Debug)]
pub struct SparseSet<T, I> {
    sparse: Vec<usize>,
    entries: Vec<(I, T)>,
}

impl<T, I: GenIndex> SparseSet<T, I> {
    /// The dense array: the entries in their order.
    pub closed spec fn dense(&self) -> Seq<(I, T)> {
        self.entries@
    }

    /// The sparse array: for each raw index the position of its entry in the
    /// dense array, or `UNUSED`.
    pub closed spec fn sparse(&self) -> Seq<usize> {
        self.sparse@
    }

    /// The invariant of the set: every used cell of the sparse array points at
    /// the entry of its raw index, and every entry is pointed at by the cell
    /// of its raw index. The positions of the entries fit `usize`, so that none
    /// is taken for the mark of an unused cell.
    pub open spec fn wf(&self) -> bool {
        &&& self.dense().len() <= usize::MAX
        &&& forall|raw: int|
            0 <= raw < self.sparse().len() && #[trigger] self.sparse()[raw] != UNUSED
                ==> self.sparse()[raw] < self.dense().len()
                && self.dense()[self.sparse()[raw] as int].0.spec_index() == raw
        &&& forall|pos: int|
            0 <= pos < self.dense().len() ==> (#[trigger] self.dense()[pos]).0.spec_index()
                < self.sparse().len() && self.sparse()[self.dense()[pos].0.spec_index() as int]
                == pos
    }

    /// The position in the dense array of the entry with the raw index of
    /// `key`, if there is one.
    pub open spec fn position_of(&self, key: I) -> Option<int> {
        if key.spec_index() < self.sparse().len() && self.sparse()[key.spec_index() as int]
            != UNUSED {
            Some(self.sparse()[key.spec_index() as int] as int)
        } else {
            None
        }
    }

    /// Whether the set holds an entry for `key`: one of the same raw index
    /// and the same generation.
    pub open spec fn contains(&self, key: I) -> bool {
        match self.position_of(key) {
            Some(pos) => same_parts(self.dense()[pos].0, key),
            None => false,
        }
    }

    /// The value of the entry for `key`, if the set holds one.
    pub open spec fn value_of(&self, key: I) -> Option<T> {
        if self.contains(key) {
            Some(self.dense()[self.position_of(key).unwrap()].1)
        } else {
            None
        }
    }

    /// The handles of the entries, in the order of the dense array.
    pub open spec fn handles(&self) -> Seq<I> {
        self.dense().map_values(|e: (I, T)| e.0)
    }

    /// No two entries share a handle.
    pub proof fn lemma_handles_differ(&self)
        requires
            self.wf(),
        ensures
            self.handles().no_duplicates(),
    {
        assert forall|a: int, b: int|
            0 <= a < self.handles().len() && 0 <= b < self.handles().len()
                && a != b implies self.handles()[a] != self.handles()[b] by {
            assert(self.dense()[a].0.spec_index() < self.sparse().len());
            assert(self.dense()[b].0.spec_index() < self.sparse().len());
        }
    }

    /// Whether some entry of the set has the handle `h`.
    pub open spec fn has_handle(&self, h: I) -> bool {
        exists|k: int| 0 <= k < self.dense().len() && (#[trigger] self.dense()[k]).0 == h
    }

    /// Creates an empty set.
    pub fn new() -> (r: Self)
        ensures
            r.wf(),
            r.dense() == Seq::<(I, T)>::empty(),
            r.sparse() == Seq::<usize>::empty(),
    {
        SparseSet { sparse: Vec::new(), entries: Vec::new() }
    }

    /// Returns the number of entries that the set can hold before its dense
    /// array has to grow.
    pub fn capacity(&self) -> (c: usize)
        ensures
            c >= self.dense().len(),
    {
        crate::capacity::vec_capacity(&self.entries)
    }

    /// Returns the number of entries.
    pub fn len(&self) -> (n: usize)
        ensures
            n == self.dense().len(),
    {
        self.entries.len()
    }

    /// Removes every entry.
    pub fn clear(&mut self)
        ensures
            final(self).wf(),
            final(self).dense() == Seq::<(I, T)>::empty(),
            final(self).sparse() == Seq::<usize>::empty(),
    {
        self.sparse.clear();
        self.entries.clear();
    }

    /// Makes room for at least `additional` more entries. The contents do not
    /// change.
    pub fn reserve(&mut self, additional: usize)
        requires
            old(self).dense().len() + additional <= usize::MAX,
        ensures
            final(self).dense() == old(self).dense(),
            final(self).sparse() == old(self).sparse(),
    {
        self.entries.reserve(additional);
        let min_sparse = self.entries.len() + additional;
        if min_sparse > self.sparse.len() {
            self.sparse.reserve(min_sparse - self.sparse.len());
        }
    }

    /// Returns the cell of the sparse array that belongs to `key` and what the
    /// cell holds: `None` where the raw index of `key` does not fit `usize`,
    /// and no content where the sparse array does not reach that far.
    pub fn get_sparse_dense_indices(&self, key: &I) -> (r: Option<(usize, Option<usize>)>)
        ensures
            key.spec_index() > usize::MAX ==> r is None,
            key.spec_index() <= usize::MAX ==> r == Some(
                (
                    key.spec_index() as usize,
                    if key.spec_index() < self.sparse().len() {
                        Some(self.sparse()[key.spec_index() as int])
                    } else {
                        None
                    },
                ),
            ),
    {
        let sparse_index = match key.index().to_usize() {
            Some(sparse_index) => sparse_index,
            None => {
                return None;
            },
        };
        if sparse_index < self.sparse.len() {
            Some((sparse_index, Some(self.sparse[sparse_index])))
        } else {
            Some((sparse_index, None))
        }
    }

    /// Returns the value of the entry for `key`, or `None` where the set holds
    /// no entry of that raw index and generation.
    pub fn get(&self, key: &I) -> (r: Option<&T>)
        requires
            self.wf(),
        ensures
            self.contains(*key) ==> r == Some(&self.value_of(*key).unwrap()),
            !self.contains(*key) ==> r is None,
    {
        let dense_index = match self.get_sparse_dense_indices(key) {
            Some((_, Some(dense_index))) => dense_index,
            _ => {
                assert(self.sparse().len() == self.sparse.len());
                return None;
            },
        };
        if dense_index >= self.entries.len() {
            return None;
        }
        let entry = &self.entries[dense_index];
        if key.same(&entry.0) {
            Some(&entry.1)
        } else {
            None
        }
    }

    /// Whether `self` is what `before` becomes when `value` is inserted for
    /// `key` and `previous` is returned.
    ///
    /// Where the set has an entry of the raw index of `key`, the value of that
    /// entry is replaced, its handle stays, and the old value is returned.
    /// Otherwise the entry `(key, value)` is appended to the dense array, and
    /// the sparse array, grown by unused cells as far as needed, points at it.
    /// A key whose raw index does not fit `usize` is not taken.
    pub open spec fn is_insert_of(&self, before: &Self, key: I, value: T, previous: Option<T>) -> bool {
        let raw = key.spec_index() as int;
        if raw > usize::MAX {
            previous is None && self.dense() == before.dense() && self.sparse() == before.sparse()
        } else {
            match before.position_of(key) {
                Some(pos) => {
                    &&& previous == Some(before.dense()[pos].1)
                    &&& self.dense() == before.dense().update(pos, (before.dense()[pos].0, value))
                    &&& self.sparse() == before.sparse()
                },
                None => {
                    &&& previous is None
                    &&& self.dense() == before.dense().push((key, value))
                    &&& self.sparse().len() == (if raw < before.sparse().len() {
                        before.sparse().len()
                    } else {
                        (raw + 1) as nat
                    })
                    &&& self.sparse()[raw] == before.dense().len()
                    &&& forall|other: int|
                        0 <= other < self.sparse().len()
                            && other != raw ==> #[trigger] self.sparse()[other]
                            == (if other < before.sparse().len() {
                            before.sparse()[other]
                        } else {
                            UNUSED
                        })
                },
            }
        }
    }

    /// Inserts `value` for `key` and returns the value that an entry of the
    /// same raw index held before, if there was one.
    pub fn insert(&mut self, key: I, value: T) -> (r: Option<T>)
        requires
            old(self).wf(),
            key.spec_index() != usize::MAX,
        ensures
            final(self).wf(),
            final(self).is_insert_of(old(self), key, value, r),
    {
        let (sparse_index, dense_index) = match self.get_sparse_dense_indices(&key) {
            Some(found) => found,
            None => {
                return None;
            },
        };
        assert(self.sparse().len() == self.sparse.len());
        assert(self.dense().len() == self.entries.len());
        match dense_index {
            Some(dense_index) => {
                if dense_index < self.entries.len() {
                    if key.index().same(self.entries[dense_index].0.index()) {
                        let ghost before = *self;
                        let mut held = value;
                        core::mem::swap(&mut self.entries[dense_index].1, &mut held);
                        proof {
                            assert(self.dense() =~= before.dense().update(
                                dense_index as int,
                                (before.dense()[dense_index as int].0, value),
                            ));
                            before.lemma_value_replaced(*self, dense_index as int);
                        }
                        return Some(held);
                    }
                }
            },
            None => {},
        }
        let ghost before = *self;
        self.reserve_sparse_index(sparse_index);
        let position = self.entries.len();
        self.sparse[sparse_index] = position;
        self.entries.push((key, value));
        proof {
            assert(self.dense().len() == self.entries.len());
            assert forall|raw: int|
                0 <= raw < self.sparse().len()
                    && #[trigger] self.sparse()[raw] != UNUSED implies self.sparse()[raw]
                < self.dense().len() && self.dense()[self.sparse()[raw] as int].0.spec_index()
                == raw by {
                if raw != sparse_index {
                    assert(before.sparse()[raw] != UNUSED);
                }
            }
            assert forall|pos: int| 0 <= pos < self.dense().len() implies (
            #[trigger] self.dense()[pos]).0.spec_index() < self.sparse().len()
                && self.sparse()[self.dense()[pos].0.spec_index() as int] == pos by {
                if pos < before.dense().len() {
                    let raw = before.dense()[pos].0.spec_index() as int;
                    assert(before.sparse()[raw] == pos);
                    assert(raw != sparse_index);
                }
            }
        }
        None
    }

    /// Grows the sparse array by unused cells until it has the cell `index`.
    fn reserve_sparse_index(&mut self, index: usize)
        requires
            index < usize::MAX,
        ensures
            final(self).dense() == old(self).dense(),
            final(self).sparse().len() == (if index < old(self).sparse().len() {
                old(self).sparse().len()
            } else {
                (index + 1) as nat
            }),
            forall|raw: int|
                0 <= raw < final(self).sparse().len() ==> #[trigger] final(self).sparse()[raw] == (if raw
                    < old(self).sparse().len() {
                    old(self).sparse()[raw]
                } else {
                    UNUSED
                }),
    {
        while self.sparse.len() <= index
            invariant
                index < usize::MAX,
                self.dense() == old(self).dense(),
                old(self).sparse().len() <= self.sparse().len(),
                self.sparse().len() <= index + 1 || self.sparse() == old(self).sparse(),
                forall|raw: int|
                    0 <= raw < self.sparse().len() ==> #[trigger] self.sparse()[raw] == (if raw
                        < old(self).sparse().len() {
                        old(self).sparse()[raw]
                    } else {
                        UNUSED
                    }),
            decreases index + 1 - self.sparse().len(),
        {
            self.sparse.push(UNUSED);
        }
    }

    /// Replacing the value of an entry keeps the invariant.
    proof fn lemma_value_replaced(&self, after: Self, pos: int)
        requires
            self.wf(),
            0 <= pos < self.dense().len(),
            after.sparse() == self.sparse(),
            after.dense().len() == self.dense().len(),
            after.dense()[pos].0 == self.dense()[pos].0,
            forall|j: int|
                0 <= j < self.dense().len() && j != pos ==> after.dense()[j] == self.dense()[j],
        ensures
            after.wf(),
            after.dense() == self.dense().update(pos, (self.dense()[pos].0, after.dense()[pos].1)),
    {
        assert(after.dense() =~= self.dense().update(
            pos,
            (self.dense()[pos].0, after.dense()[pos].1),
        ));
        assert forall|j: int| 0 <= j < after.dense().len() implies (
        #[trigger] after.dense()[j]).0.spec_index() < after.sparse().len()
            && after.sparse()[after.dense()[j].0.spec_index() as int] == j by {
            assert(self.dense()[j].0 == after.dense()[j].0);
        }
        assert forall|raw: int|
            0 <= raw < after.sparse().len()
                && #[trigger] after.sparse()[raw] != UNUSED implies after.sparse()[raw]
            < after.dense().len() && after.dense()[after.sparse()[raw] as int].0.spec_index()
            == raw by {
            assert(self.dense()[self.sparse()[raw] as int].0 == after.dense()[self.sparse()[raw] as int].0);
        }
    }

    /// Returns a mutable reference to the value of the entry for `key`, or
    /// `None` where the set holds no such entry. What the caller writes
    /// through the reference becomes the value of the entry; nothing else
    /// changes.
    pub fn get_mut(&mut self, key: &I) -> (r: Option<&mut T>)
        requires
            old(self).wf(),
        ensures
            final(self).wf(),
            final(self).sparse() == old(self).sparse(),
            old(self).contains(*key) ==> r is Some && *r.unwrap() == old(self).value_of(
                *key,
            ).unwrap() && final(self).dense() == old(self).dense().update(
                old(self).position_of(*key).unwrap(),
                (old(self).dense()[old(self).position_of(*key).unwrap()].0, *final(r.unwrap())),
            ),
            !old(self).contains(*key) ==> r is None && final(self).dense() == old(self).dense(),
    {
        let dense_index = match self.get_sparse_dense_indices(key) {
            Some((_, Some(dense_index))) => dense_index,
            _ => {
                assert(self.sparse().len() == self.sparse.len());
                return None;
            },
        };
        if dense_index >= self.entries.len() {
            return None;
        }
        if !key.same(&self.entries[dense_index].0) {
            return None;
        }
        let ghost before = *self;
        proof {
            assert forall|after: Self|
                after.sparse() == before.sparse() && after.dense().len() == before.dense().len()
                    && after.dense()[dense_index as int].0 == before.dense()[dense_index as int].0
                    && (forall|j: int|
                    0 <= j < before.dense().len() && j != dense_index ==> after.dense()[j]
                        == before.dense()[j]) implies #[trigger] after.wf() && after.dense()
                == before.dense().update(
                dense_index as int,
                (before.dense()[dense_index as int].0, after.dense()[dense_index as int].1),
            ) by {
                before.lemma_value_replaced(after, dense_index as int);
            }
        }
        Some(&mut self.entries[dense_index].1)
    }

    /// Whether `self` is what `before` becomes when `key` is removed and
    /// `taken` is returned.
    ///
    /// The entry for `key` leaves the dense array and the last entry takes
    /// its place; the cell of the moved entry then points at that place, and
    /// the cell of `key` is marked unused. Without an entry for `key` nothing
    /// changes.
    pub open spec fn is_remove_of(&self, before: &Self, key: I, taken: Option<T>) -> bool {
        if before.contains(key) {
            let pos = before.position_of(key).unwrap();
            let last = before.dense().last();
            &&& taken == Some(before.dense()[pos].1)
            &&& self.dense() == before.dense().update(pos, last).drop_last()
            &&& self.sparse() == before.sparse().update(last.0.spec_index() as int, pos as usize).update(
                key.spec_index() as int,
                UNUSED,
            )
        } else {
            taken is None && self.dense() == before.dense() && self.sparse() == before.sparse()
        }
    }

    /// Removes the entry for `key` and returns its value, or `None` where the
    /// set holds no entry of that raw index and generation.
    pub fn remove(&mut self, key: &I) -> (r: Option<T>)
        requires
            old(self).wf(),
        ensures
            final(self).wf(),
            final(self).is_remove_of(old(self), *key, r),
    {
        let (sparse_index, dense_index) = match self.get_sparse_dense_indices(key) {
            Some((sparse_index, Some(dense_index))) => (sparse_index, dense_index),
            _ => {
                assert(self.sparse().len() == self.sparse.len());
                return None;
            },
        };
        if dense_index >= self.entries.len() {
            return None;
        }
        if !key.same(&self.entries[dense_index].0) {
            return None;
        }
        let ghost before = *self;
        let last = self.entries.len() - 1;
        let moved = self.entries[last].0;
        proof {
            assert(self.sparse().len() == self.sparse.len());
            assert(self.dense()[last as int].0.spec_index() < self.sparse().len());
            assert(self.dense()[dense_index as int].0.spec_index() == sparse_index);
        }
        let swapped_index = moved.index().to_usize().unwrap();
        self.sparse[swapped_index] = dense_index;
        self.sparse[sparse_index] = UNUSED;
        let entry = self.entries.swap_remove(dense_index);
        proof {
            assert forall|raw: int|
                0 <= raw < self.sparse().len()
                    && #[trigger] self.sparse()[raw] != UNUSED implies self.sparse()[raw]
                < self.dense().len() && self.dense()[self.sparse()[raw] as int].0.spec_index()
                == raw by {
                if raw == swapped_index {
                } else {
                    assert(before.sparse()[raw] != UNUSED);
                    let at = before.sparse()[raw] as int;
                    assert(before.dense()[at].0.spec_index() == raw);
                    assert(before.dense()[last as int].0.spec_index() == swapped_index);
                    assert(at != last);
                    assert(at != dense_index);
                }
            }
            assert forall|pos: int| 0 <= pos < self.dense().len() implies (
            #[trigger] self.dense()[pos]).0.spec_index() < self.sparse().len()
                && self.sparse()[self.dense()[pos].0.spec_index() as int] == pos by {
                if pos == dense_index {
                } else {
                    let raw = before.dense()[pos].0.spec_index() as int;
                    assert(before.sparse()[raw] == pos);
                }
            }
        }
        Some(entry.1)
    }

    /// Keeps the entries for which `f` returns `true` and removes the others.
    ///
    /// `f` is called once for every entry, with the handle and a mutable
    /// reference to the value; what it leaves in a value that it keeps stays
    /// there. An entry that is removed gives its place to the last entry,
    /// which is shown to `f` next.
    pub fn retain<F: FnMut(&I, &mut T) -> bool>(&mut self, f: F)
        requires
            old(self).wf(),
            forall|k: &I, v: &mut T| call_requires(f, (k, v)),
        ensures
            final(self).wf(),
            final(self).dense().len() <= old(self).dense().len(),
            forall|j: int|
                0 <= j < final(self).dense().len() ==> old(self).has_handle(
                    (#[trigger] final(self).dense()[j]).0,
                ),
            forall|h: I| #[trigger]
                old(self).has_handle(h) ==> exists|key: &I, v: &mut T, keep: bool|
                    *key == h && Some(*v) == old(self).value_of(h) && #[trigger] call_ensures(
                        f,
                        (key, v),
                        keep,
                    ) && (if keep {
                        final(self).value_of(h) == Some(*final(v))
                    } else {
                        final(self).position_of(h) is None
                    }),
            final(self).handles() == swept(old(self).handles(), 0, final(self).handles().to_set()),
    {
        let mut f = f;
        let ghost f0 = f;
        let ghost before = *self;
        let ghost n0 = self.dense().len() as int;
        let ghost mut origin: Seq<int> = Seq::new(self.dense().len(), |j: int| j);
        let ghost mut done: Map<int, (T, bool)> = Map::empty();
        let mut i: usize = 0;
        proof {
            assert forall|k: int| 0 <= k < n0 implies origin.contains(k) by {
                assert(origin[k] == k);
            }
        }
        while i < self.entries.len()
            invariant
                f == f0,
                forall|k: &I, v: &mut T| call_requires(f, (k, v)),
                before.wf(),
                self.wf(),
                n0 == before.dense().len(),
                i <= self.dense().len(),
                self.dense().len() <= n0,
                origin.len() == self.dense().len(),
                origin.no_duplicates(),
                forall|j: int|
                    0 <= j < origin.len() ==> 0 <= #[trigger] origin[j] < n0 && self.dense()[j].0
                        == before.dense()[origin[j]].0,
                forall|j: int|
                    i <= j < origin.len() ==> self.dense()[j].1 == before.dense()[#[trigger] origin[j]].1,
                forall|k: int| #[trigger]
                    done.contains_key(k) ==> 0 <= k < n0 && exists|key: &I, v: &mut T|
                        *key == before.dense()[k].0 && *v == before.dense()[k].1 && *final(v)
                            == done[k].0 && #[trigger] call_ensures(f0, (key, v), done[k].1),
                forall|j: int|
                    0 <= j < i ==> done.contains_key(#[trigger] origin[j]) && done[origin[j]].1
                        && done[origin[j]].0 == self.dense()[j].1,
                forall|k: int|
                    0 <= k < n0 ==> origin.contains(k) || (#[trigger] done.contains_key(k)
                        && !done[k].1 && self.position_of(before.dense()[k].0) is None),
                sweeping(before.handles(), self.handles(), i as int),
            decreases self.dense().len() - i,
        {
            let ghost at_start = *self;
            let ghost start_origin = origin;
            let ghost start_done = done;
            let handle = self.entries[i].0;
            let ghost given = self.dense()[i as int].1;
            let ghost k0 = origin[i as int];
            proof {
                assert(self.dense()[i as int].0 == handle);
                assert forall|after: Self|
                    after.sparse() == at_start.sparse() && after.dense().len()
                        == at_start.dense().len() && after.dense()[i as int].0
                        == at_start.dense()[i as int].0 && (forall|j: int|
                        0 <= j < at_start.dense().len() && j != i ==> after.dense()[j]
                            == at_start.dense()[j]) implies #[trigger] after.wf() by {
                    at_start.lemma_value_replaced(after, i as int);
                }
            }
            let keep = f(&handle, &mut self.entries[i].1);
            let ghost mid = *self;
            let ghost left = mid.dense()[i as int].1;
            proof {
                assert(mid.handles() =~= at_start.handles());
                assert(mid.sparse() == at_start.sparse());
                assert(mid.dense().len() == at_start.dense().len());
                assert(mid.dense()[i as int].0 == at_start.dense()[i as int].0);
                assert(forall|j: int|
                    0 <= j < at_start.dense().len() && j != i ==> mid.dense()[j]
                        == at_start.dense()[j]);
                assert(mid.wf());
                assert(given == before.dense()[k0].1);
                assert(handle == before.dense()[k0].0);
                assert(exists|key: &I, v: &mut T|
                    *key == handle && *v == given && *final(v) == left && #[trigger] call_ensures(
                        f0,
                        (key, v),
                        keep,
                    ));
                done = done.insert(k0, (left, keep));
                assert forall|k: int| #[trigger] done.contains_key(k) implies 0 <= k < n0 && exists|
                    key: &I,
                    v: &mut T,
                |
                    *key == before.dense()[k].0 && *v == before.dense()[k].1 && *final(v)
                        == done[k].0 && #[trigger] call_ensures(f0, (key, v), done[k].1) by {
                    if k != k0 {
                        assert(start_done.contains_key(k));
                        assert(done[k] == start_done[k]);
                    } else {
                        let (key, v) = choose|key: &I, v: &mut T|
                            *key == handle && *v == given && *final(v) == left
                                && #[trigger] call_ensures(f0, (key, v), keep);
                        assert(call_ensures(f0, (key, v), done[k].1));
                    }
                }
                assert forall|j: int| 0 <= j < i implies done.contains_key(#[trigger] origin[j])
                    && done[origin[j]].1 && done[origin[j]].0 == mid.dense()[j].1 by {
                    assert(origin[j] != origin[i as int]);
                    assert(start_done.contains_key(origin[j]));
                    assert(mid.dense()[j] == at_start.dense()[j]);
                }
                assert forall|k: int| 0 <= k < n0
                    && !origin.contains(k) implies #[trigger] done.contains_key(
                    k,
                ) && !done[k].1 && mid.position_of(before.dense()[k].0) is None by {
                    assert(k != k0) by {
                        if k == k0 {
                            assert(origin[i as int] == k);
                        }
                    }
                    assert(start_done.contains_key(k));
                    assert(at_start.position_of(before.dense()[k].0) is None);
                }
            }
            if !keep {
                proof {
                    assert(mid.contains(handle)) by {
                        assert(mid.dense()[i as int].0.spec_index() < mid.sparse().len());
                    }
                }
                let _ = self.remove(&handle);
                proof {
                    let last = origin.len() - 1;
                    mid.lemma_handles_differ();
                    assert(before.handles().contains(mid.handles()[i as int])) by {
                        assert(before.handles()[k0] == handle);
                    }
                    lemma_sweep_removes(before.handles(), mid.handles(), i as int);
                    origin = origin.update(i as int, origin[last]).drop_last();
                    assert(mid.position_of(handle) == Some(i as int));
                    assert(self.dense() == mid.dense().update(i as int, mid.dense().last()).drop_last());
                    assert(self.handles() =~= mid.handles().update(
                        i as int,
                        mid.handles().last(),
                    ).drop_last());
                    assert(origin.no_duplicates()) by {
                        assert forall|a: int, b: int|
                            0 <= a < origin.len() && 0 <= b < origin.len()
                                && a != b implies origin[a]
                            != origin[b] by {
                            let sa = if a == i {
                                last
                            } else {
                                a
                            };
                            let sb = if b == i {
                                last
                            } else {
                                b
                            };
                            assert(origin[a] == start_origin[sa]);
                            assert(origin[b] == start_origin[sb]);
                            assert(sa != sb);
                        }
                    }
                    assert forall|j: int| 0 <= j < origin.len() implies 0 <= #[trigger] origin[j] < n0
                        && self.dense()[j].0 == before.dense()[origin[j]].0 by {
                        if j == i {
                            assert(start_origin[last] == origin[j]);
                        } else {
                            assert(start_origin[j] == origin[j]);
                        }
                    }
                    assert forall|j: int| i <= j < origin.len() implies self.dense()[j].1
                        == before.dense()[#[trigger] origin[j]].1 by {
                        if j == i {
                            assert(start_origin[last] == origin[j]);
                        } else {
                            assert(start_origin[j] == origin[j]);
                        }
                    }
                    assert forall|j: int| 0 <= j < i implies done.contains_key(#[trigger] origin[j])
                        && done[origin[j]].1 && done[origin[j]].0 == self.dense()[j].1 by {
                        assert(start_origin[j] == origin[j]);
                        assert(self.dense()[j] == mid.dense()[j]);
                    }
                    assert forall|k: int| 0 <= k < n0 implies origin.contains(k) || (
                    #[trigger] done.contains_key(k) && !done[k].1 && self.position_of(
                        before.dense()[k].0,
                    ) is None) by {
                        let raw = before.dense()[k].0.spec_index() as int;
                        let moved_raw = mid.dense().last().0.spec_index() as int;
                        if k == k0 {
                            assert(before.dense()[k].0 == handle);
                            assert(done.contains_key(k));
                            assert(done[k] == (left, keep));
                        } else if start_origin.contains(k) {
                            let j = choose|j: int| 0 <= j < start_origin.len()
                                && start_origin[j] == k;
                            if j == last {
                                assert(origin[i as int] == k);
                            } else {
                                assert(j != i);
                                assert(origin[j] == k);
                            }
                        } else {
                            assert(done.contains_key(k));
                            assert(mid.position_of(before.dense()[k].0) is None);
                            assert(mid.sparse()[moved_raw] == last);
                            assert(raw != moved_raw);
                        }
                    }
                }
            } else {
                proof {
                    assert(done[origin[i as int]] == (left, true));
                    lemma_sweep_keeps(before.handles(), mid.handles(), i as int);
                }
                i += 1;
            }
        }
        proof {
            lemma_sweep_ends(before.handles(), self.handles());
            assert forall|j: int| 0 <= j < self.dense().len() implies before.has_handle(
                (#[trigger] self.dense()[j]).0,
            ) by {
                assert(before.dense()[origin[j]].0 == self.dense()[j].0);
            }
            assert forall|h: I| #[trigger] before.has_handle(h) implies exists|
                key: &I,
                v: &mut T,
                keep: bool,
            |
                *key == h && Some(*v) == before.value_of(h) && #[trigger] call_ensures(
                    f0,
                    (key, v),
                    keep,
                ) && (if keep {
                    self.value_of(h) == Some(*final(v))
                } else {
                    self.position_of(h) is None
                }) by {
                let k = choose|k: int| 0 <= k < before.dense().len() && before.dense()[k].0 == h;
                assert(before.dense()[k].0.spec_index() < before.sparse().len());
                assert(before.position_of(h) == Some(k));
                assert(before.value_of(h) == Some(before.dense()[k].1));
                if origin.contains(k) {
                    let j = choose|j: int| 0 <= j < origin.len() && origin[j] == k;
                    assert(self.dense()[j].0 == before.dense()[origin[j]].0);
                    assert(done.contains_key(origin[j]));
                    assert(self.dense()[j].0.spec_index() < self.sparse().len());
                    assert(self.position_of(h) == Some(j));
                    assert(self.value_of(h) == Some(done[k].0));
                } else {
                    assert(done.contains_key(k));
                }
                let (key, v) = choose|key: &I, v: &mut T|
                    *key == before.dense()[k].0 && *v == before.dense()[k].1 && *final(v)
                        == done[k].0 && #[trigger] call_ensures(f0, (key, v), done[k].1);
                assert(call_ensures(f0, (key, v), done[k].1));
            }
        }
    }

    /// Returns the entries in their order.
    pub fn iter(&self) -> (r: Vec<(&I, &T)>)
        ensures
            entries_of(r@) == self.dense(),
    {
        let mut out: Vec<(&I, &T)> = Vec::new();
        let mut i: usize = 0;
        while i < self.entries.len()
            invariant
                i <= self.dense().len(),
                entries_of(out@) == self.dense().take(i as int),
            decreases self.dense().len() - i,
        {
            let ghost listed = entries_of(out@);
            let entry = &self.entries[i];
            out.push((&entry.0, &entry.1));
            proof {
                assert(entries_of(out@) =~= listed.push(
                    self.dense()[i as int],
                ));
                assert(self.dense().take(i + 1) =~= self.dense().take(i as int).push(
                    self.dense()[i as int],
                ));
            }
            i += 1;
        }
        proof {
            assert(self.dense().take(i as int) =~= self.dense());
        }
        out
    }

    /// Returns the handle and a mutable reference to the value of every
    /// entry, in their order. What the caller writes through a reference
    /// becomes the value of that entry; nothing else changes.
    #[verifier::loop_isolation(false)]
    pub fn iter_mut(&mut self) -> (r: Vec<(&I, &mut T)>)
        requires
            old(self).wf(),
        ensures
            r@.len() == old(self).dense().len(),
            forall|k: int|
                0 <= k < r@.len() ==> *(#[trigger] r@[k]).0 == old(self).dense()[k].0 && *r@[k].1
                    == old(self).dense()[k].1,
            final(self).sparse() == old(self).sparse(),
            final(self).dense() == Seq::new(
                r@.len(),
                |k: int| (old(self).dense()[k].0, *final(r@[k].1)),
            ),
            final(self).wf(),
    {
        let ghost before = *self;
        proof {
            assert forall|after: Self|
                after.sparse() == before.sparse() && after.dense().len() == before.dense().len()
                    && (
                forall|k: int|
                    0 <= k < before.dense().len() ==> (#[trigger] after.dense()[k]).0
                        == before.dense()[k].0) implies #[trigger] after.wf() by {
                before.lemma_values_replaced(after);
            }
        }
        let mut refs = crate::each_mut::each_mut(&mut self.entries);
        let ghost all = refs@;
        let n = refs.len();
        let mut reversed: Vec<(&I, &mut T)> = Vec::new();
        while refs.len() > 0
            invariant
                n == all.len(),
                refs@.len() + reversed@.len() == n,
                refs@ == all.take(refs@.len() as int),
                forall|j: int|
                    0 <= j < reversed@.len() ==> *(#[trigger] reversed@[j]).0 == (*all[n - 1 - j]).0
                        && *reversed@[j].1 == (*all[n - 1 - j]).1 && *final(all[n - 1 - j]) == (
                    (*all[n - 1 - j]).0,
                    *final(reversed@[j].1),
                ),
            decreases refs@.len(),
        {
            let ghost done = reversed@;
            let entry = refs.pop().unwrap();
            let ghost g_entry = entry;
            let handle = &entry.0;
            let value = &mut entry.1;
            let ghost g_value = value;
            proof {
                assert(*final(g_entry) == ((*g_entry).0, *final(g_value)));
                assert(refs@ =~= all.take(refs@.len() as int));
            }
            reversed.push((handle, value));
            proof {
                assert forall|j: int| 0 <= j < reversed@.len() implies *(
                #[trigger] reversed@[j]).0 == (*all[n - 1 - j]).0 && *reversed@[j].1 == (*all[n - 1
                    - j]).1 && *final(all[n - 1 - j]) == (
                    (*all[n - 1 - j]).0,
                    *final(reversed@[j].1),
                ) by {
                    if j < done.len() {
                        assert(reversed@[j] == done[j]);
                    }
                }
            }
        }
        let out = reversed.rev();
        proof {
            assert forall|k: int| 0 <= k < out@.len() implies *(#[trigger] out@[k]).0
                == before.dense()[k].0 && *out@[k].1 == before.dense()[k].1 && *final(all[k]) == (
                before.dense()[k].0,
                *final(out@[k].1),
            ) by {
                assert(out@[k] == reversed@[n - 1 - k]);
                assert(*all[k] == before.dense()[k]);
            }
            assert forall|k: int| 0 <= k < all.len() implies (*final(#[trigger] all[k])).0
                == before.dense()[k].0 by {
                assert(*final(all[k]) == (before.dense()[k].0, *final(out@[k].1)));
            }
        }
        out
    }

    /// Replacing the values of the entries keeps the invariant.
    proof fn lemma_values_replaced(&self, after: Self)
        requires
            self.wf(),
            after.sparse() == self.sparse(),
            after.dense().len() == self.dense().len(),
            forall|k: int|
                0 <= k < self.dense().len() ==> (#[trigger] after.dense()[k]).0
                    == self.dense()[k].0,
        ensures
            after.wf(),
    {
        assert forall|pos: int| 0 <= pos < after.dense().len() implies (
        #[trigger] after.dense()[pos]).0.spec_index() < after.sparse().len()
            && after.sparse()[after.dense()[pos].0.spec_index() as int] == pos by {
            assert(self.dense()[pos].0.spec_index() < self.sparse().len());
        }
        assert forall|raw: int|
            0 <= raw < after.sparse().len()
                && #[trigger] after.sparse()[raw] != UNUSED implies after.sparse()[raw]
            < after.dense().len() && after.dense()[after.sparse()[raw] as int].0.spec_index()
            == raw by {
            assert(self.sparse()[raw] != UNUSED);
            assert(after.dense()[self.sparse()[raw] as int].0 == self.dense()[self.sparse()[raw] as int].0);
        }
    }

    /// Returns the value of the entry for `index`. The set has to hold such an
    /// entry.
    pub fn index(&self, index: I) -> (r: &T)
        requires
            self.wf(),
            self.contains(index),
        ensures
            Some(*r) == self.value_of(index),
    {
        self.get(&index).unwrap()
    }

    /// Returns a mutable reference to the value of the entry for `index`. The
    /// set has to hold such an entry. What the caller writes through the
    /// reference becomes the value of the entry; nothing else changes.
    pub fn index_mut(&mut self, index: I) -> (r: &mut T)
        requires
            old(self).wf(),
            old(self).contains(index),
        ensures
            final(self).wf(),
            final(self).sparse() == old(self).sparse(),
            Some(*r) == old(self).value_of(index),
            final(self).dense() == old(self).dense().update(
                old(self).position_of(index).unwrap(),
                (old(self).dense()[old(self).position_of(index).unwrap()].0, *final(r)),
            ),
    {
        self.get_mut(&index).unwrap()
    }

    /// Takes the set apart and returns the entries in their order.
    pub fn into_iter(self) -> (r: Vec<(I, T)>)
        ensures
            r@ == self.dense(),
    {
        self.entries
    }

    /// Puts the entries in the order that `order` names and points the sparse
    /// array at their new places.
    fn rearrange(&mut self, order: &Vec<usize>)
        requires
            old(self).wf(),
            lists_range(order@, 0, old(self).dense().len() as int),
        ensures
            final(self).wf(),
            final(self).dense() == arranged(old(self).dense(), order@),
            final(self).sparse().len() == old(self).sparse().len(),
    {
        let ghost before = *self;
        let n = self.entries.len();
        let mut taken: Vec<(I, T)> = Vec::new();
        core::mem::swap(&mut self.entries, &mut taken);
        let mut slots: Vec<Option<(I, T)>> = Vec::new();
        while taken.len() > 0
            invariant
                taken@.len() + slots@.len() == n,
                n == before.dense().len(),
                taken@ == before.dense().take(taken@.len() as int),
                forall|j: int|
                    0 <= j < slots@.len() ==> #[trigger] slots@[j] == Some(before.dense()[n - 1 - j]),
            decreases taken@.len(),
        {
            let ghost held = taken@;
            let last = taken.pop();
            slots.push(last);
            proof {
                assert(taken@ =~= before.dense().take(taken@.len() as int));
            }
        }
        let mut k: usize = 0;
        while k < n
            invariant
                n == before.dense().len(),
                order@.len() == n,
                slots@.len() == n,
                lists_range(order@, 0, n as int),
                k <= n,
                self.sparse() == before.sparse(),
                self.dense() == arranged(before.dense(), order@).take(k as int),
                forall|j: int|
                    0 <= j < n ==> #[trigger] slots@[j] == (if exists|c: int|
                        0 <= c < k && named(order@, c) == n - 1 - j {
                        None
                    } else {
                        Some(before.dense()[n - 1 - j])
                    }),
            decreases n - k,
        {
            let ghost placed_before = self.dense();
            let ghost slots_before = slots@;
            let p = order[k];
            assert(0 <= named(order@, k as int) < n);
            proof {
                if exists|c: int| 0 <= c < k && named(order@, c) == n - 1 - (n - 1 - p) {
                    let c = choose|c: int| 0 <= c < k && named(order@, c) == n - 1 - (n - 1 - p);
                    assert(named(order@, c) != named(order@, k as int));
                }
            }
            let entry = slots[n - 1 - p].take().unwrap();
            self.entries.push(entry);
            proof {
                assert(self.dense() =~= arranged(before.dense(), order@).take(k + 1));
                assert forall|j: int| 0 <= j < n implies #[trigger] slots@[j] == (if exists|c: int|
                    0 <= c < k + 1 && named(order@, c) == n - 1 - j {
                    None
                } else {
                    Some(before.dense()[n - 1 - j])
                }) by {
                    if j == n - 1 - p {
                        assert(named(order@, k as int) == n - 1 - j);
                    } else {
                        assert(slots@[j] == slots_before[j]);
                        if exists|c: int| 0 <= c < k + 1 && named(order@, c) == n - 1 - j {
                            let c = choose|c: int| 0 <= c < k + 1 && named(order@, c) == n - 1 - j;
                            assert(c < k);
                        }
                    }
                }
            }
            k += 1;
        }
        let ghost sorted = self.dense();
        proof {
            assert(sorted =~= arranged(before.dense(), order@));
        }
        let mut k: usize = 0;
        while k < n
            invariant
                n == sorted.len(),
                n == before.dense().len(),
                before.wf(),
                lists_range(order@, 0, n as int),
                sorted == arranged(before.dense(), order@),
                self.dense() == sorted,
                self.sparse().len() == before.sparse().len(),
                k <= n,
                forall|c: int|
                    0 <= c < k ==> self.sparse()[(#[trigger] sorted[c]).0.spec_index() as int] == c,
                forall|raw: int|
                    0 <= raw < self.sparse().len() ==> #[trigger] self.sparse()[raw]
                        == before.sparse()[raw] || exists|c: int|
                        0 <= c < k && (#[trigger] sorted[c]).0.spec_index() == raw,
            decreases n - k,
        {
            let ghost cells = self.sparse();
            proof {
                let p = named(order@, k as int);
                assert(0 <= p < n);
                assert(sorted[k as int] == before.dense()[p]);
                assert(before.dense()[p].0.spec_index() < before.sparse().len());
                assert(self.sparse().len() == self.sparse.len());
            }
            let raw = self.entries[k].0.index().to_usize().unwrap();
            self.sparse[raw] = k;
            proof {
                assert forall|c: int| 0 <= c < k + 1 implies self.sparse()[(
                #[trigger] sorted[c]).0.spec_index() as int] == c by {
                    if c < k {
                        let pc = named(order@, c);
                        let pk = named(order@, k as int);
                        assert(pc != pk);
                        assert(0 <= pc < n && 0 <= pk < n);
                        assert(sorted[c] == before.dense()[pc]);
                        assert(sorted[k as int] == before.dense()[pk]);
                        assert(before.sparse()[before.dense()[pc].0.spec_index() as int] == pc);
                        assert(before.sparse()[before.dense()[pk].0.spec_index() as int] == pk);
                        assert(cells[sorted[c].0.spec_index() as int] == c);
                    }
                }
                assert forall|r: int| 0 <= r < self.sparse().len() implies #[trigger] self.sparse()[r]
                    == before.sparse()[r] || exists|c: int|
                    0 <= c < k + 1 && (#[trigger] sorted[c]).0.spec_index() == r by {
                    if r == raw {
                        assert(sorted[k as int].0.spec_index() == r);
                    } else {
                        assert(self.sparse()[r] == cells[r]);
                        if cells[r] != before.sparse()[r] {
                            let c = choose|c: int|
                                0 <= c < k && (#[trigger] sorted[c]).0.spec_index() == r;
                            assert(sorted[c].0.spec_index() == r);
                        }
                    }
                }
            }
            k += 1;
        }
        proof {
            assert(self.dense().len() == self.entries.len());
            assert forall|raw: int|
                0 <= raw < self.sparse().len()
                    && #[trigger] self.sparse()[raw] != UNUSED implies self.sparse()[raw]
                < self.dense().len() && self.dense()[self.sparse()[raw] as int].0.spec_index()
                == raw by {
                if exists|c: int| 0 <= c < n && (#[trigger] sorted[c]).0.spec_index() == raw {
                    let c = choose|c: int| 0 <= c < n
                        && (#[trigger] sorted[c]).0.spec_index() == raw;
                    assert(self.sparse()[sorted[c].0.spec_index() as int] == c);
                } else {
                    assert(self.sparse()[raw] == before.sparse()[raw]);
                    let p = before.sparse()[raw] as int;
                    assert(before.dense()[p].0.spec_index() == raw);
                    lemma_order_covers(order@, n as int, p);
                    let c = choose|c: int| 0 <= c < order@.len()
                        && #[trigger] named(order@, c) == p;
                    assert(sorted[c] == before.dense()[p]);
                    assert(sorted[c].0.spec_index() == raw);
                }
            }
            assert forall|pos: int| 0 <= pos < self.dense().len() implies (
            #[trigger] self.dense()[pos]).0.spec_index() < self.sparse().len()
                && self.sparse()[self.dense()[pos].0.spec_index() as int] == pos by {
                let p = named(order@, pos);
                assert(0 <= p < n);
                assert(sorted[pos] == before.dense()[p]);
                assert(before.dense()[p].0.spec_index() < before.sparse().len());
                assert(self.sparse()[sorted[pos].0.spec_index() as int] == pos);
            }
        }
    }

    /// Whether `self` is what `before` becomes when it is sorted with
    /// `compare`: the same entries in an order in which each may stand before
    /// the next, as far as `compare` has told.
    pub open spec fn is_sort_of<F: FnMut((&I, &T), (&I, &T)) -> Ordering>(
        &self,
        before: &Self,
        compare: F,
    ) -> bool {
        &&& self.sparse().len() == before.sparse().len()
        &&& exists|order: Seq<usize>|
            lists_range(order, 0, count(before.dense())) && chained(
                compare,
                before.dense(),
                order,
            ) && self.dense() == #[trigger] arranged(before.dense(), order)
    }

    /// Sorts the entries with a comparator function and points the sparse
    /// array at their new places. The sort is stable: entries that the
    /// comparator ranks alike keep their order.
    pub fn sort_by<F: FnMut((&I, &T), (&I, &T)) -> Ordering>(&mut self, compare: F)
        requires
            old(self).wf(),
            forall|x: (&I, &T), y: (&I, &T)| call_requires(compare, (x, y)),
        ensures
            final(self).wf(),
            final(self).is_sort_of(old(self), compare),
    {
        let mut compare = compare;
        let n = self.entries.len();
        let order = sort_range(&self.entries, &mut compare, 0, n);
        proof {
            assert(whole(0) == 0);
            assert(whole(n) == count(self.dense()));
        }
        self.rearrange(&order);
    }

    /// A sorted set is in the order of the comparator, and the sort is stable.
    ///
    /// Where the comparator answers by a total preorder, no entry of the
    /// sorted set comes after a later one, and of two entries that rank alike
    /// the one that stood first before the sort stands first after it.
    pub proof fn lemma_sort_is_stable<F: FnMut((&I, &T), (&I, &T)) -> Ordering>(
        before: Self,
        after: Self,
        compare: F,
        ord: spec_fn((I, T), (I, T)) -> Ordering,
        i: int,
        j: int,
    )
        requires
            before.wf(),
            after.is_sort_of(&before, compare),
            answers_by(compare, ord),
            total_preorder(ord),
            0 <= i < j < after.dense().len(),
        ensures
            ord(after.dense()[i], after.dense()[j]) != Ordering::Greater,
            ord(after.dense()[i], after.dense()[j]) == Ordering::Equal ==> before.position_of(
                after.dense()[i].0,
            ).unwrap() < before.position_of(after.dense()[j].0).unwrap(),
    {
        let order = choose|order: Seq<usize>|
            lists_range(order, 0, count(before.dense())) && chained(
                compare,
                before.dense(),
                order,
            ) && after.dense() == #[trigger] arranged(before.dense(), order);
        lemma_chained_is_sorted_and_stable(compare, before.dense(), order, ord, i, j);
        let p = named(order, i);
        let q = named(order, j);
        assert(0 <= p < before.dense().len());
        assert(0 <= q < before.dense().len());
        assert(after.dense()[i] == before.dense()[p]);
        assert(after.dense()[j] == before.dense()[q]);
        assert(before.dense()[p].0.spec_index() < before.sparse().len());
        assert(before.dense()[q].0.spec_index() < before.sparse().len());
        assert(before.position_of(before.dense()[p].0) == Some(p));
        assert(before.position_of(before.dense()[q].0) == Some(q));
    }

    /// The cell of a handle of the set is used and points at the entry that
    /// holds this handle. A handle of the same raw index in another
    /// generation finds the cell used too, and another handle in the entry.
    pub proof fn lemma_handle_is_found(&self, h: I)
        requires
            self.wf(),
            self.has_handle(h),
        ensures
            h.spec_index() < self.sparse().len(),
            self.sparse()[h.spec_index() as int] != UNUSED,
            self.dense()[self.sparse()[h.spec_index() as int] as int].0 == h,
    {
        let k = choose|k: int| 0 <= k < self.dense().len() && (#[trigger] self.dense()[k]).0 == h;
        assert(self.dense()[k].0.spec_index() < self.sparse().len());
    }

    /// A used cell of the sparse array points at the entry of its raw index,
    /// and the cell of every entry points at the entry.
    pub proof fn lemma_sparse_points_at_entries(&self, raw: int, pos: int)
        requires
            self.wf(),
        ensures
            0 <= raw < self.sparse().len() && self.sparse()[raw] != UNUSED ==> self.sparse()[raw]
                < self.dense().len() && self.dense()[self.sparse()[raw] as int].0.spec_index()
                == raw,
            0 <= pos < self.dense().len() ==> self.position_of(self.dense()[pos].0) == Some(pos)
                && self.contains(self.dense()[pos].0),
    {
        if 0 <= pos < self.dense().len() {
            assert(self.dense()[pos].0.spec_index() < self.sparse().len());
        }
    }

    /// Removing an entry that is not the last moves the last entry into its
    /// place.
    ///
    /// The set then has one entry less, the entry that was last stands where
    /// the removed one stood, and its cell of the sparse array points there.
    pub proof fn lemma_swap_remove(before: Self, after: Self, key: I, taken: Option<T>)
        requires
            before.wf(),
            before.contains(key),
            before.position_of(key).unwrap() < before.dense().len() - 1,
            after.is_remove_of(&before, key, taken),
        ensures
            after.dense().len() == before.dense().len() - 1,
            after.dense()[before.position_of(key).unwrap()] == before.dense().last(),
            after.sparse()[before.dense().last().0.spec_index() as int] == before.position_of(
                key,
            ).unwrap(),
            after.sparse()[key.spec_index() as int] == UNUSED,
            after.position_of(key) is None,
    {
        let pos = before.position_of(key).unwrap();
        let last = before.dense().len() - 1;
        assert(before.dense()[last].0.spec_index() < before.sparse().len());
        assert(before.sparse()[before.dense()[last].0.spec_index() as int] == last);
        assert(before.dense()[pos].0.spec_index() == key.spec_index());
    }
}

impl<T, I: GenIndex> SparseSet<T, I> {
    /// One step of a run of insertions: inserting `entries[j]` into
    /// `states[j]` gives `states[j + 1]`.
    pub open spec fn insert_step(states: Seq<Self>, entries: Seq<(I, T)>, j: int) -> bool {
        exists|previous: Option<T>| #[trigger]
            states[j + 1].is_insert_of(&states[j], entries[j].0, entries[j].1, previous)
    }

    /// Whether `self` is what `before` becomes when `entries` are inserted
    /// one after the other.
    pub open spec fn is_extend_of(&self, before: &Self, entries: Seq<(I, T)>) -> bool {
        exists|states: Seq<Self>|
            states.len() == entries.len() + 1 && states[0] == *before && states.last() == *self
                && (forall|j: int| 0 <= j < states.len() ==> (#[trigger] states[j]).wf())
                && forall|j: int|
                0 <= j < entries.len() ==> #[trigger] Self::insert_step(states, entries, j)
    }

    /// Inserts the entries one after the other, as `insert` does: an entry
    /// whose raw index the set already has replaces the value there.
    pub fn extend(&mut self, entries: Vec<(I, T)>)
        requires
            old(self).wf(),
            forall|j: int| 0 <= j < entries@.len() ==> (#[trigger] entries@[j]).0.spec_index()
                != usize::MAX,
        ensures
            final(self).wf(),
            final(self).is_extend_of(old(self), entries@),
    {
        let ghost before = *self;
        let mut stack = entries.rev();
        let n = stack.len();
        let mut i: usize = 0;
        let ghost mut states: Seq<Self> = seq![before];
        while i < n
            invariant
                n == entries@.len(),
                forall|j: int| 0 <= j < entries@.len() ==> (#[trigger] entries@[j]).0.spec_index()
                    != usize::MAX,
                i <= n,
                stack@.len() == n - i,
                forall|k: int| 0 <= k < stack@.len() ==> stack@[k] == entries@[n - 1 - k],
                self.wf(),
                states.len() == i + 1,
                states[0] == before,
                states.last() == *self,
                forall|j: int| 0 <= j < states.len() ==> (#[trigger] states[j]).wf(),
                forall|j: int| 0 <= j < i ==> #[trigger] Self::insert_step(states, entries@, j),
            decreases n - i,
        {
            let ghost at_start = *self;
            let entry = stack.pop().unwrap();
            assert(entry == entries@[i as int]);
            let previous = self.insert(entry.0, entry.1);
            proof {
                let more = states.push(*self);
                assert forall|j: int| 0 <= j < i + 1 implies #[trigger] Self::insert_step(
                    more,
                    entries@,
                    j,
                ) by {
                    if j < i {
                        assert(Self::insert_step(states, entries@, j));
                        assert(more[j + 1] == states[j + 1]);
                        assert(more[j] == states[j]);
                    } else {
                        assert(more[j] == at_start);
                        assert(more[j + 1] == *self);
                        assert(more[j + 1].is_insert_of(
                            &more[j],
                            entries@[j].0,
                            entries@[j].1,
                            previous,
                        ));
                    }
                }
                assert forall|j: int| 0 <= j < more.len() implies (#[trigger] more[j]).wf() by {
                    if j < states.len() {
                        assert(more[j] == states[j]);
                    }
                }
                states = more;
            }
            i += 1;
        }
    }

    /// Creates a set from the entries, inserted one after the other.
    pub fn from_iter(entries: Vec<(I, T)>) -> (r: Self)
        requires
            forall|j: int| 0 <= j < entries@.len() ==> (#[trigger] entries@[j]).0.spec_index()
                != usize::MAX,
        ensures
            r.wf(),
            exists|empty: Self|
                empty.wf() && empty.dense().len() == 0 && empty.sparse().len() == 0
                    && #[trigger] r.is_extend_of(&empty, entries@),
    {
        let mut set: Self = SparseSet::new();
        set.reserve(entries.len());
        let ghost empty = set;
        set.extend(entries);
        proof {
            assert(set.is_extend_of(&empty, entries@));
        }
        set
    }

    /// What is wrong with the entry at `pos` of a list of entries, if
    /// anything: its raw index does not fit the sparse array, or an earlier
    /// entry has the same raw index.
    pub open spec fn entry_error(entries: Seq<(I, T)>, pos: int) -> Option<EntriesError> {
        if entries[pos].0.spec_index() >= usize::MAX {
            Some(EntriesError::InvalidIndex)
        } else if exists|q: int|
            0 <= q < pos && (#[trigger] entries[q]).0.spec_index() == entries[pos].0.spec_index() {
            Some(EntriesError::DuplicateIndex)
        } else {
            None
        }
    }

    /// Builds a set from its dense array. The sparse array is made anew from
    /// the handles.
    ///
    /// The entries are rejected, at the first entry that is wrong, where a raw
    /// index does not fit the sparse array or occurs a second time.
    pub fn from_entries(entries: Vec<(I, T)>) -> (r: Result<Self, EntriesError>)
        ensures
            match r {
                Ok(set) => {
                    &&& set.wf()
                    &&& set.dense() == entries@
                    &&& forall|pos: int|
                        0 <= pos < entries@.len() ==> Self::entry_error(entries@, pos) is None
                },
                Err(e) => exists|pos: int|
                    0 <= pos < entries@.len() && #[trigger] Self::entry_error(entries@, pos)
                        == Some(e) && forall|q: int|
                        0 <= q < pos ==> Self::entry_error(entries@, q) is None,
            },
    {
        let mut set: Self = SparseSet::new();
        let mut stack = entries.rev();
        let n = stack.len();
        let mut i: usize = 0;
        while i < n
            invariant
                n == entries@.len(),
                i <= n,
                stack@.len() == n - i,
                forall|k: int| 0 <= k < stack@.len() ==> stack@[k] == entries@[n - 1 - k],
                set.wf(),
                set.dense() == entries@.take(i as int),
                forall|q: int| 0 <= q < i ==> Self::entry_error(entries@, q) is None,
            decreases n - i,
        {
            let ghost at_start = set;
            let entry = stack.pop().unwrap();
            assert(entry == entries@[i as int]);
            let raw = match set.get_sparse_dense_indices(&entry.0) {
                None => {
                    assert(Self::entry_error(entries@, i as int) == Some(
                        EntriesError::InvalidIndex,
                    ));
                    return Err(EntriesError::InvalidIndex);
                },
                Some((raw, cell)) => {
                    if raw == usize::MAX {
                        assert(Self::entry_error(entries@, i as int) == Some(
                            EntriesError::InvalidIndex,
                        ));
                        return Err(EntriesError::InvalidIndex);
                    }
                    match cell {
                        Some(position) => {
                            if position != UNUSED {
                                proof {
                                    let q = position as int;
                                    assert(at_start.dense()[q].0.spec_index() == raw);
                                    assert(entries@[q] == at_start.dense()[q]);
                                    assert(Self::entry_error(entries@, i as int) == Some(
                                        EntriesError::DuplicateIndex,
                                    ));
                                }
                                return Err(EntriesError::DuplicateIndex);
                            }
                        },
                        None => {},
                    }
                    raw
                },
            };
            proof {
                assert(at_start.position_of(entry.0) is None);
                if exists|q: int|
                    0 <= q < i && (#[trigger] entries@[q]).0.spec_index()
                        == entries@[i as int].0.spec_index() {
                    let q = choose|q: int|
                        0 <= q < i && (#[trigger] entries@[q]).0.spec_index()
                            == entries@[i as int].0.spec_index();
                    assert(at_start.dense()[q] == entries@[q]);
                    assert(at_start.dense()[q].0.spec_index() < at_start.sparse().len());
                    assert(at_start.sparse()[at_start.dense()[q].0.spec_index() as int] == q);
                }
                assert(Self::entry_error(entries@, i as int) is None);
            }
            let _ = set.insert(entry.0, entry.1);
            proof {
                assert(set.dense() =~= entries@.take(i + 1));
            }
            i += 1;
        }
        proof {
            assert(entries@.take(n as int) =~= entries@);
        }
        Ok(set)
    }
}

impl<T: Clone, I: GenIndex> Clone for SparseSet<T, I> {
    /// Returns a set with the same sparse array and the same entries, each
    /// value a clone of the value of `self`.
    fn clone(&self) -> (r: Self)
        ensures
            r.sparse() == self.sparse(),
            r.dense().len() == self.dense().len(),
            forall|k: int|
                0 <= k < self.dense().len() ==> (#[trigger] r.dense()[k]).0 == self.dense()[k].0
                    && cloned(self.dense()[k].1, r.dense()[k].1),
            self.wf() ==> r.wf(),
    {
        let mut sparse: Vec<usize> = Vec::new();
        let mut i: usize = 0;
        while i < self.sparse.len()
            invariant
                i <= self.sparse().len(),
                sparse@ == self.sparse().take(i as int),
            decreases self.sparse().len() - i,
        {
            sparse.push(self.sparse[i]);
            proof {
                assert(sparse@ =~= self.sparse().take(i + 1));
            }
            i += 1;
        }
        proof {
            assert(sparse@ =~= self.sparse());
        }
        let mut entries: Vec<(I, T)> = Vec::new();
        let mut k: usize = 0;
        while k < self.entries.len()
            invariant
                k <= self.dense().len(),
                entries@.len() == k,
                forall|j: int|
                    0 <= j < k ==> (#[trigger] entries@[j]).0 == self.dense()[j].0 && cloned(
                        self.dense()[j].1,
                        entries@[j].1,
                    ),
            decreases self.dense().len() - k,
        {
            let entry = &self.entries[k];
            entries.push((entry.0, entry.1.clone()));
            k += 1;
        }
        let r = SparseSet { sparse, entries };
        proof {
            if self.wf() {
                assert forall|raw: int|
                    0 <= raw < r.sparse().len()
                        && #[trigger] r.sparse()[raw] != UNUSED implies r.sparse()[raw]
                    < r.dense().len()
                        && r.dense()[r.sparse()[raw] as int].0.spec_index() == raw by {
                    assert(self.sparse()[raw] != UNUSED);
                    assert(r.dense()[self.sparse()[raw] as int].0 == self.dense()[self.sparse()[raw] as int].0);
                }
                assert forall|pos: int| 0 <= pos < r.dense().len() implies (
                #[trigger] r.dense()[pos]).0.spec_index() < r.sparse().len()
                    && r.sparse()[r.dense()[pos].0.spec_index() as int] == pos by {
                    assert(r.dense()[pos].0 == self.dense()[pos].0);
                    assert(self.dense()[pos].0.spec_index() < self.sparse().len());
                }
            }
        }
        r
    }
}

impl<T: PartialEq, I: GenIndex> SparseSet<T, I> {
    /// Whether the two sets have the same entries in the same order: handle
    /// by handle the same parts, and values that compare equal.
    pub open spec fn equals(&self, other: &Self) -> bool {
        &&& self.dense().len() == other.dense().len()
        &&& forall|k: int|
            0 <= k < self.dense().len() ==> same_parts(
                (#[trigger] self.dense()[k]).0,
                other.dense()[k].0,
            ) && self.dense()[k].1.eq_spec(&other.dense()[k].1)
    }
}

impl<T: PartialEq, I: GenIndex> PartialEq for SparseSet<T, I> {
    fn eq(&self, other: &Self) -> (r: bool) {
        if self.entries.len() != other.entries.len() {
            return false;
        }
        let mut k: usize = 0;
        while k < self.entries.len()
            invariant
                self.dense().len() == other.dense().len(),
                k <= self.dense().len(),
                forall|j: int|
                    0 <= j < k ==> same_parts((#[trigger] self.dense()[j]).0, other.dense()[j].0)
                        && (T::obeys_eq_spec() ==> self.dense()[j].1.eq_spec(&other.dense()[j].1)),
            decreases self.dense().len() - k,
        {
            let mine = &self.entries[k];
            let theirs = &other.entries[k];
            if !mine.0.same(&theirs.0) {
                return false;
            }
            if !(mine.1 == theirs.1) {
                return false;
            }
            k += 1;
        }
        true
    }
}

impl<T: PartialEq, I: GenIndex> PartialEqSpecImpl for SparseSet<T, I> {
    open spec fn obeys_eq_spec() -> bool {
        T::obeys_eq_spec()
    }

    open spec fn eq_spec(&self, other: &Self) -> bool {
        self.equals(other)
    }
}

impl<T, I: GenIndex> Default for SparseSet<T, I> {
    /// Creates an empty set.
    fn default() -> (r: Self)
        ensures
            r.wf(),
            r.dense() == Seq::<(I, T)>::empty(),
            r.sparse() == Seq::<usize>::empty(),
    {
        SparseSet::new()
    }
}

impl<T, I: GenIndex> Valid for SparseSet<T, I> {
    open spec fn valid(&self) -> bool {
        self.wf()
    }
}

impl<T, I: GenIndex> Len for SparseSet<T, I> {
    open spec fn spec_len(&self) -> nat {
        self.dense().len()
    }

    fn len(&self) -> (n: usize) {
        SparseSet::len(self)
    }
}

impl<T, I: GenIndex> Clear for SparseSet<T, I> {
    fn clear(&mut self)
        ensures
            final(self).wf(),
            final(self).dense() == Seq::<(I, T)>::empty(),
            final(self).sparse() == Seq::<usize>::empty(),
    {
        SparseSet::clear(self)
    }
}

impl<T, I: GenIndex> KeyedMap for SparseSet<T, I> {
    type Key = I;

    type Value = T;
}

impl<T, I: GenIndex> MapGet<I> for SparseSet<T, I> {
    open spec fn spec_get(&self, key: I) -> Option<T> {
        self.value_of(key)
    }

    fn get(&self, key: &I) -> (r: Option<&T>) {
        SparseSet::get(self, key)
    }
}

impl<T, I: GenIndex> MapMut<I> for SparseSet<T, I> {
    /// The sparse array, the order of the entries and their handles stay.
    open spec fn is_written(&self, before: &Self, key: I, value: Option<T>) -> bool {
        &&& self.sparse() == before.sparse()
        &&& self.dense() == (match value {
            Some(v) => before.dense().update(
                before.position_of(key).unwrap(),
                (before.dense()[before.position_of(key).unwrap()].0, v),
            ),
            None => before.dense(),
        })
    }

    open spec fn is_removed(&self, before: &Self, key: I) -> bool {
        self.is_remove_of(before, key, before.value_of(key))
    }

    fn get_mut(&mut self, key: &I) -> (r: Option<&mut T>)
        ensures
            final(self).sparse() == old(self).sparse(),
            r is None ==> final(self).dense() == old(self).dense(),
    {
        let r = SparseSet::get_mut(self, key);
        proof {
            if old(self).contains(*key) {
                let pos = old(self).position_of(*key).unwrap();
                assert(old(self).dense()[pos].0.spec_index() == key.spec_index());
            }
        }
        r
    }

    fn remove(&mut self, key: &I) -> (r: Option<T>) {
        SparseSet::remove(self, key)
    }
}

impl<T, I: GenIndex> MapInsert for SparseSet<T, I> {
    /// The value of the entry with the raw index of `key`, whatever its
    /// generation.
    open spec fn spec_value(&self, key: I) -> Option<T> {
        match self.position_of(key) {
            Some(pos) => Some(self.dense()[pos].1),
            None => None,
        }
    }

    open spec fn can_insert(&self, key: I) -> bool {
        key.spec_index() != usize::MAX
    }

    open spec fn is_inserted(&self, before: &Self, key: I, value: T) -> bool {
        self.is_insert_of(
            before,
            key,
            value,
            match before.position_of(key) {
                Some(pos) => Some(before.dense()[pos].1),
                None => None,
            },
        )
    }

    fn insert(&mut self, key: I, value: T) -> (r: Option<T>) {
        assert(self.sparse().len() == self.sparse.len());
        SparseSet::insert(self, key, value)
    }
}

impl<T, I: GenIndex> Retain<I, T> for SparseSet<T, I> {
    /// The value of the entry whose handle is `key`.
    open spec fn spec_held(&self, key: I) -> Option<T> {
        if self.has_handle(key) {
            self.value_of(key)
        } else {
            None
        }
    }

    open spec fn is_same_key(given: I, key: I) -> bool {
        given == key
    }

    /// The entries of the set are those of the kept handles.
    open spec fn is_kept_of(&self, before: &SparseSet<T, I>, kept: Map<I, T>) -> bool {
        &&& forall|h: I| #[trigger] kept.contains_key(h) ==> before.has_handle(h)
        &&& forall|j: int|
            0 <= j < self.dense().len() ==> kept.contains_key((#[trigger] self.dense()[j]).0)
        &&& forall|h: I| #[trigger] kept.contains_key(h) ==> self.value_of(h) == Some(kept[h])
        &&& forall|h: I|
            before.has_handle(h) && !kept.contains_key(h) ==> (#[trigger] self.position_of(h)) is None
    }

    fn retain<F: FnMut(&I, &mut T) -> bool>(&mut self, f: F)
        ensures
            forall|j: int|
                0 <= j < final(self).dense().len() ==> old(self).has_handle(
                    (#[trigger] final(self).dense()[j]).0,
                ),
            forall|h: I| #[trigger]
                old(self).has_handle(h) ==> exists|key: &I, v: &mut T, keep: bool|
                    *key == h && Some(*v) == old(self).value_of(h) && #[trigger] call_ensures(
                        f,
                        (key, v),
                        keep,
                    ) && (if keep {
                        final(self).value_of(h) == Some(*final(v))
                    } else {
                        final(self).position_of(h) is None
                    }),
            final(self).handles() == swept(old(self).handles(), 0, final(self).handles().to_set()),
    {
        SparseSet::retain(self, f);
        proof {
            let before = *old(self);
            let after = *self;
            let kept = Map::<I, T>::new(
                |h: I| before.has_handle(h) && after.position_of(h) is Some,
                |h: I| after.value_of(h).unwrap(),
            );
            assert forall|j: int| 0 <= j < after.dense().len() implies kept.contains_key(
                (#[trigger] after.dense()[j]).0,
            ) by {
                assert(after.position_of(after.dense()[j].0) is Some);
            }
            assert(self.is_kept_of(old(self), kept));
            assert forall|key: I| (#[trigger] old(self).spec_held(key)) is Some implies exists|
                k: &I,
                v: &mut T,
                keep: bool,
            |
                Self::is_same_key(*k, key) && Some(*v) == old(self).spec_held(key)
                    && #[trigger] call_ensures(f, (k, v), keep) && keep == kept.contains_key(key) && (keep
                    ==> kept[key] == *final(v)) by {
                assert(before.has_handle(key));
            }
        }
    }
}

impl<T: core::hash::Hash, I: GenIndex + core::hash::Hash> core::hash::Hash for SparseSet<T, I> {
    /// Feeds the dense array to the hasher.
    fn hash<H: core::hash::Hasher>(&self, state: &mut H) {
        crate::hashing::feed(&self.entries, state)
    }
}

} // verus!
