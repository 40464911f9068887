//! A map from `usize` keys to values, kept in a vector of optional values.

use vstd::prelude::*;
use vstd::std_specs::cmp::{PartialEqSpec, PartialEqSpecImpl};
use crate::collection::{keyed_of, Clear, Len, Retain, Rev, Valid};
use crate::map::{KeyedMap, MapGet, MapInsert, MapMut};

verus! {

/// An associative array that uses a vector of optional values to map `usize`
/// keys to elements: the value of key `i`, if there is one, is in cell `i`.
#[derive(Debug, Hash)]
pub struct VecMap<T> {
    items: Vec<Option<T>>,
    len: usize,
}

/// The number of cells of `cells` that hold a value.
pub open spec fn count_some<T>(cells: Seq<Option<T>>) -> nat
    decreases cells.len(),
{
    if cells.len() == 0 {
        0
    } else {
        count_some(cells.drop_last()) + (if cells.last() is Some {
            1nat
        } else {
            0nat
        })
    }
}

/// No more cells hold a value than there are cells.
pub proof fn lemma_count_some_bound<T>(cells: Seq<Option<T>>)
    ensures
        count_some(cells) <= cells.len(),
    decreases cells.len(),
{
    if cells.len() > 0 {
        lemma_count_some_bound(cells.drop_last());
    }
}

/// Putting `cell` in the place of cell `i` changes the count by what the two
/// cells differ in.
pub proof fn lemma_count_some_update<T>(cells: Seq<Option<T>>, i: int, cell: Option<T>)
    requires
        0 <= i < cells.len(),
    ensures
        count_some(cells.update(i, cell)) + (if cells[i] is Some {
            1nat
        } else {
            0nat
        }) == count_some(cells) + (if cell is Some {
            1nat
        } else {
            0nat
        }),
    decreases cells.len(),
{
    let changed = cells.update(i, cell);
    if i == cells.len() - 1 {
        assert(changed.drop_last() =~= cells.drop_last());
    } else {
        assert(changed.drop_last() =~= cells.drop_last().update(i, cell));
        lemma_count_some_update(cells.drop_last(), i, cell);
    }
}

/// Adding a cell adds one to the count if the cell holds a value.
pub proof fn lemma_count_some_push<T>(cells: Seq<Option<T>>, cell: Option<T>)
    ensures
        count_some(cells.push(cell)) == count_some(cells) + (if cell is Some {
            1nat
        } else {
            0nat
        }),
{
    assert(cells.push(cell).drop_last() =~= cells);
}

/// Two rows of cells that hold a value in the same places count the same.
pub proof fn lemma_count_some_same_shape<T>(a: Seq<Option<T>>, b: Seq<Option<T>>)
    requires
        a.len() == b.len(),
        forall|i: int| 0 <= i < a.len() ==> (#[trigger] b[i] is Some <==> a[i] is Some),
    ensures
        count_some(a) == count_some(b),
    decreases a.len(),
{
    if a.len() > 0 {
        assert(b.last() is Some <==> a.last() is Some);
        assert forall|i: int| 0 <= i < a.drop_last().len() implies (
        #[trigger] b.drop_last()[i] is Some <==> a.drop_last()[i] is Some) by {
            assert(b[i] is Some <==> a[i] is Some);
        }
        lemma_count_some_same_shape(a.drop_last(), b.drop_last());
    }
}

/// A cell that holds a value makes the count positive.
pub proof fn lemma_count_some_positive<T>(cells: Seq<Option<T>>, i: int)
    requires
        0 <= i < cells.len(),
        cells[i] is Some,
    ensures
        count_some(cells) > 0,
    decreases cells.len(),
{
    if i < cells.len() - 1 {
        lemma_count_some_positive(cells.drop_last(), i);
    }
}

/// The cells of `cells` followed by empty cells up to the key `i`.
pub open spec fn padded_to<T>(cells: Seq<Option<T>>, i: int) -> Seq<Option<T>> {
    if i < cells.len() {
        cells
    } else {
        Seq::new(
            (i + 1) as nat,
            |j: int|
                if j < cells.len() {
                    cells[j]
                } else {
                    None
                },
        )
    }
}

impl<T> VecMap<T> {
    /// The cells of the map: cell `i` holds the value of key `i`, if any.
    pub closed spec fn cells(&self) -> Seq<Option<T>> {
        self.items@
    }

    /// The invariant of the map: the length that it keeps is the number of
    /// cells that hold a value.
    pub closed spec fn wf(&self) -> bool {
        self.len == count_some(self.items@)
    }

    /// The value of key `i`, if the map holds one.
    pub open spec fn value_of(&self, i: usize) -> Option<T> {
        if i < self.cells().len() {
            self.cells()[i as int]
        } else {
            None
        }
    }

    /// Constructs a new, empty map.
    pub fn new() -> (r: Self)
        ensures
            r.wf(),
            r.cells() == Seq::<Option<T>>::empty(),
    {
        VecMap { items: Vec::new(), len: 0 }
    }

    /// Returns the number of cells that the map can hold without
    /// reallocating.
    pub fn capacity(&self) -> (c: usize)
        ensures
            c >= self.cells().len(),
    {
        crate::capacity::vec_capacity(&self.items)
    }

    /// Returns the number of values in the map.
    pub fn len(&self) -> (n: usize)
        requires
            self.wf(),
        ensures
            n == count_some(self.cells()),
    {
        self.len
    }

    /// Clears the map, removing all values.
    pub fn clear(&mut self)
        ensures
            final(self).wf(),
            final(self).cells() == Seq::<Option<T>>::empty(),
    {
        self.items.clear();
        self.len = 0;
    }

    /// Reserves capacity for at least `additional` more cells. The contents do
    /// not change.
    pub fn reserve(&mut self, additional: usize)
        ensures
            final(self).cells() == old(self).cells(),
            old(self).wf() ==> final(self).wf(),
    {
        self.items.reserve(additional);
    }

    /// Returns a reference to the value of key `i`, if the map holds one.
    pub fn get(&self, i: usize) -> (r: Option<&T>)
        ensures
            self.value_of(i) is Some ==> r == Some(&self.value_of(i).unwrap()),
            self.value_of(i) is None ==> r is None,
    {
        if i < self.items.len() {
            self.items[i].as_ref()
        } else {
            None
        }
    }

    /// Returns a mutable reference to the value of key `i`, if the map holds
    /// one. What the caller writes through it becomes the value of the key.
    pub fn get_mut(&mut self, i: usize) -> (r: Option<&mut T>)
        requires
            old(self).wf(),
        ensures
            final(self).wf(),
            old(self).value_of(i) is Some ==> r is Some && Some(*r.unwrap()) == old(self).value_of(
                i,
            ) && final(self).cells() == old(self).cells().update(
                i as int,
                Some(*final(r.unwrap())),
            ),
            old(self).value_of(i) is None ==> r is None && final(self).cells() == old(self).cells(),
    {
        if i < self.items.len() {
            let ghost before = *self;
            proof {
                assert forall|after: Self| before.only_cell_differs(&after, i as int) implies (
                #[trigger] after.wf()) && after.cells() == before.cells().update(
                    i as int,
                    after.cells()[i as int],
                ) by {
                    before.lemma_cell_replaced(after, i as int);
                }
            }
            self.items[i].as_mut()
        } else {
            None
        }
    }

    /// Whether `after` is `self` with another value in the cell `i`, which
    /// holds a value in both or in neither.
    spec fn only_cell_differs(&self, after: &Self, i: int) -> bool {
        &&& after.len == self.len
        &&& after.items@.len() == self.items@.len()
        &&& forall|j: int| 0 <= j < self.items@.len()
            && j != i ==> after.items@[j] == self.items@[j]
        &&& after.items@[i] is Some <==> self.items@[i] is Some
    }

    /// Replacing the value of a cell keeps the invariant.
    proof fn lemma_cell_replaced(&self, after: Self, i: int)
        requires
            self.wf(),
            0 <= i < self.items@.len(),
            self.only_cell_differs(&after, i),
        ensures
            after.wf(),
            after.cells() == self.cells().update(i, after.cells()[i]),
    {
        assert(after.items@ =~= self.items@.update(i, after.items@[i]));
        lemma_count_some_update(self.items@, i, after.items@[i]);
    }

    /// Inserts `value` for key `i`, adding empty cells up to `i` where the
    /// map does not reach that far. Returns the value that the key had before.
    pub fn insert(&mut self, i: usize, value: T) -> (r: Option<T>)
        requires
            old(self).wf(),
            i < usize::MAX,
        ensures
            final(self).wf(),
            r == old(self).value_of(i),
            final(self).cells() == padded_to(old(self).cells(), i as int).update(
                i as int,
                Some(value),
            ),
    {
        let ghost before = *self;
        while self.items.len() <= i
            invariant
                i < usize::MAX,
                self.len == before.len,
                self.len == count_some(self.items@),
                before.items@.len() <= self.items@.len(),
                self.items@.len() <= i + 1 || self.items@ == before.items@,
                forall|j: int|
                    0 <= j < self.items@.len() ==> #[trigger] self.items@[j] == (if j
                        < before.items@.len() {
                        before.items@[j]
                    } else {
                        None
                    }),
            decreases i + 1 - self.items@.len(),
        {
            proof {
                lemma_count_some_push(self.items@, None);
            }
            self.items.push(None);
        }
        proof {
            assert(self.items@ =~= padded_to(before.items@, i as int));
            lemma_count_some_update(self.items@, i as int, Some(value));
            lemma_count_some_bound(self.items@);
            assert(self.items@.len() == self.items.len());
        }
        let mut held = Some(value);
        core::mem::swap(&mut self.items[i], &mut held);
        proof {
            lemma_count_some_bound(self.items@);
            assert(self.items@.len() == self.items.len());
        }
        if held.is_none() {
            self.len = self.len + 1;
        }
        held
    }

    /// Removes the value of key `i` and returns it, if the map holds one.
    pub fn remove(&mut self, i: usize) -> (r: Option<T>)
        requires
            old(self).wf(),
        ensures
            final(self).wf(),
            r == old(self).value_of(i),
            final(self).cells() == (if i < old(self).cells().len() {
                old(self).cells().update(i as int, None)
            } else {
                old(self).cells()
            }),
    {
        if i < self.items.len() {
            proof {
                lemma_count_some_update(self.items@, i as int, None);
                if self.items@[i as int] is Some {
                    lemma_count_some_positive(self.items@, i as int);
                }
            }
            let taken = self.items[i].take();
            if taken.is_some() {
                self.len = self.len - 1;
            }
            taken
        } else {
            None
        }
    }

    /// Keeps the values for which `f` returns `true` and removes the others.
    ///
    /// `f` is called once for every value, in the order of the keys, with the
    /// key and a mutable reference to the value; what it leaves in a value
    /// that it keeps stays there.
    pub fn retain<F: FnMut(usize, &mut T) -> bool>(&mut self, f: F)
        requires
            old(self).wf(),
            forall|k: usize, v: &mut T| call_requires(f, (k, v)),
        ensures
            final(self).wf(),
            final(self).cells().len() == old(self).cells().len(),
            forall|i: int|
                0 <= i < old(self).cells().len()
                    && old(self).cells()[i] is None ==> final(self).cells()[i] is None,
            forall|i: int|
                0 <= i < old(self).cells().len() && old(self).cells()[i] is Some ==> exists|
                    v: &mut T,
                    keep: bool,
                |
                    *v == old(self).cells()[i].unwrap() && #[trigger] call_ensures(
                        f,
                        (i as usize, v),
                        keep,
                    ) && final(self).cells()[i] == (if keep {
                        Some(*final(v))
                    } else {
                        None
                    }),
    {
        let mut f = f;
        let ghost f0 = f;
        let ghost before = *self;
        let ghost mut done: Map<int, (T, bool)> = Map::empty();
        let mut i: usize = 0;
        while i < self.items.len()
            invariant
                f == f0,
                forall|k: usize, v: &mut T| call_requires(f, (k, v)),
                self.len == count_some(self.items@),
                self.items@.len() == before.items@.len(),
                i <= self.items@.len(),
                forall|j: int| i <= j < before.items@.len() ==> self.items@[j] == before.items@[j],
                forall|j: int|
                    0 <= j < i && before.items@[j] is None ==> self.items@[j] is None,
                forall|j: int| #[trigger]
                    done.contains_key(j) ==> 0 <= j < before.items@.len() && exists|v: &mut T|
                        *v == before.items@[j].unwrap() && *final(v) == done[j].0
                            && #[trigger] call_ensures(f0, (j as usize, v), done[j].1),
                forall|j: int|
                    0 <= j < i && before.items@[j] is Some ==> done.contains_key(j)
                        && #[trigger] self.items@[j] == (if done[j].1 {
                        Some(done[j].0)
                    } else {
                        None
                    }),
            decreases self.items@.len() - i,
        {
            let ghost at_start = self.items@;
            let ghost start_done = done;
            let ghost mut left: Option<T> = None;
            let ghost mut kept = true;
            let mut keep = true;
            match &mut self.items[i] {
                Some(v) => {
                    let ghost given = *v;
                    keep = f(i, v);
                    proof {
                        left = Some(*v);
                        kept = keep;
                        assert(exists|x: &mut T|
                            *x == given && *final(x) == left.unwrap() && call_ensures(
                                f0,
                                (i, x),
                                keep,
                            ));
                    }
                },
                None => {},
            }
            proof {
                if at_start[i as int] is Some {
                    assert(self.items@ =~= at_start.update(i as int, left));
                    lemma_count_some_update(at_start, i as int, left);
                } else {
                    assert(self.items@ =~= at_start);
                }
            }
            if !keep {
                proof {
                    lemma_count_some_update(self.items@, i as int, None);
                    lemma_count_some_positive(self.items@, i as int);
                }
                self.items[i] = None;
                self.len = self.len - 1;
            }
            proof {
                if at_start[i as int] is Some {
                    done = done.insert(i as int, (left.unwrap(), kept));
                }
                assert forall|j: int| #[trigger] done.contains_key(j) implies 0 <= j
                    < before.items@.len() && exists|v: &mut T|
                    *v == before.items@[j].unwrap() && *final(v) == done[j].0
                        && #[trigger] call_ensures(f0, (j as usize, v), done[j].1) by {
                    if at_start[i as int] is Some && j == i {
                        let x = choose|x: &mut T|
                            *x == before.items@[j].unwrap() && *final(x) == left.unwrap()
                                && call_ensures(f0, (i, x), kept);
                        assert(call_ensures(f0, (j as usize, x), done[j].1));
                    } else {
                        assert(start_done.contains_key(j));
                        assert(done[j] == start_done[j]);
                    }
                }
                assert forall|j: int| 0 <= j < i + 1
                    && before.items@[j] is Some implies done.contains_key(
                    j,
                ) && #[trigger] self.items@[j] == (if done[j].1 {
                    Some(done[j].0)
                } else {
                    None
                }) by {
                    if j < i {
                        assert(self.items@[j] == at_start[j]);
                        assert(start_done.contains_key(j));
                        assert(done[j] == start_done[j]);
                    }
                }
                assert forall|j: int| 0 <= j < i + 1
                    && before.items@[j] is None implies self.items@[j] is None by {
                    if j < i {
                        assert(self.items@[j] == at_start[j]);
                    }
                }
            }
            i += 1;
        }
        proof {
            assert forall|j: int| 0 <= j < before.items@.len()
                && before.items@[j] is Some implies exists|
                v: &mut T,
                keep: bool,
            |
                *v == before.items@[j].unwrap() && #[trigger] call_ensures(
                    f0,
                    (j as usize, v),
                    keep,
                ) && self.items@[j] == (if keep {
                    Some(*final(v))
                } else {
                    None
                }) by {
                assert(done.contains_key(j));
                let v = choose|v: &mut T|
                    *v == before.items@[j].unwrap() && *final(v) == done[j].0
                        && #[trigger] call_ensures(f0, (j as usize, v), done[j].1);
                assert(call_ensures(f0, (j as usize, v), done[j].1));
            }
        }
    }

    /// Returns the keys and the values of the map, in the order of the keys.
    pub fn iter(&self) -> (r: Vec<(usize, &T)>)
        ensures
            self.lists(keyed_of(r@), self.cells().len() as int),
    {
        let mut out: Vec<(usize, &T)> = Vec::new();
        let mut i: usize = 0;
        while i < self.items.len()
            invariant
                i <= self.cells().len(),
                self.lists(keyed_of(out@), i as int),
            decreases self.cells().len() - i,
        {
            let ghost listed = keyed_of(out@);
            match &self.items[i] {
                Some(v) => {
                    out.push((i, v));
                    proof {
                        assert(keyed_of(out@) =~= listed.push(
                            (i, *v),
                        ));
                        self.lemma_lists_some(listed, i as int);
                    }
                },
                None => {
                    proof {
                        self.lemma_lists_none(listed, i as int);
                    }
                },
            }
            i += 1;
        }
        out
    }

    /// Returns the keys of the map and a mutable reference to the value of
    /// each, in the order of the keys. What the caller writes through a
    /// reference becomes the value of that key; nothing else changes.
    #[verifier::loop_isolation(false)]
    pub fn iter_mut(&mut self) -> (r: Vec<(usize, &mut T)>)
        requires
            old(self).wf(),
        ensures
            old(self).lists(
                Seq::new(r@.len(), |j: int| (r@[j].0, *r@[j].1)),
                old(self).cells().len() as int,
            ),
            final(self).wf(),
            final(self).cells().len() == old(self).cells().len(),
            forall|j: int|
                0 <= j < r@.len() ==> final(self).cells()[(#[trigger] r@[j]).0 as int] == Some(
                    *final(r@[j].1),
                ),
            forall|i: int|
                0 <= i < old(self).cells().len() && old(self).cells()[i] is None
                    ==> #[trigger] final(self).cells()[i] is None,
    {
        let ghost before = *self;
        proof {
            assert forall|after: Self|
                after.len == before.len && after.items@.len() == before.items@.len() && (forall|
                    i: int,
                |
                    0 <= i < before.items@.len() ==> (#[trigger] after.items@[i] is Some
                        <==> before.items@[i] is Some)) implies #[trigger] after.wf() by {
                lemma_count_some_same_shape(before.items@, after.items@);
            }
        }
        let mut refs = crate::each_mut::each_mut(&mut self.items);
        let ghost all = refs@;
        let n = refs.len();
        let mut reversed: Vec<(usize, &mut T)> = Vec::new();
        while refs.len() > 0
            invariant
                n == all.len(),
                refs@.len() <= n,
                refs@ == all.take(refs@.len() as int),
                forall|j: int|
                    0 <= j < reversed@.len() ==> refs@.len() <= (#[trigger] reversed@[j]).0 < n
                        && *all[reversed@[j].0 as int] == Some(*reversed@[j].1)
                            && *final(all[reversed@[j].0 as int]) == Some(*final(reversed@[j].1)),
                forall|a: int, b: int|
                    0 <= a < b < reversed@.len() ==> (#[trigger] reversed@[a]).0 > (
                    #[trigger] reversed@[b]).0,
                forall|i: int|
                    refs@.len() <= i < n && *(#[trigger] all[i]) is Some ==> exists|j: int|
                        0 <= j < reversed@.len() && (#[trigger] reversed@[j]).0 == i,
                forall|i: int|
                    refs@.len() <= i < n && *(#[trigger] all[i]) is None ==> *final(all[i]) is None,
            decreases refs@.len(),
        {
            let ghost done = reversed@;
            let key = refs.len() - 1;
            let cell = refs.pop().unwrap();
            proof {
                assert(refs@ =~= all.take(refs@.len() as int));
                assert(cell == all[key as int]);
            }
            match cell.as_mut() {
                Some(value) => {
                    reversed.push((key, value));
                    proof {
                        assert forall|j: int| 0 <= j < reversed@.len() implies refs@.len() <= (
                        #[trigger] reversed@[j]).0 < n && *all[reversed@[j].0 as int] == Some(
                            *reversed@[j].1,
                        ) && *final(all[reversed@[j].0 as int]) == Some(*final(reversed@[j].1)) by {
                            if j < done.len() {
                                assert(reversed@[j] == done[j]);
                            }
                        }
                        assert forall|a: int, b: int| 0 <= a < b < reversed@.len() implies (
                        #[trigger] reversed@[a]).0 > (#[trigger] reversed@[b]).0 by {
                            assert(reversed@[a] == done[a]);
                            if b < done.len() {
                                assert(reversed@[b] == done[b]);
                            }
                        }
                        assert forall|i: int|
                            refs@.len() <= i < n
                                && *(#[trigger] all[i]) is Some implies exists|j: int|
                            0 <= j < reversed@.len() && (#[trigger] reversed@[j]).0 == i by {
                            if i == key {
                                assert(reversed@[done.len() as int].0 == i);
                            } else {
                                let j = choose|j: int|
                                    0 <= j < done.len() && (#[trigger] done[j]).0 == i;
                                assert(reversed@[j] == done[j]);
                            }
                        }
                    }
                },
                None => {},
            }
        }
        let out = reversed.rev();
        proof {
            let m = out@.len() as int;
            let shown = Seq::new(out@.len(), |j: int| (out@[j].0, *out@[j].1));
            assert forall|j: int| 0 <= j < m implies out@[j] == reversed@[m - 1 - j] by {}
            assert forall|i: int| 0 <= i < n implies *(#[trigger] all[i]) == before.items@[i] by {}
            assert forall|j: int| 0 <= j < shown.len() implies (#[trigger] shown[j]).0
                < before.cells().len() && shown[j].0 < before.cells().len()
                && before.cells()[shown[j].0 as int] == Some(shown[j].1) by {
                assert(out@[j] == reversed@[m - 1 - j]);
            }
            assert forall|a: int, b: int| 0 <= a < b < shown.len() implies (#[trigger] shown[a]).0 < (
            #[trigger] shown[b]).0 by {
                assert(out@[a] == reversed@[m - 1 - a]);
                assert(out@[b] == reversed@[m - 1 - b]);
            }
            assert forall|i: int|
                0 <= i < before.cells().len()
                    && #[trigger] before.cells()[i] is Some implies exists|
                j: int,
            | 0 <= j < shown.len() && (#[trigger] shown[j]).0 == i by {
                assert(*all[i] is Some);
                let j = choose|j: int| 0 <= j < reversed@.len() && (#[trigger] reversed@[j]).0 == i;
                assert(out@[m - 1 - j] == reversed@[j]);
                assert(shown[m - 1 - j].0 == i);
            }
            assert forall|j: int| 0 <= j < m implies *final(all[(#[trigger] out@[j]).0 as int])
                == Some(*final(out@[j].1)) by {
                assert(out@[j] == reversed@[m - 1 - j]);
            }
            assert forall|i: int| 0 <= i < n implies (*final(#[trigger] all[i]) is Some <==> before.items@[i] is Some) by {
                if *all[i] is Some {
                    let j = choose|j: int|
                        0 <= j < reversed@.len() && (#[trigger] reversed@[j]).0 == i;
                }
            }
        }
        out
    }

    /// Returns the value of key `index`. The map has to hold one.
    pub fn index(&self, index: usize) -> (r: &T)
        requires
            self.value_of(index) is Some,
        ensures
            Some(*r) == self.value_of(index),
    {
        self.get(index).unwrap()
    }

    /// Returns a mutable reference to the value of key `index`. The map has
    /// to hold one. What the caller writes through the reference becomes the
    /// value of the key; nothing else changes.
    pub fn index_mut(&mut self, index: usize) -> (r: &mut T)
        requires
            old(self).wf(),
            old(self).value_of(index) is Some,
        ensures
            final(self).wf(),
            Some(*r) == old(self).value_of(index),
            final(self).cells() == old(self).cells().update(index as int, Some(*final(r))),
    {
        self.get_mut(index).unwrap()
    }

    /// Takes the map apart and returns its keys and values, in the order of
    /// the keys.
    pub fn into_iter(self) -> (r: Vec<(usize, T)>)
        ensures
            self.lists(r@, self.cells().len() as int),
    {
        let mut items = self.items;
        let mut out: Vec<(usize, T)> = Vec::new();
        let mut i: usize = 0;
        while i < items.len()
            invariant
                items@.len() == self.cells().len(),
                i <= items@.len(),
                forall|j: int| i <= j < items@.len() ==> items@[j] == self.cells()[j],
                self.lists(out@, i as int),
            decreases items@.len() - i,
        {
            let ghost listed = out@;
            match items[i].take() {
                Some(v) => {
                    out.push((i, v));
                    proof {
                        self.lemma_lists_some(listed, i as int);
                    }
                },
                None => {
                    proof {
                        self.lemma_lists_none(listed, i as int);
                    }
                },
            }
            i += 1;
        }
        out
    }

    /// Whether `entries` lists the values of the keys below `bound`, each
    /// with its key, in the order of the keys.
    pub open spec fn lists(&self, entries: Seq<(usize, T)>, bound: int) -> bool {
        &&& forall|j: int|
            0 <= j < entries.len() ==> (#[trigger] entries[j]).0 < bound && entries[j].0
                < self.cells().len() && self.cells()[entries[j].0 as int] == Some(entries[j].1)
        &&& forall|a: int, b: int|
            0 <= a < b < entries.len() ==> (#[trigger] entries[a]).0 < (#[trigger] entries[b]).0
        &&& forall|i: int|
            0 <= i < bound && i < self.cells().len() && #[trigger] self.cells()[i] is Some
                ==> exists|j: int| 0 <= j < entries.len() && (#[trigger] entries[j]).0 == i
    }

    /// A list of the values below an empty cell is also one of those up to it.
    proof fn lemma_lists_none(&self, entries: Seq<(usize, T)>, i: int)
        requires
            self.lists(entries, i),
            0 <= i < self.cells().len(),
            self.cells()[i] is None,
        ensures
            self.lists(entries, i + 1),
    {
        assert forall|k: int|
            0 <= k < i + 1 && k < self.cells().len()
                && #[trigger] self.cells()[k] is Some implies exists|
            j: int,
        | 0 <= j < entries.len() && (#[trigger] entries[j]).0 == k by {
            assert(k < i);
        }
    }

    /// A list of the values below a cell with a value, with that value added,
    /// is one of those up to it.
    proof fn lemma_lists_some(&self, entries: Seq<(usize, T)>, i: int)
        requires
            self.lists(entries, i),
            0 <= i < self.cells().len(),
            self.cells()[i] is Some,
            i <= usize::MAX,
        ensures
            self.lists(entries.push((i as usize, self.cells()[i].unwrap())), i + 1),
    {
        let entry = (i as usize, self.cells()[i].unwrap());
        let longer = entries.push(entry);
        assert forall|j: int| 0 <= j < longer.len() implies (#[trigger] longer[j]).0 < i + 1
            && longer[j].0 < self.cells().len() && self.cells()[longer[j].0 as int] == Some(
            longer[j].1,
        ) by {
            if j < entries.len() {
                assert(longer[j] == entries[j]);
            }
        }
        assert forall|a: int, b: int| 0 <= a < b < longer.len() implies (#[trigger] longer[a]).0 < (
        #[trigger] longer[b]).0 by {
            assert(longer[a] == entries[a]);
            if b < entries.len() {
                assert(longer[b] == entries[b]);
            }
        }
        assert forall|k: int|
            0 <= k < i + 1 && k < self.cells().len()
                && #[trigger] self.cells()[k] is Some implies exists|
            j: int,
        | 0 <= j < longer.len() && (#[trigger] longer[j]).0 == k by {
            if k < i {
                let j = choose|j: int| 0 <= j < entries.len() && (#[trigger] entries[j]).0 == k;
                assert(longer[j] == entries[j]);
            } else {
                assert(longer[entries.len() as int] == entry);
            }
        }
    }
}

impl<T> VecMap<T> {
    /// Builds a map from its cells.
    pub fn from_cells(cells: Vec<Option<T>>) -> (r: Self)
        ensures
            r.wf(),
            r.cells() == cells@,
    {
        let mut len: usize = 0;
        let mut i: usize = 0;
        while i < cells.len()
            invariant
                i <= cells@.len(),
                len == count_some(cells@.take(i as int)),
                len <= i,
            decreases cells@.len() - i,
        {
            proof {
                assert(cells@.take(i + 1) =~= cells@.take(i as int).push(cells@[i as int]));
                lemma_count_some_push(cells@.take(i as int), cells@[i as int]);
            }
            if cells[i].is_some() {
                len = len + 1;
            }
            i += 1;
        }
        proof {
            assert(cells@.take(i as int) =~= cells@);
        }
        VecMap { items: cells, len }
    }

    /// Returns the cells of the map: cell `i` holds the value of key `i`.
    pub fn as_cells(&self) -> (r: &Vec<Option<T>>)
        ensures
            r@ == self.cells(),
    {
        &self.items
    }

    /// One step of a run of insertions: inserting `entries[j]` into
    /// `states[j]` gives `states[j + 1]`.
    pub open spec fn insert_step(states: Seq<Self>, entries: Seq<(usize, T)>, j: int) -> bool {
        states[j + 1].cells() == padded_to(states[j].cells(), entries[j].0 as int).update(
            entries[j].0 as int,
            Some(entries[j].1),
        )
    }

    /// Whether `self` is what `before` becomes when `entries` are inserted
    /// one after the other.
    pub open spec fn is_extend_of(&self, before: &Self, entries: Seq<(usize, T)>) -> bool {
        exists|states: Seq<Self>|
            states.len() == entries.len() + 1 && states[0] == *before && states.last() == *self
                && forall|j: int|
                0 <= j < entries.len() ==> #[trigger] Self::insert_step(states, entries, j)
    }

    /// Inserts the entries one after the other, as `insert` does.
    pub fn extend(&mut self, entries: Vec<(usize, T)>)
        requires
            old(self).wf(),
            forall|j: int| 0 <= j < entries@.len() ==> (#[trigger] entries@[j]).0 < usize::MAX,
        ensures
            final(self).wf(),
            final(self).is_extend_of(old(self), entries@),
    {
        let ghost before = *self;
        let mut stack = entries.rev();
        let n = stack.len();
        let mut i: usize = 0;
        let ghost mut states: Seq<Self> = seq![before];
        while i < n
            invariant
                n == entries@.len(),
                forall|j: int| 0 <= j < entries@.len() ==> (#[trigger] entries@[j]).0 < usize::MAX,
                i <= n,
                stack@.len() == n - i,
                forall|k: int| 0 <= k < stack@.len() ==> stack@[k] == entries@[n - 1 - k],
                self.wf(),
                states.len() == i + 1,
                states[0] == before,
                states.last() == *self,
                forall|j: int| 0 <= j < i ==> #[trigger] Self::insert_step(states, entries@, j),
            decreases n - i,
        {
            let ghost at_start = *self;
            let entry = stack.pop().unwrap();
            assert(entry == entries@[i as int]);
            let _ = self.insert(entry.0, entry.1);
            proof {
                let more = states.push(*self);
                assert forall|j: int| 0 <= j < i + 1 implies #[trigger] Self::insert_step(
                    more,
                    entries@,
                    j,
                ) by {
                    if j < i {
                        assert(Self::insert_step(states, entries@, j));
                        assert(more[j + 1] == states[j + 1]);
                        assert(more[j] == states[j]);
                    } else {
                        assert(more[j] == at_start);
                        assert(more[j + 1] == *self);
                    }
                }
                states = more;
            }
            i += 1;
        }
    }

    /// Creates a map from the entries, inserted one after the other.
    pub fn from_iter(entries: Vec<(usize, T)>) -> (r: Self)
        requires
            forall|j: int| 0 <= j < entries@.len() ==> (#[trigger] entries@[j]).0 < usize::MAX,
        ensures
            r.wf(),
            exists|empty: Self| empty.cells().len() == 0 && #[trigger] r.is_extend_of(
                &empty,
                entries@,
            ),
    {
        let mut map: Self = VecMap::new();
        map.reserve(entries.len());
        let ghost empty = map;
        map.extend(entries);
        proof {
            assert(map.is_extend_of(&empty, entries@));
        }
        map
    }
}

impl<T: Clone> Clone for VecMap<T> {
    /// Returns a map with a clone of every value in the cell of the same key.
    fn clone(&self) -> (r: Self)
        ensures
            r.cells().len() == self.cells().len(),
            forall|i: int|
                0 <= i < self.cells().len() ==> match (self.cells()[i], #[trigger] r.cells()[i]) {
                    (Some(mine), Some(copy)) => cloned(mine, copy),
                    (None, None) => true,
                    _ => false,
                },
            r.wf(),
    {
        let mut items: Vec<Option<T>> = Vec::new();
        let mut i: usize = 0;
        while i < self.items.len()
            invariant
                i <= self.items@.len(),
                items@.len() == i,
                forall|k: int|
                    0 <= k < i ==> match (self.items@[k], #[trigger] items@[k]) {
                        (Some(mine), Some(copy)) => cloned(mine, copy),
                        (None, None) => true,
                        _ => false,
                    },
            decreases self.items@.len() - i,
        {
            items.push(self.items[i].as_ref().cloned());
            i += 1;
        }
        VecMap::from_cells(items)
    }
}

impl<T: PartialEq> VecMap<T> {
    /// Whether the two maps have the same cells: in every cell either no
    /// value in both or values that compare equal.
    pub open spec fn equals(&self, other: &Self) -> bool {
        &&& self.cells().len() == other.cells().len()
        &&& forall|i: int|
            0 <= i < self.cells().len() ==> match (#[trigger] self.cells()[i], other.cells()[i]) {
                (Some(a), Some(b)) => a.eq_spec(&b),
                (None, None) => true,
                _ => false,
            }
    }
}

impl<T: PartialEq> PartialEq for VecMap<T> {
    fn eq(&self, other: &Self) -> (r: bool) {
        if self.items.len() != other.items.len() {
            return false;
        }
        let mut i: usize = 0;
        while i < self.items.len()
            invariant
                self.cells().len() == other.cells().len(),
                i <= self.cells().len(),
                forall|k: int|
                    0 <= k < i ==> match (#[trigger] self.cells()[k], other.cells()[k]) {
                        (Some(a), Some(b)) => T::obeys_eq_spec() ==> a.eq_spec(&b),
                        (None, None) => true,
                        _ => false,
                    },
            decreases self.cells().len() - i,
        {
            let same = match (&self.items[i], &other.items[i]) {
                (Some(a), Some(b)) => *a == *b,
                (None, None) => true,
                _ => false,
            };
            if !same {
                return false;
            }
            i += 1;
        }
        true
    }
}

impl<T: PartialEq> PartialEqSpecImpl for VecMap<T> {
    open spec fn obeys_eq_spec() -> bool {
        T::obeys_eq_spec()
    }

    open spec fn eq_spec(&self, other: &Self) -> bool {
        self.equals(other)
    }
}

impl<T> Default for VecMap<T> {
    /// Constructs a new, empty map.
    fn default() -> (r: Self)
        ensures
            r.wf(),
            r.cells() == Seq::<Option<T>>::empty(),
    {
        VecMap::new()
    }
}

impl<T> Valid for VecMap<T> {
    open spec fn valid(&self) -> bool {
        self.wf()
    }
}

impl<T> Len for VecMap<T> {
    open spec fn spec_len(&self) -> nat {
        count_some(self.cells())
    }

    fn len(&self) -> (n: usize) {
        VecMap::len(self)
    }
}

impl<T> Clear for VecMap<T> {
    fn clear(&mut self)
        ensures
            final(self).wf(),
            final(self).cells() == Seq::<Option<T>>::empty(),
    {
        VecMap::clear(self)
    }
}

impl<T> KeyedMap for VecMap<T> {
    type Key = usize;

    type Value = T;
}

impl<T> MapGet<usize> for VecMap<T> {
    open spec fn spec_get(&self, key: usize) -> Option<T> {
        self.value_of(key)
    }

    fn get(&self, key: &usize) -> (r: Option<&T>) {
        VecMap::get(self, *key)
    }
}

impl<T> MapMut<usize> for VecMap<T> {
    open spec fn is_written(&self, before: &Self, key: usize, value: Option<T>) -> bool {
        self.cells() == (match value {
            Some(v) => before.cells().update(key as int, Some(v)),
            None => before.cells(),
        })
    }

    open spec fn is_removed(&self, before: &Self, key: usize) -> bool {
        self.cells() == (if key < before.cells().len() {
            before.cells().update(key as int, None)
        } else {
            before.cells()
        })
    }

    fn get_mut(&mut self, key: &usize) -> (r: Option<&mut T>) {
        VecMap::get_mut(self, *key)
    }

    fn remove(&mut self, key: &usize) -> (r: Option<T>) {
        VecMap::remove(self, *key)
    }
}

impl<T> MapInsert for VecMap<T> {
    open spec fn spec_value(&self, key: usize) -> Option<T> {
        self.value_of(key)
    }

    open spec fn can_insert(&self, key: usize) -> bool {
        key < usize::MAX
    }

    open spec fn is_inserted(&self, before: &Self, key: usize, value: T) -> bool {
        self.cells() == padded_to(before.cells(), key as int).update(key as int, Some(value))
    }

    fn insert(&mut self, key: usize, value: T) -> (r: Option<T>) {
        VecMap::insert(self, key, value)
    }
}

impl<T> Retain<usize, T> for VecMap<T> {
    open spec fn spec_held(&self, key: usize) -> Option<T> {
        self.value_of(key)
    }

    open spec fn is_same_key(given: usize, key: usize) -> bool {
        given == key
    }

    /// The cells stay where they are; one whose key is not kept is empty.
    open spec fn is_kept_of(&self, before: &VecMap<T>, kept: Map<usize, T>) -> bool {
        &&& self.cells().len() == before.cells().len()
        &&& forall|key: usize| #[trigger]
            kept.contains_key(key) ==> before.value_of(key) is Some
        &&& forall|i: int|
            0 <= i < self.cells().len() ==> #[trigger] self.cells()[i] == (if kept.contains_key(
                i as usize,
            ) {
                Some(kept[i as usize])
            } else {
                None
            })
    }

    /// Keeps the values for which `f` returns `true` and removes the others,
    /// as the method of the same name does; here `f` takes the key by
    /// reference.
    fn retain<F: FnMut(&usize, &mut T) -> bool>(&mut self, f: F) {
        let mut f = f;
        let ghost f0 = f;
        let ghost before = *self;
        let ghost mut done: Map<int, (T, bool)> = Map::empty();
        let mut i: usize = 0;
        while i < self.items.len()
            invariant
                f == f0,
                forall|k: &usize, v: &mut T| call_requires(f, (k, v)),
                self.len == count_some(self.items@),
                self.len <= before.len,
                self.items@.len() == before.items@.len(),
                i <= self.items@.len(),
                forall|j: int| i <= j < before.items@.len() ==> self.items@[j] == before.items@[j],
                forall|j: int|
                    0 <= j < i && before.items@[j] is None ==> self.items@[j] is None,
                forall|j: int| #[trigger]
                    done.contains_key(j) ==> 0 <= j < before.items@.len() && exists|
                        key: &usize,
                        v: &mut T,
                    |
                        *key == j && *v == before.items@[j].unwrap() && *final(v) == done[j].0
                            && #[trigger] call_ensures(f0, (key, v), done[j].1),
                forall|j: int|
                    0 <= j < i && before.items@[j] is Some ==> done.contains_key(j)
                        && #[trigger] self.items@[j] == (if done[j].1 {
                        Some(done[j].0)
                    } else {
                        None
                    }),
            decreases self.items@.len() - i,
        {
            let ghost at_start = self.items@;
            let ghost start_done = done;
            let ghost mut left: Option<T> = None;
            let ghost mut kept = true;
            let key = i;
            let mut keep = true;
            match &mut self.items[i] {
                Some(v) => {
                    let ghost given = *v;
                    keep = f(&key, v);
                    proof {
                        left = Some(*v);
                        kept = keep;
                        assert(exists|k: &usize, x: &mut T|
                            *k == i && *x == given && *final(x) == left.unwrap()
                                && #[trigger] call_ensures(f0, (k, x), keep));
                    }
                },
                None => {},
            }
            proof {
                if at_start[i as int] is Some {
                    assert(self.items@ =~= at_start.update(i as int, left));
                    lemma_count_some_update(at_start, i as int, left);
                } else {
                    assert(self.items@ =~= at_start);
                }
            }
            if !keep {
                proof {
                    lemma_count_some_update(self.items@, i as int, None);
                    lemma_count_some_positive(self.items@, i as int);
                }
                self.items[i] = None;
                self.len = self.len - 1;
            }
            proof {
                if at_start[i as int] is Some {
                    done = done.insert(i as int, (left.unwrap(), kept));
                }
                assert forall|j: int| #[trigger] done.contains_key(j) implies 0 <= j
                    < before.items@.len() && exists|key: &usize, v: &mut T|
                    *key == j && *v == before.items@[j].unwrap() && *final(v) == done[j].0
                        && #[trigger] call_ensures(f0, (key, v), done[j].1) by {
                    if at_start[i as int] is Some && j == i {
                        let (k, x) = choose|k: &usize, x: &mut T|
                            *k == i && *x == before.items@[j].unwrap() && *final(x) == left.unwrap()
                                && #[trigger] call_ensures(f0, (k, x), kept);
                        assert(call_ensures(f0, (k, x), done[j].1));
                    } else {
                        assert(start_done.contains_key(j));
                        assert(done[j] == start_done[j]);
                    }
                }
                assert forall|j: int| 0 <= j < i + 1
                    && before.items@[j] is Some implies done.contains_key(
                    j,
                ) && #[trigger] self.items@[j] == (if done[j].1 {
                    Some(done[j].0)
                } else {
                    None
                }) by {
                    if j < i {
                        assert(self.items@[j] == at_start[j]);
                        assert(start_done.contains_key(j));
                        assert(done[j] == start_done[j]);
                    }
                }
                assert forall|j: int| 0 <= j < i + 1
                    && before.items@[j] is None implies self.items@[j] is None by {
                    if j < i {
                        assert(self.items@[j] == at_start[j]);
                    }
                }
            }
            i += 1;
        }
        proof {
            let kept = Map::<usize, T>::new(
                |k: usize| k < before.items@.len() && before.items@[k as int] is Some && done[k as int].1,
                |k: usize| done[k as int].0,
            );
            assert(self.is_kept_of(old(self), kept));
            assert forall|key: usize| (#[trigger] old(self).spec_held(key)) is Some implies exists|
                k: &usize,
                v: &mut T,
                keep: bool,
            |
                Self::is_same_key(*k, key) && Some(*v) == old(self).spec_held(key)
                    && #[trigger] call_ensures(f, (k, v), keep) && keep == kept.contains_key(key) && (keep
                    ==> kept[key] == *final(v)) by {
                assert(done.contains_key(key as int));
                let (k, v) = choose|k: &usize, v: &mut T|
                    *k == key as int && *v == before.items@[key as int].unwrap() && *final(v)
                        == done[key as int].0 && #[trigger] call_ensures(f0, (k, v), done[key as int].1);
                assert(call_ensures(f, (k, v), done[key as int].1));
            }
        }
    }
}

} // verus!
