//! The collection traits for `Vec`.

use vstd::prelude::*;
use crate::collection::{
    kept_in_order, lemma_kept_in_order_insert, lemma_kept_in_order_len, Clear, Len, Merge, Retain, Rev,
    Valid,
};
use crate::deque::{Dequeue, Pop, Push};
use crate::map::{KeyedMap, MapGet, MapInsert, MapMut, MapRemove};

verus! {

impl<T> Valid for Vec<T> {
    open spec fn valid(&self) -> bool {
        true
    }
}

impl<T> Len for Vec<T> {
    open spec fn spec_len(&self) -> nat {
        self@.len()
    }

    fn len(&self) -> (n: usize) {
        Vec::len(self)
    }

    fn is_empty(&self) -> (b: bool) {
        Vec::len(self) == 0
    }
}

impl<T> Clear for Vec<T> {
    fn clear(&mut self) {
        Vec::clear(self)
    }
}

impl<T> Push for Vec<T> {
    type Index = usize;

    type Value = T;

    open spec fn can_push(&self) -> bool {
        true
    }

    open spec fn is_pushed(&self, before: &Vec<T>, value: T, index: usize) -> bool {
        self@ == before@.push(value) && index == before@.len()
    }

    /// Appends `value` and returns its position.
    fn push(&mut self, value: T) -> (index: usize) {
        Vec::push(self, value);
        Vec::len(self) - 1
    }
}

impl<T> Pop for Vec<T> {
    type Value = T;

    /// The last element leaves.
    open spec fn is_popped(&self, before: &Vec<T>, value: Option<T>) -> bool {
        match value {
            Some(v) => before@.len() > 0 && v == before@.last() && self@ == before@.drop_last(),
            None => before@.len() == 0 && self@ == before@,
        }
    }

    /// Removes the last element and returns it.
    fn pop(&mut self) -> (r: Option<T>) {
        Vec::pop(self)
    }
}

impl<T> Dequeue for Vec<T> {
    type Value = T;

    /// The first element leaves.
    open spec fn is_dequeued(&self, before: &Vec<T>, value: Option<T>) -> bool {
        match value {
            Some(v) => before@.len() > 0 && v == before@[0] && self@ == before@.drop_first(),
            None => before@.len() == 0 && self@ == before@,
        }
    }

    /// Removes the first element and returns it; the others move up.
    fn dequeue(&mut self) -> (r: Option<T>) {
        if Vec::len(self) > 0 {
            let first = Vec::remove(self, 0);
            proof {
                assert(self@ =~= old(self)@.drop_first());
            }
            Some(first)
        } else {
            None
        }
    }
}

impl<T> Merge for Vec<T> {
    type Output = Vec<T>;

    open spec fn is_merge(self, rhs: Vec<T>, out: Vec<T>) -> bool {
        out@ == self@ + rhs@
    }

    fn merge(self, rhs: Vec<T>) -> (r: Vec<T>) {
        let mut left = self;
        let mut right = rhs;
        Vec::append(&mut left, &mut right);
        left
    }
}

impl<T> Rev for Vec<T> {
    type Output = Vec<T>;

    open spec fn is_rev(self, out: Vec<T>) -> bool {
        out@ == self@.reverse()
    }

    fn rev(self) -> (r: Vec<T>) {
        let mut rest = self;
        let mut out: Vec<T> = Vec::new();
        let ghost n = self@.len() as int;
        while Vec::len(&rest) > 0
            invariant
                n == self@.len(),
                rest@ == self@.take(rest@.len() as int),
                out@.len() + rest@.len() == n,
                forall|j: int| 0 <= j < out@.len() ==> out@[j] == self@[n - 1 - j],
            decreases rest@.len(),
        {
            let last = Vec::pop(&mut rest);
            Vec::push(&mut out, last.unwrap());
            proof {
                assert(rest@ =~= self@.take(rest@.len() as int));
            }
        }
        proof {
            assert(out@ =~= self@.reverse());
        }
        out
    }
}

impl<T> KeyedMap for Vec<T> {
    type Key = usize;

    type Value = T;
}

impl<T> MapGet<usize> for Vec<T> {
    open spec fn spec_get(&self, key: usize) -> Option<T> {
        if key < self@.len() {
            Some(self@[key as int])
        } else {
            None
        }
    }

    fn get(&self, key: &usize) -> (r: Option<&T>) {
        if *key < Vec::len(self) {
            Some(&self[*key])
        } else {
            None
        }
    }

    fn contains_key(&self, key: &usize) -> (b: bool) {
        Vec::len(self) > *key
    }
}

impl<T> MapMut<usize> for Vec<T> {
    open spec fn is_written(&self, before: &Vec<T>, key: usize, value: Option<T>) -> bool {
        self@ == (match value {
            Some(v) => before@.update(key as int, v),
            None => before@,
        })
    }

    open spec fn is_removed(&self, before: &Vec<T>, key: usize) -> bool {
        self@ == (if key < before@.len() {
            before@.remove(key as int)
        } else {
            before@
        })
    }

    fn get_mut(&mut self, key: &usize) -> (r: Option<&mut T>) {
        if *key < Vec::len(self) {
            Some(&mut self[*key])
        } else {
            None
        }
    }

    /// Removes and returns the element at the given position, shifting all
    /// elements after it to the left.
    fn remove(&mut self, key: &usize) -> (r: Option<T>) {
        if *key < Vec::len(self) {
            Some(Vec::remove(self, *key))
        } else {
            None
        }
    }
}

impl<T> MapRemove<usize> for Vec<T> {
    open spec fn spec_key(&self, key: usize) -> usize {
        key
    }

    open spec fn is_entry_removed(&self, before: &Vec<T>, key: usize) -> bool {
        self@ == (if key < before@.len() {
            before@.remove(key as int)
        } else {
            before@
        })
    }

    /// Removes and returns the element at the given position, with the
    /// position, shifting all elements after it to the left.
    fn remove(&mut self, key: &usize) -> (r: Option<(usize, T)>) {
        if *key < Vec::len(self) {
            Some((*key, Vec::remove(self, *key)))
        } else {
            None
        }
    }
}

impl<T: Default> MapInsert for Vec<T> {
    open spec fn spec_value(&self, key: usize) -> Option<T> {
        if key < self@.len() {
            Some(self@[key as int])
        } else {
            None
        }
    }

    open spec fn can_insert(&self, key: usize) -> bool {
        true
    }

    open spec fn is_inserted(&self, before: &Vec<T>, key: usize, value: T) -> bool {
        self@ == (if key < before@.len() {
            before@.update(key as int, value)
        } else {
            before@
        })
    }

    /// Replaces the element at the given position. A position beyond the
    /// end gets nothing.
    fn insert(&mut self, key: usize, value: T) -> (r: Option<T>) {
        if Vec::len(self) > key {
            let mut held = value;
            core::mem::swap(&mut self[key], &mut held);
            Some(held)
        } else {
            None
        }
    }
}

impl<T> Retain<usize, T> for Vec<T> {
    open spec fn spec_held(&self, key: usize) -> Option<T> {
        if key < self@.len() {
            Some(self@[key as int])
        } else {
            None
        }
    }

    open spec fn is_same_key(given: usize, key: usize) -> bool {
        given == key
    }

    /// The values that stay keep their order.
    open spec fn is_kept_of(&self, before: &Vec<T>, kept: Map<usize, T>) -> bool {
        self@ == kept_in_order(before@.len(), kept)
    }

    /// Retains the elements that `f` accepts, in their order. `f` gets the
    /// position that the element had before the call.
    fn retain<F: FnMut(&usize, &mut T) -> bool>(&mut self, f: F) {
        let mut f = f;
        let ghost f0 = f;
        let ghost before = self@;
        let mut rest: Vec<T> = Vec::new();
        core::mem::swap(self, &mut rest);
        let ghost n = rest@.len();
        assert(n == Vec::len(&rest));
        let mut stack: Vec<T> = Vec::new();
        while Vec::len(&rest) > 0
            invariant
                n <= usize::MAX,
                n == before.len(),
                rest@.len() + stack@.len() == n,
                forall|j: int| 0 <= j < rest@.len() ==> rest@[j] == before[j],
                forall|j: int| 0 <= j < stack@.len() ==> stack@[j] == before[n - 1 - j],
            decreases rest@.len(),
        {
            let last = Vec::pop(&mut rest);
            Vec::push(&mut stack, last.unwrap());
        }
        let ghost mut kept: Map<usize, T> = Map::empty();
        let ghost mut done: Map<usize, (T, bool)> = Map::empty();
        let mut i: usize = 0;
        while Vec::len(&stack) > 0
            invariant
                f == f0,
                forall|k: &usize, v: &mut T| call_requires(f, (k, v)),
                n <= usize::MAX,
                n == before.len(),
                stack@.len() + i == n,
                forall|j: int| 0 <= j < stack@.len() ==> stack@[j] == before[n - 1 - j],
                self@ == kept_in_order(i as nat, kept),
                forall|k: usize| k < i ==> #[trigger] done.contains_key(k),
                forall|k: usize| #[trigger]
                    done.contains_key(k) ==> k < i && (kept.contains_key(k) <==> done[k].1)
                        && (done[k].1 ==> kept[k] == done[k].0) && exists|key: &usize, v: &mut T|
                        *key == k && *v == before[k as int] && *final(v) == done[k].0
                            && #[trigger] call_ensures(f0, (key, v), done[k].1),
                forall|k: usize| #[trigger] kept.contains_key(k) ==> done.contains_key(k),
            decreases stack@.len(),
        {
            let ghost start_done = done;
            let ghost start_kept = kept;
            let mut value = Vec::pop(&mut stack).unwrap();
            let ghost given = value;
            let keep = f(&i, &mut value);
            proof {
                assert(given == before[i as int]);
                lemma_kept_in_order_insert(i as nat, kept, i, value);
                assert(exists|key: &usize, v: &mut T|
                    *key == i && *v == given && *final(v) == value && #[trigger] call_ensures(
                        f0,
                        (key, v),
                        keep,
                    ));
                done = done.insert(i, (value, keep));
                if keep {
                    kept = kept.insert(i, value);
                }
                assert(kept_in_order(i as nat, kept) == kept_in_order(i as nat, start_kept));
                assert forall|k: usize| #[trigger] done.contains_key(k) implies k < i + 1 && (
                kept.contains_key(k) <==> done[k].1) && (done[k].1 ==> kept[k] == done[k].0)
                    && exists|key: &usize, v: &mut T|
                    *key == k && *v == before[k as int] && *final(v) == done[k].0
                        && #[trigger] call_ensures(f0, (key, v), done[k].1) by {
                    if k != i {
                        assert(start_done.contains_key(k));
                        assert(done[k] == start_done[k]);
                    } else {
                        assert(!start_kept.contains_key(i)) by {
                            if start_kept.contains_key(i) {
                                assert(start_done.contains_key(i));
                            }
                        }
                        let (key, v) = choose|key: &usize, v: &mut T|
                            *key == i && *v == given && *final(v) == value
                                && #[trigger] call_ensures(f0, (key, v), keep);
                        assert(call_ensures(f0, (key, v), done[k].1));
                    }
                }
            }
            if keep {
                Vec::push(self, value);
            }
            i = i + 1;
        }
        proof {
            lemma_kept_in_order_len(n, kept);
            assert(self.is_kept_of(old(self), kept));
            assert forall|key: usize| (#[trigger] old(self).spec_held(key)) is Some implies exists|
                k: &usize,
                v: &mut T,
                keep: bool,
            |
                Self::is_same_key(*k, key) && Some(*v) == old(self).spec_held(key)
                    && #[trigger] call_ensures(f, (k, v), keep) && keep == kept.contains_key(key) && (keep
                    ==> kept[key] == *final(v)) by {
                assert(done.contains_key(key));
                let (k, v) = choose|k: &usize, v: &mut T|
                    *k == key && *v == before[key as int] && *final(v) == done[key].0
                        && #[trigger] call_ensures(f0, (k, v), done[key].1);
                assert(call_ensures(f, (k, v), done[key].1));
            }
        }
    }
}

} // verus!
