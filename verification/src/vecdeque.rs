//! The collection traits for `VecDeque`.

use std::collections::VecDeque;
use vstd::prelude::*;
use crate::collection::{
    kept_in_order, lemma_kept_in_order_insert, lemma_kept_in_order_len, Clear, Len, Merge, Retain, Rev,
    Valid,
};
use crate::deque::{Dequeue, Pop, Push};
use crate::map::{KeyedMap, MapGet, MapInsert, MapMut, MapRemove};

verus! {

/// `VecDeque::get_mut`: a mutable reference to the element at position `i`,
/// or `None` beyond the end. What is written through the reference becomes
/// the element at that position; nothing else changes.
#[verifier::external_body]
fn deque_get_mut<T>(deque: &mut VecDeque<T>, i: usize) -> (r: Option<&mut T>)
    ensures
        i < old(deque)@.len() ==> r is Some && *r.unwrap() == old(deque)@[i as int]
            && final(deque)@ == old(deque)@.update(i as int, *final(r.unwrap())),
        i >= old(deque)@.len() ==> r is None && final(deque)@ == old(deque)@,
{
    deque.get_mut(i)
}

impl<T> Valid for VecDeque<T> {
    open spec fn valid(&self) -> bool {
        true
    }
}

impl<T> Len for VecDeque<T> {
    open spec fn spec_len(&self) -> nat {
        self@.len()
    }

    fn len(&self) -> (n: usize) {
        VecDeque::len(self)
    }

    fn is_empty(&self) -> (b: bool) {
        VecDeque::len(self) == 0
    }
}

impl<T> Clear for VecDeque<T> {
    fn clear(&mut self) {
        VecDeque::clear(self)
    }
}

impl<T> Push for VecDeque<T> {
    type Index = usize;

    type Value = T;

    open spec fn can_push(&self) -> bool {
        true
    }

    open spec fn is_pushed(&self, before: &VecDeque<T>, value: T, index: usize) -> bool {
        self@ == before@.push(value) && index == before@.len()
    }

    /// Appends `value` at the back and returns its position.
    fn push(&mut self, value: T) -> (index: usize)
        ensures
            final(self)@ == old(self)@.push(value),
            index == old(self)@.len(),
    {
        VecDeque::push_back(self, value);
        VecDeque::len(self) - 1
    }
}

impl<T> Pop for VecDeque<T> {
    type Value = T;

    /// The last element leaves.
    open spec fn is_popped(&self, before: &VecDeque<T>, value: Option<T>) -> bool {
        match value {
            Some(v) => before@.len() > 0 && v == before@.last() && self@ == before@.drop_last(),
            None => before@.len() == 0 && self@ == before@,
        }
    }

    /// Removes the element at the back and returns it.
    fn pop(&mut self) -> (r: Option<T>) {
        VecDeque::pop_back(self)
    }
}

impl<T> Dequeue for VecDeque<T> {
    type Value = T;

    /// The first element leaves.
    open spec fn is_dequeued(&self, before: &VecDeque<T>, value: Option<T>) -> bool {
        match value {
            Some(v) => before@.len() > 0 && v == before@[0] && self@ == before@.drop_first(),
            None => before@.len() == 0 && self@ == before@,
        }
    }

    /// Removes the element at the front and returns it.
    fn dequeue(&mut self) -> (r: Option<T>) {
        VecDeque::pop_front(self)
    }
}

impl<T> Merge for VecDeque<T> {
    type Output = VecDeque<T>;

    open spec fn is_merge(self, rhs: VecDeque<T>, out: VecDeque<T>) -> bool {
        out@ == self@ + rhs@
    }

    fn merge(self, rhs: VecDeque<T>) -> (r: VecDeque<T>) {
        let mut left = self;
        let mut right = rhs;
        VecDeque::append(&mut left, &mut right);
        left
    }
}

impl<T> Rev for VecDeque<T> {
    type Output = VecDeque<T>;

    open spec fn is_rev(self, out: VecDeque<T>) -> bool {
        out@ == self@.reverse()
    }

    fn rev(self) -> (r: VecDeque<T>) {
        let mut rest = self;
        let mut out: VecDeque<T> = VecDeque::new();
        let ghost n = self@.len() as int;
        while VecDeque::len(&rest) > 0
            invariant
                n == self@.len(),
                rest@ == self@.take(rest@.len() as int),
                out@.len() + rest@.len() == n,
                forall|j: int| 0 <= j < out@.len() ==> out@[j] == self@[n - 1 - j],
            decreases rest@.len(),
        {
            let last = VecDeque::pop_back(&mut rest);
            VecDeque::push_back(&mut out, last.unwrap());
            proof {
                assert(rest@ =~= self@.take(rest@.len() as int));
            }
        }
        proof {
            assert(out@ =~= self@.reverse());
        }
        out
    }
}

impl<T> KeyedMap for VecDeque<T> {
    type Key = usize;

    type Value = T;
}

impl<T> MapGet<usize> for VecDeque<T> {
    open spec fn spec_get(&self, key: usize) -> Option<T> {
        if key < self@.len() {
            Some(self@[key as int])
        } else {
            None
        }
    }

    fn get(&self, key: &usize) -> (r: Option<&T>) {
        if *key < VecDeque::len(self) {
            let position = *key;
            Some(&self[position])
        } else {
            None
        }
    }

    fn contains_key(&self, key: &usize) -> (b: bool) {
        VecDeque::len(self) > *key
    }
}

impl<T> MapMut<usize> for VecDeque<T> {
    open spec fn is_written(&self, before: &VecDeque<T>, key: usize, value: Option<T>) -> bool {
        self@ == (match value {
            Some(v) => before@.update(key as int, v),
            None => before@,
        })
    }

    open spec fn is_removed(&self, before: &VecDeque<T>, key: usize) -> bool {
        self@ == (if key < before@.len() {
            before@.remove(key as int)
        } else {
            before@
        })
    }

    fn get_mut(&mut self, key: &usize) -> (r: Option<&mut T>) {
        deque_get_mut(self, *key)
    }

    /// Removes and returns the element at the given position, shifting the
    /// elements after it.
    fn remove(&mut self, key: &usize) -> (r: Option<T>) {
        VecDeque::remove(self, *key)
    }
}

impl<T> MapRemove<usize> for VecDeque<T> {
    open spec fn spec_key(&self, key: usize) -> usize {
        key
    }

    open spec fn is_entry_removed(&self, before: &VecDeque<T>, key: usize) -> bool {
        self@ == (if key < before@.len() {
            before@.remove(key as int)
        } else {
            before@
        })
    }

    /// Removes and returns the element at the given position, with the
    /// position, shifting the elements after it.
    fn remove(&mut self, key: &usize) -> (r: Option<(usize, T)>) {
        match VecDeque::remove(self, *key) {
            Some(value) => Some((*key, value)),
            None => None,
        }
    }
}

impl<T: Default> MapInsert for VecDeque<T> {
    open spec fn spec_value(&self, key: usize) -> Option<T> {
        if key < self@.len() {
            Some(self@[key as int])
        } else {
            None
        }
    }

    open spec fn can_insert(&self, key: usize) -> bool {
        true
    }

    open spec fn is_inserted(&self, before: &VecDeque<T>, key: usize, value: T) -> bool {
        self@ == (if key < before@.len() {
            before@.update(key as int, value)
        } else {
            before@
        })
    }

    /// Replaces the element at the given position. A position beyond the
    /// end gets nothing.
    fn insert(&mut self, key: usize, value: T) -> (r: Option<T>) {
        match deque_get_mut(self, key) {
            Some(dest) => {
                let mut held = value;
                core::mem::swap(dest, &mut held);
                Some(held)
            },
            None => None,
        }
    }
}

impl<T> Retain<usize, T> for VecDeque<T> {
    open spec fn spec_held(&self, key: usize) -> Option<T> {
        if key < self@.len() {
            Some(self@[key as int])
        } else {
            None
        }
    }

    open spec fn is_same_key(given: usize, key: usize) -> bool {
        given == key
    }

    /// The values that stay keep their order.
    open spec fn is_kept_of(&self, before: &VecDeque<T>, kept: Map<usize, T>) -> bool {
        self@ == kept_in_order(before@.len(), kept)
    }

    /// Retains the elements that `f` accepts, in their order. `f` gets the
    /// position that the element had before the call.
    fn retain<F: FnMut(&usize, &mut T) -> bool>(&mut self, f: F) {
        let mut f = f;
        let ghost f0 = f;
        let ghost before = self@;
        let n = VecDeque::len(self);
        let ghost mut kept: Map<usize, T> = Map::empty();
        let ghost mut done: Map<usize, (T, bool)> = Map::empty();
        let mut i: usize = 0;
        while i < n
            invariant
                f == f0,
                forall|k: &usize, v: &mut T| call_requires(f, (k, v)),
                i <= n,
                n == before.len(),
                self@ == before.subrange(i as int, n as int) + kept_in_order(i as nat, kept),
                forall|k: usize| k < i ==> #[trigger] done.contains_key(k),
                forall|k: usize| #[trigger]
                    done.contains_key(k) ==> k < i && (kept.contains_key(k) <==> done[k].1)
                        && (done[k].1 ==> kept[k] == done[k].0) && exists|key: &usize, v: &mut T|
                        *key == k && *v == before[k as int] && *final(v) == done[k].0
                            && #[trigger] call_ensures(f0, (key, v), done[k].1),
                forall|k: usize| #[trigger] kept.contains_key(k) ==> done.contains_key(k),
            decreases n - i,
        {
            let ghost start_done = done;
            let ghost start_kept = kept;
            let ghost at_start = self@;
            proof {
                lemma_kept_in_order_len(i as nat, kept);
                assert(at_start[0] == before[i as int]);
            }
            let mut value = VecDeque::pop_front(self).unwrap();
            let ghost given = value;
            let keep = f(&i, &mut value);
            proof {
                assert(given == before[i as int]);
                lemma_kept_in_order_insert(i as nat, kept, i, value);
                assert(exists|key: &usize, v: &mut T|
                    *key == i && *v == given && *final(v) == value && #[trigger] call_ensures(
                        f0,
                        (key, v),
                        keep,
                    ));
                done = done.insert(i, (value, keep));
                if keep {
                    kept = kept.insert(i, value);
                }
                assert(kept_in_order(i as nat, kept) == kept_in_order(i as nat, start_kept));
                assert(self@ =~= before.subrange(i + 1, n as int) + kept_in_order(i as nat, start_kept));
                assert forall|k: usize| #[trigger] done.contains_key(k) implies k < i + 1 && (
                kept.contains_key(k) <==> done[k].1) && (done[k].1 ==> kept[k] == done[k].0)
                    && exists|key: &usize, v: &mut T|
                    *key == k && *v == before[k as int] && *final(v) == done[k].0
                        && #[trigger] call_ensures(f0, (key, v), done[k].1) by {
                    if k != i {
                        assert(start_done.contains_key(k));
                        assert(done[k] == start_done[k]);
                    } else {
                        assert(!start_kept.contains_key(i)) by {
                            if start_kept.contains_key(i) {
                                assert(start_done.contains_key(i));
                            }
                        }
                        let (key, v) = choose|key: &usize, v: &mut T|
                            *key == i && *v == given && *final(v) == value
                                && #[trigger] call_ensures(f0, (key, v), keep);
                        assert(call_ensures(f0, (key, v), done[k].1));
                    }
                }
            }
            if keep {
                VecDeque::push_back(self, value);
                proof {
                    assert(self@ =~= before.subrange(i + 1, n as int) + kept_in_order(
                        (i + 1) as nat,
                        kept,
                    ));
                }
            }
            i = i + 1;
        }
        proof {
            lemma_kept_in_order_len(n as nat, kept);
            assert(self@ =~= kept_in_order(n as nat, kept));
            assert(self.is_kept_of(old(self), kept));
            assert forall|key: usize| (#[trigger] old(self).spec_held(key)) is Some implies exists|
                k: &usize,
                v: &mut T,
                keep: bool,
            |
                Self::is_same_key(*k, key) && Some(*v) == old(self).spec_held(key)
                    && #[trigger] call_ensures(f, (k, v), keep) && keep == kept.contains_key(key) && (keep
                    ==> kept[key] == *final(v)) by {
                assert(done.contains_key(key));
                let (k, v) = choose|k: &usize, v: &mut T|
                    *k == key && *v == before[key as int] && *final(v) == done[key].0
                        && #[trigger] call_ensures(f0, (k, v), done[key].1);
                assert(call_ensures(f, (k, v), done[key].1));
            }
        }
    }
}

} // verus!
