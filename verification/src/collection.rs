//! Collection traits.

use vstd::prelude::*;

verus! {

/// The entries that a list of references to keys and values refers to.
pub open spec fn entries_of<K, V>(listed: Seq<(&K, &V)>) -> Seq<(K, V)> {
    listed.map_values(|e: (&K, &V)| (*e.0, *e.1))
}

/// The entries that a list of keys and references to values refers to.
pub open spec fn keyed_of<K, V>(listed: Seq<(K, &V)>) -> Seq<(K, V)> {
    listed.map_values(|e: (K, &V)| (e.0, *e.1))
}

/// The values of `kept` whose key is below `n`, in the order of the keys.
pub open spec fn kept_in_order<T>(n: nat, kept: Map<usize, T>) -> Seq<T>
    decreases n,
{
    if n == 0 {
        Seq::empty()
    } else {
        let rest = kept_in_order((n - 1) as nat, kept);
        if kept.contains_key((n - 1) as usize) {
            rest.push(kept[(n - 1) as usize])
        } else {
            rest
        }
    }
}

/// A key that is not below `n` does not change the values whose key is.
pub proof fn lemma_kept_in_order_insert<T>(n: nat, kept: Map<usize, T>, key: usize, value: T)
    requires
        n <= key,
    ensures
        kept_in_order(n, kept.insert(key, value)) == kept_in_order(n, kept),
    decreases n,
{
    if n > 0 {
        lemma_kept_in_order_insert((n - 1) as nat, kept, key, value);
    }
}

/// No more values are kept than there are keys below `n`.
pub proof fn lemma_kept_in_order_len<T>(n: nat, kept: Map<usize, T>)
    ensures
        kept_in_order(n, kept).len() <= n,
    decreases n,
{
    if n > 0 {
        lemma_kept_in_order_len((n - 1) as nat, kept);
    }
}

/// A collection with an invariant that its operations rely on and keep.
pub trait Valid {
    /// Whether the collection is in a state that its operations accept.
    spec fn valid(&self) -> bool;
}

/// A collection with a length.
pub trait Len: Valid {
    /// The number of elements in the collection.
    spec fn spec_len(&self) -> nat;

    /// Returns the number of elements in the collection.
    fn len(&self) -> (n: usize)
        requires
            self.valid(),
        ensures
            n == self.spec_len(),
    ;

    /// Returns `true` if the collection contains no elements.
    fn is_empty(&self) -> (b: bool)
        requires
            self.valid(),
        ensures
            b == (self.spec_len() == 0),
    {
        self.len() == 0
    }
}

/// Operation to clear a collection.
pub trait Clear: Len {
    /// Clears the collection, removing all values.
    fn clear(&mut self)
        ensures
            old(self).valid() ==> final(self).valid() && final(self).spec_len() == 0,
    ;
}

/// Operation to decide which collection elements to retain. `K` is the type
/// of the keys and `V` the type of the values.
pub trait Retain<K, V>: Len {
    /// The value that the collection holds under `key`, if it holds one.
    spec fn spec_held(&self, key: K) -> Option<V>;

    /// Whether the key `given`, as the predicate gets it, is that of the
    /// entry that the collection holds under `key`.
    spec fn is_same_key(given: K, key: K) -> bool;

    /// Whether `self` is what is left of `before` where exactly the entries
    /// with a key of `kept` stay, each with the value that `kept` gives it.
    spec fn is_kept_of(&self, before: &Self, kept: Map<K, V>) -> bool;

    /// Retains only the elements that the predicate accepts, passing it a
    /// mutable reference to each value. In other words, removes all elements
    /// for which `f(&key, &mut value)` returns `false`. No element is added.
    ///
    /// `f` is called for every entry, with its key and its value. The entry
    /// stays exactly if the call returns `true`, and then holds what the call
    /// left in the value.
    fn retain<F: FnMut(&K, &mut V) -> bool>(&mut self, f: F)
        requires
            old(self).valid(),
            forall|k: &K, v: &mut V| call_requires(f, (k, v)),
        ensures
            final(self).valid(),
            final(self).spec_len() <= old(self).spec_len(),
            exists|kept: Map<K, V>| #[trigger]
                final(self).is_kept_of(old(self), kept) && forall|key: K|
                    (#[trigger] old(self).spec_held(key)) is Some ==> exists|
                        k: &K,
                        v: &mut V,
                        keep: bool,
                    |
                        Self::is_same_key(*k, key) && Some(*v) == old(self).spec_held(key)
                            && #[trigger] call_ensures(
                            f,
                            (k, v),
                            keep,
                        ) && keep == kept.contains_key(key) && (keep ==> kept[key] == *final(v)),
    ;
}

/// Operation to merge collections.
pub trait Merge<RHS = Self>: Sized {
    /// Output type.
    type Output;

    /// Whether `out` is `self` merged with `rhs`.
    spec fn is_merge(self, rhs: RHS, out: Self::Output) -> bool;

    /// Returns self merged with `rhs`.
    fn merge(self, rhs: RHS) -> (r: Self::Output)
        ensures
            self.is_merge(rhs, r),
    ;
}

/// Operation to reverse a collection.
pub trait Rev: Sized {
    /// Output type.
    type Output;

    /// Whether `out` is `self` in reversed order.
    spec fn is_rev(self, out: Self::Output) -> bool;

    /// Returns self in reversed order.
    fn rev(self) -> (r: Self::Output)
        ensures
            self.is_rev(r),
    ;
}

} // verus!
