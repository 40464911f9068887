//! Queue and stack traits.

use vstd::prelude::*;
use crate::collection::{Len, Valid};

verus! {

/// Operation to push a new value into a collection.
pub trait Push: Len {
    /// Index type
    type Index;

    /// Value type
    type Value;

    /// Whether the collection has room for one more value.
    spec fn can_push(&self) -> bool;

    /// Whether `self` is what `before` becomes when `value` is pushed and
    /// `index` is assigned to it.
    spec fn is_pushed(&self, before: &Self, value: Self::Value, index: Self::Index) -> bool;

    /// Pushes `value` into the collection and returns the index assigned to
    /// it. The collection does not shrink.
    fn push(&mut self, value: Self::Value) -> (index: Self::Index)
        requires
            old(self).valid(),
            old(self).can_push(),
        ensures
            final(self).valid(),
            final(self).spec_len() >= old(self).spec_len(),
            final(self).is_pushed(old(self), value, index),
    ;
}

/// Operation to pop a value from a collection.
pub trait Pop: Len {
    /// Value type
    type Value;

    /// Whether `self` is what `before` becomes when `value` is popped from
    /// it. Where `value` is `None`, whether `before` was empty and `self` is
    /// as it was.
    spec fn is_popped(&self, before: &Self, value: Option<Self::Value>) -> bool;

    /// Removes the last element from the collection and returns it, or `None`
    /// if the collection is empty.
    fn pop(&mut self) -> (r: Option<Self::Value>)
        requires
            old(self).valid(),
        ensures
            final(self).valid(),
            r is Some <==> old(self).spec_len() > 0,
            r is Some ==> final(self).spec_len() == old(self).spec_len() - 1,
            r is None ==> final(self).spec_len() == 0,
            final(self).is_popped(old(self), r),
    ;
}

/// Operation to dequeue a value from a collection.
pub trait Dequeue: Len {
    /// Value type
    type Value;

    /// Whether `self` is what `before` becomes when `value` is dequeued from
    /// it. Where `value` is `None`, whether `before` was empty and `self` is
    /// as it was.
    spec fn is_dequeued(&self, before: &Self, value: Option<Self::Value>) -> bool;

    /// Removes the first element from the collection and returns it, or
    /// `None` if the collection is empty.
    fn dequeue(&mut self) -> (r: Option<Self::Value>)
        requires
            old(self).valid(),
        ensures
            final(self).valid(),
            r is Some <==> old(self).spec_len() > 0,
            r is Some ==> final(self).spec_len() == old(self).spec_len() - 1,
            r is None ==> final(self).spec_len() == 0,
            final(self).is_dequeued(old(self), r),
    ;
}

/// Returns the natural key of a value.
pub trait Key<K> {
    /// Returns the key, a clone of the value where the value is its own key.
    fn key(&self) -> (k: K);
}

impl<T: Clone> Key<T> for T {
    fn key(&self) -> (k: T)
        ensures
            cloned(*self, k),
    {
        self.clone()
    }
}

} // verus!
