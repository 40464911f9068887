//! Lists of values of different types, built from nested pairs.

use core::marker::PhantomData;
use vstd::prelude::*;
use crate::collection::{Merge, Rev};

verus! {

/// A list made of nested pairs: `()` is the empty list, and `(head, tail)` is
/// the list that starts with `head` and goes on with the list `tail`.
pub trait Cons: Sized {
    /// The number of elements of a list of this type.
    spec fn spec_len() -> nat;

    /// Returns the length of the list.
    fn len(&self) -> (n: usize)
        requires
            Self::spec_len() <= usize::MAX,
        ensures
            n == Self::spec_len(),
    ;

    /// Returns whether the list is empty.
    fn is_empty(&self) -> (b: bool)
        ensures
            b == (Self::spec_len() == 0),
    ;

    /// Gets the element of type `T` at the place that `Index` tells.
    fn get<T, Index>(&self) -> (r: &T) where Self: Holds<T, Index>
        ensures
            *r == Holds::<T, Index>::held(*self),
    {
        Holds::at(self)
    }

    /// Mutably gets the element of type `T` at the place that `Index` tells.
    /// What is written through the reference becomes the element at that
    /// place; nothing else changes.
    fn get_mut<T, Index>(&mut self) -> (r: &mut T) where Self: Holds<T, Index>
        ensures
            *r == Holds::<T, Index>::held(*old(self)),
            Holds::<T, Index>::is_put(*final(self), *old(self), *final(r)),
    {
        Holds::at_mut(self)
    }

    /// Reverses this list.
    fn rev(self) -> (r: <Self as Turns>::Turned) where Self: Turns
        ensures
            Turns::is_turned(self, r),
    {
        Turns::turn(self)
    }
}

/// A list that holds a `T` at the place `I`.
///
/// Every list with `Get<T, I>` has it, and it says of the list what `Get`
/// says, under names of its own: the methods of `Cons` that get an element
/// bear the names of the methods of `Get`, and ask through this trait.
pub trait Holds<T, I>: Sized {
    /// The element at the place.
    spec fn held(self) -> T;

    /// Whether `self` is `before` with `value` at the place and nothing else
    /// changed.
    spec fn is_put(self, before: Self, value: T) -> bool;

    /// Gets the element at the place.
    fn at(&self) -> (r: &T)
        ensures
            *r == self.held(),
    ;

    /// Mutably gets the element at the place.
    fn at_mut(&mut self) -> (r: &mut T)
        ensures
            *r == old(self).held(),
            final(self).is_put(*old(self), *final(r)),
    ;
}

impl<L: Get<T, I>, T, I> Holds<T, I> for L {
    open spec fn held(self) -> T {
        Get::<T, I>::spec_get(self)
    }

    open spec fn is_put(self, before: L, value: T) -> bool {
        Get::<T, I>::is_set_of(self, before, value)
    }

    fn at(&self) -> (r: &T) {
        Get::<T, I>::get(self)
    }

    fn at_mut(&mut self) -> (r: &mut T) {
        Get::<T, I>::get_mut(self)
    }
}

/// A list that can be reversed.
///
/// Every list with `Rev` has it, and it says of the list what `Rev` says,
/// under names of its own: the method of `Cons` that reverses a list bears
/// the name of the method of `Rev`, and asks through this trait.
pub trait Turns: Sized {
    /// The type of the reversed list.
    type Turned;

    /// Whether `out` is `self` in reversed order.
    spec fn is_turned(self, out: Self::Turned) -> bool;

    /// Returns the list in reversed order.
    fn turn(self) -> (r: Self::Turned)
        ensures
            self.is_turned(r),
    ;
}

impl<L: Rev> Turns for L {
    type Turned = <L as Rev>::Output;

    open spec fn is_turned(self, out: <L as Rev>::Output) -> bool {
        Rev::is_rev(self, out)
    }

    fn turn(self) -> (r: <L as Rev>::Output) {
        Rev::rev(self)
    }
}

impl Cons for () {
    open spec fn spec_len() -> nat {
        0
    }

    fn len(&self) -> (n: usize) {
        0
    }

    fn is_empty(&self) -> (b: bool) {
        true
    }
}

impl<H, T: Cons> Cons for (H, T) {
    open spec fn spec_len() -> nat {
        1 + T::spec_len()
    }

    fn len(&self) -> (n: usize) {
        1 + self.1.len()
    }

    fn is_empty(&self) -> (b: bool) {
        false
    }
}

impl<RHS: Cons> Merge<RHS> for () {
    type Output = RHS;

    open spec fn is_merge(self, rhs: RHS, out: RHS) -> bool {
        out == rhs
    }

    fn merge(self, rhs: RHS) -> (r: RHS) {
        rhs
    }
}

impl<H, Tail: Merge<RHS>, RHS: Cons> Merge<RHS> for (H, Tail) {
    type Output = (H, <Tail as Merge<RHS>>::Output);

    open spec fn is_merge(self, rhs: RHS, out: (H, <Tail as Merge<RHS>>::Output)) -> bool {
        out.0 == self.0 && self.1.is_merge(rhs, out.1)
    }

    fn merge(self, rhs: RHS) -> (r: (H, <Tail as Merge<RHS>>::Output)) {
        (self.0, self.1.merge(rhs))
    }
}

impl Rev for () {
    type Output = ();

    open spec fn is_rev(self, out: ()) -> bool {
        true
    }

    fn rev(self) -> (r: ()) {
        self
    }
}

impl<T, Tail: Rev> Rev for (T, Tail) where <Tail as Rev>::Output: Merge<(T, ())> {
    type Output = <<Tail as Rev>::Output as Merge<(T, ())>>::Output;

    open spec fn is_rev(
        self,
        out: <<Tail as Rev>::Output as Merge<(T, ())>>::Output,
    ) -> bool {
        exists|turned: <Tail as Rev>::Output| #[trigger]
            self.1.is_rev(turned) && turned.is_merge((self.0, ()), out)
    }

    fn rev(self) -> (r: <<Tail as Rev>::Output as Merge<(T, ())>>::Output) {
        let turned = self.1.rev();
        let r = turned.merge((self.0, ()));
        proof {
            assert(self.1.is_rev(turned) && turned.is_merge((self.0, ()), r));
        }
        r
    }
}

/// Getting an element of a list by its type. `I` tells the place: `Here` for
/// the head, `There<J>` for the place `J` of the tail.
pub trait Get<T, I>: Sized {
    /// The element at the place.
    spec fn spec_get(self) -> T;

    /// Whether `self` is `before` with `value` at the place and nothing else
    /// changed.
    spec fn is_set_of(self, before: Self, value: T) -> bool;

    /// Gets the element at the place.
    fn get(&self) -> (r: &T)
        ensures
            *r == self.spec_get(),
    ;

    /// Mutably gets the element at the place.
    fn get_mut(&mut self) -> (r: &mut T)
        ensures
            *r == old(self).spec_get(),
            final(self).is_set_of(*old(self), *final(r)),
    ;
}

impl<T, Tail> Get<T, Here> for (T, Tail) {
    open spec fn spec_get(self) -> T {
        self.0
    }

    open spec fn is_set_of(self, before: (T, Tail), value: T) -> bool {
        self == (value, before.1)
    }

    fn get(&self) -> (r: &T) {
        &self.0
    }

    fn get_mut(&mut self) -> (r: &mut T) {
        &mut self.0
    }
}

impl<T, Head, Tail: Get<T, TailIndex>, TailIndex> Get<T, There<TailIndex>> for (Head, Tail) {
    open spec fn spec_get(self) -> T {
        self.1.spec_get()
    }

    open spec fn is_set_of(self, before: (Head, Tail), value: T) -> bool {
        self.0 == before.0 && self.1.is_set_of(before.1, value)
    }

    fn get(&self) -> (r: &T) {
        self.1.get()
    }

    fn get_mut(&mut self) -> (r: &mut T) {
        self.1.get_mut()
    }
}

/// The place of the head of a list.
pub struct Here;

/// The place `T` of the tail of a list.
pub struct There<T> {
    marker: PhantomData<T>,
}

} // verus!
