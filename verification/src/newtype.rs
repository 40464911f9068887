//! A handle branded with the type of what it indexes.

use core::cmp::Ordering;
use core::marker::PhantomData;
use vstd::prelude::*;
use vstd::std_specs::cmp::PartialEqSpecImpl;
use vstd::std_specs::cmp::PartialOrdSpecImpl;
use vstd::std_specs::convert::FromSpecImpl;
use crate::genindex::GenIndex;
use crate::indexf64::IndexF64;
use crate::unsigned::UnsignedInt;

verus! {

/// A [`GenIndex`] that carries, in its type alone, the type `T` of the values
/// it refers to. A handle for one kind of value cannot be handed to a
/// container of another kind; at run time it is the handle `I` and nothing more.
#[derive(Debug, Hash)]
pub struct NewTypeIndex<T, I: GenIndex = IndexF64> {
    value: I,
    marker: PhantomData<T>,
}

impl<T, I: GenIndex> NewTypeIndex<T, I> {
    /// The handle inside.
    pub closed spec fn inner(&self) -> I {
        self.value
    }

    /// The parts are those of the handle inside.
    pub proof fn lemma_parts_of_inner(&self)
        ensures
            self.spec_index() == self.inner().spec_index(),
            self.spec_generation() == self.inner().spec_generation(),
    {
    }
}

impl<T, I: GenIndex> Clone for NewTypeIndex<T, I> {
    fn clone(&self) -> (r: Self)
        ensures
            r.inner() == self.inner(),
    {
        NewTypeIndex { value: self.value, marker: PhantomData }
    }
}

impl<T, I: GenIndex> Copy for NewTypeIndex<T, I> {
}

impl<T, I: GenIndex> Default for NewTypeIndex<T, I> {
    /// The null handle.
    fn default() -> (r: Self)
        ensures
            r.spec_index() == 0,
            r.spec_generation() == 0,
    {
        NewTypeIndex { value: I::null(), marker: PhantomData }
    }
}

impl<T, I: GenIndex> PartialEq for NewTypeIndex<T, I> {
    fn eq(&self, other: &Self) -> (r: bool) {
        self.value.same(&other.value)
    }
}

impl<T, I: GenIndex> PartialEqSpecImpl for NewTypeIndex<T, I> {
    open spec fn obeys_eq_spec() -> bool {
        true
    }

    open spec fn eq_spec(&self, other: &Self) -> bool {
        self.spec_index() == other.spec_index() && self.spec_generation()
            == other.spec_generation()
    }
}

impl<T, I: GenIndex> PartialOrd for NewTypeIndex<T, I> {
    /// Handles are ordered by index. Two handles of one index are equal when
    /// their generations agree, and cannot be compared when they do not.
    fn partial_cmp(&self, other: &Self) -> (r: Option<Ordering>) {
        let mine = self.value.index();
        let theirs = other.value.index();
        if mine.below(theirs) {
            Some(Ordering::Less)
        } else if theirs.below(mine) {
            Some(Ordering::Greater)
        } else if self.value.generation().same(other.value.generation()) {
            Some(Ordering::Equal)
        } else {
            None
        }
    }
}

impl<T, I: GenIndex> PartialOrdSpecImpl for NewTypeIndex<T, I> {
    open spec fn obeys_partial_cmp_spec() -> bool {
        true
    }

    open spec fn partial_cmp_spec(&self, other: &Self) -> Option<Ordering> {
        if self.spec_index() < other.spec_index() {
            Some(Ordering::Less)
        } else if self.spec_index() > other.spec_index() {
            Some(Ordering::Greater)
        } else if self.spec_generation() == other.spec_generation() {
            Some(Ordering::Equal)
        } else {
            None
        }
    }
}

impl<T, I: GenIndex> GenIndex for NewTypeIndex<T, I> {
    type Index = I::Index;

    type Generation = I::Generation;

    closed spec fn spec_index(&self) -> nat {
        self.value.spec_index()
    }

    closed spec fn spec_generation(&self) -> nat {
        self.value.spec_generation()
    }

    open spec fn spec_max_generation() -> nat {
        I::spec_max_generation()
    }

    closed spec fn spec_from_raw_parts(index: I::Index, generation: I::Generation) -> Self {
        NewTypeIndex { value: I::spec_from_raw_parts(index, generation), marker: PhantomData }
    }

    proof fn lemma_round_trip(index: I::Index, generation: I::Generation) {
        I::lemma_round_trip(index, generation);
        let r = Self::spec_from_raw_parts(index, generation);
        assert(r.value == I::spec_from_raw_parts(index, generation));
        assert(r.spec_index() == r.value.spec_index());
        assert(r.spec_generation() == r.value.spec_generation());
        assert(Self::spec_max_generation() == I::spec_max_generation());
    }

    proof fn lemma_parts_in_range(&self) {
        self.value.lemma_parts_in_range();
        assert(self.spec_index() == self.value.spec_index());
        assert(self.spec_generation() == self.value.spec_generation());
        assert(Self::spec_max_generation() == I::spec_max_generation());
    }

    proof fn lemma_max_generation_bounds() {
        I::lemma_max_generation_bounds();
        assert(Self::spec_max_generation() == I::spec_max_generation());
    }

    fn max_generation() -> (g: I::Generation) {
        I::max_generation()
    }

    fn from_raw_parts(index: I::Index, generation: I::Generation) -> (r: Self)
        ensures
            r.inner() == I::spec_from_raw_parts(index, generation),
    {
        let r = NewTypeIndex { value: I::from_raw_parts(index, generation), marker: PhantomData };
        assert(r == Self::spec_from_raw_parts(index, generation));
        r
    }

    fn index(&self) -> (i: I::Index) {
        self.value.index()
    }

    fn generation(&self) -> (g: I::Generation) {
        self.value.generation()
    }
}

impl<T, I: GenIndex> From<I> for NewTypeIndex<T, I> {
    fn from(index: I) -> (r: Self) {
        NewTypeIndex { value: index, marker: PhantomData }
    }
}

impl<T, I: GenIndex> FromSpecImpl<I> for NewTypeIndex<T, I> {
    open spec fn obeys_from_spec() -> bool {
        true
    }

    closed spec fn from_spec(index: I) -> Self {
        NewTypeIndex { value: index, marker: PhantomData }
    }
}

impl<T, I: GenIndex> From<NewTypeIndex<T, I>> for (I::Index, I::Generation) {
    fn from(idx: NewTypeIndex<T, I>) -> (r: Self) {
        let index = idx.index();
        let generation = idx.generation();
        proof {
            I::Index::lemma_value_injective(index, choose_index(idx));
            I::Generation::lemma_value_injective(generation, choose_generation(idx));
        }
        (index, generation)
    }
}

/// The index part of the handle, in the index type.
pub open spec fn choose_index<T, I: GenIndex>(idx: NewTypeIndex<T, I>) -> I::Index {
    choose|i: I::Index| i.value() == idx.spec_index()
}

/// The generation part of the handle, in the generation type.
pub open spec fn choose_generation<T, I: GenIndex>(idx: NewTypeIndex<T, I>) -> I::Generation {
    choose|g: I::Generation| g.value() == idx.spec_generation()
}

impl<T, I: GenIndex> FromSpecImpl<NewTypeIndex<T, I>> for (I::Index, I::Generation) {
    open spec fn obeys_from_spec() -> bool {
        true
    }

    open spec fn from_spec(idx: NewTypeIndex<T, I>) -> Self {
        (choose_index(idx), choose_generation(idx))
    }
}

impl<T, I: GenIndex> From<(I::Index, I::Generation)> for NewTypeIndex<T, I> {
    fn from(parts: (I::Index, I::Generation)) -> (r: Self) {
        NewTypeIndex::from_raw_parts(parts.0, parts.1)
    }
}

impl<T, I: GenIndex> FromSpecImpl<(I::Index, I::Generation)> for NewTypeIndex<T, I> {
    open spec fn obeys_from_spec() -> bool {
        true
    }

    open spec fn from_spec(parts: (I::Index, I::Generation)) -> Self {
        <Self as GenIndex>::spec_from_raw_parts(parts.0, parts.1)
    }
}

} // verus!
