//! The contract of a generational index.

use vstd::prelude::*;
use crate::unsigned::UnsignedInt;

verus! {

/// An index with a generation, used as a weak reference to a value in an array.
///
/// The generation lets a slot be reused without an old handle being taken for
/// the new occupant. A handle stands for the pair of numbers
/// `(spec_index(), spec_generation())`: two handles are the same handle when
/// both numbers agree.
pub trait GenIndex: Copy + Sized {
    /// The type of the index part.
    type Index: UnsignedInt;

    /// The type of the generation part.
    type Generation: UnsignedInt;

    /// The index part, as a number.
    spec fn spec_index(&self) -> nat;

    /// The generation part, as a number.
    spec fn spec_generation(&self) -> nat;

    /// The largest generation that the encoding holds.
    spec fn spec_max_generation() -> nat;

    /// The handle that `from_raw_parts` builds.
    spec fn spec_from_raw_parts(index: Self::Index, generation: Self::Generation) -> Self;

    /// Every index with a generation up to the largest survives the encoding unchanged.
    proof fn lemma_round_trip(index: Self::Index, generation: Self::Generation)
        requires
            generation.value() <= Self::spec_max_generation(),
        ensures
            Self::spec_from_raw_parts(index, generation).spec_index() == index.value(),
            Self::spec_from_raw_parts(index, generation).spec_generation() == generation.value(),
    ;

    /// The parts of a handle fit their types, and the generation is at most the largest.
    proof fn lemma_parts_in_range(&self)
        ensures
            self.spec_index() <= Self::Index::max_nat(),
            self.spec_generation() <= Self::spec_max_generation(),
    ;

    /// The largest generation fits the generation type and is at least 2, so
    /// that a generation and its successor differ.
    proof fn lemma_max_generation_bounds()
        ensures
            2 <= Self::spec_max_generation() <= Self::Generation::max_nat(),
    ;

    /// Returns the largest generation.
    fn max_generation() -> (g: Self::Generation)
        ensures
            g.value() == Self::spec_max_generation(),
    ;

    /// Builds a handle from its parts.
    fn from_raw_parts(index: Self::Index, generation: Self::Generation) -> (r: Self)
        ensures
            r == Self::spec_from_raw_parts(index, generation),
    ;

    /// Returns the index part.
    fn index(&self) -> (i: Self::Index)
        ensures
            i.value() == self.spec_index(),
    ;

    /// Returns the generation part.
    fn generation(&self) -> (g: Self::Generation)
        ensures
            g.value() == self.spec_generation(),
    ;

    /// Builds the first handle of a slot: the given index with generation 1.
    fn from_index(index: Self::Index) -> (r: Self)
        ensures
            r.spec_index() == index.value(),
            r.spec_generation() == 1,
    {
        let one = Self::Generation::one();
        proof {
            Self::lemma_max_generation_bounds();
            Self::lemma_round_trip(index, one);
        }
        Self::from_raw_parts(index, one)
    }

    /// Returns the null handle, whose parts are both zero.
    fn null() -> (r: Self)
        ensures
            r.spec_index() == 0,
            r.spec_generation() == 0,
    {
        let index = Self::Index::zero();
        let generation = Self::Generation::zero();
        proof {
            Self::lemma_round_trip(index, generation);
        }
        Self::from_raw_parts(index, generation)
    }

    /// Whether the handle is the null handle.
    fn is_null(&self) -> (b: bool)
        ensures
            b == (self.spec_index() == 0 && self.spec_generation() == 0),
    {
        self.index().same(Self::Index::zero()) && self.generation().same(Self::Generation::zero())
    }

    /// Returns the handle of the same index in the next generation. After the
    /// largest generation comes generation 1: zero is never issued again.
    fn next_generation(&self) -> (r: Self)
        ensures
            r.spec_index() == self.spec_index(),
            r.spec_generation() == spec_next_generation(
                self.spec_generation(),
                Self::spec_max_generation(),
            ),
    {
        let current = self.generation();
        proof {
            self.lemma_parts_in_range();
            Self::lemma_max_generation_bounds();
        }
        let next = if current.same(Self::max_generation()) {
            Self::Generation::one()
        } else {
            current.succ()
        };
        let index = self.index();
        proof {
            Self::lemma_round_trip(index, next);
        }
        Self::from_raw_parts(index, next)
    }

    /// Whether two handles are the same: same index and same generation.
    fn same(&self, other: &Self) -> (b: bool)
        ensures
            b == (self.spec_index() == other.spec_index() && self.spec_generation()
                == other.spec_generation()),
    {
        self.index().same(other.index()) && self.generation().same(other.generation())
    }
}

/// Two handles name the same slot in the same generation.
pub open spec fn same_parts<I: GenIndex, J: GenIndex>(a: I, b: J) -> bool {
    a.spec_index() == b.spec_index() && a.spec_generation() == b.spec_generation()
}

/// The generation that follows `generation` in an encoding whose largest
/// generation is `max`.
pub open spec fn spec_next_generation(generation: nat, max: nat) -> nat {
    if generation == max {
        1
    } else {
        generation + 1
    }
}

/// A generation and the one that follows it never coincide.
pub proof fn lemma_next_generation_differs<I: GenIndex>(generation: nat)
    ensures
        spec_next_generation(generation, I::spec_max_generation()) != generation,
{
    I::lemma_max_generation_bounds();
}

} // verus!
