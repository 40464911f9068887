//! The standard handle: an index and a generation side by side.

use core::cmp::Ordering;
use vstd::prelude::*;
use vstd::std_specs::cmp::PartialEqSpecImpl;
use vstd::std_specs::cmp::PartialOrdSpecImpl;
use vstd::std_specs::convert::FromSpecImpl;
use crate::genindex::GenIndex;
use crate::unsigned::UnsignedInt;

verus! {

/// A standard [`GenIndex`] that keeps its index and its generation in two fields,
/// `usize` each unless chosen otherwise.
#[derive(Clone, Copy, Debug, Hash)]
pub struct Index<I = usize, G = usize>(I, G);

impl<I: UnsignedInt, G: UnsignedInt> Index<I, G> {
    /// The index part as it is stored.
    pub closed spec fn raw_index(&self) -> I {
        self.0
    }

    /// The generation part as it is stored.
    pub closed spec fn raw_generation(&self) -> G {
        self.1
    }

    /// Two handles with the same parts are the same value.
    pub proof fn lemma_parts_determine(a: Self, b: Self)
        requires
            a.spec_index() == b.spec_index(),
            a.spec_generation() == b.spec_generation(),
        ensures
            a == b,
    {
        I::lemma_value_injective(a.0, b.0);
        G::lemma_value_injective(a.1, b.1);
    }

    /// The handle is the pair of its stored parts.
    pub proof fn lemma_is_pair(&self)
        ensures
            *self == <Self as GenIndex>::spec_from_raw_parts(
                self.raw_index(),
                self.raw_generation(),
            ),
            self.spec_index() == self.raw_index().value(),
            self.spec_generation() == self.raw_generation().value(),
    {
    }
}

impl<I: UnsignedInt, G: UnsignedInt> GenIndex for Index<I, G> {
    type Index = I;

    type Generation = G;

    closed spec fn spec_index(&self) -> nat {
        self.0.value()
    }

    closed spec fn spec_generation(&self) -> nat {
        self.1.value()
    }

    open spec fn spec_max_generation() -> nat {
        G::max_nat()
    }

    closed spec fn spec_from_raw_parts(index: I, generation: G) -> Self {
        Index(index, generation)
    }

    proof fn lemma_round_trip(index: I, generation: G) {
        let r = Self::spec_from_raw_parts(index, generation);
        assert(r == Index(index, generation));
        assert(r.spec_index() == index.value());
        assert(r.spec_generation() == generation.value());
    }

    proof fn lemma_parts_in_range(&self) {
        self.0.lemma_value_in_range();
        self.1.lemma_value_in_range();
    }

    proof fn lemma_max_generation_bounds() {
        G::lemma_max_at_least_two();
        assert(Self::spec_max_generation() == G::max_nat());
    }

    fn max_generation() -> (g: G) {
        G::max_value()
    }

    fn from_raw_parts(index: I, generation: G) -> (r: Self)
        ensures
            r.spec_index() == index.value(),
            r.spec_generation() == generation.value(),
            r.raw_index() == index,
            r.raw_generation() == generation,
    {
        let r = Index(index, generation);
        assert(r == Self::spec_from_raw_parts(index, generation));
        r
    }

    fn index(&self) -> (i: I)
        ensures
            i == self.raw_index(),
    {
        self.0
    }

    fn generation(&self) -> (g: G)
        ensures
            g == self.raw_generation(),
    {
        self.1
    }
}

impl<I: UnsignedInt, G: UnsignedInt> From<Index<I, G>> for (I, G) {
    fn from(idx: Index<I, G>) -> (r: Self) {
        (idx.0, idx.1)
    }
}

impl<I: UnsignedInt, G: UnsignedInt> FromSpecImpl<Index<I, G>> for (I, G) {
    open spec fn obeys_from_spec() -> bool {
        true
    }

    open spec fn from_spec(idx: Index<I, G>) -> Self {
        (idx.raw_index(), idx.raw_generation())
    }
}

impl<I: UnsignedInt, G: UnsignedInt> From<(I, G)> for Index<I, G> {
    fn from(parts: (I, G)) -> (r: Self) {
        Index(parts.0, parts.1)
    }
}

impl<I: UnsignedInt, G: UnsignedInt> FromSpecImpl<(I, G)> for Index<I, G> {
    open spec fn obeys_from_spec() -> bool {
        true
    }

    open spec fn from_spec(parts: (I, G)) -> Self {
        <Self as GenIndex>::spec_from_raw_parts(parts.0, parts.1)
    }
}

impl<I: UnsignedInt, G: UnsignedInt> Default for Index<I, G> {
    /// The null handle.
    fn default() -> (r: Self)
        ensures
            r.spec_index() == 0,
            r.spec_generation() == 0,
    {
        Index(I::zero(), G::zero())
    }
}

impl<I: UnsignedInt, G: UnsignedInt> PartialEq for Index<I, G> {
    fn eq(&self, other: &Self) -> (r: bool) {
        let r = self.0.same(other.0) && self.1.same(other.1);
        proof {
            if r {
                Self::lemma_parts_determine(*self, *other);
            }
        }
        r
    }
}

impl<I: UnsignedInt, G: UnsignedInt> PartialEqSpecImpl for Index<I, G> {
    open spec fn obeys_eq_spec() -> bool {
        true
    }

    open spec fn eq_spec(&self, other: &Self) -> bool {
        *self == *other
    }
}

impl<I: UnsignedInt, G: UnsignedInt> Eq for Index<I, G> {
}

impl<I: UnsignedInt, G: UnsignedInt> PartialOrd for Index<I, G> {
    /// Handles are ordered by index. Two handles of one index are equal when
    /// their generations agree, and cannot be compared when they do not.
    fn partial_cmp(&self, other: &Self) -> (r: Option<Ordering>) {
        if self.0.below(other.0) {
            Some(Ordering::Less)
        } else if other.0.below(self.0) {
            Some(Ordering::Greater)
        } else if self.1.same(other.1) {
            Some(Ordering::Equal)
        } else {
            None
        }
    }
}

impl<I: UnsignedInt, G: UnsignedInt> PartialOrdSpecImpl for Index<I, G> {
    open spec fn obeys_partial_cmp_spec() -> bool {
        true
    }

    open spec fn partial_cmp_spec(&self, other: &Self) -> Option<Ordering> {
        if self.spec_index() < other.spec_index() {
            Some(Ordering::Less)
        } else if self.spec_index() > other.spec_index() {
            Some(Ordering::Greater)
        } else if self.spec_generation() == other.spec_generation() {
            Some(Ordering::Equal)
        } else {
            None
        }
    }
}

} // verus!
