//! The packed encoding of a handle that fits a double-precision float.

use core::cmp::Ordering;
use vstd::prelude::*;
use vstd::std_specs::cmp::PartialEqSpecImpl;
use vstd::std_specs::cmp::PartialOrdSpecImpl;
use vstd::std_specs::convert::FromSpecImpl;
use crate::genindex::GenIndex;
use crate::indexu64::{high_word, low_word, pack_words};
use crate::unsigned::UnsignedInt;

verus! {

/// The largest generation of an [`IndexF64`]: 2^21 - 1. A double holds every
/// integer below 2^53 exactly; 32 bits go to the index, which leaves 21.
pub const MAX_SAFE_GENERATION: u32 = 0x1F_FFFF;

/// The largest integer that an [`IndexF64`] packs: 2^53 - 1.
pub const MAX_SAFE_VALUE: u64 = 0x1F_FFFF_FFFF_FFFF;

/// A [`GenIndex`] with a 32-bit index and a 21-bit generation, packed into an
/// integer that a double-precision float represents exactly. It serves hosts
/// whose only number type is the double.
///
/// The handle keeps the integer; turning it into a float and back is a cast
/// that the caller makes.
#[derive(Clone, Copy, Debug, Hash)]
pub struct IndexF64(u64);

/// The generation that a packed word holds once it is cut down to 21 bits.
pub open spec fn safe_generation(generation: u32) -> u32 {
    generation & MAX_SAFE_GENERATION
}

/// A word made of an index and a generation of at most 21 bits is at most
/// 2^53 - 1, and both parts can be read back.
pub proof fn lemma_pack_safe(index: u32, generation: u32)
    ensures
        safe_generation(generation) <= MAX_SAFE_GENERATION,
        generation <= MAX_SAFE_GENERATION ==> safe_generation(generation) == generation,
        pack_words(index, safe_generation(generation)) <= MAX_SAFE_VALUE,
        low_word(pack_words(index, safe_generation(generation))) == index,
        safe_generation(high_word(pack_words(index, safe_generation(generation))))
            == safe_generation(generation),
{
    let l = index as u64;
    let g = generation;
    assert(g & 0x1F_FFFF <= 0x1F_FFFF) by (bit_vector);
    assert(g <= 0x1F_FFFF ==> g & 0x1F_FFFF == g) by (bit_vector);
    let h = (g & 0x1F_FFFF) as u64;
    assert((l | (h << 32)) <= 0x1F_FFFF_FFFF_FFFF && ((l | (h << 32)) & 0xFFFF_FFFF) == l && ((l
        | (h << 32)) >> 32) == h) by (bit_vector)
        requires
            l <= 0xFFFF_FFFF,
            h <= 0x1F_FFFF,
    ;
    let m = g & 0x1F_FFFF;
    assert(m & 0x1F_FFFF == m) by (bit_vector)
        requires
            m == g & 0x1F_FFFF,
    ;
}

impl IndexF64 {
    /// The packed integer.
    pub closed spec fn bits(&self) -> u64 {
        self.0
    }

    #[verifier::type_invariant]
    spec fn in_safe_range(&self) -> bool {
        self.0 <= MAX_SAFE_VALUE
    }

    /// The parts are the low word and the 21 low bits of the high word.
    pub proof fn lemma_parts_of_bits(&self)
        ensures
            self.spec_index() == low_word(self.bits()),
            self.spec_generation() == safe_generation(high_word(self.bits())),
    {
    }

    /// Builds the handle that the integer `value` packs. Bits above the 53rd
    /// are dropped.
    pub fn from_integer(value: u64) -> (r: Self)
        ensures
            r.bits() == value & MAX_SAFE_VALUE,
    {
        assert(value & 0x1F_FFFF_FFFF_FFFF <= 0x1F_FFFF_FFFF_FFFF) by (bit_vector);
        IndexF64(value & MAX_SAFE_VALUE)
    }

    /// Returns the packed integer, which is at most 2^53 - 1.
    pub fn to_integer(&self) -> (r: u64)
        ensures
            r == self.bits(),
            r <= MAX_SAFE_VALUE,
    {
        proof {
            use_type_invariant(self);
        }
        self.0
    }
}

impl GenIndex for IndexF64 {
    type Index = u32;

    type Generation = u32;

    closed spec fn spec_index(&self) -> nat {
        low_word(self.0) as nat
    }

    closed spec fn spec_generation(&self) -> nat {
        safe_generation(high_word(self.0)) as nat
    }

    open spec fn spec_max_generation() -> nat {
        MAX_SAFE_GENERATION as nat
    }

    closed spec fn spec_from_raw_parts(index: u32, generation: u32) -> Self {
        IndexF64(pack_words(index, safe_generation(generation)))
    }

    proof fn lemma_round_trip(index: u32, generation: u32) {
        lemma_pack_safe(index, generation);
        let r = Self::spec_from_raw_parts(index, generation);
        assert(r.0 == pack_words(index, safe_generation(generation)));
        assert(r.spec_index() == index);
        assert(r.spec_generation() == safe_generation(generation));
        assert(index.value() == index as nat);
        assert(generation.value() == generation as nat);
        assert(Self::spec_max_generation() == MAX_SAFE_GENERATION);
    }

    proof fn lemma_parts_in_range(&self) {
        let g = high_word(self.0);
        assert(g & 0x1F_FFFF <= 0x1F_FFFF) by (bit_vector);
        assert(self.spec_index() == low_word(self.0));
        assert(self.spec_generation() == safe_generation(g));
        assert(<u32 as UnsignedInt>::max_nat() == u32::MAX as nat);
        assert(Self::spec_max_generation() == MAX_SAFE_GENERATION);
    }

    proof fn lemma_max_generation_bounds() {
        assert(Self::spec_max_generation() == MAX_SAFE_GENERATION);
        assert(<u32 as UnsignedInt>::max_nat() == u32::MAX as nat);
    }

    fn max_generation() -> (g: u32) {
        MAX_SAFE_GENERATION
    }

    /// Builds a handle from its parts. Of the generation only the 21 low bits
    /// are kept.
    fn from_raw_parts(index: u32, generation: u32) -> (r: Self)
        ensures
            r.spec_index() == index,
            r.spec_generation() == safe_generation(generation),
            r.bits() == pack_words(index, safe_generation(generation)),
    {
        proof {
            lemma_pack_safe(index, generation);
        }
        let r = IndexF64((index as u64) | (((generation & MAX_SAFE_GENERATION) as u64) << 32));
        assert(r == Self::spec_from_raw_parts(index, generation));
        r
    }

    fn index(&self) -> (i: u32)
        ensures
            i == low_word(self.bits()),
    {
        let bits = self.0;
        assert(bits & 0xFFFF_FFFF <= 0xFFFF_FFFF) by (bit_vector);
        (bits & (u32::MAX as u64)) as u32
    }

    fn generation(&self) -> (g: u32)
        ensures
            g == high_word(self.bits()),
            g <= MAX_SAFE_GENERATION,
    {
        proof {
            use_type_invariant(self);
        }
        let bits = self.0;
        assert(bits >> 32 <= 0x1F_FFFF && ((bits >> 32) as u32) & 0x1F_FFFF == (bits >> 32) as u32)
            by (bit_vector)
            requires
                bits <= 0x1F_FFFF_FFFF_FFFF,
        ;
        (bits >> 32) as u32
    }
}

impl Default for IndexF64 {
    /// The null handle: the integer zero.
    fn default() -> (r: Self)
        ensures
            r.bits() == 0,
            r.spec_index() == 0,
            r.spec_generation() == 0,
    {
        assert(0u64 & 0xFFFF_FFFF == 0 && ((0u64 >> 32) as u32) & 0x1F_FFFF == 0) by (bit_vector);
        IndexF64(0)
    }
}

impl PartialEq for IndexF64 {
    fn eq(&self, other: &Self) -> (r: bool) {
        self.0 == other.0
    }
}

impl PartialEqSpecImpl for IndexF64 {
    open spec fn obeys_eq_spec() -> bool {
        true
    }

    open spec fn eq_spec(&self, other: &Self) -> bool {
        self.bits() == other.bits()
    }
}

impl PartialOrd for IndexF64 {
    /// Handles are ordered by index. Two handles of one index are equal when
    /// they pack the same integer, and cannot be compared when they do not.
    fn partial_cmp(&self, other: &Self) -> (r: Option<Ordering>) {
        if self.0 == other.0 {
            Some(Ordering::Equal)
        } else {
            let mine = self.index();
            let theirs = other.index();
            if mine < theirs {
                Some(Ordering::Less)
            } else if mine > theirs {
                Some(Ordering::Greater)
            } else {
                None
            }
        }
    }
}

impl PartialOrdSpecImpl for IndexF64 {
    open spec fn obeys_partial_cmp_spec() -> bool {
        true
    }

    open spec fn partial_cmp_spec(&self, other: &Self) -> Option<Ordering> {
        if self.bits() == other.bits() {
            Some(Ordering::Equal)
        } else if low_word(self.bits()) < low_word(other.bits()) {
            Some(Ordering::Less)
        } else if low_word(self.bits()) > low_word(other.bits()) {
            Some(Ordering::Greater)
        } else {
            None
        }
    }
}

impl From<IndexF64> for (u32, u32) {
    fn from(idx: IndexF64) -> (r: Self) {
        (idx.index(), idx.generation())
    }
}

impl FromSpecImpl<IndexF64> for (u32, u32) {
    open spec fn obeys_from_spec() -> bool {
        true
    }

    open spec fn from_spec(idx: IndexF64) -> Self {
        (low_word(idx.bits()), high_word(idx.bits()))
    }
}

impl From<(u32, u32)> for IndexF64 {
    fn from(parts: (u32, u32)) -> (r: Self) {
        IndexF64::from_raw_parts(parts.0, parts.1)
    }
}

impl FromSpecImpl<(u32, u32)> for IndexF64 {
    open spec fn obeys_from_spec() -> bool {
        true
    }

    open spec fn from_spec(parts: (u32, u32)) -> Self {
        <Self as GenIndex>::spec_from_raw_parts(parts.0, parts.1)
    }
}

} // verus!
