//! The packed 64-bit encoding of a handle.

use core::cmp::Ordering;
use vstd::prelude::*;
use vstd::std_specs::cmp::PartialOrdSpecImpl;
use vstd::std_specs::convert::FromSpecImpl;
use crate::genindex::GenIndex;
use crate::unsigned::UnsignedInt;

verus! {

/// A [`GenIndex`] stored in one `u64`: the index in the low 32 bits, the
/// generation in the high 32 bits.
#[derive(Clone, Copy, Debug, Hash, PartialEq, Eq, Structural)]
pub struct IndexU64(u64);

/// The low 32 bits of a packed word.
pub open spec fn low_word(bits: u64) -> u32 {
    (bits & 0xFFFF_FFFF) as u32
}

/// The high 32 bits of a packed word.
pub open spec fn high_word(bits: u64) -> u32 {
    (bits >> 32) as u32
}

/// The word with `low` in its low 32 bits and `high` in its high 32 bits.
pub open spec fn pack_words(low: u32, high: u32) -> u64 {
    (low as u64) | ((high as u64) << 32)
}

/// Packing two words loses nothing: both can be read back.
pub proof fn lemma_pack_words(low: u32, high: u32)
    ensures
        low_word(pack_words(low, high)) == low,
        high_word(pack_words(low, high)) == high,
{
    let l = low as u64;
    let h = high as u64;
    assert(((l | (h << 32)) & 0xFFFF_FFFF) == l && ((l | (h << 32)) >> 32) == h) by (bit_vector)
        requires
            l <= 0xFFFF_FFFF,
            h <= 0xFFFF_FFFF,
    ;
}

/// A word is the packing of its two halves.
pub proof fn lemma_unpack_words(bits: u64)
    ensures
        pack_words(low_word(bits), high_word(bits)) == bits,
{
    let l = bits & 0xFFFF_FFFF;
    let h = bits >> 32;
    assert(l <= 0xFFFF_FFFF && h <= 0xFFFF_FFFF && (l | (h << 32)) == bits) by (bit_vector)
        requires
            l == bits & 0xFFFF_FFFF,
            h == bits >> 32,
    ;
}

impl IndexU64 {
    /// The packed word.
    pub closed spec fn bits(&self) -> u64 {
        self.0
    }

    /// Two handles with the same parts hold the same word.
    pub proof fn lemma_parts_determine(a: Self, b: Self)
        requires
            a.spec_index() == b.spec_index(),
            a.spec_generation() == b.spec_generation(),
        ensures
            a == b,
    {
        lemma_unpack_words(a.0);
        lemma_unpack_words(b.0);
    }

    /// The parts are the two halves of the packed word.
    pub proof fn lemma_parts_of_bits(&self)
        ensures
            self.spec_index() == low_word(self.bits()),
            self.spec_generation() == high_word(self.bits()),
    {
    }
}

impl GenIndex for IndexU64 {
    type Index = u32;

    type Generation = u32;

    closed spec fn spec_index(&self) -> nat {
        low_word(self.0) as nat
    }

    closed spec fn spec_generation(&self) -> nat {
        high_word(self.0) as nat
    }

    open spec fn spec_max_generation() -> nat {
        u32::MAX as nat
    }

    closed spec fn spec_from_raw_parts(index: u32, generation: u32) -> Self {
        IndexU64(pack_words(index, generation))
    }

    proof fn lemma_round_trip(index: u32, generation: u32) {
        lemma_pack_words(index, generation);
        let r = Self::spec_from_raw_parts(index, generation);
        assert(r.0 == pack_words(index, generation));
        assert(r.spec_index() == index);
        assert(r.spec_generation() == generation);
        assert(index.value() == index as nat);
        assert(generation.value() == generation as nat);
    }

    proof fn lemma_parts_in_range(&self) {
        assert(self.spec_index() == low_word(self.0));
        assert(self.spec_generation() == high_word(self.0));
        assert(<u32 as UnsignedInt>::max_nat() == u32::MAX as nat);
    }

    proof fn lemma_max_generation_bounds() {
        assert(Self::spec_max_generation() == u32::MAX);
        assert(<u32 as UnsignedInt>::max_nat() == u32::MAX as nat);
    }

    fn max_generation() -> (g: u32) {
        u32::MAX
    }

    fn from_raw_parts(index: u32, generation: u32) -> (r: Self)
        ensures
            r.spec_index() == index,
            r.spec_generation() == generation,
            r.bits() == pack_words(index, generation),
    {
        proof {
            lemma_pack_words(index, generation);
        }
        let r = IndexU64((index as u64) | ((generation as u64) << 32));
        assert(r == Self::spec_from_raw_parts(index, generation));
        r
    }

    fn index(&self) -> (i: u32)
        ensures
            i == low_word(self.bits()),
    {
        let bits = self.0;
        assert(bits & 0xFFFF_FFFF <= 0xFFFF_FFFF) by (bit_vector);
        (bits & (u32::MAX as u64)) as u32
    }

    fn generation(&self) -> (g: u32)
        ensures
            g == high_word(self.bits()),
    {
        let bits = self.0;
        assert(bits >> 32 <= 0xFFFF_FFFF) by (bit_vector);
        (bits >> 32) as u32
    }
}

impl Default for IndexU64 {
    /// The null handle: the word zero.
    fn default() -> (r: Self)
        ensures
            r.bits() == 0,
            r.spec_index() == 0,
            r.spec_generation() == 0,
    {
        assert(0u64 & 0xFFFF_FFFF == 0 && 0u64 >> 32 == 0) by (bit_vector);
        IndexU64(0)
    }
}

impl PartialOrd for IndexU64 {
    /// Handles are ordered by index. Two handles of one index are equal when
    /// their generations agree, and cannot be compared when they do not.
    fn partial_cmp(&self, other: &Self) -> (r: Option<Ordering>) {
        let mine = self.index();
        let theirs = other.index();
        if mine < theirs {
            Some(Ordering::Less)
        } else if mine > theirs {
            Some(Ordering::Greater)
        } else if self.generation() == other.generation() {
            Some(Ordering::Equal)
        } else {
            None
        }
    }
}

impl PartialOrdSpecImpl for IndexU64 {
    open spec fn obeys_partial_cmp_spec() -> bool {
        true
    }

    open spec fn partial_cmp_spec(&self, other: &Self) -> Option<Ordering> {
        if self.spec_index() < other.spec_index() {
            Some(Ordering::Less)
        } else if self.spec_index() > other.spec_index() {
            Some(Ordering::Greater)
        } else if self.spec_generation() == other.spec_generation() {
            Some(Ordering::Equal)
        } else {
            None
        }
    }
}

impl From<IndexU64> for (u32, u32) {
    fn from(idx: IndexU64) -> (r: Self) {
        (idx.index(), idx.generation())
    }
}

impl FromSpecImpl<IndexU64> for (u32, u32) {
    open spec fn obeys_from_spec() -> bool {
        true
    }

    open spec fn from_spec(idx: IndexU64) -> Self {
        (low_word(idx.bits()), high_word(idx.bits()))
    }
}

impl From<(u32, u32)> for IndexU64 {
    fn from(parts: (u32, u32)) -> (r: Self) {
        IndexU64::from_raw_parts(parts.0, parts.1)
    }
}

impl FromSpecImpl<(u32, u32)> for IndexU64 {
    open spec fn obeys_from_spec() -> bool {
        true
    }

    open spec fn from_spec(parts: (u32, u32)) -> Self {
        <Self as GenIndex>::spec_from_raw_parts(parts.0, parts.1)
    }
}

impl From<IndexU64> for u64 {
    fn from(idx: IndexU64) -> (r: Self) {
        idx.0
    }
}

impl FromSpecImpl<IndexU64> for u64 {
    open spec fn obeys_from_spec() -> bool {
        true
    }

    open spec fn from_spec(idx: IndexU64) -> Self {
        idx.bits()
    }
}

impl From<u64> for IndexU64 {
    fn from(value: u64) -> (r: Self)
        ensures
            r.bits() == value,
    {
        IndexU64(value)
    }
}

impl FromSpecImpl<u64> for IndexU64 {
    open spec fn obeys_from_spec() -> bool {
        true
    }

    closed spec fn from_spec(value: u64) -> Self {
        IndexU64(value)
    }
}

} // verus!
