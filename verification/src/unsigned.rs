//! Unsigned machine integers as the raw parts of a handle.

use vstd::prelude::*;

verus! {

/// An unsigned integer type that can serve as the index or the generation of a handle.
///
/// Every value stands for a natural number, `value()`, between zero and `max_nat()`;
/// two values that stand for the same number are the same value.
pub trait UnsignedInt: Copy + Sized {
    /// The number that the value stands for.
    spec fn value(self) -> nat;

    /// The largest number that the type can hold.
    spec fn max_nat() -> nat;

    /// No value exceeds `max_nat()`.
    proof fn lemma_value_in_range(self)
        ensures
            self.value() <= Self::max_nat(),
    ;

    /// The number determines the value.
    proof fn lemma_value_injective(a: Self, b: Self)
        requires
            a.value() == b.value(),
        ensures
            a == b,
    ;

    /// The type holds at least the numbers 0, 1 and 2.
    proof fn lemma_max_at_least_two()
        ensures
            Self::max_nat() >= 2,
    ;

    /// The value that stands for 0.
    fn zero() -> (r: Self)
        ensures
            r.value() == 0,
    ;

    /// The value that stands for 1.
    fn one() -> (r: Self)
        ensures
            r.value() == 1,
    ;

    /// The value that stands for `max_nat()`.
    fn max_value() -> (r: Self)
        ensures
            r.value() == Self::max_nat(),
    ;

    /// The next number; the caller rules out overflow.
    fn succ(self) -> (r: Self)
        requires
            self.value() < Self::max_nat(),
        ensures
            r.value() == self.value() + 1,
    ;

    /// Whether both values stand for the same number.
    fn same(self, other: Self) -> (b: bool)
        ensures
            b == (self.value() == other.value()),
            b == (self == other),
    ;

    /// Whether `self` stands for a smaller number than `other`.
    fn below(self, other: Self) -> (b: bool)
        ensures
            b == (self.value() < other.value()),
    ;

    /// The number as a `usize`, or `None` where `usize` cannot hold it.
    fn to_usize(self) -> (r: Option<usize>)
        ensures
            self.value() <= usize::MAX ==> r == Some(self.value() as usize),
            self.value() > usize::MAX ==> r is None,
    ;

    /// The value that stands for `i`, or `None` where the type cannot hold it.
    fn from_usize(i: usize) -> (r: Option<Self>)
        ensures
            i <= Self::max_nat() ==> r is Some && r.unwrap().value() == i,
            i > Self::max_nat() ==> r is None,
    ;
}

/// `<u8 as num::Zero>::zero`, which returns the literal 0.
#[verifier::external_body]
fn num_zero_u8() -> (r: u8)
    ensures
        r == 0,
{
    <u8 as num::Zero>::zero()
}

/// `<u8 as num::One>::one`, which returns the literal 1.
#[verifier::external_body]
fn num_one_u8() -> (r: u8)
    ensures
        r == 1,
{
    <u8 as num::One>::one()
}

/// `<u8 as num::Bounded>::max_value`, which returns `u8::MAX`.
#[verifier::external_body]
fn num_max_value_u8() -> (r: u8)
    ensures
        r == u8::MAX,
{
    <u8 as num::Bounded>::max_value()
}

impl UnsignedInt for u8 {
    open spec fn value(self) -> nat {
        self as nat
    }

    open spec fn max_nat() -> nat {
        u8::MAX as nat
    }

    proof fn lemma_value_in_range(self) {
    }

    proof fn lemma_value_injective(a: Self, b: Self) {
    }

    proof fn lemma_max_at_least_two() {
    }

    fn zero() -> (r: Self) {
        num_zero_u8()
    }

    fn one() -> (r: Self) {
        num_one_u8()
    }

    fn max_value() -> (r: Self) {
        num_max_value_u8()
    }

    fn succ(self) -> (r: Self) {
        self + num_one_u8()
    }

    fn same(self, other: Self) -> (b: bool) {
        self == other
    }

    fn below(self, other: Self) -> (b: bool) {
        self < other
    }

    fn to_usize(self) -> (r: Option<usize>) {
        Some(usize::from(self))
    }

    fn from_usize(i: usize) -> (r: Option<Self>) {
        match u8::try_from(i) {
            Ok(v) => Some(v),
            Err(_) => None,
        }
    }
}

/// `<u16 as num::Zero>::zero`, which returns the literal 0.
#[verifier::external_body]
fn num_zero_u16() -> (r: u16)
    ensures
        r == 0,
{
    <u16 as num::Zero>::zero()
}

/// `<u16 as num::One>::one`, which returns the literal 1.
#[verifier::external_body]
fn num_one_u16() -> (r: u16)
    ensures
        r == 1,
{
    <u16 as num::One>::one()
}

/// `<u16 as num::Bounded>::max_value`, which returns `u16::MAX`.
#[verifier::external_body]
fn num_max_value_u16() -> (r: u16)
    ensures
        r == u16::MAX,
{
    <u16 as num::Bounded>::max_value()
}

impl UnsignedInt for u16 {
    open spec fn value(self) -> nat {
        self as nat
    }

    open spec fn max_nat() -> nat {
        u16::MAX as nat
    }

    proof fn lemma_value_in_range(self) {
    }

    proof fn lemma_value_injective(a: Self, b: Self) {
    }

    proof fn lemma_max_at_least_two() {
    }

    fn zero() -> (r: Self) {
        num_zero_u16()
    }

    fn one() -> (r: Self) {
        num_one_u16()
    }

    fn max_value() -> (r: Self) {
        num_max_value_u16()
    }

    fn succ(self) -> (r: Self) {
        self + num_one_u16()
    }

    fn same(self, other: Self) -> (b: bool) {
        self == other
    }

    fn below(self, other: Self) -> (b: bool) {
        self < other
    }

    fn to_usize(self) -> (r: Option<usize>) {
        Some(usize::from(self))
    }

    fn from_usize(i: usize) -> (r: Option<Self>) {
        match u16::try_from(i) {
            Ok(v) => Some(v),
            Err(_) => None,
        }
    }
}

/// `<u32 as num::Zero>::zero`, which returns the literal 0.
#[verifier::external_body]
fn num_zero_u32() -> (r: u32)
    ensures
        r == 0,
{
    <u32 as num::Zero>::zero()
}

/// `<u32 as num::One>::one`, which returns the literal 1.
#[verifier::external_body]
fn num_one_u32() -> (r: u32)
    ensures
        r == 1,
{
    <u32 as num::One>::one()
}

/// `<u32 as num::Bounded>::max_value`, which returns `u32::MAX`.
#[verifier::external_body]
fn num_max_value_u32() -> (r: u32)
    ensures
        r == u32::MAX,
{
    <u32 as num::Bounded>::max_value()
}

impl UnsignedInt for u32 {
    open spec fn value(self) -> nat {
        self as nat
    }

    open spec fn max_nat() -> nat {
        u32::MAX as nat
    }

    proof fn lemma_value_in_range(self) {
    }

    proof fn lemma_value_injective(a: Self, b: Self) {
    }

    proof fn lemma_max_at_least_two() {
    }

    fn zero() -> (r: Self) {
        num_zero_u32()
    }

    fn one() -> (r: Self) {
        num_one_u32()
    }

    fn max_value() -> (r: Self) {
        num_max_value_u32()
    }

    fn succ(self) -> (r: Self) {
        self + num_one_u32()
    }

    fn same(self, other: Self) -> (b: bool) {
        self == other
    }

    fn below(self, other: Self) -> (b: bool) {
        self < other
    }

    fn to_usize(self) -> (r: Option<usize>) {
        match usize::try_from(self) {
            Ok(v) => Some(v),
            Err(_) => None,
        }
    }

    fn from_usize(i: usize) -> (r: Option<Self>) {
        match u32::try_from(i) {
            Ok(v) => Some(v),
            Err(_) => None,
        }
    }
}

/// `<u64 as num::Zero>::zero`, which returns the literal 0.
#[verifier::external_body]
fn num_zero_u64() -> (r: u64)
    ensures
        r == 0,
{
    <u64 as num::Zero>::zero()
}

/// `<u64 as num::One>::one`, which returns the literal 1.
#[verifier::external_body]
fn num_one_u64() -> (r: u64)
    ensures
        r == 1,
{
    <u64 as num::One>::one()
}

/// `<u64 as num::Bounded>::max_value`, which returns `u64::MAX`.
#[verifier::external_body]
fn num_max_value_u64() -> (r: u64)
    ensures
        r == u64::MAX,
{
    <u64 as num::Bounded>::max_value()
}

impl UnsignedInt for u64 {
    open spec fn value(self) -> nat {
        self as nat
    }

    open spec fn max_nat() -> nat {
        u64::MAX as nat
    }

    proof fn lemma_value_in_range(self) {
    }

    proof fn lemma_value_injective(a: Self, b: Self) {
    }

    proof fn lemma_max_at_least_two() {
    }

    fn zero() -> (r: Self) {
        num_zero_u64()
    }

    fn one() -> (r: Self) {
        num_one_u64()
    }

    fn max_value() -> (r: Self) {
        num_max_value_u64()
    }

    fn succ(self) -> (r: Self) {
        self + num_one_u64()
    }

    fn same(self, other: Self) -> (b: bool) {
        self == other
    }

    fn below(self, other: Self) -> (b: bool) {
        self < other
    }

    fn to_usize(self) -> (r: Option<usize>) {
        match usize::try_from(self) {
            Ok(v) => Some(v),
            Err(_) => None,
        }
    }

    fn from_usize(i: usize) -> (r: Option<Self>) {
        match u64::try_from(i) {
            Ok(v) => Some(v),
            Err(_) => None,
        }
    }
}

/// `<usize as num::Zero>::zero`, which returns the literal 0.
#[verifier::external_body]
fn num_zero_usize() -> (r: usize)
    ensures
        r == 0,
{
    <usize as num::Zero>::zero()
}

/// `<usize as num::One>::one`, which returns the literal 1.
#[verifier::external_body]
fn num_one_usize() -> (r: usize)
    ensures
        r == 1,
{
    <usize as num::One>::one()
}

/// `<usize as num::Bounded>::max_value`, which returns `usize::MAX`.
#[verifier::external_body]
fn num_max_value_usize() -> (r: usize)
    ensures
        r == usize::MAX,
{
    <usize as num::Bounded>::max_value()
}

impl UnsignedInt for usize {
    open spec fn value(self) -> nat {
        self as nat
    }

    open spec fn max_nat() -> nat {
        usize::MAX as nat
    }

    proof fn lemma_value_in_range(self) {
    }

    proof fn lemma_value_injective(a: Self, b: Self) {
    }

    proof fn lemma_max_at_least_two() {
    }

    fn zero() -> (r: Self) {
        num_zero_usize()
    }

    fn one() -> (r: Self) {
        num_one_usize()
    }

    fn max_value() -> (r: Self) {
        num_max_value_usize()
    }

    fn succ(self) -> (r: Self) {
        self + num_one_usize()
    }

    fn same(self, other: Self) -> (b: bool) {
        self == other
    }

    fn below(self, other: Self) -> (b: bool) {
        self < other
    }

    fn to_usize(self) -> (r: Option<usize>) {
        Some(self)
    }

    fn from_usize(i: usize) -> (r: Option<Self>) {
        Some(i)
    }
}

} // verus!
