//! 256-bit unsigned integers held as two 128-bit words. The arithmetic is
//! delegated to `ethnum::U256`; comparisons are computed here.
use crate::bits::{bit_len, lemma_pow2_256, nat_xor, pow2_128};
use crate::felt::{be_bytes, be_value};
use vstd::arithmetic::mul::*;
use vstd::arithmetic::power2::*;
use vstd::prelude::*;

verus! {

/// A 256-bit unsigned integer, `high * 2^128 + low`.
#[derive(Clone, Copy, Debug, PartialEq, Eq, Hash, Structural)]
pub struct U256 {
    pub high: u128,
    pub low: u128,
}

impl U256 {
    /// The number this value stands for.
    pub open spec fn value(self) -> nat {
        self.high as nat * pow2_128() + self.low as nat
    }

    pub fn zero() -> (r: U256)
        ensures
            r.value() == 0,
    {
        U256 { high: 0, low: 0 }
    }

    pub fn one() -> (r: U256)
        ensures
            r.value() == 1,
    {
        U256 { high: 0, low: 1 }
    }

    /// Creates the number `high * 2^128 + low`.
    pub fn from_words(high: u128, low: u128) -> (r: U256)
        ensures
            r.high == high,
            r.low == low,
    {
        U256 { high, low }
    }

    pub fn from_u128(x: u128) -> (r: U256)
        ensures
            r.value() == x,
    {
        U256 { high: 0, low: x }
    }

    /// Strictly less than, as numbers.
    pub fn lt(&self, other: &U256) -> (r: bool)
        ensures
            r == (self.value() < other.value()),
    {
        proof {
            lemma_value_lex(*self, *other);
        }
        self.high < other.high || (self.high == other.high && self.low < other.low)
    }

    /// Less than or equal, as numbers.
    pub fn le(&self, other: &U256) -> (r: bool)
        ensures
            r == (self.value() <= other.value()),
    {
        proof {
            lemma_value_lex(*self, *other);
        }
        self.high < other.high || (self.high == other.high && self.low <= other.low)
    }

    /// Equality, as numbers.
    pub fn eq(&self, other: &U256) -> (r: bool)
        ensures
            r == (self.value() == other.value()),
            r == (*self == *other),
    {
        proof {
            lemma_value_lex(*self, *other);
        }
        self.high == other.high && self.low == other.low
    }

    pub fn is_zero(&self) -> (r: bool)
        ensures
            r == (self.value() == 0),
    {
        self.high == 0 && self.low == 0
    }
}

/// The value of a `U256` is below `2^256`.
pub proof fn lemma_value_bound(x: U256)
    ensures
        x.value() < pow2(256),
{
    lemma_pow2_256();
    lemma_mul_inequality(x.high as int, (pow2_128() - 1) as int, pow2_128() as int);
}

/// Numbers given by two words compare as the word pairs do lexicographically.
pub proof fn lemma_value_lex(a: U256, b: U256)
    ensures
        a.high < b.high ==> a.value() < b.value(),
        a.high > b.high ==> a.value() > b.value(),
        a.high == b.high ==> (a.value() < b.value() <==> a.low < b.low),
        a.value() == b.value() <==> a == b,
{
    if a.high < b.high {
        lemma_mul_inequality((a.high + 1) as int, b.high as int, pow2_128() as int);
    }
    if a.high > b.high {
        lemma_mul_inequality((b.high + 1) as int, a.high as int, pow2_128() as int);
    }
}

/// `U256::to_be_bytes` of `ethnum`: the 32-byte big-endian form.
#[verifier::external_body]
pub(crate) fn u256_to_be_bytes(a: U256) -> (r: Vec<u8>)
    ensures
        r@ == be_bytes(a.value(), 32),
{
    ethnum::U256::from_words(a.high, a.low).to_be_bytes().to_vec()
}

/// `(a << k)` computed by `ethnum`; bits moved past position 255 are lost.
#[verifier::external_body]
pub(crate) fn u256_shl(a: U256, k: u32) -> (r: U256)
    requires
        k < 256,
    ensures
        r.value() == (a.value() * pow2(k as nat)) % pow2(256),
{
    let (high, low) = (ethnum::U256::from_words(a.high, a.low) << k).into_words();
    U256 { high, low }
}

/// `(a >> k)` computed by `ethnum`.
#[verifier::external_body]
pub(crate) fn u256_shr(a: U256, k: u32) -> (r: U256)
    requires
        k < 256,
    ensures
        r.value() == a.value() / pow2(k as nat),
{
    let (high, low) = (ethnum::U256::from_words(a.high, a.low) >> k).into_words();
    U256 { high, low }
}

/// `a + b` computed by `ethnum`, which panics on overflow; the sum must fit.
#[verifier::external_body]
pub(crate) fn u256_add(a: U256, b: U256) -> (r: U256)
    requires
        a.value() + b.value() < pow2(256),
    ensures
        r.value() == a.value() + b.value(),
{
    let sum = ethnum::U256::from_words(a.high, a.low) + ethnum::U256::from_words(b.high, b.low);
    let (high, low) = sum.into_words();
    U256 { high, low }
}

/// `a - b` computed by `ethnum`, which panics on underflow; `b` must not exceed `a`.
#[verifier::external_body]
pub(crate) fn u256_sub(a: U256, b: U256) -> (r: U256)
    requires
        b.value() <= a.value(),
    ensures
        r.value() == a.value() - b.value(),
{
    let diff = ethnum::U256::from_words(a.high, a.low) - ethnum::U256::from_words(b.high, b.low);
    let (high, low) = diff.into_words();
    U256 { high, low }
}

/// `a * b` computed by `ethnum`, which panics on overflow; the product must fit.
#[verifier::external_body]
pub(crate) fn u256_mul(a: U256, b: U256) -> (r: U256)
    requires
        a.value() * b.value() < pow2(256),
    ensures
        r.value() == a.value() * b.value(),
{
    let prod = ethnum::U256::from_words(a.high, a.low) * ethnum::U256::from_words(b.high, b.low);
    let (high, low) = prod.into_words();
    U256 { high, low }
}

/// `a ^ b` computed by `ethnum`.
#[verifier::external_body]
pub(crate) fn u256_xor(a: U256, b: U256) -> (r: U256)
    ensures
        r.value() == nat_xor(a.value(), b.value()),
{
    let x = ethnum::U256::from_words(a.high, a.low) ^ ethnum::U256::from_words(b.high, b.low);
    let (high, low) = x.into_words();
    U256 { high, low }
}

/// `a.leading_zeros()` computed by `ethnum`: the number of zero digits before the
/// first one digit in the 256-digit binary form.
#[verifier::external_body]
pub(crate) fn u256_leading_zeros(a: U256) -> (r: u32)
    ensures
        r == 256 - bit_len(a.value()),
{
    ethnum::U256::from_words(a.high, a.low).leading_zeros()
}

} // verus!
