//! Field elements of the Stark prime field, held as two 128-bit words. Field
//! operations, parsing and hashing are delegated to `starknet_types_core`.
use crate::bits::{lemma_pow2_128, pow2_128};
use crate::uint256::{lemma_value_lex, U256};
use vstd::arithmetic::mul::*;
use vstd::arithmetic::power2::*;
use starknet_types_core::felt::Felt as CoreFelt;
use starknet_types_core::felt::FromStrError;
use starknet_types_core::hash::StarkHash;
use vstd::prelude::*;

verus! {

/// The Stark prime, `2^251 + 17 * 2^192 + 1`.
pub open spec fn felt_prime() -> nat {
    0x800000000000011000000000000000000000000000000000000000000000001nat
}

/// The number a big-endian byte string stands for.
pub open spec fn be_value(bytes: Seq<u8>) -> nat
    decreases bytes.len(),
{
    if bytes.len() == 0 {
        0
    } else {
        be_value(bytes.drop_last()) * 256 + bytes.last() as nat
    }
}

/// The `n`-byte big-endian form of `v` (its digits above the `n` bytes dropped).
pub open spec fn be_bytes(v: nat, n: nat) -> Seq<u8>
    decreases n,
{
    if n == 0 {
        Seq::empty()
    } else {
        be_bytes(v / 256, (n - 1) as nat).push((v % 256) as u8)
    }
}

/// Reading back the `n`-byte form of a number below `256^n` gives the number.
pub proof fn lemma_be_bytes_value(v: nat, n: nat)
    ensures
        be_bytes(v, n).len() == n,
        v < pow2(8 * n) ==> be_value(be_bytes(v, n)) == v,
    decreases n,
{
    lemma2_to64();
    if n > 0 {
        lemma_be_bytes_value(v / 256, (n - 1) as nat);
        let s = be_bytes(v, n);
        assert(s.drop_last() == be_bytes(v / 256, (n - 1) as nat));
        if v < pow2(8 * n) {
            lemma_pow2_adds(8 * (n - 1) as nat, 8);
            assert(8 * n == 8 * (n - 1) as nat + 8) by (nonlinear_arith) requires n > 0;
            lemma_div_pow2_bound(v, 256, pow2(8 * (n - 1) as nat));
            vstd::arithmetic::div_mod::lemma_fundamental_div_mod(v as int, 256);
            assert(s.last() as nat == v % 256);
        }
    }
}

proof fn lemma_div_pow2_bound(v: nat, d: nat, q: nat)
    requires
        d > 0,
        v < q * d,
    ensures
        v / d < q,
{
    vstd::arithmetic::div_mod::lemma_div_by_multiple_is_strongly_ordered(v as int, (q * d) as int, q as int, d as int);
    vstd::arithmetic::div_mod::lemma_div_by_multiple(q as int, d as int);
}

/// A byte string is the big-endian form of the number it stands for.
pub proof fn lemma_be_value_bytes(s: Seq<u8>)
    ensures
        be_bytes(be_value(s), s.len()) == s,
        be_value(s) < pow2(8 * s.len()),
    decreases s.len(),
{
    if s.len() == 0 {
        lemma2_to64();
        assert(be_bytes(0, 0) =~= s);
    } else {
        let t = s.drop_last();
        lemma_be_value_bytes(t);
        let v = be_value(s);
        assert(v / 256 == be_value(t));
        assert(v % 256 == s.last() as nat);
        assert(be_bytes(v, s.len()) =~= s);
        lemma_pow2_adds(8 * t.len(), 8);
        lemma2_to64();
        assert(8 * s.len() == 8 * t.len() + 8);
        lemma_mul_inequality((be_value(t) + 1) as int, pow2(8 * t.len()) as int, 256);
    }
}

/// The number given by two concatenated byte strings.
#[verifier::spinoff_prover]
pub proof fn lemma_be_value_concat(a: Seq<u8>, b: Seq<u8>)
    ensures
        be_value(a + b) == be_value(a) * pow2(8 * b.len()) + be_value(b),
    decreases b.len(),
{
    if b.len() == 0 {
        lemma2_to64();
        assert(a + b =~= a);
        assert(be_value(b) == 0);
        assert(pow2(8 * b.len()) == 1);
        assert(be_value(a + b) == be_value(a));
        assert(be_value(a) * 1 == be_value(a));
        assert(be_value(a + b) == be_value(a) * pow2(8 * b.len()) + be_value(b));
    } else {
        let bl = b.drop_last();
        lemma_be_value_concat(a, bl);
        assert((a + b).drop_last() =~= a + bl);
        lemma_pow2_adds(8 * bl.len(), 8);
        lemma2_to64();
        assert(8 * b.len() == 8 * bl.len() + 8);
        assert((a + b).last() == b.last());
        assert(b.drop_last() == bl);
        let x = be_value(a);
        let q = pow2(8 * bl.len());
        let y = be_value(bl);
        assert(be_value(a + b) == (x * q + y) * 256 + b.last() as nat);
        assert(be_value(b) == y * 256 + b.last() as nat);
        assert((x * q + y) * 256 == x * (q * 256) + y * 256) by (nonlinear_arith);
        assert(pow2(8 * b.len()) == q * 256);
        assert(be_value(a + b) == x * pow2(8 * b.len()) + be_value(b));
    }
}

/// A field element: a number below the Stark prime.
#[derive(Clone, Copy, Debug, PartialEq, Eq, Hash, Structural)]
pub struct Felt {
    high: u128,
    low: u128,
}

/// The value of a hexadecimal digit, in either case.
pub open spec fn hex_digit_value(c: char) -> Option<nat> {
    if '0' <= c && c <= '9' {
        Some((c as nat - '0' as nat) as nat)
    } else if 'a' <= c && c <= 'f' {
        Some((c as nat - 'a' as nat + 10) as nat)
    } else if 'A' <= c && c <= 'F' {
        Some((c as nat - 'A' as nat + 10) as nat)
    } else {
        None
    }
}

/// The number that hexadecimal digits stand for, most significant first;
/// nothing where a character is not a digit.
pub open spec fn hex_digits_value(s: Seq<char>) -> Option<nat>
    decreases s.len(),
{
    if s.len() == 0 {
        Some(0)
    } else {
        match (hex_digits_value(s.drop_last()), hex_digit_value(s.last())) {
            (Some(v), Some(d)) => Some(16 * v + d),
            _ => None,
        }
    }
}

/// What `starknet_types_core::felt::Felt::from_hex` gives for a string: a
/// `0x` prefix is dropped from a string of more than two characters; the rest
/// must be 1 to 64 hexadecimal digits (either case) of a number at most the
/// prime, which is read modulo the prime (the prime itself is zero).
pub open spec fn felt_hex_value(s: Seq<char>) -> Option<nat> {
    let digits = if s.len() > 2 && s[0] == '0' && s[1] == 'x' {
        s.subrange(2, s.len() as int)
    } else {
        s
    };
    if digits.len() == 0 || digits.len() > 64 {
        None
    } else {
        match hex_digits_value(digits) {
            Some(v) => if v <= felt_prime() {
                Some(v % felt_prime())
            } else {
                None
            },
            None => None,
        }
    }
}

/// What `starknet_types_core::hash::Pedersen::hash` gives for two field elements.
pub uninterp spec fn pedersen_hash(a: nat, b: nat) -> nat;

/// What `starknet_types_core::hash::Poseidon::hash` gives for two field elements.
pub uninterp spec fn poseidon_hash(a: nat, b: nat) -> nat;

/// The error type of `Felt::from_hex`.
#[verifier::external_type_specification]
#[verifier::external_body]
pub struct ExFromStrError(FromStrError);

impl Felt {
    /// The number this field element stands for.
    pub closed spec fn val(self) -> nat {
        self.high as nat * pow2_128() + self.low as nat
    }

    #[verifier::type_invariant]
    closed spec fn below_prime(self) -> bool {
        self.val() < felt_prime()
    }

    /// The value of a field element is below the Stark prime.
    pub fn bound(&self)
        ensures
            self.val() < felt_prime(),
    {
        proof {
            use_type_invariant(self);
        }
    }

    pub fn zero() -> (r: Felt)
        ensures
            r.val() == 0,
    {
        Felt { high: 0, low: 0 }
    }

    pub fn one() -> (r: Felt)
        ensures
            r.val() == 1,
    {
        Felt { high: 0, low: 1 }
    }

    /// The largest field element, the prime minus one.
    pub fn max_value() -> (r: Felt)
        ensures
            r.val() == felt_prime() - 1,
    {
        Felt { high: 0x8000000000000110000000000000000u128, low: 0 }
    }

    pub fn from_u128(x: u128) -> (r: Felt)
        ensures
            r.val() == x,
    {
        Felt { high: 0, low: x }
    }

    pub fn from_u8(x: u8) -> (r: Felt)
        ensures
            r.val() == x,
    {
        Felt { high: 0, low: x as u128 }
    }

    /// The field element `high * 2^128 + low`, if that number is below the prime.
    pub fn from_words(high: u128, low: u128) -> (r: Option<Felt>)
        ensures
            r is Some <==> high as nat * pow2_128() + low < felt_prime(),
            r matches Some(f) ==> f.val() == high as nat * pow2_128() + low,
    {
        let p = U256::from_words(0x8000000000000110000000000000000u128, 1);
        let x = U256::from_words(high, low);
        if x.lt(&p) {
            Some(Felt { high, low })
        } else {
            None
        }
    }

    /// The field element standing for a 256-bit number, if it is below the prime.
    pub fn from_u256(x: U256) -> (r: Option<Felt>)
        ensures
            r is Some <==> x.value() < felt_prime(),
            r matches Some(f) ==> f.val() == x.value(),
    {
        Self::from_words(x.high, x.low)
    }

    /// The 256-bit number standing for this field element.
    pub fn to_u256(&self) -> (r: U256)
        ensures
            r.value() == self.val(),
            r.value() < felt_prime(),
    {
        proof {
            use_type_invariant(self);
        }
        U256 { high: self.high, low: self.low }
    }

    pub fn is_zero(&self) -> (r: bool)
        ensures
            r == (self.val() == 0),
    {
        self.high == 0 && self.low == 0
    }

    /// Equality of field elements.
    pub fn equals(&self, other: &Felt) -> (r: bool)
        ensures
            r == (self.val() == other.val()),
            r == (*self == *other),
    {
        proof {
            lemma_val_injective(*self, *other);
        }
        self.high == other.high && self.low == other.low
    }

    /// Field addition, `(a + b) mod p`, computed by `starknet_types_core`.
    #[verifier::external_body]
    pub fn add(&self, other: &Felt) -> (r: Felt)
        ensures
            r.val() == (self.val() + other.val()) % felt_prime(),
    {
        let a = CoreFelt::from_bytes_be(&ethnum::U256::from_words(self.high, self.low).to_be_bytes());
        let b = CoreFelt::from_bytes_be(&ethnum::U256::from_words(other.high, other.low).to_be_bytes());
        let (high, low) = ethnum::U256::from_be_bytes((a + b).to_bytes_be()).into_words();
        Felt { high, low }
    }

    /// `Felt::from_bytes_be_slice` of `starknet_types_core`: the big-endian number
    /// given by the bytes, reduced modulo the prime.
    #[verifier::external_body]
    pub fn from_bytes_be_slice(bytes: &[u8]) -> (r: Felt)
        ensures
            r.val() == be_value(bytes@) % felt_prime(),
    {
        let f = CoreFelt::from_bytes_be_slice(bytes);
        let (high, low) = ethnum::U256::from_be_bytes(f.to_bytes_be()).into_words();
        Felt { high, low }
    }

    /// `Felt::from_bytes_be` of `starknet_types_core` on the 32-byte form of a
    /// 256-bit number: the number reduced modulo the prime.
    #[verifier::external_body]
    pub fn from_u256_reduced(x: U256) -> (r: Felt)
        ensures
            r.val() == x.value() % felt_prime(),
    {
        let f = CoreFelt::from_bytes_be(&ethnum::U256::from_words(x.high, x.low).to_be_bytes());
        let (high, low) = ethnum::U256::from_be_bytes(f.to_bytes_be()).into_words();
        Felt { high, low }
    }

    /// `Felt::to_bytes_be` of `starknet_types_core`: the 32-byte big-endian form.
    #[verifier::external_body]
    pub fn to_bytes_be(&self) -> (r: Vec<u8>)
        ensures
            r@ == be_bytes(self.val(), 32),
    {
        CoreFelt::from_bytes_be(&ethnum::U256::from_words(self.high, self.low).to_be_bytes()).to_bytes_be().to_vec()
    }

    /// `Felt::to_hex_string` of `starknet_types_core`, as ASCII bytes: `0x` and
    /// the lowercase hexadecimal digits without leading zeros (`0x0` for zero).
    #[verifier::external_body]
    pub fn to_hex(&self) -> (r: Vec<u8>)
        ensures
            r@ == hex_prefixed(hex_digits(self.val(), hex_len(self.val()))),
    {
        CoreFelt::from_bytes_be(&ethnum::U256::from_words(self.high, self.low).to_be_bytes()).to_hex_string().into_bytes()
    }

    /// `Felt::to_fixed_hex_string` of `starknet_types_core`, as ASCII bytes: `0x`
    /// and 64 lowercase hexadecimal digits.
    #[verifier::external_body]
    pub fn to_fixed_hex_string(&self) -> (r: Vec<u8>)
        ensures
            r@ == hex_prefixed(hex_digits(self.val(), 64)),
    {
        CoreFelt::from_bytes_be(&ethnum::U256::from_words(self.high, self.low).to_be_bytes()).to_fixed_hex_string().into_bytes()
    }

    /// `Felt::from_hex` of `starknet_types_core`: claimed to accept exactly
    /// the strings `felt_hex_value` reads, and to give the number it reads.
    #[verifier::external_body]
    pub fn from_hex(hex_string: &str) -> (r: Result<Felt, FromStrError>)
        ensures
            r is Ok <==> felt_hex_value(hex_string@) is Some,
            r matches Ok(f) ==> felt_hex_value(hex_string@) == Some(f.val()),
    {
        let f = CoreFelt::from_hex(hex_string)?;
        let (high, low) = ethnum::U256::from_be_bytes(f.to_bytes_be()).into_words();
        Ok(Felt { high, low })
    }

    /// `Pedersen::hash` of `starknet_types_core`.
    #[verifier::external_body]
    pub fn pedersen(a: &Felt, b: &Felt) -> (r: Felt)
        ensures
            r.val() == pedersen_hash(a.val(), b.val()),
    {
        let x = CoreFelt::from_bytes_be(&ethnum::U256::from_words(a.high, a.low).to_be_bytes());
        let y = CoreFelt::from_bytes_be(&ethnum::U256::from_words(b.high, b.low).to_be_bytes());
        let h = starknet_types_core::hash::Pedersen::hash(&x, &y);
        let (high, low) = ethnum::U256::from_be_bytes(h.to_bytes_be()).into_words();
        Felt { high, low }
    }

    /// `Poseidon::hash` of `starknet_types_core`.
    #[verifier::external_body]
    pub fn poseidon(a: &Felt, b: &Felt) -> (r: Felt)
        ensures
            r.val() == poseidon_hash(a.val(), b.val()),
    {
        let x = CoreFelt::from_bytes_be(&ethnum::U256::from_words(a.high, a.low).to_be_bytes());
        let y = CoreFelt::from_bytes_be(&ethnum::U256::from_words(b.high, b.low).to_be_bytes());
        let h = starknet_types_core::hash::Poseidon::hash(&x, &y);
        let (high, low) = ethnum::U256::from_be_bytes(h.to_bytes_be()).into_words();
        Felt { high, low }
    }
}

/// A field element as its 32 big-endian bytes.
#[derive(Clone, Copy, Debug, PartialEq, Eq)]
pub struct StarkFelt(pub [u8; 32]);

/// The lowercase hexadecimal digit of `d < 16`, as an ASCII byte.
pub open spec fn hex_digit(d: nat) -> u8 {
    if d < 10 {
        (48 + d) as u8
    } else {
        (87 + d) as u8
    }
}

/// The `n` lowest hexadecimal digits of `v`, the most significant first.
pub open spec fn hex_digits(v: nat, n: nat) -> Seq<u8>
    decreases n,
{
    if n == 0 {
        Seq::empty()
    } else {
        hex_digits(v / 16, (n - 1) as nat).push(hex_digit(v % 16))
    }
}

/// The number of hexadecimal digits of `v` (one for zero).
pub open spec fn hex_len(v: nat) -> nat
    decreases v,
{
    if v < 16 {
        1
    } else {
        1 + hex_len(v / 16)
    }
}

/// Hexadecimal digits after `0x`.
pub open spec fn hex_prefixed(digits: Seq<u8>) -> Seq<u8> {
    seq![48u8, 120u8] + digits
}

/// Field elements with the same value are the same.
pub proof fn lemma_val_injective(a: Felt, b: Felt)
    ensures
        a.val() == b.val() <==> a == b,
{
    lemma_value_lex(U256 { high: a.high, low: a.low }, U256 { high: b.high, low: b.low });
}

} // verus!
