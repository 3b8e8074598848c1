//! Facts about natural numbers seen as bit strings: bit lengths, shifts as
//! multiplication and division by powers of two, and bitwise exclusive or.
use vstd::arithmetic::div_mod::*;
use vstd::arithmetic::mul::*;
use vstd::arithmetic::power2::*;
use vstd::prelude::*;

verus! {

/// 2^128.
pub open spec fn pow2_128() -> nat {
    0x1_0000_0000_0000_0000_0000_0000_0000_0000nat
}

pub proof fn lemma_pow2_128()
    ensures
        pow2(128) == pow2_128(),
{
    lemma2_to64();
    lemma_pow2_adds(64, 64);
}

pub proof fn lemma_pow2_256()
    ensures
        pow2(256) == pow2_128() * pow2_128(),
{
    lemma_pow2_128();
    lemma_pow2_adds(128, 128);
}

/// Number of binary digits of `x` (zero has none).
pub open spec fn bit_len(x: nat) -> nat
    decreases x,
{
    if x == 0 {
        0
    } else {
        1 + bit_len(x / 2)
    }
}

/// Bitwise exclusive or of two natural numbers.
pub open spec fn nat_xor(a: nat, b: nat) -> nat
    decreases a + b,
{
    if a == 0 && b == 0 {
        0
    } else {
        2 * nat_xor(a / 2, b / 2) + (if a % 2 == b % 2 {
            0nat
        } else {
            1nat
        })
    }
}

/// `c` is an ancestor of `x` (or `x` itself) in the binary-heap numbering of a
/// tree, where the root is 1 and the children of `i` are `2i` and `2i + 1`.
pub open spec fn is_ancestor(c: nat, x: nat) -> bool {
    &&& c >= 1
    &&& x >= 1
    &&& bit_len(c) <= bit_len(x)
    &&& x / pow2((bit_len(x) - bit_len(c)) as nat) == c
}

pub proof fn lemma_div_pow2_unfold(x: nat, k: nat)
    requires
        k > 0,
    ensures
        x / pow2(k) == (x / 2) / pow2((k - 1) as nat),
{
    lemma_pow2_unfold(k);
    lemma_pow2_pos((k - 1) as nat);
    lemma_div_denominator(x as int, 2, pow2((k - 1) as nat) as int);
}

/// `x < 2^k` exactly when `x` has at most `k` binary digits.
pub proof fn lemma_bit_len_bound(x: nat, k: nat)
    ensures
        x < pow2(k) <==> bit_len(x) <= k,
    decreases k,
{
    lemma_pow2_pos(k);
    if k == 0 {
        lemma2_to64();
    } else {
        lemma_pow2_unfold(k);
        lemma_bit_len_bound(x / 2, (k - 1) as nat);
        if x == 0 {
        }
    }
}

/// A positive number lies between consecutive powers of two given by its bit length.
pub proof fn lemma_bit_len_range(x: nat)
    requires
        x >= 1,
    ensures
        bit_len(x) >= 1,
        pow2((bit_len(x) - 1) as nat) <= x < pow2(bit_len(x)),
{
    lemma_bit_len_bound(x, bit_len(x));
    lemma_bit_len_bound(x, (bit_len(x) - 1) as nat);
}

/// Bit length is monotone.
pub proof fn lemma_bit_len_monotone(x: nat, y: nat)
    requires
        x <= y,
    ensures
        bit_len(x) <= bit_len(y),
{
    lemma_bit_len_bound(y, bit_len(y));
    lemma_pow2_pos(bit_len(y));
    lemma_bit_len_bound(x, bit_len(y));
}

/// Numbers with bit length `n` are exactly those in `[2^(n-1), 2^n)`.
pub proof fn lemma_bit_len_exact(x: nat, n: nat)
    requires
        n >= 1,
        pow2((n - 1) as nat) <= x < pow2(n),
    ensures
        bit_len(x) == n,
{
    lemma_bit_len_bound(x, n);
    lemma_bit_len_bound(x, (n - 1) as nat);
}

/// Dividing by `2^k` removes `k` digits.
pub proof fn lemma_bit_len_div_pow2(x: nat, k: nat)
    requires
        k <= bit_len(x),
    ensures
        bit_len(x / pow2(k)) == bit_len(x) - k,
    decreases k,
{
    lemma_pow2_pos(k);
    if k == 0 {
        lemma2_to64();
    } else {
        lemma_div_pow2_unfold(x, k);
        assert(x != 0);
        lemma_bit_len_div_pow2(x / 2, (k - 1) as nat);
    }
}

/// Division by powers of two composes.
pub proof fn lemma_div_pow2_compose(x: nat, i: nat, j: nat)
    ensures
        (x / pow2(i)) / pow2(j) == x / pow2(i + j),
{
    lemma_pow2_pos(i);
    lemma_pow2_pos(j);
    lemma_pow2_adds(i, j);
    lemma_div_denominator(x as int, pow2(i) as int, pow2(j) as int);
}

/// Shifting left then right by the same amount gives the number back.
pub proof fn lemma_mul_div_pow2(x: nat, k: nat, r: nat)
    requires
        r < pow2(k),
    ensures
        (x * pow2(k) + r) / pow2(k) == x,
        (x * pow2(k) + r) % pow2(k) == r,
{
    lemma_pow2_pos(k);
    lemma_fundamental_div_mod_converse(
        (x * pow2(k) + r) as int,
        pow2(k) as int,
        x as int,
        r as int,
    );
}

/// The exclusive or of two numbers is zero exactly when they are equal.
pub proof fn lemma_xor_zero(a: nat, b: nat)
    ensures
        nat_xor(a, b) == 0 <==> a == b,
    decreases a + b,
{
    if a == 0 && b == 0 {
    } else {
        lemma_xor_zero(a / 2, b / 2);
    }
}

/// The exclusive or of two numbers is below `2^k` exactly when the numbers agree
/// on all digits from position `k` on.
pub proof fn lemma_xor_bound(a: nat, b: nat, k: nat)
    ensures
        nat_xor(a, b) < pow2(k) <==> a / pow2(k) == b / pow2(k),
    decreases k,
{
    if k == 0 {
        lemma2_to64();
        lemma_xor_zero(a, b);
    } else {
        lemma_pow2_unfold(k);
        lemma_div_pow2_unfold(a, k);
        lemma_div_pow2_unfold(b, k);
        lemma_xor_bound(a / 2, b / 2, (k - 1) as nat);
        if a == 0 && b == 0 {
            lemma_pow2_pos(k);
        } else {
            assert(nat_xor(a, b) == 2 * nat_xor(a / 2, b / 2) + (if a % 2 == b % 2 {
                0nat
            } else {
                1nat
            }));
        }
    }
}

/// The exclusive or of numbers below `2^k` is below `2^k`.
pub proof fn lemma_xor_below(a: nat, b: nat, k: nat)
    requires
        a < pow2(k),
        b < pow2(k),
    ensures
        nat_xor(a, b) < pow2(k),
{
    lemma_pow2_pos(k);
    lemma_small_div_converse_nat(a, pow2(k));
    lemma_small_div_converse_nat(b, pow2(k));
    lemma_xor_bound(a, b, k);
}

pub proof fn lemma_small_div_converse_nat(x: nat, d: nat)
    requires
        x < d,
    ensures
        x / d == 0,
{
    lemma_basic_div(x as int, d as int);
}

/// Every positive number is its own ancestor, and its ancestors are obtained by
/// removing trailing digits.
pub proof fn lemma_ancestor_by_div(x: nat, k: nat)
    requires
        x >= 1,
        k < bit_len(x),
    ensures
        is_ancestor(x / pow2(k), x),
        bit_len(x / pow2(k)) == bit_len(x) - k,
{
    lemma_bit_len_div_pow2(x, k);
    lemma_pow2_pos(k);
    let c = x / pow2(k);
    assert(c != 0) by {
        if c == 0 {
            assert(bit_len(c) == 0);
        }
    }
    assert((bit_len(x) - bit_len(c)) as nat == k);
}

/// Ancestry is transitive.
pub proof fn lemma_ancestor_transitive(a: nat, b: nat, c: nat)
    requires
        is_ancestor(a, b),
        is_ancestor(b, c),
    ensures
        is_ancestor(a, c),
{
    let i = (bit_len(c) - bit_len(b)) as nat;
    let j = (bit_len(b) - bit_len(a)) as nat;
    lemma_div_pow2_compose(c, i, j);
    assert((bit_len(c) - bit_len(a)) as nat == i + j);
}

/// Two ancestors of the same node are ancestors of one another, the shallower
/// one of the deeper one.
pub proof fn lemma_ancestors_nested(a: nat, b: nat, x: nat)
    requires
        is_ancestor(a, x),
        is_ancestor(b, x),
        bit_len(a) <= bit_len(b),
    ensures
        is_ancestor(a, b),
{
    let i = (bit_len(x) - bit_len(b)) as nat;
    let j = (bit_len(b) - bit_len(a)) as nat;
    lemma_div_pow2_compose(x, i, j);
    assert((bit_len(x) - bit_len(a)) as nat == i + j);
}

/// The ancestor of `x` at a given depth is unique.
pub proof fn lemma_ancestor_unique(a: nat, b: nat, x: nat)
    requires
        is_ancestor(a, x),
        is_ancestor(b, x),
        bit_len(a) == bit_len(b),
    ensures
        a == b,
{
}

/// Ancestry in terms of shifting: `c` is an ancestor of `c * 2^k + r` for `r < 2^k`.
pub proof fn lemma_ancestor_of_descendant(c: nat, k: nat, r: nat)
    requires
        c >= 1,
        r < pow2(k),
    ensures
        is_ancestor(c, c * pow2(k) + r),
        bit_len(c * pow2(k) + r) == bit_len(c) + k,
{
    lemma_mul_div_pow2(c, k, r);
    lemma_bit_len_range(c);
    let n = bit_len(c);
    lemma_pow2_adds((n - 1) as nat, k);
    lemma_pow2_adds(n, k);
    lemma_pow2_pos(k);
    lemma_mul_inequality(pow2((n - 1) as nat) as int, c as int, pow2(k) as int);
    lemma_mul_inequality((c + 1) as int, pow2(n) as int, pow2(k) as int);
    lemma_mul_is_distributive_add_other_way(pow2(k) as int, c as int, 1);
    assert((n + k - 1) as nat == (n - 1) as nat + k);
    lemma_bit_len_exact(c * pow2(k) + r, n + k);
    assert((bit_len(c * pow2(k) + r) - bit_len(c)) as nat == k);
}

/// Powers of two grow with the exponent.
pub proof fn lemma_pow2_le(a: nat, b: nat)
    requires
        a <= b,
    ensures
        pow2(a) <= pow2(b),
{
    if a < b {
        lemma_pow2_strictly_increases(a, b);
    }
}

/// A node is its own ancestor.
pub proof fn lemma_self_ancestor(x: nat)
    requires
        x >= 1,
    ensures
        is_ancestor(x, x),
{
    lemma2_to64();
    assert((bit_len(x) - bit_len(x)) as nat == 0);
    assert(x / 1 == x);
}

} // verus!
