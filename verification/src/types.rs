//! Tree heights and node indices.
//!
//! Nodes are numbered as in a binary heap: the root is 1 and the children of
//! `i` are `2i` and `2i + 1`. In a tree of height 251 the leaves are the
//! indices in `[2^251, 2^252)`.
use crate::bits::{
    bit_len, is_ancestor, lemma_ancestor_by_div, lemma_ancestor_of_descendant,
    lemma_ancestor_unique, lemma_ancestors_nested, lemma_bit_len_bound, lemma_bit_len_div_pow2,
    lemma_bit_len_monotone, lemma_bit_len_range, lemma_div_pow2_compose, lemma_mul_div_pow2,
    lemma_pow2_128, lemma_pow2_le, lemma_self_ancestor, lemma_xor_below, lemma_xor_bound, nat_xor, pow2_128,
};
use crate::assoc::KeyView;
use crate::felt::{felt_prime, Felt};
use crate::input::{ContractAddress, StarknetStorageKey};
use crate::leaf::ClassHash;
use crate::node_data::{EdgePath, EdgePathLength, PathToBottom};
use crate::uint256::{
    lemma_value_bound, lemma_value_lex, u256_add, u256_leading_zeros, u256_mul, u256_shl,
    u256_shr, u256_sub, u256_xor, U256,
};
use vstd::arithmetic::div_mod::*;
use vstd::arithmetic::mul::*;
use vstd::arithmetic::power2::*;
use vstd::prelude::*;

verus! {

/// The height of a tree: the number of edges from the root to a leaf.
#[derive(Clone, Copy, Debug, PartialEq, Eq, Structural)]
pub struct TreeHeight(pub u8);

impl TreeHeight {
    /// The height of the Starknet trees.
    pub const MAX_HEIGHT: u8 = 251;

    pub fn new(height: u8) -> (r: TreeHeight)
        ensures
            r.0 == height,
    {
        TreeHeight(height)
    }

    /// The height of the Starknet trees.
    pub fn max() -> (r: TreeHeight)
        ensures
            r.0 == 251,
    {
        TreeHeight(251)
    }

    /// Height difference; the original heights must be ordered.
    pub fn sub(self, other: TreeHeight) -> (r: TreeHeight)
        requires
            other.0 <= self.0,
        ensures
            r.0 == self.0 - other.0,
    {
        TreeHeight(self.0 - other.0)
    }
}

/// `2^252`, one past the largest node index.
pub open spec fn index_bound() -> nat {
    pow2(252)
}

/// The index of a node in a tree of height at most 251.
#[derive(Clone, Copy, Debug, PartialEq, Eq, Hash, Structural)]
pub struct NodeIndex(U256);

impl NodeIndex {
    /// Number of bits an index takes.
    pub const BITS: u8 = 252;

    /// The number this index stands for.
    pub closed spec fn value(self) -> nat {
        self.0.value()
    }

    #[verifier::type_invariant]
    closed spec fn in_range(self) -> bool {
        self.0.value() < pow2(252)
    }

    /// Every index is below `2^252`.
    pub fn bound(&self)
        ensures
            self.value() < index_bound(),
    {
        proof {
            use_type_invariant(self);
        }
    }

    /// Creates the index standing for `index`; it must be below `2^252`.
    pub fn new(index: U256) -> (r: NodeIndex)
        requires
            index.value() < index_bound(),
        ensures
            r.value() == index.value(),
    {
        NodeIndex(index)
    }

    /// The index of the root.
    pub fn root() -> (r: NodeIndex)
        ensures
            r.value() == 1,
    {
        proof {
            lemma_pow2_pos(252);
            lemma_pow2_strictly_increases(0, 252);
            lemma2_to64();
        }
        NodeIndex(U256::one())
    }

    /// The index of the leftmost leaf, `2^251`.
    pub fn first_leaf() -> (r: NodeIndex)
        ensures
            r.value() == pow2(251),
    {
        proof {
            lemma_first_leaf_words();
        }
        NodeIndex(U256::from_words(0x8000000000000000000000000000000u128, 0))
    }

    /// The largest index, `2^252 - 1`.
    pub fn max_index() -> (r: NodeIndex)
        ensures
            r.value() == index_bound() - 1,
    {
        proof {
            lemma_first_leaf_words();
        }
        NodeIndex(U256::from_words(0xfffffffffffffffffffffffffffffffu128, 0xffffffffffffffffffffffffffffffffu128))
    }

    /// The index standing for a 128-bit number.
    pub fn from_u128(value: u128) -> (r: NodeIndex)
        ensures
            r.value() == value,
    {
        proof {
            lemma_first_leaf_words();
        }
        NodeIndex(U256::from_u128(value))
    }

    /// The 256-bit number this index stands for.
    pub fn to_u256(&self) -> (r: U256)
        ensures
            r.value() == self.value(),
    {
        self.0
    }

    pub fn lt(&self, other: &NodeIndex) -> (r: bool)
        ensures
            r == (self.value() < other.value()),
    {
        self.0.lt(&other.0)
    }

    pub fn le(&self, other: &NodeIndex) -> (r: bool)
        ensures
            r == (self.value() <= other.value()),
    {
        self.0.le(&other.0)
    }

    pub fn eq(&self, other: &NodeIndex) -> (r: bool)
        ensures
            r == (self.value() == other.value()),
            r == (*self == *other),
    {
        proof {
            lemma_index_injective(*self, *other);
        }
        self.0.eq(&other.0)
    }

    /// The bottom of an edge of the given path that starts at `index`:
    /// `index * 2^length + path`.
    pub fn compute_bottom_index(index: NodeIndex, path_to_bottom: &PathToBottom) -> (r: NodeIndex)
        requires
            path_to_bottom.is_valid(),
            index.value() * pow2(path_to_bottom.length.0 as nat) + path_to_bottom.path.0.value()
                < index_bound(),
        ensures
            r.value() == index.value() * pow2(path_to_bottom.length.0 as nat)
                + path_to_bottom.path.0.value(),
    {
        proof {
            lemma_pow2_pos(path_to_bottom.length.0 as nat);
            lemma_pow2_strictly_increases(252, 256);
            lemma_small_mod(
                (index.value() * pow2(path_to_bottom.length.0 as nat)) as nat,
                pow2(256),
            );
        }
        let shifted = u256_shl(index.0, path_to_bottom.length.0 as u32);
        NodeIndex(u256_add(shifted, path_to_bottom.path.0))
    }

    /// The number of leading zeros when written with 252 bits.
    pub fn leading_zeros(&self) -> (r: u8)
        ensures
            r == 252 - bit_len(self.value()),
    {
        proof {
            use_type_invariant(self);
            lemma_bit_len_bound(self.value(), 252);
        }
        let z = u256_leading_zeros(self.0);
        (z - 4) as u8
    }

    /// The number of binary digits of the index: its depth plus one.
    pub fn bit_length(&self) -> (r: u8)
        ensures
            r == bit_len(self.value()),
            r <= 252,
    {
        proof {
            use_type_invariant(self);
            lemma_bit_len_bound(self.value(), 252);
        }
        Self::BITS - self.leading_zeros()
    }

    /// `self << k`; the result must stay in range.
    pub fn shl(self, k: u8) -> (r: NodeIndex)
        requires
            self.value() * pow2(k as nat) < index_bound(),
        ensures
            r.value() == self.value() * pow2(k as nat),
    {
        proof {
            lemma_pow2_strictly_increases(252, 256);
            lemma_small_mod((self.value() * pow2(k as nat)) as nat, pow2(256));
        }
        NodeIndex(u256_shl(self.0, k as u32))
    }

    /// `self >> k`: the ancestor `k` levels up (or zero when there is none).
    pub fn shr(self, k: u8) -> (r: NodeIndex)
        ensures
            r.value() == self.value() / pow2(k as nat),
    {
        proof {
            use_type_invariant(&self);
            lemma_pow2_pos(k as nat);
            lemma_div_is_ordered_by_denominator(self.value() as int, 1, pow2(k as nat) as int);
            lemma2_to64();
        }
        NodeIndex(u256_shr(self.0, k as u32))
    }

    /// Sum of two indices; the result must stay in range.
    pub fn add(self, rhs: NodeIndex) -> (r: NodeIndex)
        requires
            self.value() + rhs.value() < index_bound(),
        ensures
            r.value() == self.value() + rhs.value(),
    {
        proof {
            lemma_pow2_strictly_increases(252, 256);
        }
        NodeIndex(u256_add(self.0, rhs.0))
    }

    /// Difference of two indices; `rhs` must not exceed `self`.
    pub fn sub(self, rhs: NodeIndex) -> (r: NodeIndex)
        requires
            rhs.value() <= self.value(),
        ensures
            r.value() == self.value() - rhs.value(),
    {
        proof {
            use_type_invariant(&self);
        }
        NodeIndex(u256_sub(self.0, rhs.0))
    }

    /// Product of two indices; the result must stay in range.
    pub fn mul(self, rhs: NodeIndex) -> (r: NodeIndex)
        requires
            self.value() * rhs.value() < index_bound(),
        ensures
            r.value() == self.value() * rhs.value(),
    {
        proof {
            lemma_pow2_strictly_increases(252, 256);
        }
        NodeIndex(u256_mul(self.0, rhs.0))
    }

    /// The indices of the two children, `2i` and `2i + 1`.
    pub fn get_children_indices(&self) -> (r: [NodeIndex; 2])
        requires
            2 * self.value() + 1 < index_bound(),
        ensures
            r[0].value() == 2 * self.value(),
            r[1].value() == 2 * self.value() + 1,
    {
        proof {
            lemma2_to64();
        }
        let left = self.shl(1);
        let right = left.add(NodeIndex::root());
        [left, right]
    }

    /// Lowest common ancestor of two nodes: an ancestor of both, and every
    /// common ancestor is an ancestor of it.
    pub fn get_lca(&self, other: &NodeIndex) -> (r: NodeIndex)
        requires
            self.value() >= 1,
            other.value() >= 1,
        ensures
            is_ancestor(r.value(), self.value()),
            is_ancestor(r.value(), other.value()),
            forall|c: nat|
                is_ancestor(c, self.value()) && is_ancestor(c, other.value()) ==> #[trigger] is_ancestor(
                    c,
                    r.value(),
                ),
    {
        if self.eq(other) {
            proof {
                lemma_self_ancestor(self.value());
                assert forall|c: nat|
                    is_ancestor(c, self.value()) && is_ancestor(
                        c,
                        other.value(),
                    ) implies #[trigger] is_ancestor(c, self.value()) by {}
            }
            return *self;
        }
        let bit_length = self.bit_length();
        let other_bit_length = other.bit_length();
        proof {
            use_type_invariant(self);
            use_type_invariant(other);
            lemma_bit_len_range(self.value());
            lemma_bit_len_range(other.value());
        }
        // Bring the deeper node up to the level of the shallower one.
        let (a, b) = if bit_length >= other_bit_length {
            (self.shr(bit_length - other_bit_length), *other)
        } else {
            (*self, other.shr(other_bit_length - bit_length))
        };
        let ghost m: nat = if bit_length >= other_bit_length {
            other_bit_length as nat
        } else {
            bit_length as nat
        };
        proof {
            lemma2_to64();
            assert(self.value() / 1 == self.value());
            assert(other.value() / 1 == other.value());
            lemma_bit_len_div_pow2(self.value(), (bit_length - m) as nat);
            lemma_bit_len_div_pow2(other.value(), (other_bit_length - m) as nat);
            assert(bit_len(a.value()) == m);
            assert(bit_len(b.value()) == m);
            lemma_bit_len_range(a.value());
            lemma_bit_len_range(b.value());
            lemma_bit_len_bound(a.value(), m);
            lemma_bit_len_bound(b.value(), m);
            lemma_xor_below(a.value(), b.value(), m);
            lemma_value_bound(a.0);
            lemma_value_bound(b.0);
        }
        proof {
            lemma_pow2_le(m, 252);
        }
        let xor = NodeIndex(u256_xor(a.0, b.0));
        let post_common_prefix_len = xor.bit_length();
        proof {
            lemma_bit_len_bound(xor.value(), m);
            lemma_lca_core(self.value(), other.value(), a.value(), b.value(), m, post_common_prefix_len as nat);
        }
        a.shr(post_common_prefix_len)
    }

    /// The path from this node down to one of its descendants (the node
    /// itself included): the descendant's bits below those of the node.
    pub fn get_path_to_descendant(&self, descendant: NodeIndex) -> (r: PathToBottom)
        requires
            bit_len(self.value()) <= bit_len(descendant.value()),
            descendant.value() / pow2((bit_len(descendant.value()) - bit_len(self.value())) as nat) == self.value(),
        ensures
            r.is_valid(),
            descendant.value() == self.value() * pow2(r.length.0 as nat) + r.path.0.value(),
            r.bottom_of(self.value()) == descendant.value(),
            r.length.0 == bit_len(descendant.value()) - bit_len(self.value()),
    {
        let descendant_bit_length = descendant.bit_length();
        let bit_length = self.bit_length();
        let distance = descendant_bit_length - bit_length;
        proof {
            use_type_invariant(&descendant);
            assert(distance as nat == (bit_len(descendant.value()) - bit_len(self.value())) as nat);
            lemma_pow2_pos(distance as nat);
            lemma_fundamental_div_mod(descendant.value() as int, pow2(distance as nat) as int);
            lemma_mul_is_commutative(
                pow2(distance as nat) as int,
                (descendant.value() / pow2(distance as nat)) as int,
            );
            lemma_mod_pos_bound(descendant.value() as int, pow2(distance as nat) as int);
        }
        let base = self.shl(distance);
        let delta = descendant.sub(base);
        PathToBottom { path: EdgePath(delta.0), length: EdgePathLength(distance) }
    }

    /// The leaf of a tree of the given height that stands for a field element:
    /// `2^height + value`.
    pub fn from_leaf_felt(felt: &Felt, tree_height: &TreeHeight) -> (r: NodeIndex)
        requires
            tree_height.0 <= 251,
            pow2(tree_height.0 as nat) + felt.val() < index_bound(),
        ensures
            r.value() == pow2(tree_height.0 as nat) + felt.val(),
    {
        proof {
            lemma_pow2_pos(tree_height.0 as nat);
            lemma2_to64();
        }
        let first = NodeIndex::root().shl(tree_height.0);
        first.add(Self::from_felt_value(felt))
    }

    /// The leaf of a storage key.
    pub fn from_starknet_storage_key(key: &StarknetStorageKey, tree_height: &TreeHeight) -> (r: NodeIndex)
        requires
            tree_height.0 <= 251,
            pow2(tree_height.0 as nat) + key.0.val() < index_bound(),
        ensures
            r.value() == pow2(tree_height.0 as nat) + key.0.val(),
    {
        Self::from_leaf_felt(&key.0, tree_height)
    }

    /// The leaf of a contract address.
    pub fn from_contract_address(address: &ContractAddress, tree_height: &TreeHeight) -> (r: NodeIndex)
        requires
            tree_height.0 <= 251,
            pow2(tree_height.0 as nat) + address.0.val() < index_bound(),
        ensures
            r.value() == pow2(tree_height.0 as nat) + address.0.val(),
    {
        Self::from_leaf_felt(&address.0, tree_height)
    }

    /// The leaf of a class hash.
    pub fn from_class_hash(class_hash: &ClassHash, tree_height: &TreeHeight) -> (r: NodeIndex)
        requires
            tree_height.0 <= 251,
            pow2(tree_height.0 as nat) + class_hash.0.val() < index_bound(),
        ensures
            r.value() == pow2(tree_height.0 as nat) + class_hash.0.val(),
    {
        Self::from_leaf_felt(&class_hash.0, tree_height)
    }

    /// The index standing for the value of a field element.
    pub fn from_felt_value(felt: &Felt) -> (r: NodeIndex)
        ensures
            r.value() == felt.val(),
    {
        let u = felt.to_u256();
        proof {
            lemma_prime_below_index_bound();
        }
        NodeIndex(u)
    }

    /// The field element standing for this index, if the index is below the prime.
    pub fn to_felt(&self) -> (r: Option<Felt>)
        ensures
            r is Some <==> self.value() < felt_prime(),
            r matches Some(f) ==> f.val() == self.value(),
    {
        Felt::from_u256(self.0)
    }
}

impl KeyView for NodeIndex {
    type Key = nat;

    open spec fn key(&self) -> nat {
        self.value()
    }

    fn same_key(&self, other: &NodeIndex) -> (r: bool) {
        self.eq(other)
    }
}

pub proof fn lemma_index_injective(a: NodeIndex, b: NodeIndex)
    ensures
        a.value() == b.value() <==> a == b,
{
    lemma_value_lex(a.0, b.0);
}

/// `2^251` and `2^252` in words.
proof fn lemma_first_leaf_words()
    ensures
        pow2(251) == 0x8000000000000000000000000000000nat * pow2_128(),
        pow2(252) == 0x10000000000000000000000000000000nat * pow2_128(),
        0xfffffffffffffffffffffffffffffffnat * pow2_128() + 0xffffffffffffffffffffffffffffffffnat
            == pow2(252) - 1,
{
    lemma_pow2_128();
    lemma2_to64();
    lemma_pow2_adds(64, 59);
    lemma_pow2_adds(64, 60);
    lemma_pow2_adds(128, 123);
    lemma_pow2_adds(128, 124);
    assert(pow2(59) == 0x800000000000000nat) by {
        lemma2_to64_rest();
    }
    assert(pow2(60) == 0x1000000000000000nat) by {
        lemma2_to64_rest();
    }
}

/// The prime is below `2^252`.
proof fn lemma_prime_below_index_bound()
    ensures
        felt_prime() < index_bound(),
{
    lemma_first_leaf_words();
    lemma_pow2_128();
}

/// The core of the lowest-common-ancestor computation: once both nodes are
/// brought to the same depth, the common prefix of their digits is the LCA.
proof fn lemma_lca_core(s: nat, o: nat, a: nat, b: nat, m: nat, p: nat)
    requires
        s >= 1,
        o >= 1,
        m >= 1,
        bit_len(a) == m,
        bit_len(b) == m,
        m <= bit_len(s),
        m <= bit_len(o),
        m == bit_len(s) || m == bit_len(o),
        a == s / pow2((bit_len(s) - m) as nat),
        b == o / pow2((bit_len(o) - m) as nat),
        p == bit_len(nat_xor(a, b)),
        p <= m,
    ensures
        is_ancestor(a / pow2(p), s),
        is_ancestor(a / pow2(p), o),
        forall|c: nat| is_ancestor(c, s) && is_ancestor(c, o) ==> #[trigger] is_ancestor(c, a / pow2(p)),
{
    let x = nat_xor(a, b);
    lemma_bit_len_range(a);
    lemma_bit_len_range(b);
    // The leading digits of `a` and `b` agree, so `p < m`.
    let top = (m - 1) as nat;
    lemma_pow2_unfold(m);
    lemma_pow2_pos(top);
    lemma_fundamental_div_mod_converse(a as int, pow2(top) as int, 1, (a - pow2(top)) as int);
    lemma_fundamental_div_mod_converse(b as int, pow2(top) as int, 1, (b - pow2(top)) as int);
    lemma_xor_bound(a, b, top);
    lemma_bit_len_bound(x, top);
    // `a` and `b` agree from digit `p` on.
    lemma_bit_len_bound(x, p);
    lemma_xor_bound(a, b, p);
    let l = a / pow2(p);
    let ks = (bit_len(s) - m + p) as nat;
    let ko = (bit_len(o) - m + p) as nat;
    lemma_div_pow2_compose(s, (bit_len(s) - m) as nat, p);
    lemma_div_pow2_compose(o, (bit_len(o) - m) as nat, p);
    assert((bit_len(s) - m) as nat + p == ks);
    assert((bit_len(o) - m) as nat + p == ko);
    lemma_ancestor_by_div(s, ks);
    lemma_ancestor_by_div(o, ko);
    assert forall|c: nat| is_ancestor(c, s) && is_ancestor(c, o) implies #[trigger] is_ancestor(c, l) by {
        let j = bit_len(c);
        let d = (m - j) as nat;
        lemma_div_pow2_compose(s, (bit_len(s) - m) as nat, d);
        lemma_div_pow2_compose(o, (bit_len(o) - m) as nat, d);
        assert((bit_len(s) - m) as nat + d == (bit_len(s) - j) as nat);
        assert((bit_len(o) - m) as nat + d == (bit_len(o) - j) as nat);
        lemma_xor_bound(a, b, d);
        lemma_bit_len_bound(x, d);
        lemma_ancestors_nested(c, l, s);
    }
}

} // verus!
