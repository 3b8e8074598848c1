//! The data of inner nodes: binary nodes and edges with their paths.
use crate::bits::{lemma_pow2_le, pow2_128};
use crate::hash::HashOutput;
use crate::types::{index_bound, NodeIndex, TreeHeight};
use crate::uint256::{u256_add, u256_shl, u256_shr, u256_sub, U256};
use vstd::arithmetic::div_mod::*;
use vstd::arithmetic::mul::*;
use vstd::arithmetic::power2::*;
use vstd::bits::lemma_u128_shr_is_div;
use vstd::prelude::*;

verus! {

/// A path going down from a node; the digits of the number are the turns,
/// the most significant first (0 is left, 1 is right).
#[derive(Clone, Copy, Debug, PartialEq, Eq, Hash, Structural)]
pub struct EdgePath(pub U256);

/// The number of edges in a path.
#[derive(Clone, Copy, Debug, PartialEq, Eq, Hash, Structural)]
pub struct EdgePathLength(pub u8);

/// A path from a node down to a descendant: `length` turns given by `path`.
#[derive(Clone, Copy, Debug, PartialEq, Eq, Hash, Structural)]
pub struct PathToBottom {
    pub path: EdgePath,
    pub length: EdgePathLength,
}

/// An edge node: the path down to its bottom and the hash of the bottom.
#[derive(Clone, Copy, Debug, PartialEq, Eq, Structural)]
pub struct EdgeData {
    pub bottom_hash: HashOutput,
    pub path_to_bottom: PathToBottom,
}

/// A binary node: the hashes of its two children.
#[derive(Clone, Copy, Debug, PartialEq, Eq, Structural)]
pub struct BinaryData {
    pub left_hash: HashOutput,
    pub right_hash: HashOutput,
}

/// A Patricia-Merkle tree node's data, i.e., the pre-image of its hash.
#[derive(Clone, Copy, Debug, PartialEq, Eq)]
pub enum NodeData<L> {
    Binary(BinaryData),
    Edge(EdgeData),
    Leaf(L),
}

/// Errors on paths.
#[derive(Debug)]
pub enum PathToBottomError {
    /// Tried to remove more edges than the path has.
    RemoveEdgesError { length: EdgePathLength, n_edges: EdgePathLength },
}

impl EdgePath {
    /// Number of bits needed to store a path in a tree of the given height.
    pub fn bits(tree_height: &TreeHeight) -> (r: u8)
        ensures
            r == tree_height.0,
    {
        tree_height.0
    }

    /// The longest path from the root of a tree of the given height, `2^height - 1`.
    /// Heights of at most 128 are refused by the word shift this uses.
    pub fn max(tree_height: &TreeHeight) -> (r: EdgePath)
        requires
            128 < tree_height.0,
        ensures
            r.0.value() == pow2(tree_height.0 as nat) - 1,
    {
        let shift: u128 = (256 - Self::bits(tree_height) as u32) as u128;
        let high = u128::MAX >> shift;
        proof {
            let h = tree_height.0 as nat;
            let k = (h - 128) as nat;
            lemma_u128_shr_is_div(u128::MAX, shift);
            lemma_pow2_adds(k, shift as nat);
            crate::bits::lemma_pow2_128();
            assert(k + shift == 128);
            lemma_pow2_pos(k);
            lemma_pow2_pos(shift as nat);
            // 2^128 - 1 == (2^k - 1) * 2^shift + (2^shift - 1)
            lemma_mul_is_distributive_sub_other_way(pow2(shift as nat) as int, pow2(k) as int, 1);
            lemma_fundamental_div_mod_converse(
                (pow2_128() - 1) as int,
                pow2(shift as nat) as int,
                (pow2(k) - 1) as int,
                (pow2(shift as nat) - 1) as int,
            );
            assert(high == pow2(k) - 1);
            lemma_pow2_adds(k, 128);
            assert(k + 128 == h);
            lemma_mul_is_distributive_sub_other_way(pow2_128() as int, pow2(k) as int, 1);
        }
        EdgePath(U256::from_words(high, u128::MAX))
    }

    pub fn from_u128(value: u128) -> (r: EdgePath)
        ensures
            r.0.value() == value,
    {
        EdgePath(U256::from_u128(value))
    }
}

impl EdgePathLength {
    /// The longest path (from some node) in a tree.
    pub fn max() -> (r: EdgePathLength)
        ensures
            r.0 == 251,
    {
        EdgePathLength(251)
    }

    /// A path length, if it is at most the longest one.
    pub fn new(length: u8) -> (r: Option<EdgePathLength>)
        ensures
            r is Some <==> length <= 251,
            r matches Some(l) ==> l.0 == length,
    {
        if length <= 251 {
            Some(EdgePathLength(length))
        } else {
            None
        }
    }

    /// Sum of two lengths; it must fit in a byte.
    pub fn add(self, other: EdgePathLength) -> (r: EdgePathLength)
        requires
            self.0 + other.0 <= 255,
        ensures
            r.0 == self.0 + other.0,
    {
        EdgePathLength(self.0 + other.0)
    }
}

impl PathToBottom {
    /// The path has no more turns than its length: `path < 2^length`.
    pub open spec fn is_valid(self) -> bool {
        self.path.0.value() < pow2(self.length.0 as nat)
    }

    /// The descendant this path leads to from `root`.
    pub open spec fn bottom_of(self, root: nat) -> nat {
        root * pow2(self.length.0 as nat) + self.path.0.value()
    }

    /// A path of the given turns and length, if the turns fit in the length.
    pub fn new(path: EdgePath, length: EdgePathLength) -> (r: Option<PathToBottom>)
        ensures
            r is Some <==> path.0.value() < pow2(length.0 as nat),
            r matches Some(p) ==> p.path == path && p.length == length,
    {
        proof {
            lemma_pow2_pos(length.0 as nat);
            lemma_div_basics(path.0.value() as int);
        }
        let rest = u256_shr(path.0, length.0 as u32);
        proof {
            if path.0.value() < pow2(length.0 as nat) {
                lemma_basic_div(path.0.value() as int, pow2(length.0 as nat) as int);
            } else {
                lemma_div_non_zero(path.0.value() as int, pow2(length.0 as nat) as int);
            }
        }
        if rest.is_zero() {
            Some(PathToBottom { path, length })
        } else {
            None
        }
    }

    /// The one-edge path to the left child.
    pub open spec fn to_left_child() -> PathToBottom {
        PathToBottom { path: EdgePath(U256 { high: 0, low: 0 }), length: EdgePathLength(1) }
    }

    /// The one-edge path to the right child.
    pub open spec fn to_right_child() -> PathToBottom {
        PathToBottom { path: EdgePath(U256 { high: 0, low: 1 }), length: EdgePathLength(1) }
    }

    /// The one-edge path to the left child.
    pub fn left_child() -> (r: PathToBottom)
        ensures
            r == Self::to_left_child(),
            r.path.0.value() == 0,
            r.length.0 == 1,
            r.is_valid(),
    {
        proof {
            lemma2_to64();
        }
        PathToBottom { path: EdgePath(U256::zero()), length: EdgePathLength(1) }
    }

    /// The one-edge path to the right child.
    pub fn right_child() -> (r: PathToBottom)
        ensures
            r == Self::to_right_child(),
            r.path.0.value() == 1,
            r.length.0 == 1,
            r.is_valid(),
    {
        proof {
            lemma2_to64();
        }
        PathToBottom { path: EdgePath(U256::one()), length: EdgePathLength(1) }
    }

    /// The node this path leads to from `root_index`.
    pub fn bottom_index(&self, root_index: NodeIndex) -> (r: NodeIndex)
        requires
            self.is_valid(),
            self.bottom_of(root_index.value()) < index_bound(),
        ensures
            r.value() == self.bottom_of(root_index.value()),
    {
        NodeIndex::compute_bottom_index(root_index, self)
    }

    /// This path followed by `other`.
    pub fn concat_paths(&self, other: PathToBottom) -> (r: PathToBottom)
        requires
            self.is_valid(),
            other.is_valid(),
            self.length.0 + other.length.0 <= 251,
        ensures
            r.is_valid(),
            r.length.0 == self.length.0 + other.length.0,
            r.path.0.value() == self.path.0.value() * pow2(other.length.0 as nat)
                + other.path.0.value(),
    {
        let ghost a = self.path.0.value();
        let ghost la = self.length.0 as nat;
        let ghost b = other.path.0.value();
        let ghost lb = other.length.0 as nat;
        proof {
            lemma_concat_bound(a, la, b, lb);
            lemma_pow2_strictly_increases(251, 256);
            lemma_pow2_le(la + lb, 251);
            lemma_small_mod((a * pow2(lb)) as nat, pow2(256));
        }
        let shifted = u256_shl(self.path.0, other.length.0 as u32);
        let path = u256_add(shifted, other.path.0);
        PathToBottom { path: EdgePath(path), length: self.length.add(other.length) }
    }

    /// The path without its first `n_edges` edges.
    pub fn remove_first_edges(&self, n_edges: EdgePathLength) -> (r: Result<
        PathToBottom,
        PathToBottomError,
    >)
        requires
            self.is_valid(),
        ensures
            r is Ok <==> n_edges.0 <= self.length.0,
            r matches Ok(p) ==> {
                &&& p.is_valid()
                &&& p.length.0 == self.length.0 - n_edges.0
                &&& p.path.0.value() == self.path.0.value() % pow2(p.length.0 as nat)
            },
    {
        if n_edges.0 > self.length.0 {
            return Err(PathToBottomError::RemoveEdgesError { length: self.length, n_edges });
        }
        let new_length: u8 = self.length.0 - n_edges.0;
        let ghost v = self.path.0.value();
        let ghost k = new_length as nat;
        proof {
            lemma_pow2_pos(k);
            lemma_pow2_strictly_increases(251, 256);
            lemma_fundamental_div_mod(v as int, pow2(k) as int);
            lemma_mod_pos_bound(v as int, pow2(k) as int);
            lemma_mul_is_commutative(pow2(k) as int, (v / pow2(k)) as int);
            crate::uint256::lemma_value_bound(self.path.0);
            lemma_div_is_ordered_by_denominator(v as int, 1, pow2(k) as int);
            lemma_mul_inequality((v / pow2(k)) as int, v as int, pow2(k) as int);
            lemma_small_mod(((v / pow2(k)) * pow2(k)) as nat, pow2(256));
        }
        let high_part = u256_shl(u256_shr(self.path.0, new_length as u32), new_length as u32);
        let rest = u256_sub(self.path.0, high_part);
        Ok(PathToBottom { path: EdgePath(rest), length: EdgePathLength(new_length) })
    }
}

/// Concatenating valid paths gives a valid path.
pub proof fn lemma_concat_bound(a: nat, la: nat, b: nat, lb: nat)
    requires
        a < pow2(la),
        b < pow2(lb),
    ensures
        a * pow2(lb) + b < pow2(la + lb),
{
    lemma_pow2_adds(la, lb);
    lemma_mul_inequality((a + 1) as int, pow2(la) as int, pow2(lb) as int);
    lemma_mul_is_distributive_add_other_way(pow2(lb) as int, a as int, 1);
}

} // verus!
