//! Nodes with their hashes, and the storage layout of inner nodes: a binary
//! node is its two child hashes (64 bytes); an edge is the bottom hash, the path
//! and the length (65 bytes).
use crate::errors::OriginalSkeletonTreeError;
use crate::felt::{be_bytes, be_value, felt_prime, lemma_be_bytes_value, lemma_be_value_concat, Felt};
use crate::hash::HashOutput;
use crate::leaf::LeafDataImpl;
use crate::leaf_serde::{leaf_bytes, leaf_prefix};
use crate::node_data::{BinaryData, EdgeData, EdgePath, EdgePathLength, NodeData, PathToBottom};
use crate::storage::{append_bytes, create_db_key, db_key, StorageKey, StoragePrefix, StorageValue};
use crate::uint256::u256_to_be_bytes;
use vstd::arithmetic::div_mod::*;
use vstd::arithmetic::power2::*;
use vstd::prelude::*;
use vstd::slice::slice_subrange;

verus! {

/// A node in a Patricia-Merkle tree which was modified during an update.
#[derive(Clone, Copy, Debug, PartialEq, Eq)]
pub struct FilledNode<L> {
    pub hash: HashOutput,
    pub data: NodeData<L>,
}

/// The stored form of a binary node.
pub open spec fn binary_bytes(left: nat, right: nat) -> Seq<u8> {
    be_bytes(left, 32) + be_bytes(right, 32)
}

/// The stored form of an edge node.
pub open spec fn edge_bytes(bottom: nat, path: nat, length: u8) -> Seq<u8> {
    be_bytes(bottom, 32) + be_bytes(path, 32) + seq![length]
}

/// The data an inner node's stored bytes stand for, with field elements
/// reduced modulo the prime: `(is_binary, first hash, second hash or path, length)`.
pub open spec fn decoded_inner_node(bytes: Seq<u8>) -> Option<(bool, nat, nat, u8)> {
    if bytes.len() == 64 {
        Some(
            (
                true,
                be_value(bytes.subrange(0, 32)) % felt_prime(),
                be_value(bytes.subrange(32, 64)) % felt_prime(),
                0u8,
            ),
        )
    } else if bytes.len() == 65 {
        Some(
            (
                false,
                be_value(bytes.subrange(0, 32)) % felt_prime(),
                be_value(bytes.subrange(32, 64)) % felt_prime(),
                bytes[64],
            ),
        )
    } else {
        None
    }
}

/// What a node's data stands for in the layout of `decoded_inner_node`.
pub open spec fn inner_node_fields<L>(data: NodeData<L>) -> Option<(bool, nat, nat, u8)> {
    match data {
        NodeData::Binary(b) => Some((true, b.left_hash.val(), b.right_hash.val(), 0u8)),
        NodeData::Edge(e) => Some(
            (false, e.bottom_hash.val(), e.path_to_bottom.path.0.value(), e.path_to_bottom.length.0),
        ),
        NodeData::Leaf(_) => None,
    }
}

/// The stored form of an inner node.
pub open spec fn inner_node_bytes<L>(data: NodeData<L>) -> Seq<u8> {
    match data {
        NodeData::Binary(b) => binary_bytes(b.left_hash.val(), b.right_hash.val()),
        NodeData::Edge(e) => edge_bytes(
            e.bottom_hash.val(),
            e.path_to_bottom.path.0.value(),
            e.path_to_bottom.length.0,
        ),
        NodeData::Leaf(_) => Seq::empty(),
    }
}

/// The stored form of a node.
pub open spec fn node_bytes(data: NodeData<LeafDataImpl>) -> Seq<u8> {
    match data {
        NodeData::Leaf(l) => leaf_bytes(l),
        _ => inner_node_bytes(data),
    }
}

/// The storage prefix of a node.
pub open spec fn node_prefix(data: NodeData<LeafDataImpl>) -> StoragePrefix {
    match data {
        NodeData::Leaf(l) => leaf_prefix(l),
        _ => StoragePrefix::InnerNode,
    }
}

impl FilledNode<LeafDataImpl> {
    /// Reads an inner node from its storage key (the hash) and value.
    pub fn deserialize(key: &StorageKey, value: &StorageValue) -> (r: Result<
        FilledNode<LeafDataImpl>,
        OriginalSkeletonTreeError,
    >)
        ensures
            r is Ok <==> decoded_inner_node(value.0@) is Some,
            r matches Ok(n) ==> n.hash.val() == be_value(key.0@) % felt_prime(),
            r matches Ok(n) ==> Some(inner_node_fields(n.data)) == Some(decoded_inner_node(value.0@)),
            r matches Err(e) ==> e is Deserialization,
    {
        let hash = HashOutput(Felt::from_bytes_be_slice(key.0.as_slice()));
        let bytes = value.0.as_slice();
        if bytes.len() == 64 {
            let left = Felt::from_bytes_be_slice(slice_subrange(bytes, 0, 32));
            let right = Felt::from_bytes_be_slice(slice_subrange(bytes, 32, 64));
            Ok(FilledNode {
                hash,
                data: NodeData::Binary(BinaryData { left_hash: HashOutput(left), right_hash: HashOutput(right) }),
            })
        } else if bytes.len() == 65 {
            let bottom = Felt::from_bytes_be_slice(slice_subrange(bytes, 0, 32));
            let path = Felt::from_bytes_be_slice(slice_subrange(bytes, 32, 64)).to_u256();
            let length = bytes[64];
            Ok(FilledNode {
                hash,
                data: NodeData::Edge(EdgeData {
                    bottom_hash: HashOutput(bottom),
                    path_to_bottom: PathToBottom { path: EdgePath(path), length: EdgePathLength(length) },
                }),
            })
        } else {
            Err(OriginalSkeletonTreeError::Deserialization)
        }
    }

    /// The stored form of the node: that of an inner node, or of a leaf.
    pub fn serialize(&self) -> (r: StorageValue)
        ensures
            r.0@ == node_bytes(self.data),
    {
        if let NodeData::Leaf(leaf) = &self.data {
            return leaf.serialize();
        }
        let mut out: Vec<u8> = Vec::new();
        match &self.data {
            NodeData::Binary(b) => {
                let l = b.left_hash.0.to_bytes_be();
                let r = b.right_hash.0.to_bytes_be();
                append_bytes(&mut out, l.as_slice());
                append_bytes(&mut out, r.as_slice());
            },
            NodeData::Edge(e) => {
                let h = e.bottom_hash.0.to_bytes_be();
                let p = u256_to_be_bytes(e.path_to_bottom.path.0);
                append_bytes(&mut out, h.as_slice());
                append_bytes(&mut out, p.as_slice());
                out.push(e.path_to_bottom.length.0);
            },
            NodeData::Leaf(_) => {},
        }
        proof {
            assert(out@ =~= inner_node_bytes(self.data));
        }
        StorageValue(out)
    }

    /// The storage key suffix of a node: its hash in 32 big-endian bytes.
    pub fn suffix(&self) -> (r: Vec<u8>)
        ensures
            r@ == be_bytes(self.hash.val(), 32),
    {
        self.hash.0.to_bytes_be()
    }

    /// The storage prefix of the node: that of inner nodes, or of its leaf.
    pub fn get_prefix(&self) -> (r: StoragePrefix)
        ensures
            r == node_prefix(self.data),
    {
        match &self.data {
            NodeData::Leaf(leaf) => leaf.get_prefix(),
            _ => StoragePrefix::InnerNode,
        }
    }

    /// The storage key of the node: its prefix and its hash.
    pub fn db_key(&self) -> (r: StorageKey)
        ensures
            r.0@ == db_key(node_prefix(self.data), be_bytes(self.hash.val(), 32)),
    {
        let suffix = self.suffix();
        create_db_key(self.get_prefix(), suffix.as_slice())
    }
}

/// Reading back the stored form of an inner node gives its data: the stored
/// bytes decode to the fields of the node (hashes and paths below the prime).
pub proof fn lemma_inner_node_roundtrip<L>(data: NodeData<L>)
    requires
        !(data is Leaf),
        data matches NodeData::Binary(b) ==> b.left_hash.val() < felt_prime() && b.right_hash.val()
            < felt_prime(),
        data matches NodeData::Edge(e) ==> e.bottom_hash.val() < felt_prime()
            && e.path_to_bottom.path.0.value() < felt_prime(),
    ensures
        decoded_inner_node(inner_node_bytes(data)) == inner_node_fields(data),
{
    lemma_prime_below_pow2_256();
    match data {
        NodeData::Binary(b) => {
            let x = be_bytes(b.left_hash.val(), 32);
            let y = be_bytes(b.right_hash.val(), 32);
            lemma_be_bytes_value(b.left_hash.val(), 32);
            lemma_be_bytes_value(b.right_hash.val(), 32);
            assert((x + y).subrange(0, 32) =~= x);
            assert((x + y).subrange(32, 64) =~= y);
            lemma_small_mod(b.left_hash.val(), felt_prime());
            lemma_small_mod(b.right_hash.val(), felt_prime());
        },
        NodeData::Edge(e) => {
            let x = be_bytes(e.bottom_hash.val(), 32);
            let y = be_bytes(e.path_to_bottom.path.0.value(), 32);
            lemma_be_bytes_value(e.bottom_hash.val(), 32);
            lemma_be_bytes_value(e.path_to_bottom.path.0.value(), 32);
            let s = x + y + seq![e.path_to_bottom.length.0];
            assert(s.subrange(0, 32) =~= x);
            assert(s.subrange(32, 64) =~= y);
            assert(s[64] == e.path_to_bottom.length.0);
            lemma_small_mod(e.bottom_hash.val(), felt_prime());
            lemma_small_mod(e.path_to_bottom.path.0.value(), felt_prime());
        },
        NodeData::Leaf(_) => {},
    }
}

/// The prime is below `2^256`.
pub proof fn lemma_prime_below_pow2_256()
    ensures
        felt_prime() < pow2(256),
        pow2(256) == pow2(8 * 32),
{
    crate::bits::lemma_pow2_256();
}

} // verus!
