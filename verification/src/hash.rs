//! Hash outputs and the hash function of tree nodes.
use crate::felt::{felt_hex_value, felt_prime, pedersen_hash, poseidon_hash, Felt};
use starknet_types_core::felt::FromStrError;
use crate::leaf::LeafDataImpl;
use crate::node_data::{BinaryData, EdgeData, NodeData, PathToBottom};
use vstd::prelude::*;

verus! {

/// The output of a hash function.
#[derive(Clone, Copy, Debug, PartialEq, Eq, Hash, Structural)]
pub struct HashOutput(pub Felt);

impl HashOutput {
    /// The number the hash stands for.
    pub open spec fn val(self) -> nat {
        self.0.val()
    }

    pub fn zero() -> (r: HashOutput)
        ensures
            r.val() == 0,
    {
        HashOutput(Felt::zero())
    }

    /// Parses a hexadecimal hash.
    pub fn from_hex(hex_string: &str) -> (r: Result<HashOutput, FromStrError>)
        ensures
            r is Ok <==> felt_hex_value(hex_string@) is Some,
            r matches Ok(h) ==> felt_hex_value(hex_string@) == Some(h.val()),
    {
        match Felt::from_hex(hex_string) {
            Ok(f) => Ok(HashOutput(f)),
            Err(e) => Err(e),
        }
    }

    /// The root hash of an empty tree.
    pub fn root_of_empty_tree() -> (r: HashOutput)
        ensures
            r.val() == 0,
    {
        Self::zero()
    }
}

/// The hash of an edge: `Pedersen(bottom, path) + length` in the field.
pub open spec fn edge_hash(bottom: nat, path: nat, length: nat) -> nat {
    (pedersen_hash(bottom, path % felt_prime()) + length) % felt_prime()
}

/// The hash function of the nodes of a tree. Inner nodes are hashed as in
/// https://docs.starknet.io/documentation/architecture_and_concepts/Network_Architecture/starknet-state/#trie_construction;
/// leaves as each implementation says.
pub trait TreeHashFunction {
    /// The hash of a leaf.
    spec fn leaf_hash(leaf: LeafDataImpl) -> nat;

    /// Computes the hash of the given leaf.
    fn compute_leaf_hash(leaf_data: &LeafDataImpl) -> (r: HashOutput)
        ensures
            r.val() == Self::leaf_hash(*leaf_data),
    ;
}

/// The hash of a node's data.
pub open spec fn node_hash<TH: TreeHashFunction>(data: NodeData<LeafDataImpl>) -> nat {
    match data {
        NodeData::Binary(b) => pedersen_hash(b.left_hash.val(), b.right_hash.val()),
        NodeData::Edge(e) => edge_hash(
            e.bottom_hash.val(),
            e.path_to_bottom.path.0.value(),
            e.path_to_bottom.length.0 as nat,
        ),
        NodeData::Leaf(l) => TH::leaf_hash(l),
    }
}

/// Computes the hash for the given node data.
pub fn compute_node_hash<TH: TreeHashFunction>(node_data: &NodeData<LeafDataImpl>) -> (r: HashOutput)
    ensures
        r.val() == node_hash::<TH>(*node_data),
{
    match node_data {
        NodeData::Binary(BinaryData { left_hash, right_hash }) => HashOutput(
            Felt::pedersen(&left_hash.0, &right_hash.0),
        ),
        NodeData::Edge(EdgeData { bottom_hash, path_to_bottom: PathToBottom { path, length } }) => {
            let hashed = Felt::pedersen(&bottom_hash.0, &Felt::from_u256_reduced(path.0));
            HashOutput(hashed.add(&Felt::from_u8(length.0)))
        },
        NodeData::Leaf(leaf_data) => TH::compute_leaf_hash(leaf_data),
    }
}

/// The hash of a contract state leaf:
/// `Pedersen(Pedersen(Pedersen(class_hash, storage_root), nonce), version)`.
pub open spec fn contract_state_hash(class_hash: nat, storage_root: nat, nonce: nat) -> nat {
    pedersen_hash(pedersen_hash(pedersen_hash(class_hash, storage_root), nonce), 0)
}

/// The number standing for the bytes of `CONTRACT_CLASS_LEAF_V0`.
pub open spec fn contract_class_leaf_v0() -> nat {
    0x434f4e54524143545f434c4153535f4c4541465f5630nat
}

/// The tree hash function of the Starknet tries. Storage leaves hash to their
/// value, compiled class leaves to `Poseidon(CONTRACT_CLASS_LEAF_V0, hash)`, and
/// contract states as `contract_state_hash` says.
pub struct TreeHashFunctionImpl;

impl TreeHashFunctionImpl {
    /// The hex string corresponding to b'CONTRACT_CLASS_LEAF_V0' in big-endian.
    pub const CONTRACT_CLASS_LEAF_V0: &'static str = "0x434f4e54524143545f434c4153535f4c4541465f5630";

    /// The version of the contract state hash.
    pub fn contract_state_hash_version() -> (r: Felt)
        ensures
            r.val() == 0,
    {
        Felt::zero()
    }

    /// The field element of `CONTRACT_CLASS_LEAF_V0`.
    pub fn contract_class_leaf_version() -> (r: Felt)
        ensures
            r.val() == contract_class_leaf_v0(),
    {
        let r = Felt::from_words(0x434f4e545241u128, 0x43545f434c4153535f4c4541465f5630u128);
        proof {
            crate::bits::lemma_pow2_128();
        }
        r.unwrap()
    }
}

impl TreeHashFunction for TreeHashFunctionImpl {
    open spec fn leaf_hash(leaf: LeafDataImpl) -> nat {
        match leaf {
            LeafDataImpl::StorageValue(v) => v.val(),
            LeafDataImpl::CompiledClassHash(c) => poseidon_hash(contract_class_leaf_v0(), c.0.val()),
            LeafDataImpl::ContractState(s) => contract_state_hash(
                s.class_hash.0.val(),
                s.storage_root_hash.val(),
                s.nonce.0.val(),
            ),
        }
    }

    fn compute_leaf_hash(leaf_data: &LeafDataImpl) -> (r: HashOutput) {
        match leaf_data {
            LeafDataImpl::StorageValue(value) => HashOutput(*value),
            LeafDataImpl::CompiledClassHash(compiled_class_hash) => {
                let version = Self::contract_class_leaf_version();
                HashOutput(Felt::poseidon(&version, &compiled_class_hash.0))
            },
            LeafDataImpl::ContractState(contract_state) => {
                let h1 = Felt::pedersen(&contract_state.class_hash.0, &contract_state.storage_root_hash.0);
                let h2 = Felt::pedersen(&h1, &contract_state.nonce.0);
                HashOutput(Felt::pedersen(&h2, &Self::contract_state_hash_version()))
            },
        }
    }
}

/// A tree hash function for tests: every leaf hashes to the value it holds
/// (for a contract state, its storage root).
pub struct TreeHashFunctionTestingImpl;

impl TreeHashFunction for TreeHashFunctionTestingImpl {
    open spec fn leaf_hash(leaf: LeafDataImpl) -> nat {
        match leaf {
            LeafDataImpl::StorageValue(v) => v.val(),
            LeafDataImpl::CompiledClassHash(c) => c.0.val(),
            LeafDataImpl::ContractState(s) => s.storage_root_hash.val(),
        }
    }

    fn compute_leaf_hash(leaf_data: &LeafDataImpl) -> (r: HashOutput) {
        match leaf_data {
            LeafDataImpl::StorageValue(value) => HashOutput(*value),
            LeafDataImpl::CompiledClassHash(compiled_class_hash) => HashOutput(compiled_class_hash.0),
            LeafDataImpl::ContractState(contract_state) => contract_state.storage_root_hash,
        }
    }
}

} // verus!
