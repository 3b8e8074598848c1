//! Leaves of the three kinds of trees: storage values, compiled class hashes and
//! contract states.
use crate::assoc::KeyView;
use crate::felt::{felt_hex_value, Felt};
use crate::hash::HashOutput;
use starknet_types_core::felt::FromStrError;
use vstd::prelude::*;

verus! {

/// The hash of a contract class.
#[derive(Clone, Copy, Debug, PartialEq, Eq, Hash, Structural)]
pub struct ClassHash(pub Felt);

/// The nonce of a contract.
#[derive(Clone, Copy, Debug, PartialEq, Eq, Hash, Structural)]
pub struct Nonce(pub Felt);

/// The hash of a compiled contract class.
#[derive(Clone, Copy, Debug, PartialEq, Eq, Hash, Structural)]
pub struct CompiledClassHash(pub Felt);

impl KeyView for ClassHash {
    type Key = nat;

    open spec fn key(&self) -> nat {
        self.0.val()
    }

    fn same_key(&self, other: &ClassHash) -> (r: bool) {
        self.0.equals(&other.0)
    }
}

impl ClassHash {
    /// Parses a hexadecimal class hash.
    pub fn from_hex(hex_string: &str) -> (r: Result<ClassHash, FromStrError>)
        ensures
            r is Ok <==> felt_hex_value(hex_string@) is Some,
            r matches Ok(h) ==> felt_hex_value(hex_string@) == Some(h.0.val()),
    {
        match Felt::from_hex(hex_string) {
            Ok(f) => Ok(ClassHash(f)),
            Err(e) => Err(e),
        }
    }
}

impl Nonce {
    /// Parses a hexadecimal nonce.
    pub fn from_hex(hex_string: &str) -> (r: Result<Nonce, FromStrError>)
        ensures
            r is Ok <==> felt_hex_value(hex_string@) is Some,
            r matches Ok(h) ==> felt_hex_value(hex_string@) == Some(h.0.val()),
    {
        match Felt::from_hex(hex_string) {
            Ok(f) => Ok(Nonce(f)),
            Err(e) => Err(e),
        }
    }
}

/// The leaf of the contracts trie.
#[derive(Clone, Copy, Debug, PartialEq, Eq, Structural)]
pub struct ContractState {
    pub nonce: Nonce,
    pub storage_root_hash: HashOutput,
    pub class_hash: ClassHash,
}

/// The data of a leaf.
#[derive(Clone, Copy, Debug, PartialEq, Eq, Structural)]
pub enum LeafDataImpl {
    StorageValue(Felt),
    CompiledClassHash(CompiledClassHash),
    ContractState(ContractState),
}

/// Leaves of a tree.
pub trait LeafData {
    /// Whether the leaf stands for no data.
    spec fn empty(&self) -> bool;

    /// Returns true if leaf is empty.
    fn is_empty(&self) -> (r: bool)
        ensures
            r == self.empty(),
    ;
}

impl LeafData for LeafDataImpl {
    open spec fn empty(&self) -> bool {
        match *self {
            LeafDataImpl::StorageValue(value) => value.val() == 0,
            LeafDataImpl::CompiledClassHash(class_hash) => class_hash.0.val() == 0,
            LeafDataImpl::ContractState(state) => state.nonce.0.val() == 0 && state.class_hash.0.val()
                == 0 && state.storage_root_hash.0.val() == 0,
        }
    }

    fn is_empty(&self) -> (r: bool) {
        match self {
            LeafDataImpl::StorageValue(value) => value.is_zero(),
            LeafDataImpl::CompiledClassHash(class_hash) => class_hash.0.is_zero(),
            LeafDataImpl::ContractState(contract_state) => {
                contract_state.nonce.0.is_zero() && contract_state.class_hash.0.is_zero()
                    && contract_state.storage_root_hash.0.is_zero()
            },
        }
    }
}

/// A leaf is empty (deleted) exactly when every field element it holds is
/// zero: a storage value or compiled class hash of zero, or a contract state
/// whose nonce, class hash and storage root are all zero. A contract state
/// with any non-zero field (a deployed class, say) is not empty.
pub proof fn lemma_empty_leaf_holds_only_zeros(leaf: LeafDataImpl)
    ensures
        leaf matches LeafDataImpl::StorageValue(v) ==> (leaf.empty() <==> v.val() == 0),
        leaf matches LeafDataImpl::CompiledClassHash(c) ==> (leaf.empty() <==> c.0.val() == 0),
        leaf matches LeafDataImpl::ContractState(s) ==> (leaf.empty() <==> (s.nonce.0.val() == 0
            && s.class_hash.0.val() == 0 && s.storage_root_hash.val() == 0)),
        leaf matches LeafDataImpl::ContractState(s) ==> (s.class_hash.0.val() != 0 ==> !leaf.empty()),
{
}

/// A leaf in the skeleton of a tree: only whether it is zero matters.
#[derive(Clone, Copy, Debug, PartialEq, Eq, Structural)]
pub enum SkeletonLeaf {
    Zero,
    NonZero,
}

impl SkeletonLeaf {
    pub fn is_zero(&self) -> (r: bool)
        ensures
            r == (*self == SkeletonLeaf::Zero),
    {
        match self {
            SkeletonLeaf::Zero => true,
            SkeletonLeaf::NonZero => false,
        }
    }

    /// The skeleton leaf of a value: zero exactly when the value is zero.
    pub fn from_felt(value: Felt) -> (r: SkeletonLeaf)
        ensures
            r == SkeletonLeaf::Zero <==> value.val() == 0,
    {
        if value.is_zero() {
            SkeletonLeaf::Zero
        } else {
            SkeletonLeaf::NonZero
        }
    }

    /// The skeleton leaf of a small value.
    pub fn from_u8(value: u8) -> (r: SkeletonLeaf)
        ensures
            r == SkeletonLeaf::Zero <==> value == 0,
    {
        Self::from_felt(Felt::from_u8(value))
    }

    /// The skeleton leaf of leaf data: zero exactly when the leaf is empty.
    pub fn from_leaf(leaf: &LeafDataImpl) -> (r: SkeletonLeaf)
        ensures
            r == SkeletonLeaf::Zero <==> leaf.empty(),
    {
        if leaf.is_empty() {
            SkeletonLeaf::Zero
        } else {
            SkeletonLeaf::NonZero
        }
    }
}

impl LeafDataImpl {
    /// The data of the leaf at `index`: its modification.
    pub fn create(
        index: &crate::types::NodeIndex,
        leaf_modifications: &crate::assoc::AssocMap<crate::types::NodeIndex, LeafDataImpl>,
    ) -> (r: Result<LeafDataImpl, crate::errors::LeafError>)
        requires
            leaf_modifications.wf(),
        ensures
            r is Ok <==> leaf_modifications.map().dom().contains(index.value()),
            r matches Ok(l) ==> l == leaf_modifications.map()[index.value()],
            r matches Err(e) ==> e == crate::errors::LeafError::MissingDataForUpdate(*index),
    {
        match leaf_modifications.get(index) {
            Some(leaf) => Ok(*leaf),
            None => Err(crate::errors::LeafError::MissingDataForUpdate(*index)),
        }
    }
}

} // verus!
