//! Errors of the skeleton and filled tree computations.
use crate::filled_node::FilledNode;
use crate::input::ContractAddress;
use crate::leaf::LeafDataImpl;
use crate::storage::StorageKey;
use crate::types::NodeIndex;
use vstd::prelude::*;

verus! {

/// Errors while building an original skeleton tree.
#[derive(Debug)]
pub enum OriginalSkeletonTreeError {
    /// A stored node value is neither a binary nor an edge node.
    Deserialization,
    /// A node is missing from storage.
    MissingKey(StorageKey),
    /// A stored edge at this index is empty, longer than its height or has
    /// more turns than its length.
    InvalidEdge(NodeIndex),
    /// A modification for this leaf index is missing.
    ReadModificationsError(NodeIndex),
    /// The current state of this contract is missing.
    LowerTreeCommitmentError(ContractAddress),
}

/// Errors while reading the data of a leaf.
#[derive(Debug)]
pub enum LeafError {
    /// A leaf at this index is deleted but appears in the updated skeleton.
    DeletedLeafInSkeleton(NodeIndex),
    /// The modification of the leaf at this index is missing.
    MissingDataForUpdate(NodeIndex),
}

/// Errors while building an updated skeleton tree.
#[derive(Debug)]
pub enum UpdatedSkeletonTreeError {
    /// The node at this index is missing.
    MissingNode(NodeIndex),
    /// The original skeleton of this contract's storage is missing.
    LowerTreeCommitmentError(ContractAddress),
}

/// Errors while computing a filled tree.
#[derive(Debug)]
pub enum FilledTreeError {
    /// A leaf at this index is deleted but appears in the skeleton.
    DeletedLeafInSkeleton(NodeIndex),
    /// The node at this index was computed twice; the node computed first is
    /// taken out of its place and kept here.
    DoubleUpdate { index: NodeIndex, existing_value: Box<FilledNode<LeafDataImpl>> },
    /// A modification for this leaf index is missing.
    MissingDataForUpdate(NodeIndex),
    /// The node at this index is missing from the skeleton.
    MissingNode(NodeIndex),
    /// The root is missing.
    MissingRoot,
}

/// Errors while computing a forest of tries.
#[derive(Debug)]
pub enum ForestError {
    OriginalSkeleton(OriginalSkeletonTreeError),
    UpdatedSkeleton(UpdatedSkeletonTreeError),
    /// Filling the classes trie failed.
    CompiledClassHashTrie(FilledTreeError),
    /// Filling a storage trie failed.
    StorageTrie(FilledTreeError),
    /// Filling the contracts trie failed.
    ContractTrie(FilledTreeError),
    /// The current state of this contract's storage trie is missing.
    MissingContractCurrentState(ContractAddress),
    /// There is no original skeleton of this contract's storage trie.
    MissingOriginalSkeleton(ContractAddress),
    /// There is no updated skeleton of this contract's storage trie.
    MissingUpdatedSkeleton(ContractAddress),
}

} // verus!
