//! How an original skeleton tree compares modified leaves with the previous
//! ones, for each kind of tree.
use crate::assoc::AssocMap;
use crate::errors::OriginalSkeletonTreeError;
use crate::input::StarknetStorageValue;
use crate::leaf::{CompiledClassHash, ContractState};
use crate::types::NodeIndex;
use vstd::prelude::*;

verus! {

/// Configures the creation of an original skeleton tree.
pub trait OriginalSkeletonTreeConfig<L> {
    /// Whether modified leaves are compared with the previous ones.
    fn compare_modified_leaves(&self) -> bool;

    /// Whether the modification of the leaf at `index` equals its previous
    /// value.
    fn compare_leaf(&self, index: &NodeIndex, previous_leaf: &L) -> Result<bool, OriginalSkeletonTreeError>;
}

/// The configuration of a storage trie.
pub struct OriginalSkeletonStorageTrieConfig<'a> {
    pub modifications: &'a AssocMap<NodeIndex, StarknetStorageValue>,
    pub compare_modified_leaves: bool,
}

impl<'a> OriginalSkeletonStorageTrieConfig<'a> {
    pub fn new(
        modifications: &'a AssocMap<NodeIndex, StarknetStorageValue>,
        compare_modified_leaves: bool,
    ) -> (r: Self)
        ensures
            r.modifications == modifications,
            r.compare_modified_leaves == compare_modified_leaves,
    {
        OriginalSkeletonStorageTrieConfig { modifications, compare_modified_leaves }
    }
}

impl<'a> OriginalSkeletonTreeConfig<StarknetStorageValue> for OriginalSkeletonStorageTrieConfig<'a> {
    fn compare_modified_leaves(&self) -> (r: bool)
        ensures
            r == self.compare_modified_leaves,
    {
        self.compare_modified_leaves
    }

    fn compare_leaf(&self, index: &NodeIndex, previous_leaf: &StarknetStorageValue) -> (r: Result<
        bool,
        OriginalSkeletonTreeError,
    >)
        ensures
            self.modifications.wf() ==> (r is Ok <==> self.modifications.map().dom().contains(index.value())),
            self.modifications.wf() ==> (r matches Ok(b) ==> b == (self.modifications.map()[index.value()]
                == *previous_leaf)),
            r matches Err(e) ==> e == OriginalSkeletonTreeError::ReadModificationsError(*index),
    {
        proof {
            if self.modifications.wf() {
                crate::assoc::lemma_to_map_dom(self.modifications.entries@, index.value());
            }
        }
        match self.modifications.position(index) {
            Some(i) => {
                proof {
                    if self.modifications.wf() {
                        crate::assoc::lemma_to_map_entry(self.modifications.entries@, i as int);
                    }
                }
                Ok(self.modifications.entries[i].1 == *previous_leaf)
            },
            None => Err(OriginalSkeletonTreeError::ReadModificationsError(*index)),
        }
    }
}

/// The configuration of the classes trie.
pub struct OriginalSkeletonClassesTrieConfig<'a> {
    pub modifications: &'a AssocMap<NodeIndex, CompiledClassHash>,
    pub compare_modified_leaves: bool,
}

impl<'a> OriginalSkeletonClassesTrieConfig<'a> {
    pub fn new(modifications: &'a AssocMap<NodeIndex, CompiledClassHash>, compare_modified_leaves: bool) -> (r: Self)
        ensures
            r.modifications == modifications,
            r.compare_modified_leaves == compare_modified_leaves,
    {
        OriginalSkeletonClassesTrieConfig { modifications, compare_modified_leaves }
    }
}

impl<'a> OriginalSkeletonTreeConfig<CompiledClassHash> for OriginalSkeletonClassesTrieConfig<'a> {
    fn compare_modified_leaves(&self) -> (r: bool)
        ensures
            r == self.compare_modified_leaves,
    {
        self.compare_modified_leaves
    }

    fn compare_leaf(&self, index: &NodeIndex, previous_leaf: &CompiledClassHash) -> (r: Result<
        bool,
        OriginalSkeletonTreeError,
    >)
        ensures
            self.modifications.wf() ==> (r is Ok <==> self.modifications.map().dom().contains(index.value())),
            self.modifications.wf() ==> (r matches Ok(b) ==> b == (self.modifications.map()[index.value()]
                == *previous_leaf)),
            r matches Err(e) ==> e == OriginalSkeletonTreeError::ReadModificationsError(*index),
    {
        proof {
            if self.modifications.wf() {
                crate::assoc::lemma_to_map_dom(self.modifications.entries@, index.value());
            }
        }
        match self.modifications.position(index) {
            Some(i) => {
                proof {
                    if self.modifications.wf() {
                        crate::assoc::lemma_to_map_entry(self.modifications.entries@, i as int);
                    }
                }
                Ok(self.modifications.entries[i].1 == *previous_leaf)
            },
            None => Err(OriginalSkeletonTreeError::ReadModificationsError(*index)),
        }
    }
}

/// The configuration of the contracts trie: leaves are never compared.
pub struct OriginalSkeletonContractsTrieConfig;

impl OriginalSkeletonContractsTrieConfig {
    pub fn new() -> (r: Self) {
        OriginalSkeletonContractsTrieConfig
    }
}

impl OriginalSkeletonTreeConfig<ContractState> for OriginalSkeletonContractsTrieConfig {
    fn compare_modified_leaves(&self) -> (r: bool)
        ensures
            !r,
    {
        false
    }

    fn compare_leaf(&self, index: &NodeIndex, previous_leaf: &ContractState) -> (r: Result<
        bool,
        OriginalSkeletonTreeError,
    >)
        ensures
            r == Ok::<bool, OriginalSkeletonTreeError>(false),
    {
        Ok(false)
    }
}

} // verus!
