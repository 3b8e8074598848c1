use committer::assoc::AssocMap;
use committer::entries::{create_binary_entry, create_edge_entry};
use committer::errors::{FilledTreeError, ForestError, OriginalSkeletonTreeError, UpdatedSkeletonTreeError};
use committer::felt::Felt;
use committer::filled_node::FilledNode;
use committer::forest::{
    create_original_skeleton_forest, FilledForest, FilledForestImpl, OriginalSkeletonForestImpl, UpdatedSkeletonForestImpl,
    UpdatedSkeletonTree,
};
use committer::hash::{HashOutput, TreeHashFunctionTestingImpl};
use committer::input::{ContractAddress, Input, StarknetStorageKey, StarknetStorageValue, StateDiff};
use committer::leaf::{ClassHash, CompiledClassHash, ContractState, LeafDataImpl, Nonce, SkeletonLeaf};
use committer::node_data::{EdgePath, EdgePathLength, PathToBottom};
use committer::original_skeleton::{OriginalSkeletonNode, OriginalSkeletonTreeImpl};
use committer::storage::{MapStorage, StorageKey, StoragePrefix};
use committer::types::{NodeIndex, TreeHeight};
use committer::updated_skeleton::{UpdatedSkeletonNode, UpdatedSkeletonTreeImpl};

fn felt(v: u128) -> Felt {
    Felt::from_u128(v)
}

fn address(v: u128) -> ContractAddress {
    ContractAddress(felt(v))
}

fn edge(p: u128, len: u8) -> OriginalSkeletonNode {
    OriginalSkeletonNode::Edge(PathToBottom { path: EdgePath::from_u128(p), length: EdgePathLength(len) })
}

fn hash(v: u128) -> HashOutput {
    HashOutput(felt(v))
}

fn check_nodes(tree: &OriginalSkeletonTreeImpl, expected: Vec<(u128, OriginalSkeletonNode)>) {
    assert_eq!(tree.nodes.len(), expected.len());
    for (i, node) in expected.iter() {
        assert_eq!(tree.nodes.get(&NodeIndex::from_u128(*i)), Some(node), "node {}", i);
    }
}

/// A tree of height 2 whose root hash is 3: a binary root over two edges of
/// length one, the left one to node 4 and the right one to node 7, both of
/// hash 0.
fn storage() -> MapStorage {
    MapStorage::from_entries(vec![create_binary_entry(1, 2), create_edge_entry(0, 0, 1), create_edge_entry(0, 1, 1)])
}

fn state_diff() -> StateDiff {
    let mut nonces = AssocMap::new();
    nonces.insert(address(1), Nonce(felt(5)));
    let mut inner = AssocMap::new();
    inner.insert(StarknetStorageKey(felt(2)), StarknetStorageValue(felt(7)));
    let mut storage_updates = AssocMap::new();
    storage_updates.insert(address(1), inner);
    StateDiff {
        address_to_class_hash: AssocMap::new(),
        address_to_nonce: nonces,
        class_hash_to_compiled_class_hash: AssocMap::new(),
        current_contract_state_leaves: AssocMap::new(),
        storage_updates,
    }
}

fn current_leaves() -> AssocMap<ContractAddress, ContractState> {
    let mut current = AssocMap::new();
    current.insert(
        address(1),
        ContractState { nonce: Nonce(felt(0)), storage_root_hash: hash(3), class_hash: ClassHash(felt(0)) },
    );
    current
}

#[test]
fn test_create_original_skeleton_forest() {
    let forest = OriginalSkeletonForestImpl::create_original_skeleton_forest(
        &storage(),
        hash(3),
        hash(3),
        TreeHeight::new(2),
        &current_leaves(),
        &state_diff(),
    )
    .unwrap();
    // Address 1 is leaf 5, below the left edge that leads away from it.
    check_nodes(
        &forest.contracts_trie,
        vec![
            (1, OriginalSkeletonNode::Binary),
            (2, edge(0, 1)),
            (3, edge(1, 1)),
            (4, OriginalSkeletonNode::LeafOrBinarySibling(hash(0))),
            (7, OriginalSkeletonNode::UnmodifiedBottom(hash(0))),
        ],
    );
    // Storage key 2 is leaf 6, below the right edge that leads away from it.
    let storage_trie = forest.storage_tries.get(&address(1)).unwrap();
    check_nodes(
        storage_trie,
        vec![
            (1, OriginalSkeletonNode::Binary),
            (2, edge(0, 1)),
            (3, edge(1, 1)),
            (4, OriginalSkeletonNode::UnmodifiedBottom(hash(0))),
            (7, OriginalSkeletonNode::LeafOrBinarySibling(hash(0))),
        ],
    );
    // No class is declared: the whole classes trie is a sibling.
    check_nodes(&forest.classes_trie, vec![(1, OriginalSkeletonNode::LeafOrBinarySibling(hash(3)))]);
}

#[test]
fn test_create_original_skeleton_forest_missing_contract_state() {
    let result = OriginalSkeletonForestImpl::create_original_skeleton_forest(
        &storage(),
        hash(3),
        hash(3),
        TreeHeight::new(2),
        &AssocMap::new(),
        &state_diff(),
    );
    match result {
        Err(OriginalSkeletonTreeError::LowerTreeCommitmentError(a)) => assert_eq!(a, address(1)),
        _ => panic!("expected a missing contract state"),
    }
}

#[test]
fn test_create_original_skeleton_forest_of_input() {
    let mut diff = state_diff();
    diff.current_contract_state_leaves = current_leaves();
    let input = Input { storage: storage(), state_diff: diff, tree_height: TreeHeight::new(2) };
    let tries = create_original_skeleton_forest(&input).unwrap();
    assert_eq!(tries.len(), 1);
    check_nodes(
        tries.get(&address(1)).unwrap(),
        vec![
            (1, OriginalSkeletonNode::Binary),
            (2, edge(0, 1)),
            (3, edge(1, 1)),
            (4, OriginalSkeletonNode::UnmodifiedBottom(hash(0))),
            (7, OriginalSkeletonNode::LeafOrBinarySibling(hash(0))),
        ],
    );
    let input = Input { storage: storage(), state_diff: state_diff(), tree_height: TreeHeight::new(2) };
    match create_original_skeleton_forest(&input) {
        Err(OriginalSkeletonTreeError::LowerTreeCommitmentError(a)) => assert_eq!(a, address(1)),
        _ => panic!("expected a missing contract state"),
    }
}

#[test]
fn test_accessed_addresses() {
    let mut diff = state_diff();
    diff.address_to_class_hash.insert(address(3), ClassHash(felt(9)));
    diff.address_to_class_hash.insert(address(1), ClassHash(felt(9)));
    let accessed = diff.accessed_addresses();
    assert_eq!(accessed.len(), 2);
    assert!(accessed.contains(&address(1)));
    assert!(accessed.contains(&address(3)));
}

#[test]
fn test_updated_contract_skeleton_leaf() {
    let zero_state = ContractState { nonce: Nonce(felt(0)), storage_root_hash: hash(0), class_hash: ClassHash(felt(0)) };
    let state = ContractState { nonce: Nonce(felt(1)), storage_root_hash: hash(0), class_hash: ClassHash(felt(2)) };
    let zero_nonce = Nonce(felt(0));
    let zero_class = ClassHash(felt(0));
    assert_eq!(OriginalSkeletonForestImpl::updated_contract_skeleton_leaf(None, None, &zero_state, true), SkeletonLeaf::Zero);
    assert_eq!(
        OriginalSkeletonForestImpl::updated_contract_skeleton_leaf(None, None, &zero_state, false),
        SkeletonLeaf::NonZero
    );
    assert_eq!(OriginalSkeletonForestImpl::updated_contract_skeleton_leaf(None, None, &state, true), SkeletonLeaf::NonZero);
    assert_eq!(
        OriginalSkeletonForestImpl::updated_contract_skeleton_leaf(Some(&zero_nonce), Some(&zero_class), &state, true),
        SkeletonLeaf::Zero
    );
    assert_eq!(
        OriginalSkeletonForestImpl::updated_contract_skeleton_leaf(Some(&zero_nonce), None, &state, true),
        SkeletonLeaf::NonZero
    );
}

fn skeleton(nodes: Vec<(u128, UpdatedSkeletonNode)>, height: u8) -> UpdatedSkeletonTreeImpl {
    let mut tree = UpdatedSkeletonTreeImpl { tree_height: TreeHeight::new(height), skeleton_tree: AssocMap::new() };
    for (i, node) in nodes {
        tree.skeleton_tree.insert(NodeIndex::from_u128(i), node);
    }
    tree
}

fn updated_forest() -> UpdatedSkeletonForestImpl {
    let mut storage_tries = AssocMap::new();
    storage_tries.insert(address(0), skeleton(vec![(1, UpdatedSkeletonNode::Leaf)], 0));
    UpdatedSkeletonForestImpl {
        classes_trie: skeleton(vec![(1, UpdatedSkeletonNode::Leaf)], 0),
        contracts_trie: skeleton(
            vec![(1, UpdatedSkeletonNode::Binary), (2, UpdatedSkeletonNode::Leaf), (3, UpdatedSkeletonNode::Sibling(hash(11)))],
            1,
        ),
        storage_tries,
    }
}

fn storage_updates() -> AssocMap<ContractAddress, AssocMap<NodeIndex, LeafDataImpl>> {
    let mut inner = AssocMap::new();
    inner.insert(NodeIndex::from_u128(1), LeafDataImpl::StorageValue(felt(9)));
    let mut updates = AssocMap::new();
    updates.insert(address(0), inner);
    updates
}

fn classes_updates() -> AssocMap<NodeIndex, LeafDataImpl> {
    let mut updates = AssocMap::new();
    updates.insert(NodeIndex::from_u128(1), LeafDataImpl::CompiledClassHash(CompiledClassHash(felt(3))));
    updates
}

fn create_filled_forest() -> Result<FilledForestImpl, ForestError> {
    let mut current = AssocMap::new();
    current.insert(
        address(0),
        ContractState { nonce: Nonce(felt(1)), storage_root_hash: hash(0), class_hash: ClassHash(felt(2)) },
    );
    let mut class_hashes = AssocMap::new();
    class_hashes.insert(address(0), ClassHash(felt(5)));
    FilledForestImpl::create::<TreeHashFunctionTestingImpl>(
        updated_forest(),
        storage_updates(),
        classes_updates(),
        &current,
        &class_hashes,
        &AssocMap::new(),
        TreeHeight::new(1),
    )
}

#[test]
fn test_filled_forest_create() {
    let forest = create_filled_forest().unwrap();
    assert_eq!(forest.get_compiled_class_root_hash().unwrap(), hash(3));
    // The storage trie is the single leaf 9, so the new storage root is 9; the
    // new state keeps the nonce and takes the new class hash.
    let leaf = forest.contracts_trie.get_all_nodes().get(&NodeIndex::from_u128(2)).unwrap();
    let expected_state = ContractState { nonce: Nonce(felt(1)), storage_root_hash: hash(9), class_hash: ClassHash(felt(5)) };
    assert_eq!(leaf, &FilledNode { hash: hash(9), data: committer::node_data::NodeData::Leaf(LeafDataImpl::ContractState(expected_state)) });
    assert_eq!(forest.get_contract_root_hash().unwrap(), HashOutput(Felt::pedersen(&felt(9), &felt(11))));
}

#[test]
fn test_filled_forest_missing_updated_skeleton() {
    let mut current = AssocMap::new();
    current.insert(address(4), ContractState { nonce: Nonce(felt(1)), storage_root_hash: hash(0), class_hash: ClassHash(felt(2)) });
    let mut updates = AssocMap::new();
    updates.insert(address(4), AssocMap::new());
    let result = FilledForestImpl::create::<TreeHashFunctionTestingImpl>(
        updated_forest(),
        updates,
        classes_updates(),
        &current,
        &AssocMap::new(),
        &AssocMap::new(),
        TreeHeight::new(3),
    );
    assert!(matches!(result, Err(ForestError::MissingUpdatedSkeleton(a)) if a == address(4)));
}

fn create_with(
    storage_updates: AssocMap<ContractAddress, AssocMap<NodeIndex, LeafDataImpl>>,
    classes_updates: AssocMap<NodeIndex, LeafDataImpl>,
    current: AssocMap<ContractAddress, ContractState>,
) -> Result<FilledForestImpl, ForestError> {
    FilledForestImpl::create::<TreeHashFunctionTestingImpl>(
        updated_forest(),
        storage_updates,
        classes_updates,
        &current,
        &AssocMap::new(),
        &AssocMap::new(),
        TreeHeight::new(1),
    )
}

fn current_of_address_zero() -> AssocMap<ContractAddress, ContractState> {
    let mut current = AssocMap::new();
    current.insert(address(0), ContractState { nonce: Nonce(felt(1)), storage_root_hash: hash(0), class_hash: ClassHash(felt(2)) });
    current
}

#[test]
fn test_filled_forest_errors_name_their_trie() {
    // The classes trie lacks the data of its modified leaf.
    let result = create_with(storage_updates(), AssocMap::new(), current_of_address_zero());
    assert!(matches!(result, Err(ForestError::CompiledClassHashTrie(FilledTreeError::MissingDataForUpdate(_)))));
    // The storage trie of address 0 lacks the data of its modified leaf.
    let mut updates = AssocMap::new();
    updates.insert(address(0), AssocMap::new());
    let result = create_with(updates, classes_updates(), current_of_address_zero());
    assert!(matches!(result, Err(ForestError::StorageTrie(FilledTreeError::MissingDataForUpdate(_)))));
    // The current state of address 0 is missing.
    let result = create_with(storage_updates(), classes_updates(), AssocMap::new());
    assert!(matches!(result, Err(ForestError::MissingContractCurrentState(a)) if a == address(0)));
    // No storage is updated, so the contracts trie lacks the data of its leaf.
    let result = create_with(AssocMap::new(), classes_updates(), current_of_address_zero());
    assert!(matches!(result, Err(ForestError::ContractTrie(FilledTreeError::MissingDataForUpdate(_)))));
}

#[test]
fn test_filled_forest_error_order() {
    // Both the classes trie and the storage trie lack data: the classes trie
    // is filled first.
    let mut updates = AssocMap::new();
    updates.insert(address(0), AssocMap::new());
    let result = create_with(updates, AssocMap::new(), current_of_address_zero());
    assert!(matches!(result, Err(ForestError::CompiledClassHashTrie(FilledTreeError::MissingDataForUpdate(_)))));
    // Two entries fail: the error is that of the first one.
    let mut updates = AssocMap::new();
    updates.insert(address(5), AssocMap::new());
    updates.insert(address(0), AssocMap::new());
    let result = create_with(updates, classes_updates(), current_of_address_zero());
    assert!(matches!(result, Err(ForestError::MissingUpdatedSkeleton(a)) if a == address(5)));
}

#[test]
fn test_create_original_skeleton_forest_error_order() {
    // The contracts trie cannot be read from a root hash that is not in
    // storage, and the current state of address 1 is missing: the contracts
    // trie is read first.
    let result = OriginalSkeletonForestImpl::create_original_skeleton_forest(
        &storage(),
        hash(8),
        hash(3),
        TreeHeight::new(2),
        &AssocMap::new(),
        &state_diff(),
    );
    assert!(matches!(result, Err(OriginalSkeletonTreeError::MissingKey(_))));
    // The storage tries are read before the classes trie.
    let mut diff = state_diff();
    diff.class_hash_to_compiled_class_hash.insert(ClassHash(felt(1)), CompiledClassHash(felt(1)));
    let result = OriginalSkeletonForestImpl::create_original_skeleton_forest(
        &storage(),
        hash(3),
        hash(8),
        TreeHeight::new(2),
        &AssocMap::new(),
        &diff,
    );
    assert!(matches!(result, Err(OriginalSkeletonTreeError::LowerTreeCommitmentError(a)) if a == address(1)));
}

#[test]
fn test_write_to_storage() {
    let forest = create_filled_forest().unwrap();
    let mut storage = MapStorage::new();
    forest.write_to_storage(&mut storage);
    // The storage leaf 9 is written under its hash with the storage leaf prefix.
    let mut key = b"starknet_storage_leaf:".to_vec();
    key.extend(felt(9).to_bytes_be());
    assert_eq!(storage.get(&StorageKey(key)).unwrap().0, felt(9).to_bytes_be());
    // The root of the contracts trie is written as a binary node.
    let root = forest.get_contract_root_hash().unwrap();
    let mut root_key = b"patricia_node:".to_vec();
    root_key.extend(root.0.to_bytes_be());
    let mut expected = felt(9).to_bytes_be();
    expected.extend(felt(11).to_bytes_be());
    assert_eq!(storage.get(&StorageKey(root_key)).unwrap().0, expected);
    assert_eq!(StoragePrefix::InnerNode.to_bytes(), b"patricia_node".to_vec());
}

/// An updated tree that records the modifications it was created from, in
/// the order of their indices (so that it depends on them alone).
struct RecordedTree {
    modifications: Vec<(NodeIndex, SkeletonLeaf)>,
}

impl UpdatedSkeletonTree for RecordedTree {
    fn create(
        _original_skeleton: &OriginalSkeletonTreeImpl,
        leaf_modifications: &AssocMap<NodeIndex, SkeletonLeaf>,
    ) -> Result<Self, UpdatedSkeletonTreeError> {
        let mut modifications = leaf_modifications.entries.clone();
        modifications.sort_by_key(|(index, _)| {
            let v = index.to_u256();
            (v.high, v.low)
        });
        Ok(RecordedTree { modifications })
    }

    fn is_empty(&self) -> bool {
        self.modifications.iter().all(|(_, leaf)| *leaf == SkeletonLeaf::Zero)
    }
}

fn empty_tree() -> OriginalSkeletonTreeImpl {
    OriginalSkeletonTreeImpl { nodes: AssocMap::new(), tree_height: TreeHeight::new(2) }
}

fn original_forest_with_storage_of(a: u128) -> OriginalSkeletonForestImpl {
    let mut storage_tries = AssocMap::new();
    storage_tries.insert(address(a), empty_tree());
    OriginalSkeletonForestImpl::new(empty_tree(), empty_tree(), storage_tries)
}

fn zero_storage_updates_of(a: u128) -> AssocMap<ContractAddress, AssocMap<NodeIndex, SkeletonLeaf>> {
    let mut inner = AssocMap::new();
    inner.insert(NodeIndex::from_u128(6), SkeletonLeaf::Zero);
    let mut updates = AssocMap::new();
    updates.insert(address(a), inner);
    updates
}

fn zero_state_of(a: u128) -> AssocMap<ContractAddress, ContractState> {
    let mut current = AssocMap::new();
    current.insert(address(a), ContractState { nonce: Nonce(felt(0)), storage_root_hash: hash(3), class_hash: ClassHash(felt(0)) });
    current
}

#[test]
fn test_compute_updated_skeleton_forest() {
    // The storage of contract 1 becomes empty and its nonce and class hash
    // stay zero: its leaf 5 in the contracts trie becomes zero.
    let forest = original_forest_with_storage_of(1)
        .compute_updated_skeleton_forest::<RecordedTree>(
            &AssocMap::new(),
            &zero_storage_updates_of(1),
            &zero_state_of(1),
            &AssocMap::new(),
            &AssocMap::new(),
            TreeHeight::new(2),
        )
        .unwrap();
    assert_eq!(forest.contracts_trie.modifications, vec![(NodeIndex::from_u128(5), SkeletonLeaf::Zero)]);
    assert_eq!(forest.storage_tries.get(&address(1)).unwrap().modifications, vec![(NodeIndex::from_u128(6), SkeletonLeaf::Zero)]);
    assert!(forest.classes_trie.modifications.is_empty());
    // A new nonce makes the leaf non-zero.
    let mut nonces = AssocMap::new();
    nonces.insert(address(1), Nonce(felt(4)));
    let forest = original_forest_with_storage_of(1)
        .compute_updated_skeleton_forest::<RecordedTree>(
            &AssocMap::new(),
            &zero_storage_updates_of(1),
            &zero_state_of(1),
            &AssocMap::new(),
            &nonces,
            TreeHeight::new(2),
        )
        .unwrap();
    assert_eq!(forest.contracts_trie.modifications, vec![(NodeIndex::from_u128(5), SkeletonLeaf::NonZero)]);
}

#[test]
fn test_compute_updated_skeleton_forest_missing_lower_trees() {
    // No original storage skeleton for contract 1.
    let result = original_forest_with_storage_of(2).compute_updated_skeleton_forest::<RecordedTree>(
        &AssocMap::new(),
        &zero_storage_updates_of(1),
        &zero_state_of(1),
        &AssocMap::new(),
        &AssocMap::new(),
        TreeHeight::new(2),
    );
    assert!(matches!(result, Err(UpdatedSkeletonTreeError::LowerTreeCommitmentError(a)) if a == address(1)));
    // No current state for contract 1.
    let result = original_forest_with_storage_of(1).compute_updated_skeleton_forest::<RecordedTree>(
        &AssocMap::new(),
        &zero_storage_updates_of(1),
        &AssocMap::new(),
        &AssocMap::new(),
        &AssocMap::new(),
        TreeHeight::new(2),
    );
    assert!(matches!(result, Err(UpdatedSkeletonTreeError::LowerTreeCommitmentError(a)) if a == address(1)));
}
