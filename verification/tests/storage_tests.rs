use committer::assoc::AssocMap;
use committer::entries::{
    create_32_bytes_entry, create_binary_entry, create_binary_val, create_edge_entry, create_edge_val, create_patricia_key,
};
use committer::felt::{Felt, StarkFelt};
use committer::stark_felt::dummy;
use committer::random::{random_u256_in_short_range, DumpyRandomValue, RandomValue};
use committer::filled_tree::FilledTreeImpl;
use committer::forest::FilledForestImpl;
use committer::node_data::EdgePath;
use committer::storage::{MapStorage, StorageKey, StorageValue};
use committer::types::NodeIndex;
use committer::config::{OriginalSkeletonContractsTrieConfig, OriginalSkeletonStorageTrieConfig, OriginalSkeletonTreeConfig};
use committer::errors::{LeafError, OriginalSkeletonTreeError};
use committer::input::StarknetStorageValue;
use committer::leaf::LeafDataImpl;
use committer::uint256::U256;

#[test]
fn test_storage_entries() {
    let mut expected = vec![0u8; 31];
    expected.push(7);
    assert_eq!(create_32_bytes_entry(7), expected);
    let mut key = b"patricia_node:".to_vec();
    key.extend(create_32_bytes_entry(7));
    assert_eq!(create_patricia_key(7), StorageKey(key));
    let mut binary = create_32_bytes_entry(1);
    binary.extend(create_32_bytes_entry(2));
    assert_eq!(create_binary_val(1, 2), StorageValue(binary.clone()));
    assert_eq!(create_binary_entry(1, 2), (create_patricia_key(3), StorageValue(binary)));
    let edge = create_edge_val(4, 5, 6);
    assert_eq!(edge.0.len(), 65);
    assert_eq!(edge.0[64], 6);
    assert_eq!(create_edge_entry(4, 5, 6).0, create_patricia_key(15));
}

#[test]
fn test_map_storage_later_entries_override() {
    let mut storage = MapStorage::from_entries(vec![
        (StorageKey(vec![1]), StorageValue(vec![10])),
        (StorageKey(vec![1]), StorageValue(vec![11])),
    ]);
    assert_eq!(storage.get(&StorageKey(vec![1])), Some(&StorageValue(vec![11])));
    storage.mset(vec![(StorageKey(vec![2]), StorageValue(vec![20]))]);
    assert_eq!(storage.get(&StorageKey(vec![2])), Some(&StorageValue(vec![20])));
    storage.set(StorageKey(vec![1]), StorageValue(vec![12]));
    assert_eq!(storage.get(&StorageKey(vec![1])), Some(&StorageValue(vec![12])));
    assert_eq!(storage.get(&StorageKey(vec![3])), None);
}

#[test]
fn test_assoc_map() {
    let mut m: AssocMap<NodeIndex, u8> = AssocMap::new();
    assert!(!m.insert(NodeIndex::from_u128(3), 1));
    assert!(m.insert(NodeIndex::from_u128(3), 2));
    assert!(!m.insert(NodeIndex::from_u128(4), 5));
    assert_eq!(m.len(), 2);
    assert_eq!(m.get(&NodeIndex::from_u128(3)), Some(&2));
    assert_eq!(m.remove(&NodeIndex::from_u128(3)), Some(2));
    assert_eq!(m.remove(&NodeIndex::from_u128(3)), None);
    assert!(m.contains_key(&NodeIndex::from_u128(4)));
    assert_eq!(m.len(), 1);
}

#[test]
fn test_dummy() {
    assert_eq!(dummy(), StarkFelt([0u8; 32]));
}


#[test]
fn test_random_values_in_range() {
    for _ in 0..50 {
        let p = EdgePath::random();
        assert_eq!(p.0.high, 1u128.min(p.0.high));
        assert!(p.0.high == 0 && p.0.low >= 1);
        let i = NodeIndex::random();
        assert!(NodeIndex::from_u128(1).le(&i));
        let low = U256 { high: 5, low: u128::MAX - 3 };
        let high = U256 { high: 6, low: 2 };
        let r = random_u256_in_short_range(low, high);
        assert!(low.le(&r) && r.lt(&high));
    }
    let _ = Felt::random();
    let tree = FilledTreeImpl::dumpy_random();
    assert!(tree.get_all_nodes().len() >= 1);
    assert!(tree.get_root_hash().is_ok());
    let forest = FilledForestImpl::dumpy_random();
    assert!(forest.storage_tries.len() >= 1);
}

#[test]
fn test_leaf_create_reads_the_modification() {
    let mut modifications = AssocMap::new();
    modifications.insert(NodeIndex::from_u128(5), LeafDataImpl::StorageValue(Felt::from_u128(8)));
    assert_eq!(
        LeafDataImpl::create(&NodeIndex::from_u128(5), &modifications).unwrap(),
        LeafDataImpl::StorageValue(Felt::from_u128(8))
    );
    assert!(matches!(
        LeafDataImpl::create(&NodeIndex::from_u128(6), &modifications),
        Err(LeafError::MissingDataForUpdate(i)) if i == NodeIndex::from_u128(6)
    ));
}

#[test]
fn test_config_compares_leaves() {
    let mut modifications = AssocMap::new();
    modifications.insert(NodeIndex::from_u128(5), StarknetStorageValue(Felt::from_u128(8)));
    let config = OriginalSkeletonStorageTrieConfig::new(&modifications, true);
    assert!(config.compare_modified_leaves());
    assert!(config.compare_leaf(&NodeIndex::from_u128(5), &StarknetStorageValue(Felt::from_u128(8))).unwrap());
    assert!(!config.compare_leaf(&NodeIndex::from_u128(5), &StarknetStorageValue(Felt::from_u128(9))).unwrap());
    assert!(matches!(
        config.compare_leaf(&NodeIndex::from_u128(4), &StarknetStorageValue(Felt::from_u128(8))),
        Err(OriginalSkeletonTreeError::ReadModificationsError(i)) if i == NodeIndex::from_u128(4)
    ));
    let contracts = OriginalSkeletonContractsTrieConfig::new();
    assert!(!contracts.compare_modified_leaves());
}
