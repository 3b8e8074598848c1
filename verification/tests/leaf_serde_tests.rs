use committer::felt::Felt;
use committer::filled_node::FilledNode;
use committer::hash::HashOutput;
use committer::leaf::{ClassHash, CompiledClassHash, ContractState, LeafDataImpl, Nonce};
use committer::node_data::{BinaryData, EdgeData, EdgePath, EdgePathLength, NodeData, PathToBottom};
use committer::deserialization::DeserializationError;
use committer::storage::{StorageKey, StorageValue, StoragePrefix};

fn felt(v: u128) -> Felt {
    Felt::from_u128(v)
}

fn contract_state(nonce: u128, root: u128, class_hash: u128) -> LeafDataImpl {
    LeafDataImpl::ContractState(ContractState {
        nonce: Nonce(felt(nonce)),
        storage_root_hash: HashOutput(felt(root)),
        class_hash: ClassHash(felt(class_hash)),
    })
}

#[test]
fn test_storage_leaf_serialization() {
    assert_eq!(LeafDataImpl::StorageValue(felt(0)).serialize().0, vec![0u8; 32]);
    let mut expected = vec![0u8; 30];
    expected.extend([3u8, 231]);
    assert_eq!(LeafDataImpl::StorageValue(felt(999)).serialize().0, expected);
    assert_eq!(LeafDataImpl::StorageValue(felt(1)).get_prefix(), StoragePrefix::StorageLeaf);
}

#[test]
fn test_compiled_class_leaf_serialization() {
    let leaf = LeafDataImpl::CompiledClassHash(CompiledClassHash(felt(11)));
    assert_eq!(leaf.serialize().0, br#"{"compiled_class_hash": "0xb"}"#.to_vec());
    let zero = LeafDataImpl::CompiledClassHash(CompiledClassHash(felt(0)));
    assert_eq!(zero.serialize().0, br#"{"compiled_class_hash": "0x0"}"#.to_vec());
    assert_eq!(leaf.get_prefix(), StoragePrefix::CompiledClassLeaf);
}

#[test]
fn test_contract_state_leaf_serialization() {
    let leaf = contract_state(23479515749555, 2359743529034, 1349866415897798);
    let expected = format!(
        r#"{{"contract_hash": "0x{:064x}", "storage_commitment_tree": {{"root": "0x{:064x}", "height": 251}}, "nonce": "0x{:x}"}}"#,
        1349866415897798u128, 2359743529034u128, 23479515749555u128
    );
    assert_eq!(String::from_utf8(leaf.serialize().0).unwrap(), expected);
    assert_eq!(leaf.get_prefix(), StoragePrefix::StateTreeLeaf);
}

#[test]
fn test_felt_hex_forms() {
    assert_eq!(felt(0).to_hex(), b"0x0".to_vec());
    assert_eq!(felt(255).to_hex(), b"0xff".to_vec());
    let fixed = felt(255).to_fixed_hex_string();
    assert_eq!(fixed.len(), 66);
    assert!(fixed.ends_with(b"00ff"));
}

#[test]
fn test_node_serialization_and_keys() {
    let binary = FilledNode::<LeafDataImpl> {
        hash: HashOutput(felt(3)),
        data: NodeData::Binary(BinaryData { left_hash: HashOutput(felt(1)), right_hash: HashOutput(felt(2)) }),
    };
    let mut expected = felt(1).to_bytes_be();
    expected.extend(felt(2).to_bytes_be());
    assert_eq!(binary.serialize().0, expected);
    let mut key = b"patricia_node:".to_vec();
    key.extend(felt(3).to_bytes_be());
    assert_eq!(binary.db_key(), StorageKey(key));

    let edge = FilledNode::<LeafDataImpl> {
        hash: HashOutput(felt(4)),
        data: NodeData::Edge(EdgeData {
            bottom_hash: HashOutput(felt(5)),
            path_to_bottom: PathToBottom { path: EdgePath::from_u128(6), length: EdgePathLength(7) },
        }),
    };
    let value = edge.serialize();
    assert_eq!(value.0.len(), 65);
    assert_eq!(value.0[64], 7);
    let back = FilledNode::deserialize(&StorageKey(felt(4).to_bytes_be()), &value).unwrap();
    assert_eq!(back, edge);

    let leaf = FilledNode { hash: HashOutput(felt(9)), data: NodeData::Leaf(LeafDataImpl::StorageValue(felt(9))) };
    let mut leaf_key = b"starknet_storage_leaf:".to_vec();
    leaf_key.extend(felt(9).to_bytes_be());
    assert_eq!(leaf.db_key(), StorageKey(leaf_key));
}

fn roundtrip(leaf: LeafDataImpl) {
    let prefix = leaf.get_prefix();
    let value = leaf.serialize();
    let read = LeafDataImpl::deserialize(&StorageKey(vec![]), &value, &prefix).unwrap();
    assert_eq!(read, leaf);
}

#[test]
fn test_leaf_serde() {
    roundtrip(LeafDataImpl::StorageValue(felt(0)));
    roundtrip(LeafDataImpl::StorageValue(felt(999)));
    roundtrip(LeafDataImpl::CompiledClassHash(CompiledClassHash(felt(0))));
    roundtrip(LeafDataImpl::CompiledClassHash(CompiledClassHash(felt(11))));
    roundtrip(contract_state(0, 0, 0));
    roundtrip(contract_state(0, 2359743529034, 1349866415897798));
    roundtrip(contract_state(23479515749555, 2359743529034, 1349866415897798));
}

fn read(bytes: &[u8], prefix: StoragePrefix) -> Result<LeafDataImpl, DeserializationError> {
    LeafDataImpl::deserialize(&StorageKey(vec![]), &StorageValue(bytes.to_vec()), &prefix)
}

#[test]
fn test_leaf_deserialize_accepts_other_json_layouts() {
    let leaf = read(br#"{ "compiled_class_hash" : "0xB" }"#, StoragePrefix::CompiledClassLeaf).unwrap();
    assert_eq!(leaf, LeafDataImpl::CompiledClassHash(CompiledClassHash(felt(11))));
    let text = br#"{"nonce": "0x1", "extra": [1, 2], "storage_commitment_tree": {"height": 251, "root": "0x2"}, "contract_hash": "0x3"}"#;
    assert_eq!(read(text, StoragePrefix::StateTreeLeaf).unwrap(), contract_state(1, 2, 3));
}

#[test]
fn test_leaf_deserialize_errors() {
    assert!(matches!(
        read(&[0u8; 32], StoragePrefix::InnerNode),
        Err(DeserializationError::LeafPrefixError(StoragePrefix::InnerNode))
    ));
    assert!(matches!(
        read(&[0xff, 0xfe], StoragePrefix::CompiledClassLeaf),
        Err(DeserializationError::StringConversionError(_))
    ));
    assert!(matches!(read(b"{", StoragePrefix::StateTreeLeaf), Err(DeserializationError::ParsingError(_))));
    assert!(matches!(
        read(br#"{"compiled_class_hash": 5}"#, StoragePrefix::CompiledClassLeaf),
        Err(DeserializationError::ParsingError(_))
    ));
    match read(br#"{"other": "0x1"}"#, StoragePrefix::CompiledClassLeaf) {
        Err(DeserializationError::NonExistingKey(key)) => assert_eq!(key, "compiled_class_hash"),
        _ => panic!("expected a missing key"),
    }
    assert!(matches!(
        read(br#"{"compiled_class_hash": "zz"}"#, StoragePrefix::CompiledClassLeaf),
        Err(DeserializationError::FeltParsingError(_))
    ));
    match read(br#"{"contract_hash": "0x1", "nonce": "0x2"}"#, StoragePrefix::StateTreeLeaf) {
        Err(DeserializationError::NonExistingKey(key)) => assert_eq!(key, "storage_commitment_tree"),
        _ => panic!("expected a missing key"),
    }
    match read(br#"{"contract_hash": "0x1", "nonce": "0x2", "storage_commitment_tree": [1]}"#, StoragePrefix::StateTreeLeaf) {
        Err(DeserializationError::NonExistingKey(key)) => assert_eq!(key, "root"),
        _ => panic!("expected a missing key"),
    }
    assert!(matches!(
        read(br#"{"contract_hash": 1, "nonce": "0x2"}"#, StoragePrefix::StateTreeLeaf),
        Err(DeserializationError::LeafTypeError)
    ));
    match read(br#"[1, 2]"#, StoragePrefix::StateTreeLeaf) {
        Err(DeserializationError::NonExistingKey(key)) => assert_eq!(key, "contract_hash"),
        _ => panic!("expected a missing key"),
    }
    assert!(matches!(
        read(
            br#"{"contract_hash": "0x1", "nonce": "x", "storage_commitment_tree": {"root": "0x2"}}"#,
            StoragePrefix::StateTreeLeaf
        ),
        Err(DeserializationError::FeltParsingError(_))
    ));
}

#[test]
fn test_storage_leaf_deserialize_reduces() {
    // 2^256 - 1 as 32 bytes reads as that number modulo the prime.
    let leaf = read(&[0xffu8; 32], StoragePrefix::StorageLeaf).unwrap();
    let expected = Felt::from_hex("0x7fffffffffffdf0ffffffffffffffffffffffffffffffffffffffffffffffe0").unwrap();
    assert_eq!(leaf, LeafDataImpl::StorageValue(expected));
    assert_eq!(read(&[], StoragePrefix::StorageLeaf).unwrap(), LeafDataImpl::StorageValue(felt(0)));
}

#[test]
fn test_edge_path_is_reduced_modulo_the_prime() {
    // A stored edge whose path bytes are all 0xff: the path is read as a field
    // element, so it is 2^256 - 1 reduced modulo the prime.
    let mut bytes = vec![0u8; 32];
    bytes.extend(vec![0xffu8; 32]);
    bytes.push(3);
    let node = FilledNode::deserialize(&StorageKey(felt(1).to_bytes_be()), &StorageValue(bytes)).unwrap();
    match node.data {
        NodeData::Edge(e) => {
            assert_eq!(e.path_to_bottom.path.0.high, 0x7fffffffffffdf0ffffffffffffffff);
            assert_eq!(e.path_to_bottom.path.0.low, 0xffffffffffffffffffffffffffffffe0);
            assert_eq!(e.path_to_bottom.length, EdgePathLength(3));
        },
        _ => panic!("expected an edge"),
    }
}

#[test]
fn test_felt_from_hex_edges() {
    assert_eq!(Felt::from_hex("0x1A").unwrap(), felt(26));
    assert_eq!(Felt::from_hex("1a").unwrap(), felt(26));
    // The prime itself reads as zero; one more is refused.
    assert_eq!(Felt::from_hex("0x800000000000011000000000000000000000000000000000000000000000001").unwrap(), felt(0));
    assert!(Felt::from_hex("0x800000000000011000000000000000000000000000000000000000000000002").is_err());
    assert!(Felt::from_hex("0x").is_err());
    assert!(Felt::from_hex("").is_err());
    assert!(Felt::from_hex("0xg").is_err());
    assert!(Felt::from_hex(&format!("0x{}", "0".repeat(65))).is_err());
}
