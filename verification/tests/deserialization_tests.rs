use committer::deserialization::{
    create_output_to_python, decimal_bytes, DeserializationError, RawContractStateLeaf, RawFeltMapEntry, RawInput,
    RawStateDiff, RawStorageEntry, RawStorageUpdates,
};
use committer::felt::Felt;
use committer::input::{ContractAddress, Input};
use committer::storage::StorageKey;

fn felt_bytes(pairs: &[(usize, u8)]) -> [u8; 32] {
    let mut b = [0u8; 32];
    for (i, v) in pairs {
        b[*i] = *v;
    }
    b
}

fn k1() -> [u8; 32] {
    felt_bytes(&[(16, 5), (22, 1), (24, 89)])
}

fn v1() -> [u8; 32] {
    felt_bytes(&[(9, 45), (10, 77)])
}

fn k2() -> [u8; 32] {
    felt_bytes(&[(15, 11), (16, 5), (22, 1), (24, 89)])
}

fn v2() -> [u8; 32] {
    felt_bytes(&[(9, 45), (10, 77), (14, 6)])
}

fn entry(key: [u8; 32], value: [u8; 32]) -> RawFeltMapEntry {
    RawFeltMapEntry { key, value }
}

fn storage_entry(key: &[u8], value: &[u8]) -> RawStorageEntry {
    RawStorageEntry { key: key.to_vec(), value: value.to_vec() }
}

fn empty_state_diff() -> RawStateDiff {
    RawStateDiff {
        address_to_class_hash: vec![],
        address_to_nonce: vec![],
        class_hash_to_compiled_class_hash: vec![],
        current_contract_state_leaves: vec![],
        storage_updates: vec![],
    }
}

fn simple_raw_input() -> RawInput {
    let k3 = felt_bytes(&[(5, 98), (9, 156), (15, 11), (16, 5), (22, 1), (24, 89)]);
    let v3 = felt_bytes(&[(5, 14), (9, 45), (10, 77)]);
    RawInput {
        storage: vec![storage_entry(&[14, 6, 78, 90], &[245, 90, 0, 0, 1]), storage_entry(&[14, 6, 43, 90], &[9, 0, 0, 0, 1])],
        state_diff: RawStateDiff {
            address_to_class_hash: vec![entry(k1(), v1()), entry(k2(), v2())],
            address_to_nonce: vec![entry(k1(), v3), entry(felt_bytes(&[(5, 98), (15, 11), (16, 5), (22, 1), (24, 89)]), v2())],
            class_hash_to_compiled_class_hash: vec![entry(k1(), v3), entry(k3, v2())],
            storage_updates: vec![RawStorageUpdates { address: k3, storage_updates: vec![entry(k1(), v3), entry(k3, v2())] }],
            current_contract_state_leaves: vec![
                RawContractStateLeaf { address: k3, nonce: v2(), storage_root_hash: k3, class_hash: v2() },
                RawContractStateLeaf {
                    address: felt_bytes(&[(3, 1), (5, 98), (9, 156), (15, 11), (16, 5), (22, 1), (24, 89)]),
                    nonce: v2(),
                    storage_root_hash: k3,
                    class_hash: v2(),
                },
            ],
        },
        tree_height: 78,
    }
}

#[test]
fn test_simple_input_parsing() {
    assert!(Input::try_from(simple_raw_input()).is_ok());
}

#[test]
fn test_input_parsing_with_storage_key_duplicate() {
    let raw = RawInput {
        storage: vec![storage_entry(&[14, 6, 78, 90], &[245, 90, 0, 0, 1]), storage_entry(&[14, 6, 78, 90], &[9, 0, 0, 0, 1])],
        state_diff: empty_state_diff(),
        tree_height: 78,
    };
    match Input::try_from(raw) {
        Err(DeserializationError::KeyDuplicate(name)) => assert_eq!(name, "storage"),
        Ok(_) => panic!("duplicate storage key accepted"),
        Err(e) => panic!("unexpected error {:?}", e),
    }
}

#[test]
fn test_input_parsing_with_mapping_key_duplicate() {
    let mut state_diff = empty_state_diff();
    state_diff.address_to_class_hash = vec![entry(k1(), v1()), entry(k1(), v2())];
    let raw = RawInput {
        storage: vec![storage_entry(&[14, 6, 78, 90], &[245, 90, 0, 0, 1]), storage_entry(&[0, 6, 0, 90], &[9, 0, 0, 0, 1])],
        state_diff,
        tree_height: 78,
    };
    match Input::try_from(raw) {
        Err(DeserializationError::KeyDuplicate(name)) => assert_eq!(name, "address to class hash"),
        Ok(_) => panic!("duplicate address accepted"),
        Err(e) => panic!("unexpected error {:?}", e),
    }
}

#[test]
fn test_each_mapping_reports_its_duplicate() {
    let names = [
        "address to nonce",
        "class hash to compiled class hash",
        "current contract state leaves",
        "starknet storage updates",
    ];
    for (i, expected) in names.iter().enumerate() {
        let mut state_diff = empty_state_diff();
        match i {
            0 => state_diff.address_to_nonce = vec![entry(k1(), v1()), entry(k1(), v1())],
            1 => state_diff.class_hash_to_compiled_class_hash = vec![entry(k2(), v1()), entry(k2(), v2())],
            2 => {
                state_diff.current_contract_state_leaves = vec![
                    RawContractStateLeaf { address: k1(), nonce: v1(), storage_root_hash: v1(), class_hash: v1() },
                    RawContractStateLeaf { address: k1(), nonce: v2(), storage_root_hash: v2(), class_hash: v2() },
                ]
            },
            _ => {
                state_diff.storage_updates = vec![
                    RawStorageUpdates { address: k2(), storage_updates: vec![] },
                    RawStorageUpdates { address: k2(), storage_updates: vec![entry(k1(), v1())] },
                ]
            },
        }
        let raw = RawInput { storage: vec![], state_diff, tree_height: 3 };
        match Input::try_from(raw) {
            Err(DeserializationError::KeyDuplicate(name)) => assert_eq!(&name, expected),
            Ok(_) => panic!("duplicate accepted in {}", expected),
            Err(e) => panic!("unexpected error {:?}", e),
        }
    }
}

#[test]
fn test_keys_are_compared_as_field_elements() {
    // 2^256 - 1 and its reduction modulo the prime stand for the same element.
    let max = [0xffu8; 32];
    let reduced = Felt::from_bytes_be_slice(&max).to_bytes_be();
    let mut reduced_arr = [0u8; 32];
    reduced_arr.copy_from_slice(&reduced);
    let mut state_diff = empty_state_diff();
    state_diff.address_to_nonce = vec![entry(max, v1()), entry(reduced_arr, v2())];
    let raw = RawInput { storage: vec![], state_diff, tree_height: 3 };
    assert!(Input::try_from(raw).is_err());
}

#[test]
fn test_repeated_storage_key_of_a_contract_keeps_last_value() {
    let mut state_diff = empty_state_diff();
    state_diff.storage_updates =
        vec![RawStorageUpdates { address: k2(), storage_updates: vec![entry(k1(), v1()), entry(k1(), v2())] }];
    let raw = RawInput { storage: vec![], state_diff, tree_height: 3 };
    let input = Input::try_from(raw).unwrap();
    let updates = input.state_diff.storage_updates.get(&ContractAddress(Felt::from_bytes_be_slice(&k2()))).unwrap();
    assert_eq!(updates.len(), 1);
    assert_eq!(updates.entries[0].1 .0, Felt::from_bytes_be_slice(&v2()));
}

#[test]
fn test_create_output_to_python() {
    let input = Input::try_from(simple_raw_input()).unwrap();
    let expected = "\n        {\n        \"storage_size\": 2,\n        \"address_to_class_hash_size\": 2,\n        \"address_to_nonce_size\": 2,\n        \"class_hash_to_compiled_class_hash\": 2,\n        \"current_contract_state_leaves_size\": 2,  \n        \"outer_storage_updates_size\": 1,\n        \"tree_height\": 78\n        }";
    assert_eq!(create_output_to_python(&input), expected);
}

#[test]
fn test_storage_of_input_is_readable() {
    let input = Input::try_from(simple_raw_input()).unwrap();
    let value = input.storage.get(&StorageKey(vec![14, 6, 43, 90])).unwrap();
    assert_eq!(value.0, vec![9, 0, 0, 0, 1]);
}

#[test]
fn test_actual_input_lets_later_updates_win() {
    let mut raw = simple_raw_input();
    let address = raw.state_diff.storage_updates[0].address;
    raw.state_diff.storage_updates.push(RawStorageUpdates { address, storage_updates: vec![] });
    let input = raw.actual_input();
    assert_eq!(input.state_diff.storage_updates.len(), 1);
    assert_eq!(input.state_diff.storage_updates.entries[0].1.len(), 0);
    assert_eq!(input.tree_height.0, 78);
}

#[test]
fn test_decimal_bytes() {
    assert_eq!(decimal_bytes(0), b"0".to_vec());
    assert_eq!(decimal_bytes(7), b"7".to_vec());
    assert_eq!(decimal_bytes(251), b"251".to_vec());
    assert_eq!(decimal_bytes(1000), b"1000".to_vec());
    assert_eq!(decimal_bytes(u64::MAX), u64::MAX.to_string().into_bytes());
}
