use committer::entries::{create_binary_entry, create_edge_entry};
use committer::errors::OriginalSkeletonTreeError;
use committer::felt::Felt;
use committer::hash::HashOutput;
use committer::node_data::{EdgePath, EdgePathLength, PathToBottom};
use committer::original_skeleton::{OriginalSkeletonNode, OriginalSkeletonTreeImpl};
use committer::storage::{create_db_key, MapStorage, StorageKey, StoragePrefix, StorageValue};
use committer::types::{NodeIndex, TreeHeight};

fn sorted_indices(values: &[u128]) -> Vec<NodeIndex> {
    let mut v: Vec<u128> = values.to_vec();
    v.sort();
    v.into_iter().map(NodeIndex::from_u128).collect()
}

fn binary(idx: u128) -> (NodeIndex, OriginalSkeletonNode) {
    (NodeIndex::from_u128(idx), OriginalSkeletonNode::Binary)
}

fn edge(idx: u128, path: u128, length: u8) -> (NodeIndex, OriginalSkeletonNode) {
    (
        NodeIndex::from_u128(idx),
        OriginalSkeletonNode::Edge(PathToBottom {
            path: EdgePath::from_u128(path),
            length: EdgePathLength(length),
        }),
    )
}

fn sibling(idx: u128, hash: u128) -> (NodeIndex, OriginalSkeletonNode) {
    (
        NodeIndex::from_u128(idx),
        OriginalSkeletonNode::LeafOrBinarySibling(HashOutput(Felt::from_u128(hash))),
    )
}

fn bottom(idx: u128, hash: u128) -> (NodeIndex, OriginalSkeletonNode) {
    (
        NodeIndex::from_u128(idx),
        OriginalSkeletonNode::UnmodifiedBottom(HashOutput(Felt::from_u128(hash))),
    )
}

fn check_fetch_nodes(
    entries: Vec<(StorageKey, StorageValue)>,
    leaves: &[u128],
    root_hash: u128,
    expected: Vec<(NodeIndex, OriginalSkeletonNode)>,
    tree_height: u8,
) {
    let storage = MapStorage::from_entries(entries);
    let sorted_leaf_indices = sorted_indices(leaves);
    let skeleton_tree = OriginalSkeletonTreeImpl::create_tree(
        &storage,
        &sorted_leaf_indices,
        HashOutput(Felt::from_u128(root_hash)),
        TreeHeight::new(tree_height),
    )
    .unwrap();
    assert_eq!(skeleton_tree.nodes.entries.len(), expected.len());
    for (index, node) in expected.iter() {
        assert_eq!(skeleton_tree.nodes.get(index), Some(node), "node {:?}", index);
    }
}

#[test]
fn test_compute_bottom_index() {
    let cases: [(u128, u128, u8, u128); 6] = [
        (1, 1, 1, 3),
        (1, 0, 1, 2),
        (1, 0, 2, 4),
        (0xDAD, 0xFEE, 12, 0xDADFEE),
        (0xDEAFBEE, 0xBFF, 16, 0xDEAFBEE0BFF),
        (1, 0, 0, 1),
    ];
    for (index, path, length, expected) in cases {
        let bottom_index = NodeIndex::compute_bottom_index(
            NodeIndex::from_u128(index),
            &PathToBottom { path: EdgePath::from_u128(path), length: EdgePathLength(length) },
        );
        assert_eq!(bottom_index, NodeIndex::from_u128(expected));
    }
}

#[test]
fn test_fetch_nodes_simple_tree_of_height_3() {
    check_fetch_nodes(
        vec![
            create_binary_entry(8, 9),
            create_edge_entry(11, 1, 1),
            create_binary_entry(17, 13),
            create_edge_entry(15, 3, 2),
            create_binary_entry(30, 20),
        ],
        &[8, 10, 13],
        50,
        vec![
            binary(1),
            binary(2),
            edge(3, 3, 2),
            binary(4),
            edge(5, 1, 1),
            sibling(9, 9),
            sibling(15, 15),
            sibling(11, 11),
        ],
        3,
    );
}

#[test]
fn test_fetch_nodes_another_simple_tree_of_height_3() {
    check_fetch_nodes(
        vec![
            create_binary_entry(10, 2),
            create_edge_entry(3, 1, 1),
            create_binary_entry(4, 7),
            create_edge_entry(12, 0, 1),
            create_binary_entry(5, 11),
            create_binary_entry(13, 16),
        ],
        &[8, 11, 13],
        29,
        vec![
            binary(1),
            edge(2, 0, 1),
            binary(3),
            binary(4),
            edge(6, 1, 1),
            sibling(7, 11),
            sibling(9, 2),
        ],
        3,
    );
}

#[test]
fn test_fetch_nodes_tree_of_height_4_with_long_edge() {
    check_fetch_nodes(
        vec![
            create_binary_entry(11, 13),
            create_edge_entry(5, 0, 1),
            create_binary_entry(19, 40),
            create_edge_entry(20, 3, 2),
            create_binary_entry(6, 59),
            create_edge_entry(24, 0, 2),
            create_binary_entry(25, 65),
            create_binary_entry(26, 90),
        ],
        &[18, 25, 29, 30],
        116,
        vec![
            binary(1),
            edge(2, 0, 2),
            binary(3),
            edge(6, 3, 2),
            binary(7),
            sibling(8, 24),
            edge(14, 0, 1),
            binary(15),
            sibling(27, 20),
            sibling(28, 5),
            sibling(31, 40),
        ],
        4,
    );
}

#[test]
fn test_fetch_nodes_unmodified_edge_keeps_its_bottom() {
    // The root is an edge down to node 3; with no modified leaf the bottom
    // keeps its hash.
    check_fetch_nodes(
        vec![create_edge_entry(3, 1, 1)],
        &[],
        5,
        vec![edge(1, 1, 1), bottom(3, 3)],
        2,
    );
}

#[test]
fn test_fetch_nodes_missing_node_fails() {
    let storage = MapStorage::from_entries(vec![create_binary_entry(8, 9)]);
    let leaves = sorted_indices(&[4]);
    let result = OriginalSkeletonTreeImpl::create_tree(
        &storage,
        &leaves,
        HashOutput(Felt::from_u128(18)),
        TreeHeight::new(2),
    );
    assert!(matches!(result, Err(OriginalSkeletonTreeError::MissingKey(_))));
}

#[test]
fn test_fetch_nodes_edge_longer_than_height_fails() {
    let storage = MapStorage::from_entries(vec![create_edge_entry(1, 0, 3)]);
    let leaves = sorted_indices(&[4]);
    let result = OriginalSkeletonTreeImpl::create_tree(
        &storage,
        &leaves,
        HashOutput(Felt::from_u128(4)),
        TreeHeight::new(2),
    );
    assert!(matches!(result, Err(OriginalSkeletonTreeError::InvalidEdge(i)) if i == NodeIndex::root()));
}

#[test]
fn test_fetch_nodes_first_missing_child_is_reported() {
    // The root is binary over hashes 8 and 9, neither of which is in storage;
    // both children are read in the same layer and the left one fails first.
    let storage = MapStorage::from_entries(vec![create_binary_entry(8, 9)]);
    let leaves = sorted_indices(&[4, 7]);
    let result = OriginalSkeletonTreeImpl::create_tree(
        &storage,
        &leaves,
        HashOutput(Felt::from_u128(17)),
        TreeHeight::new(2),
    );
    let expected = create_db_key(StoragePrefix::InnerNode, &Felt::from_u128(8).to_bytes_be());
    match result {
        Err(OriginalSkeletonTreeError::MissingKey(k)) => assert_eq!(k, expected),
        _ => panic!("expected a missing key"),
    }
}
