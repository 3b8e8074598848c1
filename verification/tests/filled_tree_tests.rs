use committer::hash::TreeHashFunction;
use committer::leaf::{ClassHash, ContractState, Nonce};
use starknet_types_core::hash::{Pedersen, Poseidon, StarkHash};
use committer::assoc::AssocMap;
use committer::errors::FilledTreeError;
use committer::felt::Felt;
use committer::filled_node::FilledNode;
use committer::filled_tree::FilledTreeImpl;
use committer::hash::{compute_node_hash, HashOutput, TreeHashFunctionImpl, TreeHashFunctionTestingImpl};
use committer::leaf::{CompiledClassHash, LeafDataImpl};
use committer::node_data::{BinaryData, EdgeData, EdgePath, EdgePathLength, NodeData, PathToBottom};
use committer::types::{NodeIndex, TreeHeight};
use committer::updated_skeleton::{UpdatedSkeletonNode, UpdatedSkeletonTreeImpl};

fn felt_hex(s: &str) -> Felt {
    Felt::from_hex(s).unwrap()
}

fn index(i: u128) -> NodeIndex {
    NodeIndex::from_u128(i)
}

fn path(p: u128, length: u8) -> PathToBottom {
    PathToBottom { path: EdgePath::from_u128(p), length: EdgePathLength(length) }
}

fn compiled(v: u128) -> LeafDataImpl {
    LeafDataImpl::CompiledClassHash(CompiledClassHash(Felt::from_u128(v)))
}

fn skeleton(nodes: Vec<(u128, UpdatedSkeletonNode)>, height: u8) -> UpdatedSkeletonTreeImpl {
    let mut tree = UpdatedSkeletonTreeImpl { tree_height: TreeHeight::new(height), skeleton_tree: AssocMap::new() };
    for (i, node) in nodes {
        tree.skeleton_tree.insert(index(i), node);
    }
    tree
}

fn modifications(leaves: Vec<(u128, LeafDataImpl)>) -> AssocMap<NodeIndex, LeafDataImpl> {
    let mut m = AssocMap::new();
    for (i, leaf) in leaves {
        m.insert(index(i), leaf);
    }
    m
}

/// The smallest tree: a single leaf at the root; its hash is the root hash.
#[test]
fn test_filled_tree_sanity() {
    let tree = skeleton(vec![(1, UpdatedSkeletonNode::Leaf)], 0);
    let leaves = modifications(vec![(1, compiled(1))]);
    let root_hash = FilledTreeImpl::create::<TreeHashFunctionTestingImpl>(tree, leaves)
        .unwrap()
        .get_root_hash()
        .unwrap();
    assert_eq!(root_hash, HashOutput(Felt::one()), "Root hash mismatch");
}

///                                i=1: binary
///                                /        \
///                        i=2: edge      i=3: edge
///                        l=1, p=0       l=4, p=15
///                      /                      \
///                 i=4: binary                  \
///                /           \                  \
///            i=8: edge    i=9: edge              \
///            l=2, p=3     l=2, p=0                \
///               \              /                   \
///            i=35: leaf   i=36: leaf               i=63: leaf
///                  v=1          v=2                      v=3
#[test]
fn test_small_filled_tree() {
    let tree = skeleton(
        vec![
            (1, UpdatedSkeletonNode::Binary),
            (2, UpdatedSkeletonNode::Edge(path(0, 1))),
            (3, UpdatedSkeletonNode::Edge(path(15, 4))),
            (4, UpdatedSkeletonNode::Binary),
            (8, UpdatedSkeletonNode::Edge(path(3, 2))),
            (9, UpdatedSkeletonNode::Edge(path(0, 2))),
            (35, UpdatedSkeletonNode::Leaf),
            (36, UpdatedSkeletonNode::Leaf),
            (63, UpdatedSkeletonNode::Leaf),
        ],
        5,
    );
    let leaves = modifications(vec![(35, compiled(1)), (36, compiled(2)), (63, compiled(3))]);
    let filled_tree = FilledTreeImpl::create::<TreeHashFunctionTestingImpl>(tree, leaves).unwrap();
    let root_hash = filled_tree.get_root_hash().unwrap();

    let h = |s: &str| HashOutput(felt_hex(s));
    let binary = |l: HashOutput, r: HashOutput| NodeData::Binary(BinaryData { left_hash: l, right_hash: r });
    let edge = |b: HashOutput, p: u128, len: u8| {
        NodeData::Edge(EdgeData { bottom_hash: b, path_to_bottom: path(p, len) })
    };
    let root = h("0xe8899e8c731a35f5e9ce4c4bc32aabadcc81c5cdcc1aeba74fa7509046c338");
    let n2 = h("0x4e970ad06a06486b44fff5606c4f65486d31e05e323d65a618d4ef8cdf6d3a0");
    let n3 = h("0x2955a96b09495fb2ce4ed65cf679c54e54aefc2c6972d7f3042590000bb7543");
    let n4 = h("0x5d36a1ae900ef417a5696417dde9a0244b873522f40b552e4a60acde0991bc9");
    let n8 = h("0x582d984e4005c27b9c886cd00ec9a82ed5323aa629f6ea6b3ed7c0386ae6256");
    let n9 = h("0x39eb7b85bcc9deac314406d6b73154b09b008f8af05e2f58ab623f4201d0b88");
    let one = HashOutput(Felt::from_u128(1));
    let two = HashOutput(Felt::from_u128(2));
    let three = HashOutput(Felt::from_u128(3));
    let expected: Vec<(u128, FilledNode<LeafDataImpl>)> = vec![
        (1, FilledNode { hash: root, data: binary(n2, n3) }),
        (2, FilledNode { hash: n2, data: edge(n4, 0, 1) }),
        (3, FilledNode { hash: n3, data: edge(three, 15, 4) }),
        (4, FilledNode { hash: n4, data: binary(n8, n9) }),
        (8, FilledNode { hash: n8, data: edge(one, 3, 2) }),
        (9, FilledNode { hash: n9, data: edge(two, 0, 2) }),
        (35, FilledNode { hash: one, data: NodeData::Leaf(compiled(1)) }),
        (36, FilledNode { hash: two, data: NodeData::Leaf(compiled(2)) }),
        (63, FilledNode { hash: three, data: NodeData::Leaf(compiled(3)) }),
    ];
    let all_nodes = filled_tree.get_all_nodes();
    assert_eq!(all_nodes.len(), expected.len());
    for (i, node) in expected.iter() {
        assert_eq!(all_nodes.get(&index(*i)), Some(node), "node {}", i);
    }
    assert_eq!(root_hash, root, "Root hash mismatch");
}

#[test]
fn test_filled_tree_keeps_sibling_hashes() {
    // A binary root over a modified leaf and an unmodified sibling.
    let tree = skeleton(
        vec![
            (1, UpdatedSkeletonNode::Binary),
            (2, UpdatedSkeletonNode::Leaf),
            (3, UpdatedSkeletonNode::Sibling(HashOutput(Felt::from_u128(7)))),
        ],
        1,
    );
    let leaves = modifications(vec![(2, LeafDataImpl::StorageValue(Felt::from_u128(5)))]);
    let filled_tree = FilledTreeImpl::create::<TreeHashFunctionImpl>(tree, leaves).unwrap();
    let expected_root = Felt::pedersen(&Felt::from_u128(5), &Felt::from_u128(7));
    assert_eq!(filled_tree.get_root_hash().unwrap(), HashOutput(expected_root));
    assert_eq!(filled_tree.get_all_nodes().len(), 2);
    assert!(filled_tree.get_all_nodes().get(&index(3)).is_none());
}

#[test]
fn test_filled_tree_missing_node() {
    let tree = skeleton(vec![(1, UpdatedSkeletonNode::Binary), (2, UpdatedSkeletonNode::Leaf)], 1);
    let leaves = modifications(vec![(2, compiled(1))]);
    match FilledTreeImpl::create::<TreeHashFunctionTestingImpl>(tree, leaves) {
        Err(FilledTreeError::MissingNode(i)) => assert_eq!(i, index(3)),
        other => panic!("unexpected result {:?}", other.map(|t| t.get_all_nodes().len())),
    }
}

#[test]
fn test_filled_tree_missing_leaf_data() {
    let tree = skeleton(vec![(1, UpdatedSkeletonNode::Leaf)], 0);
    let leaves = modifications(vec![]);
    match FilledTreeImpl::create::<TreeHashFunctionTestingImpl>(tree, leaves) {
        Err(FilledTreeError::MissingDataForUpdate(i)) => assert_eq!(i, index(1)),
        other => panic!("unexpected result {:?}", other.map(|t| t.get_all_nodes().len())),
    }
}

#[test]
fn test_filled_tree_deleted_leaf() {
    let tree = skeleton(vec![(1, UpdatedSkeletonNode::Leaf)], 0);
    let leaves = modifications(vec![(1, compiled(0))]);
    match FilledTreeImpl::create::<TreeHashFunctionTestingImpl>(tree, leaves) {
        Err(FilledTreeError::DeletedLeafInSkeleton(i)) => assert_eq!(i, index(1)),
        other => panic!("unexpected result {:?}", other.map(|t| t.get_all_nodes().len())),
    }
}

#[test]
fn test_filled_tree_unreached_node() {
    // Node 5 is not on any path from the root.
    let tree = skeleton(
        vec![
            (1, UpdatedSkeletonNode::Edge(path(0, 1))),
            (2, UpdatedSkeletonNode::Leaf),
            (5, UpdatedSkeletonNode::Leaf),
        ],
        1,
    );
    let leaves = modifications(vec![(2, compiled(4)), (5, compiled(4))]);
    match FilledTreeImpl::create::<TreeHashFunctionTestingImpl>(tree, leaves) {
        Err(FilledTreeError::MissingNode(i)) => assert_eq!(i, index(5)),
        other => panic!("unexpected result {:?}", other.map(|t| t.get_all_nodes().len())),
    }
}

#[test]
fn test_edge_hash_adds_length() {
    let tree = skeleton(vec![(1, UpdatedSkeletonNode::Edge(path(1, 1))), (3, UpdatedSkeletonNode::Leaf)], 1);
    let leaves = modifications(vec![(3, LeafDataImpl::StorageValue(Felt::from_u128(9)))]);
    let filled_tree = FilledTreeImpl::create::<TreeHashFunctionImpl>(tree, leaves).unwrap();
    let expected = Felt::pedersen(&Felt::from_u128(9), &Felt::from_u128(1)).add(&Felt::from_u128(1));
    assert_eq!(filled_tree.get_root_hash().unwrap(), HashOutput(expected));
}

#[test]
fn test_missing_root() {
    let filled_tree = FilledTreeImpl::new(AssocMap::new());
    assert!(matches!(filled_tree.get_root_hash(), Err(FilledTreeError::MissingRoot)));
}

#[test]
fn test_tree_hash_function_impl_binary_node() {
    for (left, right) in [(1u128, 2u128), (0xBE, 0xA0BEE)] {
        let data = NodeData::Binary(BinaryData {
            left_hash: HashOutput(Felt::from_u128(left)),
            right_hash: HashOutput(Felt::from_u128(right)),
        });
        let expected = HashOutput(Felt::pedersen(&Felt::from_u128(left), &Felt::from_u128(right)));
        assert_eq!(compute_node_hash::<TreeHashFunctionImpl>(&data), expected);
    }
}

#[test]
fn test_tree_hash_function_impl_edge_node() {
    for (bottom, edge_path, length) in [(1u128, 2u128, 3u8), (0xBE, 0xA0BEE, 0xB)] {
        let data = NodeData::Edge(EdgeData { bottom_hash: HashOutput(Felt::from_u128(bottom)), path_to_bottom: path(edge_path, length) });
        let expected = Felt::pedersen(&Felt::from_u128(bottom), &Felt::from_u128(edge_path)).add(&Felt::from_u128(length as u128));
        assert_eq!(compute_node_hash::<TreeHashFunctionImpl>(&data), HashOutput(expected));
    }
}

fn core_felt(f: &Felt) -> starknet_types_core::felt::Felt {
    starknet_types_core::felt::Felt::from_bytes_be_slice(&f.to_bytes_be())
}

#[test]
fn test_tree_hash_function_impl_leaf_hashes() {
    let value = LeafDataImpl::StorageValue(Felt::from_u128(77));
    assert_eq!(TreeHashFunctionImpl::compute_leaf_hash(&value), HashOutput(Felt::from_u128(77)));

    let class = compiled(11);
    let version = starknet_types_core::felt::Felt::from_hex(TreeHashFunctionImpl::CONTRACT_CLASS_LEAF_V0).unwrap();
    let expected = Poseidon::hash(&version, &starknet_types_core::felt::Felt::from(11u128));
    assert_eq!(core_felt(&TreeHashFunctionImpl::compute_leaf_hash(&class).0), expected);

    let state = LeafDataImpl::ContractState(ContractState {
        nonce: Nonce(Felt::from_u128(3)),
        storage_root_hash: HashOutput(Felt::from_u128(5)),
        class_hash: ClassHash(Felt::from_u128(7)),
    });
    let f = |v: u128| starknet_types_core::felt::Felt::from(v);
    let expected = Pedersen::hash(&Pedersen::hash(&Pedersen::hash(&f(7), &f(5)), &f(3)), &f(0));
    assert_eq!(core_felt(&TreeHashFunctionImpl::compute_leaf_hash(&state).0), expected);
}
