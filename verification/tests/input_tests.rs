use committer::stark_felt::DummyHashFunction;
use committer::felt::{Felt, StarkFelt};
use committer::hash::HashOutput;
use committer::input_handle::{
    DeserailizedLeaf, DeserializedIndexedLeaf, DeserializedIndexedNode, DeserializedInput, DeserializedNode,
};
use committer::io_handle::{self, nodes_by_dependency_layer, TreeNode};
use committer::leaf::{ClassHash, CompiledClassHash, ContractState, LeafDataImpl, Nonce};
use committer::node_data::{EdgePath, EdgePathLength, PathToBottom};
use committer::skeleton_tree::SkeletonNode;
use committer::types::NodeIndex;

fn stark(v: u128) -> StarkFelt {
    let mut bytes = [0u8; 32];
    bytes[16..].copy_from_slice(&v.to_be_bytes());
    StarkFelt(bytes)
}

fn io_node(index: u128, node_type: u8, length: u8, path: &[u8], value: &[u8]) -> io_handle::DeserializedIndexedNode {
    io_handle::DeserializedIndexedNode {
        index,
        node: io_handle::DeserializedNode { node_type, length, path: path.to_vec(), value: value.to_vec() },
    }
}

#[test]
fn test_io_node_conversion() {
    let (index, node) = io_node(5, 1, 0, &[], &[]).to_indexed_node();
    assert_eq!(index, stark(5));
    assert_eq!(node, TreeNode::Binary { left: stark(0), right: stark(0) });
    let (_, node) = io_node(6, 2, 3, &[1, 2], &[7]).to_indexed_node();
    assert_eq!(node, TreeNode::Edge { length: 3, path: stark(258), value: stark(7) });
    let (_, node) = io_node(7, 3, 0, &[], &[0, 9]).to_indexed_node();
    assert_eq!(node, TreeNode::Leaf { value: stark(9) });
}

#[test]
fn test_nodes_by_dependency_layer() {
    let layers = vec![vec![io_node(2, 3, 0, &[], &[1]), io_node(3, 3, 0, &[], &[2])], vec![io_node(1, 1, 0, &[], &[])]];
    let nodes = nodes_by_dependency_layer(&layers);
    assert_eq!(nodes.len(), 2);
    assert_eq!(nodes[0], vec![(stark(2), TreeNode::Leaf { value: stark(1) }), (stark(3), TreeNode::Leaf { value: stark(2) })]);
    assert_eq!(nodes[1], vec![(stark(1), TreeNode::Binary { left: stark(0), right: stark(0) })]);
}

fn leaf(index: &[u8], leaf_type: u8, contract_hash: &[u8], root: &[u8], value: &[u8]) -> DeserializedIndexedLeaf {
    DeserializedIndexedLeaf {
        index: index.to_vec(),
        leaf: DeserailizedLeaf {
            leaf_type,
            contract_hash: contract_hash.to_vec(),
            stroage_root: root.to_vec(),
            value: value.to_vec(),
        },
    }
}

fn node(index: &[u8], node_type: u8, length: u16, path: &[u8], value: &[u8]) -> DeserializedIndexedNode {
    DeserializedIndexedNode {
        index: index.to_vec(),
        node: DeserializedNode { node_type, length, path: path.to_vec(), value: value.to_vec() },
    }
}

fn felt(v: u128) -> Felt {
    Felt::from_u128(v)
}

#[test]
fn test_to_indexed_leaf() {
    let (index, data) = leaf(&[1, 0], 1, &[], &[], &[5]).to_indexed_leaf();
    assert_eq!(index, NodeIndex::from_u128(256));
    assert_eq!(data, LeafDataImpl::StorageValue(felt(5)));
    let (_, data) = leaf(&[3], 2, &[7], &[8], &[9]).to_indexed_leaf();
    assert_eq!(
        data,
        LeafDataImpl::ContractState(ContractState {
            nonce: Nonce(felt(9)),
            storage_root_hash: HashOutput(felt(8)),
            class_hash: ClassHash(felt(7)),
        })
    );
    let (_, data) = leaf(&[4], 3, &[], &[], &[11]).to_indexed_leaf();
    assert_eq!(data, LeafDataImpl::CompiledClassHash(CompiledClassHash(felt(11))));
}

#[test]
fn test_to_indexed_node() {
    let (index, n) = node(&[2], 1, 0, &[], &[42]).to_indexed_node();
    assert_eq!(index, NodeIndex::from_u128(2));
    assert!(matches!(n, SkeletonNode::Sibling(h) if h == HashOutput(felt(42))));
    let (_, n) = node(&[3], 2, 0, &[], &[]).to_indexed_node();
    assert!(matches!(n, SkeletonNode::Empty));
    let (_, n) = node(&[4], 3, 4, &[15], &[]).to_indexed_node();
    assert!(matches!(n, SkeletonNode::Edge { path_to_bottom }
        if path_to_bottom == PathToBottom { path: EdgePath::from_u128(15), length: EdgePathLength(4) }));
    let (_, n) = node(&[5], 4, 0, &[], &[]).to_indexed_node();
    assert!(matches!(n, SkeletonNode::Binary));
}

#[test]
fn test_to_skeleton_nodes() {
    let input = DeserializedInput {
        prefetched_nodes: vec![node(&[1], 4, 0, &[], &[]), node(&[3], 1, 0, &[], &[6])],
        leaves: vec![leaf(&[2], 1, &[], &[], &[5])],
    };
    assert!(input.is_well_formed());
    let (leaves, prefetched) = input.to_skeleton_nodes();
    assert_eq!(leaves.len(), 1);
    assert!(matches!(leaves.get(&NodeIndex::from_u128(2)), Some(SkeletonNode::Leaf(l)) if *l == LeafDataImpl::StorageValue(felt(5))));
    assert_eq!(prefetched.len(), 2);
    assert!(matches!(prefetched.get(&NodeIndex::from_u128(1)), Some(SkeletonNode::Binary)));
}

#[test]
fn test_malformed_inputs_are_detected() {
    let duplicate_leaf = DeserializedInput {
        prefetched_nodes: vec![],
        leaves: vec![leaf(&[2], 1, &[], &[], &[5]), leaf(&[0, 2], 1, &[], &[], &[6])],
    };
    assert!(!duplicate_leaf.is_well_formed());
    let node_on_leaf = DeserializedInput {
        prefetched_nodes: vec![node(&[2], 4, 0, &[], &[])],
        leaves: vec![leaf(&[2], 1, &[], &[], &[5])],
    };
    assert!(!node_on_leaf.is_well_formed());
    let bad_leaf_type = DeserializedInput { prefetched_nodes: vec![], leaves: vec![leaf(&[2], 4, &[], &[], &[5])] };
    assert!(!bad_leaf_type.is_well_formed());
    let bad_node_type = DeserializedInput { prefetched_nodes: vec![node(&[2], 5, 0, &[], &[])], leaves: vec![] };
    assert!(!bad_node_type.is_well_formed());
    let long_edge = DeserializedInput { prefetched_nodes: vec![node(&[2], 3, 256, &[], &[])], leaves: vec![] };
    assert!(!long_edge.is_well_formed());
}

#[test]
fn test_dummy_hash_function_adds_in_the_field() {
    // p - 1, as its 32 big-endian bytes.
    let mut max = [0u8; 32];
    max[0] = 0x08;
    max[7] = 0x11;
    let h = DummyHashFunction::compute_hash(&(StarkFelt(max), stark(5), stark(3)));
    assert_eq!(h, stark(7));
    assert_eq!(DummyHashFunction::compute_hash(&(stark(1), stark(2), stark(3))), stark(6));
}
