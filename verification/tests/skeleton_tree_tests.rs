use committer::assoc::AssocMap;
use committer::felt::Felt;
use committer::filled_node::FilledNode;
use committer::hash::{HashOutput, TreeHashFunctionTestingImpl};
use committer::leaf::{CompiledClassHash, LeafDataImpl};
use committer::node_data::{BinaryData, EdgePath, EdgePathLength, NodeData, PathToBottom};
use committer::skeleton_tree::SkeletonNode;
use committer::types::NodeIndex;
use committer::updated_skeleton::UpdatedSkeletonTreeImpl;

fn index(i: u128) -> NodeIndex {
    NodeIndex::from_u128(i)
}

fn edge(p: u128, length: u8) -> SkeletonNode {
    SkeletonNode::Edge { path_to_bottom: PathToBottom { path: EdgePath::from_u128(p), length: EdgePathLength(length) } }
}

fn compiled(v: u128) -> SkeletonNode {
    SkeletonNode::Leaf(LeafDataImpl::CompiledClassHash(CompiledClassHash(Felt::from_u128(v))))
}

fn skeleton(nodes: Vec<(u128, SkeletonNode)>) -> AssocMap<NodeIndex, SkeletonNode> {
    let mut m = AssocMap::new();
    for (i, node) in nodes {
        m.insert(index(i), node);
    }
    m
}

fn root_hash(tree: &AssocMap<NodeIndex, SkeletonNode>) -> (HashOutput, AssocMap<NodeIndex, FilledNode<LeafDataImpl>>) {
    let mut output = AssocMap::new();
    let hash = UpdatedSkeletonTreeImpl::compute_filled_tree::<TreeHashFunctionTestingImpl>(tree, NodeIndex::root(), &mut output);
    (hash, output)
}

#[test]
fn test_patricia_sanity() {
    // A single node that is a leaf with hash 1.
    let tree = skeleton(vec![(1, compiled(1))]);
    let (hash, output) = root_hash(&tree);
    assert_eq!(hash, HashOutput(Felt::one()), "Root hash mismatch");
    assert_eq!(output.get(&index(1)).unwrap().hash, hash);
}

#[test]
fn test_patricia_small() {
    let tree = skeleton(vec![
        (1, SkeletonNode::Binary),
        (2, edge(0, 1)),
        (3, edge(15, 4)),
        (4, SkeletonNode::Binary),
        (8, edge(3, 2)),
        (9, edge(0, 2)),
        (35, compiled(1)),
        (36, compiled(2)),
        (63, compiled(3)),
    ]);
    let (hash, output) = root_hash(&tree);
    let expected_root_hash =
        HashOutput(Felt::from_hex("0xe8899e8c731a35f5e9ce4c4bc32aabadcc81c5cdcc1aeba74fa7509046c338").unwrap());
    assert_eq!(hash, expected_root_hash, "Root hash mismatch");
    assert_eq!(output.len(), 9);
    let n2 = HashOutput(Felt::from_hex("0x4e970ad06a06486b44fff5606c4f65486d31e05e323d65a618d4ef8cdf6d3a0").unwrap());
    let n3 = HashOutput(Felt::from_hex("0x2955a96b09495fb2ce4ed65cf679c54e54aefc2c6972d7f3042590000bb7543").unwrap());
    assert_eq!(
        output.get(&index(1)).unwrap().data,
        NodeData::Binary(BinaryData { left_hash: n2, right_hash: n3 })
    );
}

#[test]
fn test_sibling_keeps_its_hash_and_is_not_recorded() {
    let sibling = HashOutput(Felt::from_u128(7));
    let tree = skeleton(vec![(1, SkeletonNode::Binary), (2, compiled(5)), (3, SkeletonNode::Sibling(sibling))]);
    let (hash, output) = root_hash(&tree);
    assert_eq!(hash, HashOutput(Felt::pedersen(&Felt::from_u128(5), &Felt::from_u128(7))));
    assert_eq!(output.len(), 2);
    assert!(output.get(&index(3)).is_none());
}
