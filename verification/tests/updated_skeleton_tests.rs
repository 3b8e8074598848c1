use committer::assoc::AssocMap;
use committer::errors::UpdatedSkeletonTreeError;
use committer::felt::Felt;
use committer::hash::HashOutput;
use committer::leaf::SkeletonLeaf;
use committer::node_data::{EdgeData, EdgePath, EdgePathLength, PathToBottom};
use committer::original_skeleton::OriginalSkeletonNode;
use committer::types::{NodeIndex, TreeHeight};
use committer::updated_skeleton::{TempSkeletonNode, UpdatedSkeletonNode, UpdatedSkeletonTreeImpl};

fn index(v: u128) -> NodeIndex {
    NodeIndex::from_u128(v)
}

fn path(p: u128, len: u8) -> PathToBottom {
    PathToBottom { path: EdgePath::from_u128(p), length: EdgePathLength(len) }
}

fn empty_tree() -> UpdatedSkeletonTreeImpl {
    UpdatedSkeletonTreeImpl { tree_height: TreeHeight::new(3), skeleton_tree: AssocMap::new() }
}

fn leaves(pairs: &[(u128, SkeletonLeaf)]) -> AssocMap<NodeIndex, SkeletonLeaf> {
    let mut m = AssocMap::new();
    for (i, l) in pairs {
        m.insert(index(*i), *l);
    }
    m
}

#[test]
fn test_temp_node_is_empty() {
    assert!(TempSkeletonNode::Empty.is_empty());
    assert!(!TempSkeletonNode::Leaf.is_empty());
    assert!(!TempSkeletonNode::Original(OriginalSkeletonNode::Binary).is_empty());
}

#[test]
fn test_node_from_edge_data() {
    let mut tree = empty_tree();
    let mods = leaves(&[(9, SkeletonLeaf::Zero), (10, SkeletonLeaf::NonZero)]);
    // A deleted leaf below leaves nothing; a modified one is reached by the edge.
    assert_eq!(tree.node_from_edge_data(&path(1, 1), &index(9), &TempSkeletonNode::Leaf, &mods), TempSkeletonNode::Empty);
    assert_eq!(
        tree.node_from_edge_data(&path(0, 2), &index(10), &TempSkeletonNode::Leaf, &mods),
        TempSkeletonNode::Original(OriginalSkeletonNode::Edge(path(0, 2)))
    );
    // An edge below merges into one longer edge.
    assert_eq!(
        tree.node_from_edge_data(&path(1, 1), &index(3), &TempSkeletonNode::Original(OriginalSkeletonNode::Edge(path(2, 2))), &mods),
        TempSkeletonNode::Original(OriginalSkeletonNode::Edge(path(6, 3)))
    );
    let sibling_edge = EdgeData { bottom_hash: HashOutput(Felt::from_u128(8)), path_to_bottom: path(1, 1) };
    assert_eq!(
        tree.node_from_edge_data(&path(0, 1), &index(2), &TempSkeletonNode::EdgeSibling(sibling_edge), &mods),
        TempSkeletonNode::EdgeSibling(EdgeData { bottom_hash: HashOutput(Felt::from_u128(8)), path_to_bottom: path(1, 2) })
    );
    assert_eq!(tree.skeleton_tree.len(), 0);
    // A binary bottom is final.
    assert_eq!(
        tree.node_from_edge_data(&path(0, 1), &index(2), &TempSkeletonNode::Original(OriginalSkeletonNode::Binary), &mods),
        TempSkeletonNode::Original(OriginalSkeletonNode::Edge(path(0, 1)))
    );
    assert_eq!(tree.get_node(index(2)).unwrap(), &UpdatedSkeletonNode::Binary);
    assert_eq!(tree.node_from_edge_data(&path(0, 1), &index(2), &TempSkeletonNode::Empty, &mods), TempSkeletonNode::Empty);
}

#[test]
fn test_node_from_binary_data() {
    let mut tree = empty_tree();
    let mods = leaves(&[(4, SkeletonLeaf::NonZero), (5, SkeletonLeaf::NonZero)]);
    // Both children non-empty: a binary node, with its children final.
    let sibling_edge = EdgeData { bottom_hash: HashOutput(Felt::from_u128(8)), path_to_bottom: path(1, 1) };
    let r = tree.node_from_binary_data(
        &index(2),
        &TempSkeletonNode::Leaf,
        &TempSkeletonNode::EdgeSibling(sibling_edge),
        &mods,
    );
    assert_eq!(r, TempSkeletonNode::Original(OriginalSkeletonNode::Binary));
    assert_eq!(tree.get_node(index(5)).unwrap(), &UpdatedSkeletonNode::Edge(path(1, 1)));
    assert_eq!(tree.get_node(index(11)).unwrap(), &UpdatedSkeletonNode::Sibling(HashOutput(Felt::from_u128(8))));
    assert!(matches!(tree.get_node(index(4)), Err(UpdatedSkeletonTreeError::MissingNode(_))));
    // One empty child: an edge to the other.
    let mut tree = empty_tree();
    let r = tree.node_from_binary_data(&index(2), &TempSkeletonNode::Empty, &TempSkeletonNode::Leaf, &mods);
    assert_eq!(r, TempSkeletonNode::Original(OriginalSkeletonNode::Edge(path(1, 1))));
    let r = tree.node_from_binary_data(&index(2), &TempSkeletonNode::Leaf, &TempSkeletonNode::Empty, &mods);
    assert_eq!(r, TempSkeletonNode::Original(OriginalSkeletonNode::Edge(path(0, 1))));
    let r = tree.node_from_binary_data(&index(2), &TempSkeletonNode::Empty, &TempSkeletonNode::Empty, &mods);
    assert_eq!(r, TempSkeletonNode::Empty);
    assert_eq!(tree.get_nodes().len(), 0);
}
