use committer::felt::Felt;
use committer::input::{ContractAddress, StarknetStorageKey};
use committer::leaf::ClassHash;
use committer::node_data::{EdgePath, EdgePathLength, PathToBottom, PathToBottomError};
use committer::original_skeleton::{split_leaves, OriginalSkeletonTreeImpl};
use committer::types::{NodeIndex, TreeHeight};
use committer::assoc::AssocMap;

fn index(v: u128) -> NodeIndex {
    NodeIndex::from_u128(v)
}

#[test]
fn test_get_lca() {
    assert_eq!(index(8).get_lca(&index(9)), index(4));
    assert_eq!(index(8).get_lca(&index(12)), index(1));
    assert_eq!(index(5).get_lca(&index(5)), index(5));
    // Nodes at different depths: 2 is an ancestor of 11.
    assert_eq!(index(2).get_lca(&index(11)), index(2));
    assert_eq!(index(11).get_lca(&index(2)), index(2));
    assert_eq!(index(6).get_lca(&index(29)), index(3));
}

#[test]
fn test_get_path_to_descendant() {
    let path = index(2).get_path_to_descendant(index(11));
    assert_eq!(path, PathToBottom { path: EdgePath::from_u128(3), length: EdgePathLength(2) });
    assert_eq!(path.bottom_index(index(2)), index(11));
    let same = index(7).get_path_to_descendant(index(7));
    assert_eq!(same.length, EdgePathLength(0));
}

#[test]
fn test_leaf_indices() {
    let height = TreeHeight::new(3);
    assert_eq!(NodeIndex::from_contract_address(&ContractAddress(Felt::from_u128(5)), &height), index(13));
    assert_eq!(NodeIndex::from_starknet_storage_key(&StarknetStorageKey(Felt::from_u128(0)), &height), index(8));
    assert_eq!(NodeIndex::from_class_hash(&ClassHash(Felt::from_u128(7)), &height), index(15));
    assert_eq!(index(13).to_felt(), Some(Felt::from_u128(13)));
}

#[test]
fn test_index_arithmetic() {
    assert_eq!(index(5).shl(3), index(40));
    assert_eq!(index(40).shr(3), index(5));
    assert_eq!(index(6).bit_length(), 3);
    assert_eq!(index(6).leading_zeros(), 249);
    assert_eq!(index(6).get_children_indices(), [index(12), index(13)]);
    assert!(index(3).lt(&index(4)));
}

#[test]
fn test_edge_paths() {
    let a = PathToBottom { path: EdgePath::from_u128(1), length: EdgePathLength(1) };
    let b = PathToBottom { path: EdgePath::from_u128(2), length: EdgePathLength(2) };
    let c = a.concat_paths(b);
    assert_eq!(c, PathToBottom { path: EdgePath::from_u128(6), length: EdgePathLength(3) });
    assert_eq!(c.remove_first_edges(EdgePathLength(1)).unwrap(), b);
    assert!(matches!(
        c.remove_first_edges(EdgePathLength(4)),
        Err(PathToBottomError::RemoveEdgesError { length, n_edges }) if length == c.length && n_edges == EdgePathLength(4)
    ));
    assert!(PathToBottom::new(EdgePath::from_u128(4), EdgePathLength(2)).is_none());
    assert_eq!(EdgePath::max(&TreeHeight::new(251)).0.high, (1u128 << 123) - 1);
}

#[test]
fn test_split_leaves() {
    // Leaves of a tree of height 3 below node 2 (leaves 8..11).
    let leaves: Vec<NodeIndex> = [8u128, 9, 11].iter().map(|v| index(*v)).collect();
    let [left, right] = split_leaves(&TreeHeight::new(3), &index(2), &leaves);
    assert_eq!(left, vec![index(8), index(9)]);
    assert_eq!(right, vec![index(11)]);
    let [left, right] = split_leaves(&TreeHeight::new(3), &index(1), &leaves);
    assert_eq!(left.len(), 3);
    assert!(right.is_empty());
}

#[test]
fn test_path_to_lca_and_sides() {
    let tree = OriginalSkeletonTreeImpl { nodes: AssocMap::new(), tree_height: TreeHeight::new(3) };
    let leaves: Vec<NodeIndex> = [9u128, 11].iter().map(|v| index(*v)).collect();
    let path = tree.get_path_to_lca(&index(1), &leaves);
    // The lowest common ancestor of 9 and 11 is 2, the left child of the root.
    assert_eq!(path, PathToBottom { path: EdgePath::from_u128(0), length: EdgePathLength(1) });
    let single = tree.get_path_to_lca(&index(1), &leaves[..1]);
    assert_eq!(single.bottom_index(index(1)), index(9));
    assert!(tree.has_leaves_on_both_sides(&index(2), &leaves));
    assert!(!tree.has_leaves_on_both_sides(&index(1), &leaves));
    assert!(!tree.has_leaves_on_both_sides(&index(3), &[]));
}

#[test]
fn test_lca_of_sorted_leaves_is_that_of_all() {
    // Leaves 9, 10 and 13 of a tree of height 3: the ancestor common to the
    // first and the last, the root, is above the middle leaf too.
    let tree = OriginalSkeletonTreeImpl { nodes: AssocMap::new(), tree_height: TreeHeight::new(3) };
    let leaves: Vec<NodeIndex> = [9u128, 10, 13].iter().map(|v| index(*v)).collect();
    let path = tree.get_path_to_lca(&index(1), &leaves);
    assert_eq!(path.length, EdgePathLength(0));
    let leaves: Vec<NodeIndex> = [12u128, 13, 14].iter().map(|v| index(*v)).collect();
    let lca = tree.get_path_to_lca(&index(1), &leaves).bottom_index(index(1));
    assert_eq!(lca, index(3));
    for leaf in leaves {
        assert_eq!(leaf.shr(2), lca);
    }
}

/// A random number in `[low, low + 2^bits)`.
fn random_above(rng: &mut impl rand::Rng, low: ethnum::U256, bits: u32) -> ethnum::U256 {
    let r = ethnum::U256::from_words(rng.gen::<u128>(), rng.gen::<u128>());
    low + (r >> (256 - bits))
}

/// An array of increasing random numbers, with jumps below `2^jump_bits`
/// between two consecutive numbers.
fn create_increasing_random_array(
    rng: &mut impl rand::Rng,
    size: usize,
    start: ethnum::U256,
    jump_bits: u32,
) -> Vec<ethnum::U256> {
    let mut ret = Vec::with_capacity(size);
    let mut low = start;
    for i in 0..size {
        ret.push(random_above(rng, low, jump_bits));
        low = ret[i] + ethnum::U256::ONE;
    }
    ret
}

fn node_index(x: ethnum::U256) -> NodeIndex {
    NodeIndex::new(committer::uint256::U256 { high: *x.high(), low: *x.low() })
}

#[test]
fn test_split_leaves_big_tree() {
    let mut rng = rand::thread_rng();
    let first_leaf = ethnum::U256::ONE << 251;
    let max_index = (ethnum::U256::ONE << 252) - ethnum::U256::ONE;
    let left = create_increasing_random_array(&mut rng, 100, first_leaf, 200);
    let right = create_increasing_random_array(&mut rng, 100, (first_leaf + max_index) / 2u128 + ethnum::U256::ONE, 100);
    let leaves: Vec<NodeIndex> = left.iter().chain(right.iter()).map(|x| node_index(*x)).collect();
    let [l, r] = split_leaves(&TreeHeight::new(251), &NodeIndex::root(), &leaves);
    assert_eq!(l, left.iter().map(|x| node_index(*x)).collect::<Vec<_>>());
    assert_eq!(r, right.iter().map(|x| node_index(*x)).collect::<Vec<_>>());
}

#[test]
fn test_path_to_descendant_from_index_zero() {
    // Index 0 reaches any index along all its bits.
    let p = NodeIndex::from_u128(0).get_path_to_descendant(NodeIndex::from_u128(5));
    assert_eq!(p.length, EdgePathLength(3));
    assert_eq!(p.path, EdgePath::from_u128(5));
}
