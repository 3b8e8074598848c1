//! The filled tree: every node of the updated skeleton that the update
//! modified, with its data and its hash, computed from the leaves up.
use crate::assoc::{AssocMap, KeyView};
use crate::bits::{
    bit_len, is_ancestor, lemma_ancestor_of_descendant, lemma_ancestor_transitive, lemma_ancestor_unique,
    lemma_self_ancestor,
};
use crate::errors::FilledTreeError;
use crate::felt::pedersen_hash;
use crate::felt::be_bytes;
use crate::filled_node::{node_bytes, node_prefix, FilledNode};
use crate::storage::{db_key, StorageKey, StorageValue};
use crate::hash::{compute_node_hash, edge_hash, HashOutput, TreeHashFunction};
use crate::leaf::{LeafData, LeafDataImpl};
use crate::node_data::{BinaryData, EdgeData, NodeData, PathToBottom};
use crate::original_skeleton::lemma_child_ancestor;
use crate::types::{index_bound, NodeIndex};
use crate::updated_skeleton::{is_sibling, UpdatedSkeletonNode, UpdatedSkeletonTreeImpl};
use vstd::arithmetic::mul::*;
use vstd::arithmetic::power2::*;
use vstd::prelude::*;

verus! {

/// What the data of a node stands for: the child hashes of a binary node; the
/// bottom hash, path and length of an edge; a leaf.
pub enum DataView {
    Binary(nat, nat),
    Edge(nat, nat, nat),
    Leaf(LeafDataImpl),
}

pub open spec fn data_view(data: NodeData<LeafDataImpl>) -> DataView {
    match data {
        NodeData::Binary(b) => DataView::Binary(b.left_hash.val(), b.right_hash.val()),
        NodeData::Edge(e) => DataView::Edge(
            e.bottom_hash.val(),
            e.path_to_bottom.path.0.value(),
            e.path_to_bottom.length.0 as nat,
        ),
        NodeData::Leaf(l) => DataView::Leaf(l),
    }
}

/// A filled node: its hash and what its data stands for.
pub open spec fn node_view(node: FilledNode<LeafDataImpl>) -> (nat, DataView) {
    (node.hash.val(), data_view(node.data))
}

/// The hash of node data, by what it stands for.
pub open spec fn view_hash<TH: TreeHashFunction>(data: DataView) -> nat {
    match data {
        DataView::Binary(l, r) => pedersen_hash(l, r),
        DataView::Edge(b, p, len) => edge_hash(b, p, len),
        DataView::Leaf(l) => TH::leaf_hash(l),
    }
}

/// Why filling a tree fails: a node missing from the skeleton, a modified
/// leaf without its data, or a leaf of the skeleton whose new data is empty.
pub enum FillError {
    MissingNode(nat),
    MissingData(nat),
    DeletedLeaf(nat),
}

/// The exec error that stands for a reason of failure.
pub open spec fn error_is(e: FilledTreeError, f: FillError) -> bool {
    match f {
        FillError::MissingNode(i) => e matches FilledTreeError::MissingNode(x) && x.value() == i,
        FillError::MissingData(i) => e matches FilledTreeError::MissingDataForUpdate(x) && x.value() == i,
        FillError::DeletedLeaf(i) => e matches FilledTreeError::DeletedLeafInSkeleton(x) && x.value() == i,
    }
}

/// The bottom of a non-empty edge is below its source.
pub proof fn lemma_bottom_below(index: nat, p: PathToBottom)
    requires
        index >= 1,
        p.length.0 >= 1,
    ensures
        p.bottom_of(index) > index,
{
    let k = p.length.0 as nat;
    lemma_pow2_strictly_increases(0, k);
    lemma2_to64();
    lemma_mul_inequality(2, pow2(k) as int, index as int);
    lemma_mul_is_commutative(pow2(k) as int, index as int);
}

/// The hash of the subtree of `index` after the update and the nodes it
/// fills, each with its hash and data; or why it cannot be filled. Binary
/// nodes hash their children's hashes, edges their bottom's, modified leaves
/// their new data; siblings and unmodified bottoms keep their hashes.
pub open spec fn fill<TH: TreeHashFunction>(
    nodes: Map<nat, UpdatedSkeletonNode>,
    leaves: Map<nat, LeafDataImpl>,
    index: nat,
) -> Result<(nat, Map<nat, (nat, DataView)>), FillError>
    decreases index_bound() - index,
{
    if !nodes.dom().contains(index) || index == 0 {
        Err(FillError::MissingNode(index))
    } else {
        match nodes[index] {
            UpdatedSkeletonNode::Binary => if 2 * index + 1 < index_bound() {
                match fill::<TH>(nodes, leaves, 2 * index) {
                    Err(e) => Err(e),
                    Ok((lh, lm)) => match fill::<TH>(nodes, leaves, 2 * index + 1) {
                        Err(e) => Err(e),
                        Ok((rh, rm)) => {
                            let h = pedersen_hash(lh, rh);
                            Ok((h, lm.union_prefer_right(rm).insert(index, (h, DataView::Binary(lh, rh)))))
                        },
                    },
                }
            } else {
                Err(FillError::MissingNode(index))
            },
            UpdatedSkeletonNode::Edge(p) => if p.is_valid() && p.length.0 >= 1 && p.bottom_of(index) < index_bound() {
                proof {
                    lemma_bottom_below(index, p);
                }
                match fill::<TH>(nodes, leaves, p.bottom_of(index)) {
                    Err(e) => Err(e),
                    Ok((bh, bm)) => {
                        let h = edge_hash(bh, p.path.0.value(), p.length.0 as nat);
                        Ok((h, bm.insert(index, (h, DataView::Edge(bh, p.path.0.value(), p.length.0 as nat)))))
                    },
                }
            } else {
                Err(FillError::MissingNode(index))
            },
            UpdatedSkeletonNode::Sibling(h) => Ok((h.val(), Map::empty())),
            UpdatedSkeletonNode::UnmodifiedBottom(h) => Ok((h.val(), Map::empty())),
            UpdatedSkeletonNode::Leaf => if !leaves.dom().contains(index) {
                Err(FillError::MissingData(index))
            } else if leaves[index].empty() {
                Err(FillError::DeletedLeaf(index))
            } else {
                let h = TH::leaf_hash(leaves[index]);
                Ok((h, map![index => (h, DataView::Leaf(leaves[index]))]))
            },
        }
    }
}

/// An unmodified node keeps its hash: filling the subtree of a sibling or of
/// an unmodified bottom with hash `h` gives `h` and fills no node; and an
/// edge down to an unmodified bottom with hash `h` is filled alone, hashed
/// over `h`.
pub proof fn lemma_unmodified_node_keeps_its_hash<TH: TreeHashFunction>(
    nodes: Map<nat, UpdatedSkeletonNode>,
    leaves: Map<nat, LeafDataImpl>,
    index: nat,
    h: HashOutput,
)
    requires
        index != 0,
        nodes.dom().contains(index),
        nodes[index] == UpdatedSkeletonNode::Sibling(h) || nodes[index] == UpdatedSkeletonNode::UnmodifiedBottom(h),
    ensures
        fill::<TH>(nodes, leaves, index) == Ok::<(nat, Map<nat, (nat, DataView)>), FillError>(
            (h.val(), Map::empty()),
        ),
{
}

/// An edge whose bottom is an unmodified node with hash `h` is hashed over
/// `h`, and it is the only node filled below and at it.
pub proof fn lemma_edge_over_unmodified_bottom<TH: TreeHashFunction>(
    nodes: Map<nat, UpdatedSkeletonNode>,
    leaves: Map<nat, LeafDataImpl>,
    index: nat,
    p: PathToBottom,
    h: HashOutput,
)
    requires
        index != 0,
        nodes.dom().contains(index),
        nodes[index] == UpdatedSkeletonNode::Edge(p),
        p.is_valid(),
        p.length.0 >= 1,
        p.bottom_of(index) < index_bound(),
        nodes.dom().contains(p.bottom_of(index)),
        nodes[p.bottom_of(index)] == UpdatedSkeletonNode::Sibling(h) || nodes[p.bottom_of(index)]
            == UpdatedSkeletonNode::UnmodifiedBottom(h),
    ensures
        ({
            let eh = edge_hash(h.val(), p.path.0.value(), p.length.0 as nat);
            fill::<TH>(nodes, leaves, index) == Ok::<(nat, Map<nat, (nat, DataView)>), FillError>(
                (eh, map![index => (eh, DataView::Edge(h.val(), p.path.0.value(), p.length.0 as nat))]),
            )
        }),
{
    lemma_bottom_below(index, p);
    assert(p.bottom_of(index) != 0);
    lemma_unmodified_node_keeps_its_hash::<TH>(nodes, leaves, p.bottom_of(index), h);
    let eh = edge_hash(h.val(), p.path.0.value(), p.length.0 as nat);
    assert(Map::<nat, (nat, DataView)>::empty().insert(index, (eh, DataView::Edge(h.val(), p.path.0.value(), p.length.0 as nat)))
        =~= map![index => (eh, DataView::Edge(h.val(), p.path.0.value(), p.length.0 as nat))]);
}

/// The nodes filled, when filling succeeds.
pub open spec fn filled_nodes(r: Result<(nat, Map<nat, (nat, DataView)>), FillError>) -> Map<nat, (nat, DataView)> {
    match r {
        Ok((_, m)) => m,
        Err(_) => Map::empty(),
    }
}

/// The nodes that filling a subtree fills are in the subtree, and are nodes of
/// the skeleton that are not siblings.
pub proof fn lemma_fill_keys<TH: TreeHashFunction>(
    nodes: Map<nat, UpdatedSkeletonNode>,
    leaves: Map<nat, LeafDataImpl>,
    index: nat,
)
    ensures
        fill::<TH>(nodes, leaves, index) matches Ok((h, m)) ==> forall|k: nat| #[trigger] m.dom().contains(k) ==> {
            &&& is_ancestor(index, k)
            &&& nodes.dom().contains(k)
            &&& !is_sibling(nodes[k])
        },
    decreases index_bound() - index,
{
    if nodes.dom().contains(index) && index != 0 {
        lemma_self_ancestor(index);
        match nodes[index] {
            UpdatedSkeletonNode::Binary => {
                if 2 * index + 1 < index_bound() {
                    lemma_fill_keys::<TH>(nodes, leaves, 2 * index);
                    lemma_fill_keys::<TH>(nodes, leaves, 2 * index + 1);
                    lemma_child_ancestor(index);
                    if let Ok((h, m)) = fill::<TH>(nodes, leaves, index) {
                        assert forall|k: nat| #[trigger] m.dom().contains(k) implies is_ancestor(index, k) by {
                            if k != index {
                                if filled_nodes(fill::<TH>(nodes, leaves, 2 * index + 1)).dom().contains(k) {
                                    lemma_ancestor_transitive(index, 2 * index + 1, k);
                                } else {
                                    lemma_ancestor_transitive(index, 2 * index, k);
                                }
                            }
                        }
                    }
                }
            },
            UpdatedSkeletonNode::Edge(p) => {
                if p.is_valid() && p.length.0 >= 1 && p.bottom_of(index) < index_bound() {
                    lemma_bottom_below(index, p);
                    lemma_fill_keys::<TH>(nodes, leaves, p.bottom_of(index));
                    lemma_ancestor_of_descendant(index, p.length.0 as nat, p.path.0.value());
                    if let Ok((h, m)) = fill::<TH>(nodes, leaves, index) {
                        assert forall|k: nat| #[trigger] m.dom().contains(k) implies is_ancestor(index, k) by {
                            if k != index {
                                lemma_ancestor_transitive(index, p.bottom_of(index), k);
                            }
                        }
                    }
                }
            },
            _ => {},
        }
    }
}

/// The nodes of a subtree that are in the output map are still to be filled.
pub open spec fn ready(out: Map<nat, Option<FilledNode<LeafDataImpl>>>, index: nat) -> bool {
    forall|k: nat| is_ancestor(index, k) && #[trigger] out.dom().contains(k) ==> out[k] is None
}

/// Every node of the skeleton that is not a sibling has a place in the output map.
pub open spec fn covers(out: Map<nat, Option<FilledNode<LeafDataImpl>>>, nodes: Map<nat, UpdatedSkeletonNode>) -> bool {
    forall|k: nat| #[trigger] nodes.dom().contains(k) && !is_sibling(nodes[k]) ==> out.dom().contains(k)
}

/// The output map after filling the nodes `m`: those hold them, the others
/// are unchanged.
pub open spec fn written(
    before: Map<nat, Option<FilledNode<LeafDataImpl>>>,
    after: Map<nat, Option<FilledNode<LeafDataImpl>>>,
    m: Map<nat, (nat, DataView)>,
) -> bool {
    &&& after.dom() == before.dom()
    &&& forall|k: nat| #[trigger] m.dom().contains(k) ==> (after[k] matches Some(n) && node_view(n) == m[k])
    &&& forall|k: nat| #[trigger] after.dom().contains(k) && !m.dom().contains(k) ==> after[k] == before[k]
}

/// A filled tree: the modified nodes, each with its hash and data.
pub struct FilledTreeImpl {
    pub tree_map: AssocMap<NodeIndex, FilledNode<LeafDataImpl>>,
}

impl FilledTreeImpl {
    /// The nodes by index, each with its hash and what its data stands for.
    pub open spec fn view(&self) -> Map<nat, (nat, DataView)> {
        self.tree_map.map().map_values(|n: FilledNode<LeafDataImpl>| node_view(n))
    }

    pub fn new(tree_map: AssocMap<NodeIndex, FilledNode<LeafDataImpl>>) -> (r: FilledTreeImpl)
        ensures
            r.tree_map == tree_map,
    {
        FilledTreeImpl { tree_map }
    }

    /// All the nodes of the tree.
    pub fn get_all_nodes(&self) -> (r: &AssocMap<NodeIndex, FilledNode<LeafDataImpl>>)
        ensures
            r == &self.tree_map,
    {
        &self.tree_map
    }

    /// The hash of the root, which must be in the tree.
    pub fn get_root_hash(&self) -> (r: Result<HashOutput, FilledTreeError>)
        requires
            self.tree_map.wf(),
        ensures
            r is Ok <==> self.view().dom().contains(1),
            r matches Ok(h) ==> h.val() == self.view()[1].0,
            r matches Err(e) ==> e is MissingRoot,
    {
        match self.tree_map.get(&NodeIndex::root()) {
            Some(root_node) => Ok(root_node.hash),
            None => Err(FilledTreeError::MissingRoot),
        }
    }

    /// Records a filled node in its place in the output map, which must be
    /// there and still empty. Where the place is already filled, the node
    /// there is taken out into the error and the place is left empty.
    fn write_to_output_map(
        output_map: &mut AssocMap<NodeIndex, Option<FilledNode<LeafDataImpl>>>,
        index: NodeIndex,
        hash: HashOutput,
        data: NodeData<LeafDataImpl>,
    ) -> (r: Result<(), FilledTreeError>)
        requires
            old(output_map).wf(),
        ensures
            final(output_map).wf(),
            r is Ok <==> old(output_map).map().dom().contains(index.value()) && old(output_map).map()[index.value()] is None,
            r is Ok ==> final(output_map).map() == old(output_map).map().insert(index.value(), Some(FilledNode { hash, data })),
            r matches Err(e) ==> if old(output_map).map().dom().contains(index.value()) {
                &&& e matches FilledTreeError::DoubleUpdate { index: i, existing_value: v }
                &&& i == index
                &&& old(output_map).map()[index.value()] == Some(*v)
                &&& final(output_map).map() == old(output_map).map().insert(index.value(), None)
            } else {
                &&& e == FilledTreeError::MissingNode(index)
                &&& final(output_map).map() == old(output_map).map()
            },
    {
        match output_map.get(&index) {
            Some(node) => match node {
                Some(existing) => {
                    let existing_value = *existing;
                    output_map.insert(index, None);
                    Err(FilledTreeError::DoubleUpdate { index, existing_value: Box::new(existing_value) })
                },
                None => {
                    output_map.insert(index, Some(FilledNode { hash, data }));
                    Ok(())
                },
            },
            None => Err(FilledTreeError::MissingNode(index)),
        }
    }
}

impl FilledTreeImpl {
    /// Takes the filled nodes out of their places; every place must have been
    /// filled.
    fn remove_arc_mutex_and_option(
        hash_map_in: AssocMap<NodeIndex, Option<FilledNode<LeafDataImpl>>>,
    ) -> (r: Result<AssocMap<NodeIndex, FilledNode<LeafDataImpl>>, FilledTreeError>)
        requires
            hash_map_in.wf(),
        ensures
            r is Ok <==> forall|k: nat| #[trigger] hash_map_in.map().dom().contains(k) ==> hash_map_in.map()[k] is Some,
            r matches Ok(m) ==> m.wf() && m.map().dom() == hash_map_in.map().dom() && forall|k: nat|
                #[trigger] m.map().dom().contains(k) ==> hash_map_in.map()[k] == Some(m.map()[k]),
            r matches Err(e) ==> e matches FilledTreeError::MissingNode(x) && hash_map_in.map().dom().contains(x.value())
                && hash_map_in.map()[x.value()] is None,
    {
        let ghost inm = hash_map_in.map();
        let mut hash_map_out: AssocMap<NodeIndex, FilledNode<LeafDataImpl>> = AssocMap::new();
        let len = hash_map_in.entries.len();
        let mut j: usize = 0;
        while j < len
            invariant
                hash_map_in.wf(),
                inm == hash_map_in.map(),
                len == hash_map_in.entries@.len(),
                j <= len,
                hash_map_out.wf(),
                forall|k: nat| #[trigger] hash_map_out.map().dom().contains(k) ==> inm.dom().contains(k) && inm[k] == Some(
                    hash_map_out.map()[k],
                ),
                forall|t: int| 0 <= t < j ==> hash_map_out.map().dom().contains((#[trigger] hash_map_in.entries@[t]).0.value()),
            decreases len - j,
        {
            let (key, value) = hash_map_in.entries[j];
            proof {
                crate::assoc::lemma_to_map_entry(hash_map_in.entries@, j as int);
            }
            match value {
                Some(v) => {
                    hash_map_out.insert(key, v);
                },
                None => {
                    return Err(FilledTreeError::MissingNode(key));
                },
            }
            j += 1;
        }
        proof {
            assert forall|k: nat| #[trigger] inm.dom().contains(k) implies hash_map_out.map().dom().contains(k) by {
                crate::assoc::lemma_to_map_dom(hash_map_in.entries@, k);
                let t = choose|t: int| 0 <= t < hash_map_in.entries@.len() && (#[trigger] hash_map_in.entries@[t]).0.key() == k;
            }
            assert(hash_map_out.map().dom() =~= inm.dom());
        }
        Ok(hash_map_out)
    }

    /// Fills the subtree of `index`: computes the hashes from the leaves up and
    /// records each modified node in its place in the output map. Returns the
    /// hash of the subtree.
    fn compute_filled_tree_rec<TH: TreeHashFunction>(
        updated_tree: &UpdatedSkeletonTreeImpl,
        index: NodeIndex,
        leaf_modifications: &AssocMap<NodeIndex, LeafDataImpl>,
        output_map: &mut AssocMap<NodeIndex, Option<FilledNode<LeafDataImpl>>>,
    ) -> (r: Result<HashOutput, FilledTreeError>)
        requires
            updated_tree.wf(),
            leaf_modifications.wf(),
            old(output_map).wf(),
            index.value() >= 1,
            ready(old(output_map).map(), index.value()),
            covers(old(output_map).map(), updated_tree.nodes()),
        ensures
            final(output_map).wf(),
            final(output_map).map().dom() == old(output_map).map().dom(),
            match fill::<TH>(updated_tree.nodes(), leaf_modifications.map(), index.value()) {
                Ok((h, m)) => r matches Ok(x) && x.val() == h && written(old(output_map).map(), final(output_map).map(), m),
                Err(e) => r matches Err(x) && error_is(x, e),
            },
        decreases index_bound() - index.value(),
    {
        let ghost nodes = updated_tree.nodes();
        let ghost leaves = leaf_modifications.map();
        let ghost i = index.value();
        let ghost out0 = output_map.map();
        index.bound();
        proof {
            lemma_self_ancestor(i);
        }
        let node = match updated_tree.get_node(index) {
            Ok(n) => n,
            Err(_) => {
                return Err(FilledTreeError::MissingNode(index));
            },
        };
        proof {
            assert(node_in_range_at(nodes, i));
        }
        match node {
            UpdatedSkeletonNode::Binary => {
                let children = index.get_children_indices();
                let left_index = children[0];
                let right_index = children[1];
                proof {
                    lemma_child_ancestor(i);
                    lemma_fill_keys::<TH>(nodes, leaves, 2 * i);
                    lemma_fill_keys::<TH>(nodes, leaves, 2 * i + 1);
                    assert forall|k: nat| is_ancestor(2 * i, k) && #[trigger] out0.dom().contains(k) implies out0[k] is None by {
                        lemma_ancestor_transitive(i, 2 * i, k);
                    }
                }
                let left_hash = match Self::compute_filled_tree_rec::<TH>(updated_tree, left_index, leaf_modifications, output_map) {
                    Ok(h) => h,
                    Err(e) => {
                        return Err(e);
                    },
                };
                let ghost out1 = output_map.map();
                let ghost lm = filled_nodes(fill::<TH>(nodes, leaves, 2 * i));
                proof {
                    assert forall|k: nat| is_ancestor(2 * i + 1, k) && #[trigger] out1.dom().contains(k) implies out1[k] is None by {
                        lemma_ancestor_transitive(i, 2 * i + 1, k);
                        if lm.dom().contains(k) {
                            lemma_ancestor_unique(2 * i, 2 * i + 1, k);
                        }
                    }
                }
                let right_hash = match Self::compute_filled_tree_rec::<TH>(updated_tree, right_index, leaf_modifications, output_map) {
                    Ok(h) => h,
                    Err(e) => {
                        return Err(e);
                    },
                };
                let ghost out2 = output_map.map();
                let ghost rm = filled_nodes(fill::<TH>(nodes, leaves, 2 * i + 1));
                let data = NodeData::Binary(BinaryData { left_hash, right_hash });
                let hash_value = compute_node_hash::<TH>(&data);
                proof {
                    assert(!lm.dom().contains(i));
                    assert(!rm.dom().contains(i));
                    assert(out2[i] == out0[i]);
                }
                match Self::write_to_output_map(output_map, index, hash_value, data) {
                    Ok(()) => {},
                    Err(e) => {
                        proof {
                            assert(false);
                        }
                        return Err(e);
                    },
                }
                proof {
                    let m = lm.union_prefer_right(rm).insert(i, (hash_value.val(), DataView::Binary(left_hash.val(), right_hash.val())));
                    let fin = output_map.map();
                    assert(fin.dom() =~= out0.dom());
                    assert forall|k: nat| #[trigger] m.dom().contains(k) implies (fin[k] matches Some(n) && node_view(n) == m[k]) by {
                        if k != i && !rm.dom().contains(k) {
                            assert(out2[k] == out1[k]);
                        }
                    }
                    assert forall|k: nat| #[trigger] fin.dom().contains(k) && !m.dom().contains(k) implies fin[k] == out0[k] by {
                        assert(out2[k] == out1[k]);
                    }
                }
                Ok(hash_value)
            },
            UpdatedSkeletonNode::Edge(path_to_bottom) => {
                let ghost len = path_to_bottom.length.0 as nat;
                let ghost b = path_to_bottom.bottom_of(i);
                let bottom_node_index = NodeIndex::compute_bottom_index(index, path_to_bottom);
                proof {
                    lemma_bottom_below(i, *path_to_bottom);
                    lemma_ancestor_of_descendant(i, len, path_to_bottom.path.0.value());
                    lemma_fill_keys::<TH>(nodes, leaves, b);
                    assert forall|k: nat| is_ancestor(b, k) && #[trigger] out0.dom().contains(k) implies out0[k] is None by {
                        lemma_ancestor_transitive(i, b, k);
                    }
                }
                let bottom_hash = match Self::compute_filled_tree_rec::<TH>(
                    updated_tree,
                    bottom_node_index,
                    leaf_modifications,
                    output_map,
                ) {
                    Ok(h) => h,
                    Err(e) => {
                        return Err(e);
                    },
                };
                let ghost out1 = output_map.map();
                let ghost bm = filled_nodes(fill::<TH>(nodes, leaves, b));
                let data = NodeData::Edge(EdgeData { bottom_hash, path_to_bottom: *path_to_bottom });
                let hash_value = compute_node_hash::<TH>(&data);
                proof {
                    assert(!bm.dom().contains(i));
                    assert(out1[i] == out0[i]);
                }
                match Self::write_to_output_map(output_map, index, hash_value, data) {
                    Ok(()) => {},
                    Err(e) => {
                        proof {
                            assert(false);
                        }
                        return Err(e);
                    },
                }
                proof {
                    let fin = output_map.map();
                    assert(fin.dom() =~= out0.dom());
                }
                Ok(hash_value)
            },
            UpdatedSkeletonNode::Sibling(hash_result) => Ok(*hash_result),
            UpdatedSkeletonNode::UnmodifiedBottom(hash_result) => Ok(*hash_result),
            UpdatedSkeletonNode::Leaf => {
                let leaf_data = match leaf_modifications.get(&index) {
                    Some(l) => *l,
                    None => {
                        return Err(FilledTreeError::MissingDataForUpdate(index));
                    },
                };
                if leaf_data.is_empty() {
                    return Err(FilledTreeError::DeletedLeafInSkeleton(index));
                }
                let data = NodeData::Leaf(leaf_data);
                let hash_value = compute_node_hash::<TH>(&data);
                match Self::write_to_output_map(output_map, index, hash_value, data) {
                    Ok(()) => {},
                    Err(e) => {
                        proof {
                            assert(false);
                        }
                        return Err(e);
                    },
                }
                proof {
                    let fin = output_map.map();
                    assert(fin.dom() =~= out0.dom());
                }
                Ok(hash_value)
            },
        }
    }
}

/// The node at `index` of the skeleton, if any, stands for a node of a tree.
pub open spec fn node_in_range_at(nodes: Map<nat, UpdatedSkeletonNode>, index: nat) -> bool {
    nodes.dom().contains(index) ==> crate::updated_skeleton::node_in_range(index, nodes[index])
}

/// Filling the tree from its root succeeds and reaches every node of the
/// skeleton that is not a sibling.
pub open spec fn complete<TH: TreeHashFunction>(
    nodes: Map<nat, UpdatedSkeletonNode>,
    leaves: Map<nat, LeafDataImpl>,
) -> bool {
    &&& fill::<TH>(nodes, leaves, 1) is Ok
    &&& forall|k: nat| #[trigger] nodes.dom().contains(k) && !is_sibling(nodes[k]) ==> filled_nodes(
        fill::<TH>(nodes, leaves, 1),
    ).dom().contains(k)
}

/// The error of filling a tree that cannot be filled: that of the fill where
/// it fails, else a node of the skeleton, not a sibling, that it leaves out.
pub open spec fn fill_error_is<TH: TreeHashFunction>(
    nodes: Map<nat, UpdatedSkeletonNode>,
    leaves: Map<nat, LeafDataImpl>,
    x: FilledTreeError,
) -> bool {
    match fill::<TH>(nodes, leaves, 1) {
        Err(e) => error_is(x, e),
        Ok(_) => x matches FilledTreeError::MissingNode(i) && nodes.dom().contains(i.value()) && !is_sibling(
            nodes[i.value()],
        ) && !filled_nodes(fill::<TH>(nodes, leaves, 1)).dom().contains(i.value()),
    }
}

impl FilledTreeImpl {
    /// Computes the filled tree of an updated skeleton and the new data of its
    /// modified leaves: every node that is not a sibling gets its data and
    /// hash, computed from the leaves up to the root.
    pub fn create<TH: TreeHashFunction>(
        updated_tree: UpdatedSkeletonTreeImpl,
        leaf_modifications: AssocMap<NodeIndex, LeafDataImpl>,
    ) -> (r: Result<FilledTreeImpl, FilledTreeError>)
        requires
            updated_tree.wf(),
            leaf_modifications.wf(),
        ensures
            r is Ok <==> complete::<TH>(updated_tree.nodes(), leaf_modifications.map()),
            r matches Ok(t) ==> t.tree_map.wf() && t.view() == filled_nodes(
                fill::<TH>(updated_tree.nodes(), leaf_modifications.map(), 1),
            ),
            r matches Err(x) ==> fill_error_is::<TH>(updated_tree.nodes(), leaf_modifications.map(), x),
    {
        let ghost nodes = updated_tree.nodes();
        let ghost leaves = leaf_modifications.map();
        let ghost entries = updated_tree.skeleton_tree.entries@;
        // Places for every node that is not a sibling, still to be filled.
        let mut output_map: AssocMap<NodeIndex, Option<FilledNode<LeafDataImpl>>> = AssocMap::new();
        let n = updated_tree.skeleton_tree.entries.len();
        let mut i: usize = 0;
        while i < n
            invariant
                updated_tree.wf(),
                nodes == updated_tree.nodes(),
                entries == updated_tree.skeleton_tree.entries@,
                n == entries.len(),
                i <= n,
                output_map.wf(),
                forall|k: nat| #[trigger] output_map.map().dom().contains(k) ==> output_map.map()[k] is None
                    && nodes.dom().contains(k) && !is_sibling(nodes[k]),
                forall|j: int| 0 <= j < i && !is_sibling((#[trigger] entries[j]).1) ==> output_map.map().dom().contains(
                    entries[j].0.value(),
                ),
            decreases n - i,
        {
            let (index, node) = updated_tree.skeleton_tree.entries[i];
            proof {
                crate::assoc::lemma_to_map_entry(entries, i as int);
            }
            match node {
                UpdatedSkeletonNode::Sibling(_) => {},
                UpdatedSkeletonNode::UnmodifiedBottom(_) => {},
                _ => {
                    output_map.insert(index, None);
                },
            }
            i += 1;
        }
        let ghost out0 = output_map.map();
        proof {
            assert forall|k: nat| #[trigger] nodes.dom().contains(k) && !is_sibling(nodes[k]) implies out0.dom().contains(k) by {
                crate::assoc::lemma_to_map_dom(entries, k);
                let j = choose|j: int| 0 <= j < entries.len() && (#[trigger] entries[j]).0.key() == k;
                crate::assoc::lemma_to_map_entry(entries, j);
            }
            assert(covers(out0, nodes));
            assert(ready(out0, 1));
        }
        let root = NodeIndex::root();
        match Self::compute_filled_tree_rec::<TH>(&updated_tree, root, &leaf_modifications, &mut output_map) {
            Ok(_) => {},
            Err(e) => {
                return Err(e);
            },
        }
        let ghost out1 = output_map.map();
        let ghost m = filled_nodes(fill::<TH>(nodes, leaves, 1));
        proof {
            lemma_fill_keys::<TH>(nodes, leaves, 1);
        }
        // Every place must have been filled.
        let tree_map = match Self::remove_arc_mutex_and_option(output_map) {
            Ok(t) => t,
            Err(e) => {
                proof {
                    if let FilledTreeError::MissingNode(x) = e {
                        assert(out0.dom().contains(x.value()));
                        assert(!m.dom().contains(x.value()));
                    }
                }
                return Err(e);
            },
        };
        let result = FilledTreeImpl::new(tree_map);
        proof {
            assert forall|k: nat| #[trigger] nodes.dom().contains(k) && !is_sibling(nodes[k]) implies m.dom().contains(k) by {
                assert(out1.dom().contains(k));
                assert(out1[k] is Some);
            }
            assert(result.view() =~= m);
        }
        Ok(result)
    }
}

/// Every node of a filled subtree is consistent with the tree below it: its
/// own subtree fills to its hash and to nodes of the filled subtree, and its
/// hash is the hash of its data. (So a binary node holds the hashes of its
/// children's subtrees and an edge the hash of its bottom's, as `fill` says.)
pub proof fn lemma_filled_tree_consistent<TH: TreeHashFunction>(
    nodes: Map<nat, UpdatedSkeletonNode>,
    leaves: Map<nat, LeafDataImpl>,
    index: nat,
)
    ensures
        fill::<TH>(nodes, leaves, index) matches Ok((h, m)) ==> forall|k: nat| #[trigger] m.dom().contains(k) ==> {
            &&& fill::<TH>(nodes, leaves, k) is Ok
            &&& filled_hash(fill::<TH>(nodes, leaves, k)) == m[k].0
            &&& filled_nodes(fill::<TH>(nodes, leaves, k)).submap_of(m)
            &&& m[k].0 == view_hash::<TH>(m[k].1)
        },
    decreases index_bound() - index,
{
    if nodes.dom().contains(index) && index != 0 {
        match nodes[index] {
            UpdatedSkeletonNode::Binary => {
                if 2 * index + 1 < index_bound() {
                    lemma_filled_tree_consistent::<TH>(nodes, leaves, 2 * index);
                    lemma_filled_tree_consistent::<TH>(nodes, leaves, 2 * index + 1);
                    lemma_fill_keys::<TH>(nodes, leaves, 2 * index);
                    lemma_fill_keys::<TH>(nodes, leaves, 2 * index + 1);
                    lemma_child_ancestor(index);
                    if let Ok((h, m)) = fill::<TH>(nodes, leaves, index) {
                        let lm = filled_nodes(fill::<TH>(nodes, leaves, 2 * index));
                        let rm = filled_nodes(fill::<TH>(nodes, leaves, 2 * index + 1));
                        // The two children's subtrees are apart.
                        assert forall|k: nat| lm.dom().contains(k) implies !rm.dom().contains(k) by {
                            if rm.dom().contains(k) {
                                lemma_ancestor_unique(2 * index, 2 * index + 1, k);
                            }
                        }
                        assert(!lm.dom().contains(index));
                        assert(!rm.dom().contains(index));
                        assert forall|k: nat| #[trigger] m.dom().contains(k) implies {
                            &&& fill::<TH>(nodes, leaves, k) is Ok
                            &&& filled_hash(fill::<TH>(nodes, leaves, k)) == m[k].0
                            &&& filled_nodes(fill::<TH>(nodes, leaves, k)).submap_of(m)
                            &&& m[k].0 == view_hash::<TH>(m[k].1)
                        } by {
                            if k == index {
                                assert(filled_nodes(fill::<TH>(nodes, leaves, k)) == m);
                            } else if rm.dom().contains(k) {
                                assert(m[k] == rm[k]);
                            } else {
                                assert(lm.dom().contains(k));
                                assert(m[k] == lm[k]);
                                let mk = filled_nodes(fill::<TH>(nodes, leaves, k));
                                assert forall|x: nat| #[trigger] mk.dom().contains(x) implies m.dom().contains(x) && mk[x] == m[x] by {
                                    assert(lm.dom().contains(x));
                                    assert(!rm.dom().contains(x));
                                }
                            }
                        }
                    }
                }
            },
            UpdatedSkeletonNode::Edge(p) => {
                if p.is_valid() && p.length.0 >= 1 && p.bottom_of(index) < index_bound() {
                    lemma_bottom_below(index, p);
                    lemma_filled_tree_consistent::<TH>(nodes, leaves, p.bottom_of(index));
                    lemma_fill_keys::<TH>(nodes, leaves, p.bottom_of(index));
                    lemma_ancestor_of_descendant(index, p.length.0 as nat, p.path.0.value());
                    if let Ok((h, m)) = fill::<TH>(nodes, leaves, index) {
                        let bm = filled_nodes(fill::<TH>(nodes, leaves, p.bottom_of(index)));
                        assert(!bm.dom().contains(index));
                        assert forall|k: nat| #[trigger] m.dom().contains(k) implies {
                            &&& fill::<TH>(nodes, leaves, k) is Ok
                            &&& filled_hash(fill::<TH>(nodes, leaves, k)) == m[k].0
                            &&& filled_nodes(fill::<TH>(nodes, leaves, k)).submap_of(m)
                            &&& m[k].0 == view_hash::<TH>(m[k].1)
                        } by {
                            if k == index {
                                assert(filled_nodes(fill::<TH>(nodes, leaves, k)) == m);
                            } else {
                                assert(m[k] == bm[k]);
                            }
                        }
                    }
                }
            },
            UpdatedSkeletonNode::Leaf => {
                if let Ok((h, m)) = fill::<TH>(nodes, leaves, index) {
                    assert forall|k: nat| #[trigger] m.dom().contains(k) implies {
                        &&& fill::<TH>(nodes, leaves, k) is Ok
                        &&& filled_hash(fill::<TH>(nodes, leaves, k)) == m[k].0
                        &&& filled_nodes(fill::<TH>(nodes, leaves, k)).submap_of(m)
                        &&& m[k].0 == view_hash::<TH>(m[k].1)
                    } by {
                        assert(k == index);
                    }
                }
            },
            _ => {},
        }
    }
}

/// The hash, when filling succeeds.
pub open spec fn filled_hash(r: Result<(nat, Map<nat, (nat, DataView)>), FillError>) -> nat {
    match r {
        Ok((h, _)) => h,
        Err(_) => 0,
    }
}

/// A storage entry is that of a node: its key and its stored form.
pub open spec fn entry_of(e: (StorageKey, StorageValue), n: FilledNode<LeafDataImpl>) -> bool {
    &&& e.0.0@ == db_key(node_prefix(n.data), be_bytes(n.hash.val(), 32))
    &&& e.1.0@ == node_bytes(n.data)
}

/// The storage entries are those of the nodes, in order.
pub open spec fn entries_of(es: Seq<(StorageKey, StorageValue)>, ns: Seq<FilledNode<LeafDataImpl>>) -> bool {
    &&& es.len() == ns.len()
    &&& forall|i: int| 0 <= i < es.len() ==> entry_of(#[trigger] es[i], ns[i])
}

impl FilledTreeImpl {
    /// The nodes of the tree, in the order they are kept.
    pub open spec fn nodes(&self) -> Seq<FilledNode<LeafDataImpl>> {
        self.tree_map.entries@.map_values(|e: (NodeIndex, FilledNode<LeafDataImpl>)| e.1)
    }

    /// The storage entries of the tree's nodes.
    pub fn serialize(&self) -> (r: Vec<(StorageKey, StorageValue)>)
        ensures
            entries_of(r@, self.nodes()),
    {
        let mut r: Vec<(StorageKey, StorageValue)> = Vec::new();
        let mut i: usize = 0;
        while i < self.tree_map.entries.len()
            invariant
                i <= self.tree_map.entries@.len(),
                r@.len() == i,
                forall|t: int| 0 <= t < i ==> entry_of(#[trigger] r@[t], self.nodes()[t]),
            decreases self.tree_map.entries@.len() - i,
        {
            let node = self.tree_map.entries[i].1;
            r.push((node.db_key(), node.serialize()));
            i += 1;
        }
        r
    }
}

} // verus!
