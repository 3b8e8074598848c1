//! Filling a skeleton whose leaves carry their new data: the hashes computed
//! from the leaves up, every node on the way recorded in an output map.
use crate::assoc::AssocMap;
use crate::filled_node::FilledNode;
use crate::filled_tree::{data_view, lemma_bottom_below, node_view, DataView};
use crate::hash::{compute_node_hash, edge_hash, HashOutput, TreeHashFunction};
use crate::felt::pedersen_hash;
use crate::leaf::LeafDataImpl;
use crate::node_data::{BinaryData, EdgeData, NodeData, PathToBottom};
use crate::types::{index_bound, NodeIndex};
use crate::updated_skeleton::UpdatedSkeletonTreeImpl;
use vstd::prelude::*;

verus! {

/// A node in the structure of a Patricia-Merkle tree, before or after an
/// update; a leaf holds its data.
#[derive(Clone, Copy, Debug)]
pub enum SkeletonNode {
    Binary,
    Edge { path_to_bottom: PathToBottom },
    /// An unmodified node on the Merkle path of a modified leaf.
    Sibling(HashOutput),
    Leaf(LeafDataImpl),
    Empty,
}

/// The hash of the subtree of `index` and the nodes it fills, each with its
/// hash and data; nothing when the subtree reaches a missing or empty node, or
/// an edge that leads nowhere below it.
pub open spec fn skeleton_fill<TH: TreeHashFunction>(
    nodes: Map<nat, SkeletonNode>,
    index: nat,
) -> Option<(nat, Map<nat, (nat, DataView)>)>
    decreases index_bound() - index,
{
    if !nodes.dom().contains(index) || index == 0 {
        None
    } else {
        match nodes[index] {
            SkeletonNode::Binary => if 2 * index + 1 < index_bound() {
                match skeleton_fill::<TH>(nodes, 2 * index) {
                    None => None,
                    Some((lh, lm)) => match skeleton_fill::<TH>(nodes, 2 * index + 1) {
                        None => None,
                        Some((rh, rm)) => {
                            let h = pedersen_hash(lh, rh);
                            Some((h, lm.union_prefer_right(rm).insert(index, (h, DataView::Binary(lh, rh)))))
                        },
                    },
                }
            } else {
                None
            },
            SkeletonNode::Edge { path_to_bottom: p } => if p.is_valid() && p.length.0 >= 1 && p.bottom_of(index)
                < index_bound() {
                proof {
                    lemma_bottom_below(index, p);
                }
                match skeleton_fill::<TH>(nodes, p.bottom_of(index)) {
                    None => None,
                    Some((bh, bm)) => {
                        let h = edge_hash(bh, p.path.0.value(), p.length.0 as nat);
                        Some((h, bm.insert(index, (h, DataView::Edge(bh, p.path.0.value(), p.length.0 as nat)))))
                    },
                }
            } else {
                None
            },
            SkeletonNode::Sibling(h) => Some((h.val(), Map::empty())),
            SkeletonNode::Leaf(l) => {
                let h = TH::leaf_hash(l);
                Some((h, map![index => (h, DataView::Leaf(l))]))
            },
            SkeletonNode::Empty => None,
        }
    }
}

/// The nodes filled, when filling succeeds.
pub open spec fn fill_map(r: Option<(nat, Map<nat, (nat, DataView)>)>) -> Map<nat, (nat, DataView)> {
    match r {
        Some((_, m)) => m,
        None => Map::empty(),
    }
}

/// The filled nodes, viewed.
pub open spec fn filled_view(m: Map<nat, FilledNode<LeafDataImpl>>) -> Map<nat, (nat, DataView)> {
    m.map_values(|n: FilledNode<LeafDataImpl>| node_view(n))
}

impl UpdatedSkeletonTreeImpl {
    /// Fills the subtree of `index` of the skeleton `map`: computes the hash of
    /// every binary node, edge and leaf from the leaves up and records it with
    /// its data in `output_map`. Returns the hash of the subtree.
    pub fn compute_filled_tree<TH: TreeHashFunction>(
        map: &AssocMap<NodeIndex, SkeletonNode>,
        index: NodeIndex,
        output_map: &mut AssocMap<NodeIndex, FilledNode<LeafDataImpl>>,
    ) -> (r: HashOutput)
        requires
            map.wf(),
            old(output_map).wf(),
            skeleton_fill::<TH>(map.map(), index.value()) is Some,
        ensures
            final(output_map).wf(),
            skeleton_fill::<TH>(map.map(), index.value()) matches Some((h, m)) && r.val() == h
                && filled_view(final(output_map).map()) == filled_view(old(output_map).map()).union_prefer_right(m)
                && final(output_map).map().dom() == old(output_map).map().dom().union(m.dom()),
        decreases index_bound() - index.value(),
    {
        let ghost nodes = map.map();
        let ghost i = index.value();
        let ghost out0 = output_map.map();
        index.bound();
        let node = *map.get(&index).unwrap();
        match node {
            SkeletonNode::Binary => {
                let children = index.get_children_indices();
                let left_hash = Self::compute_filled_tree::<TH>(map, children[0], output_map);
                let ghost out1 = output_map.map();
                let right_hash = Self::compute_filled_tree::<TH>(map, children[1], output_map);
                let ghost out2 = output_map.map();
                let data = NodeData::Binary(BinaryData { left_hash, right_hash });
                let hash_value = compute_node_hash::<TH>(&data);
                output_map.insert(index, FilledNode { hash: hash_value, data });
                proof {
                    let lm = fill_map(skeleton_fill::<TH>(nodes, 2 * i));
                    let rm = fill_map(skeleton_fill::<TH>(nodes, 2 * i + 1));
                    let m = lm.union_prefer_right(rm).insert(i, (hash_value.val(), DataView::Binary(left_hash.val(), right_hash.val())));
                    assert(filled_view(out1) == filled_view(out0).union_prefer_right(lm));
                    assert(filled_view(out2) == filled_view(out1).union_prefer_right(rm));
                    assert(fill_map(skeleton_fill::<TH>(nodes, i)) == m);
                    let n = FilledNode { hash: hash_value, data };
                    assert(node_view(n) == (hash_value.val(), DataView::Binary(left_hash.val(), right_hash.val())));
                    assert(filled_view(output_map.map()) =~= filled_view(out2).insert(i, node_view(n)));
                    assert(filled_view(output_map.map()) =~= filled_view(out0).union_prefer_right(m));
                    assert(output_map.map().dom() =~= out0.dom().union(m.dom()));
                }
                hash_value
            },
            SkeletonNode::Edge { path_to_bottom } => {
                proof {
                    lemma_bottom_below(i, path_to_bottom);
                }
                let bottom_node_index = NodeIndex::compute_bottom_index(index, &path_to_bottom);
                let bottom_hash = Self::compute_filled_tree::<TH>(map, bottom_node_index, output_map);
                let ghost out1 = output_map.map();
                let data = NodeData::Edge(EdgeData { path_to_bottom, bottom_hash });
                let hash_value = compute_node_hash::<TH>(&data);
                output_map.insert(index, FilledNode { hash: hash_value, data });
                proof {
                    let bm = fill_map(skeleton_fill::<TH>(nodes, path_to_bottom.bottom_of(i)));
                    let m = bm.insert(i, (hash_value.val(), data_view(data)));
                    let n = FilledNode { hash: hash_value, data };
                    assert(filled_view(out1) == filled_view(out0).union_prefer_right(bm));
                    assert(fill_map(skeleton_fill::<TH>(nodes, i)) == m);
                    assert(filled_view(output_map.map()) =~= filled_view(out1).insert(i, node_view(n)));
                    assert(filled_view(output_map.map()) =~= filled_view(out0).union_prefer_right(m));
                    assert(output_map.map().dom() =~= out0.dom().union(m.dom()));
                }
                hash_value
            },
            SkeletonNode::Sibling(hash_result) => {
                proof {
                    assert(filled_view(output_map.map()) =~= filled_view(out0).union_prefer_right(Map::empty()));
                    assert(output_map.map().dom() =~= out0.dom().union(Map::<nat, (nat, DataView)>::empty().dom()));
                }
                hash_result
            },
            SkeletonNode::Leaf(leaf_data) => {
                let data = NodeData::Leaf(leaf_data);
                let hash_value = compute_node_hash::<TH>(&data);
                output_map.insert(index, FilledNode { hash: hash_value, data });
                proof {
                    let m = map![i => (hash_value.val(), DataView::Leaf(leaf_data))];
                    assert(filled_view(output_map.map()) =~= filled_view(out0).union_prefer_right(m));
                    assert(output_map.map().dom() =~= out0.dom().union(m.dom()));
                }
                hash_value
            },
            SkeletonNode::Empty => {
                proof {
                    assert(false);
                }
                HashOutput::zero()
            },
        }
    }
}

} // verus!
