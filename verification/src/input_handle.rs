//! The skeleton input as first read: prefetched nodes and modified leaves,
//! each with the big-endian bytes of its index and a numeric type tag.
use crate::assoc::AssocMap;
use crate::felt::{be_value, felt_prime, Felt};
use crate::hash::HashOutput;
use crate::leaf::{ClassHash, CompiledClassHash, ContractState, LeafDataImpl, Nonce};
use crate::leaf_serde::{leaf_fields, LeafFields};
use crate::node_data::{EdgePath, EdgePathLength, PathToBottom};
use crate::skeleton_tree::SkeletonNode;
use crate::types::NodeIndex;
use vstd::prelude::*;

verus! {

/// A leaf as read: its type (1 a storage value, 2 a contract state, 3 a
/// compiled class hash) and the bytes of its fields.
pub struct DeserailizedLeaf {
    pub leaf_type: u8,
    pub contract_hash: Vec<u8>,
    pub stroage_root: Vec<u8>,
    pub value: Vec<u8>,
}

/// A leaf as read, with the bytes of its index.
pub struct DeserializedIndexedLeaf {
    pub index: Vec<u8>,
    pub leaf: DeserailizedLeaf,
}

/// A node as read: its type (1 a sibling, 2 empty, 3 an edge, 4 binary) and
/// the bytes of its fields.
pub struct DeserializedNode {
    pub node_type: u8,
    pub length: u16,
    pub path: Vec<u8>,
    pub value: Vec<u8>,
}

/// A node as read, with the bytes of its index.
pub struct DeserializedIndexedNode {
    pub index: Vec<u8>,
    pub node: DeserializedNode,
}

/// The skeleton input as read.
pub struct DeserializedInput {
    pub prefetched_nodes: Vec<DeserializedIndexedNode>,
    pub leaves: Vec<DeserializedIndexedLeaf>,
}

/// The field element that bytes stand for, reduced.
pub open spec fn felt_of_bytes(bytes: Seq<u8>) -> nat {
    be_value(bytes) % felt_prime()
}

/// The leaf that a leaf as read stands for.
pub open spec fn leaf_read(leaf: DeserailizedLeaf) -> LeafFields {
    if leaf.leaf_type == 1 {
        LeafFields::Storage(felt_of_bytes(leaf.value@))
    } else if leaf.leaf_type == 2 {
        LeafFields::State(felt_of_bytes(leaf.value@), felt_of_bytes(leaf.stroage_root@), felt_of_bytes(leaf.contract_hash@))
    } else {
        LeafFields::Class(felt_of_bytes(leaf.value@))
    }
}

/// The node that a node as read stands for, apart from its data.
pub open spec fn node_read_matches(node: DeserializedNode, n: SkeletonNode) -> bool {
    if node.node_type == 1 {
        n matches SkeletonNode::Sibling(h) && h.val() == felt_of_bytes(node.value@)
    } else if node.node_type == 3 {
        n matches SkeletonNode::Edge { path_to_bottom: p } && p.length.0 == node.length && p.path.0.value()
            == felt_of_bytes(node.path@)
    } else if node.node_type == 2 {
        n is Empty
    } else {
        n is Binary
    }
}

impl DeserializedIndexedLeaf {
    /// The index and the data of the leaf.
    pub fn to_indexed_leaf(&self) -> (r: (NodeIndex, LeafDataImpl))
        requires
            1 <= self.leaf.leaf_type <= 3,
        ensures
            r.0.value() == felt_of_bytes(self.index@),
            leaf_fields(r.1) == leaf_read(self.leaf),
    {
        let storage_leaf_type: u8 = 1;
        let contract_state_leaf_type: u8 = 2;
        let index = NodeIndex::from_felt_value(&Felt::from_bytes_be_slice(self.index.as_slice()));
        if self.leaf.leaf_type == storage_leaf_type {
            return (index, LeafDataImpl::StorageValue(Felt::from_bytes_be_slice(self.leaf.value.as_slice())));
        }
        if self.leaf.leaf_type == contract_state_leaf_type {
            (
                index,
                LeafDataImpl::ContractState(ContractState {
                    class_hash: ClassHash(Felt::from_bytes_be_slice(self.leaf.contract_hash.as_slice())),
                    storage_root_hash: HashOutput(Felt::from_bytes_be_slice(self.leaf.stroage_root.as_slice())),
                    nonce: Nonce(Felt::from_bytes_be_slice(self.leaf.value.as_slice())),
                }),
            )
        } else {
            (index, LeafDataImpl::CompiledClassHash(CompiledClassHash(Felt::from_bytes_be_slice(self.leaf.value.as_slice()))))
        }
    }
}

impl DeserializedIndexedNode {
    /// The index and the skeleton node; an edge's length must fit in a byte.
    pub fn to_indexed_node(&self) -> (r: (NodeIndex, SkeletonNode))
        requires
            1 <= self.node.node_type <= 4,
            self.node.node_type == 3 ==> self.node.length <= 255,
        ensures
            r.0.value() == felt_of_bytes(self.index@),
            node_read_matches(self.node, r.1),
    {
        let sibling_node_type: u8 = 1;
        let empty_node_type: u8 = 2;
        let edge_node_type: u8 = 3;
        let index = NodeIndex::from_felt_value(&Felt::from_bytes_be_slice(self.index.as_slice()));
        if self.node.node_type == sibling_node_type {
            return (index, SkeletonNode::Sibling(HashOutput(Felt::from_bytes_be_slice(self.node.value.as_slice()))));
        }
        if self.node.node_type == edge_node_type {
            let length = EdgePathLength(self.node.length as u8);
            let path = EdgePath(Felt::from_bytes_be_slice(self.node.path.as_slice()).to_u256());
            return (index, SkeletonNode::Edge { path_to_bottom: PathToBottom { path, length } });
        }
        if self.node.node_type == empty_node_type {
            (index, SkeletonNode::Empty)
        } else {
            (index, SkeletonNode::Binary)
        }
    }
}

/// The node index that the bytes of an index stand for.
fn index_of(bytes: &Vec<u8>) -> (r: NodeIndex)
    ensures
        r.value() == felt_of_bytes(bytes@),
{
    NodeIndex::from_felt_value(&Felt::from_bytes_be_slice(bytes.as_slice()))
}

impl DeserializedInput {
    /// The indices of the leaves, as numbers.
    pub open spec fn leaf_indices(&self) -> Seq<nat> {
        self.leaves@.map_values(|l: DeserializedIndexedLeaf| felt_of_bytes(l.index@))
    }

    /// The indices of the prefetched nodes, as numbers.
    pub open spec fn node_indices(&self) -> Seq<nat> {
        self.prefetched_nodes@.map_values(|n: DeserializedIndexedNode| felt_of_bytes(n.index@))
    }

    /// Every type tag is known, every edge length fits in a byte, and no node
    /// index occurs twice among the leaves and prefetched nodes together.
    pub open spec fn well_formed(&self) -> bool {
        &&& forall|i: int| 0 <= i < self.leaves@.len() ==> 1 <= (#[trigger] self.leaves@[i]).leaf.leaf_type <= 3
        &&& forall|i: int| 0 <= i < self.prefetched_nodes@.len() ==> {
            &&& 1 <= (#[trigger] self.prefetched_nodes@[i]).node.node_type <= 4
            &&& self.prefetched_nodes@[i].node.node_type == 3 ==> self.prefetched_nodes@[i].node.length <= 255
        }
        &&& (self.leaf_indices() + self.node_indices()).no_duplicates()
    }

    /// Whether the input is well formed.
    pub fn is_well_formed(&self) -> (r: bool)
        ensures
            r == self.well_formed(),
    {
        let mut all: Vec<NodeIndex> = Vec::new();
        let mut i: usize = 0;
        while i < self.leaves.len()
            invariant
                i <= self.leaves@.len(),
                all@.len() == i,
                forall|t: int| 0 <= t < i ==> (#[trigger] all@[t]).value() == self.leaf_indices()[t],
                forall|t: int| 0 <= t < i ==> 1 <= (#[trigger] self.leaves@[t]).leaf.leaf_type <= 3,
            decreases self.leaves@.len() - i,
        {
            let t = self.leaves[i].leaf.leaf_type;
            if t < 1 || t > 3 {
                return false;
            }
            all.push(index_of(&self.leaves[i].index));
            i += 1;
        }
        let mut j: usize = 0;
        while j < self.prefetched_nodes.len()
            invariant
                i == self.leaves@.len(),
                j <= self.prefetched_nodes@.len(),
                all@.len() == i + j,
                forall|t: int| 0 <= t < i ==> (#[trigger] all@[t]).value() == self.leaf_indices()[t],
                forall|t: int| 0 <= t < j ==> (#[trigger] all@[i + t]).value() == self.node_indices()[t],
                forall|t: int| 0 <= t < i ==> 1 <= (#[trigger] self.leaves@[t]).leaf.leaf_type <= 3,
                forall|t: int| 0 <= t < j ==> {
                    &&& 1 <= (#[trigger] self.prefetched_nodes@[t]).node.node_type <= 4
                    &&& self.prefetched_nodes@[t].node.node_type == 3 ==> self.prefetched_nodes@[t].node.length <= 255
                },
            decreases self.prefetched_nodes@.len() - j,
        {
            let node = &self.prefetched_nodes[j].node;
            if node.node_type < 1 || node.node_type > 4 || (node.node_type == 3 && node.length > 255) {
                return false;
            }
            all.push(index_of(&self.prefetched_nodes[j].index));
            j += 1;
        }
        let ghost both = self.leaf_indices() + self.node_indices();
        proof {
            assert forall|t: int| 0 <= t < all@.len() implies (#[trigger] all@[t]).value() == both[t] by {
                if t >= i {
                    assert(all@[i + (t - i)].value() == self.node_indices()[t - i]);
                }
            }
        }
        let mut a: usize = 0;
        while a < all.len()
            invariant
                both == self.leaf_indices() + self.node_indices(),
                all@.len() == both.len(),
                forall|t: int| 0 <= t < all@.len() ==> (#[trigger] all@[t]).value() == both[t],
                a <= all@.len(),
                forall|x: int, y: int| 0 <= x < a && 0 <= y < both.len() && x != y ==> both[x] != both[y],
            decreases all@.len() - a,
        {
            let mut b: usize = 0;
            while b < all.len()
                invariant
                    both == self.leaf_indices() + self.node_indices(),
                    all@.len() == both.len(),
                    forall|t: int| 0 <= t < all@.len() ==> (#[trigger] all@[t]).value() == both[t],
                    a < all@.len(),
                    b <= all@.len(),
                    forall|y: int| 0 <= y < b && y != a ==> both[a as int] != both[y],
                decreases all@.len() - b,
            {
                if b != a && all[a].eq(&all[b]) {
                    proof {
                        assert(both[a as int] == both[b as int]);
                    }
                    return false;
                }
                b += 1;
            }
            a += 1;
        }
        true
    }

    /// The modified leaves and the prefetched nodes, each by its index.
    pub fn to_skeleton_nodes(&self) -> (r: (AssocMap<NodeIndex, SkeletonNode>, AssocMap<NodeIndex, SkeletonNode>))
        requires
            self.well_formed(),
        ensures
            r.0.wf(),
            r.1.wf(),
            r.0.map().dom() == self.leaf_indices().to_set(),
            r.1.map().dom() == self.node_indices().to_set(),
            forall|i: int| 0 <= i < self.leaves@.len() ==> (r.0.map()[#[trigger] self.leaf_indices()[i]] matches SkeletonNode::Leaf(l)
                && leaf_fields(l) == leaf_read(self.leaves@[i].leaf)),
            forall|i: int| 0 <= i < self.prefetched_nodes@.len() ==> node_read_matches(
                self.prefetched_nodes@[i].node,
                r.1.map()[#[trigger] self.node_indices()[i]],
            ),
    {
        let ghost li = self.leaf_indices();
        let ghost ni = self.node_indices();
        proof {
            assert forall|x: int, y: int| 0 <= x < li.len() && 0 <= y < li.len() && x != y implies li[x] != li[y] by {
                assert((li + ni)[x] == li[x] && (li + ni)[y] == li[y]);
            }
            assert forall|x: int, y: int| 0 <= x < ni.len() && 0 <= y < ni.len() && x != y implies ni[x] != ni[y] by {
                assert((li + ni)[li.len() + x] == ni[x] && (li + ni)[li.len() + y] == ni[y]);
            }
        }
        let mut leaves: AssocMap<NodeIndex, SkeletonNode> = AssocMap::new();
        let mut i: usize = 0;
        while i < self.leaves.len()
            invariant
                self.well_formed(),
                li == self.leaf_indices(),
                forall|x: int, y: int| 0 <= x < li.len() && 0 <= y < li.len() && x != y ==> li[x] != li[y],
                i <= self.leaves@.len(),
                leaves.wf(),
                forall|k: nat| #[trigger] leaves.map().dom().contains(k) <==> exists|t: int| 0 <= t < i && li[t] == k,
                forall|t: int| 0 <= t < i ==> (leaves.map()[#[trigger] li[t]] matches SkeletonNode::Leaf(l) && leaf_fields(l)
                    == leaf_read(self.leaves@[t].leaf)),
            decreases self.leaves@.len() - i,
        {
            let (idx, leaf_data) = self.leaves[i].to_indexed_leaf();
            proof {
                assert(self.leaves@[i as int].leaf.leaf_type >= 1);
            }
            let ghost before = leaves.map();
            leaves.insert(idx, SkeletonNode::Leaf(leaf_data));
            proof {
                assert(idx.value() == li[i as int]);
                assert forall|t: int| 0 <= t < i + 1 implies (leaves.map()[#[trigger] li[t]] matches SkeletonNode::Leaf(l)
                    && leaf_fields(l) == leaf_read(self.leaves@[t].leaf)) by {
                    if t < i {
                        assert(li[t] != li[i as int]);
                        assert(leaves.map()[li[t]] == before[li[t]]);
                    }
                }
                assert forall|k: nat| #[trigger] leaves.map().dom().contains(k) <==> exists|t: int| 0 <= t < i + 1 && li[t] == k by {
                    if k == li[i as int] {
                        assert(0 <= i < i + 1 && li[i as int] == k);
                    } else if exists|t: int| 0 <= t < i + 1 && li[t] == k {
                        let t = choose|t: int| 0 <= t < i + 1 && li[t] == k;
                        assert(0 <= t < i && li[t] == k);
                    }
                }
            }
            i += 1;
        }
        let mut prefetched_nodes: AssocMap<NodeIndex, SkeletonNode> = AssocMap::new();
        let mut j: usize = 0;
        while j < self.prefetched_nodes.len()
            invariant
                self.well_formed(),
                ni == self.node_indices(),
                forall|x: int, y: int| 0 <= x < ni.len() && 0 <= y < ni.len() && x != y ==> ni[x] != ni[y],
                j <= self.prefetched_nodes@.len(),
                prefetched_nodes.wf(),
                forall|k: nat| #[trigger] prefetched_nodes.map().dom().contains(k) <==> exists|t: int| 0 <= t < j && ni[t] == k,
                forall|t: int| 0 <= t < j ==> node_read_matches(self.prefetched_nodes@[t].node, prefetched_nodes.map()[#[trigger] ni[t]]),
            decreases self.prefetched_nodes@.len() - j,
        {
            proof {
                assert(1 <= self.prefetched_nodes@[j as int].node.node_type <= 4);
            }
            let (idx, node) = self.prefetched_nodes[j].to_indexed_node();
            let ghost before = prefetched_nodes.map();
            prefetched_nodes.insert(idx, node);
            proof {
                assert(idx.value() == ni[j as int]);
                assert forall|t: int| 0 <= t < j + 1 implies node_read_matches(
                    self.prefetched_nodes@[t].node,
                    prefetched_nodes.map()[#[trigger] ni[t]],
                ) by {
                    if t < j {
                        assert(ni[t] != ni[j as int]);
                        assert(prefetched_nodes.map()[ni[t]] == before[ni[t]]);
                    }
                }
                assert forall|k: nat| #[trigger] prefetched_nodes.map().dom().contains(k) <==> exists|t: int| 0 <= t < j + 1 && ni[t] == k by {
                    if k == ni[j as int] {
                        assert(0 <= j < j + 1 && ni[j as int] == k);
                    } else if exists|t: int| 0 <= t < j + 1 && ni[t] == k {
                        let t = choose|t: int| 0 <= t < j + 1 && ni[t] == k;
                        assert(0 <= t < j && ni[t] == k);
                    }
                }
            }
            j += 1;
        }
        proof {
            assert(leaves.map().dom() =~= li.to_set());
            assert(prefetched_nodes.map().dom() =~= ni.to_set());
        }
        (leaves, prefetched_nodes)
    }
}

} // verus!
