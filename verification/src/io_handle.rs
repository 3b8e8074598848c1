//! Nodes of a tree file, read layer by layer: each with its index, a numeric
//! type tag (1 binary, 2 edge, 3 leaf) and the bytes of its fields.
use crate::felt::{be_value, felt_prime, StarkFelt};
use crate::stark_felt::{felt_from_be_slice, felt_from_u128};
use vstd::prelude::*;

verus! {

/// A node of a tree file, with its field elements.
#[derive(Clone, Copy, Debug, PartialEq, Eq)]
pub enum TreeNode {
    /// The storage data.
    Leaf { value: StarkFelt },
    /// The hashes of the two children.
    Binary { left: StarkFelt, right: StarkFelt },
    /// The path to the non-empty node it stands for, its length, and its value.
    Edge { length: u8, path: StarkFelt, value: StarkFelt },
}

/// A node with its index.
pub type IndexedNode = (StarkFelt, TreeNode);

/// A node as read.
pub struct DeserializedNode {
    pub node_type: u8,
    pub length: u8,
    pub path: Vec<u8>,
    pub value: Vec<u8>,
}

/// A node as read, with its index.
pub struct DeserializedIndexedNode {
    pub index: u128,
    pub node: DeserializedNode,
}

/// At most 32 bytes standing for a number below the prime.
pub open spec fn felt_bytes(bytes: Seq<u8>) -> bool {
    bytes.len() <= 32 && be_value(bytes) < felt_prime()
}

impl DeserializedIndexedNode {
    /// The type tag is known, and the bytes of an edge's path and value, or a
    /// leaf's value, are field elements.
    pub open spec fn readable(&self) -> bool {
        &&& 1 <= self.node.node_type <= 3
        &&& self.node.node_type == 2 ==> felt_bytes(self.node.path@) && felt_bytes(self.node.value@)
        &&& self.node.node_type == 3 ==> felt_bytes(self.node.value@)
    }

    /// The node that this one as read stands for, with its index.
    pub open spec fn stands_for(&self, r: IndexedNode) -> bool {
        &&& r.0.value() == self.index
        &&& if self.node.node_type == 1 {
            r.1 matches TreeNode::Binary { left, right } && left.value() == 0 && right.value() == 0
        } else if self.node.node_type == 2 {
            r.1 matches TreeNode::Edge { length, path, value } && length == self.node.length && path.value() == be_value(
                self.node.path@,
            ) && value.value() == be_value(self.node.value@)
        } else {
            r.1 matches TreeNode::Leaf { value } && value.value() == be_value(self.node.value@)
        }
    }

    /// Whether the node can be read.
    pub fn is_readable(&self) -> (r: bool)
        ensures
            r == self.readable(),
    {
        let t = self.node.node_type;
        if t < 1 || t > 3 {
            return false;
        }
        if t == 2 && felt_from_be_slice(self.node.path.as_slice()).is_err() {
            return false;
        }
        if t >= 2 && felt_from_be_slice(self.node.value.as_slice()).is_err() {
            return false;
        }
        true
    }

    /// The node with its index; a binary node's children are left zero.
    pub fn to_indexed_node(&self) -> (r: IndexedNode)
        requires
            self.readable(),
        ensures
            self.stands_for(r),
    {
        let binary_node_type: u8 = 1;
        let edge_node_type: u8 = 2;
        let index = felt_from_u128(self.index);
        if self.node.node_type == binary_node_type {
            return (index, TreeNode::Binary { left: felt_from_u128(0), right: felt_from_u128(0) });
        }
        if self.node.node_type == edge_node_type {
            let path = felt_from_be_slice(self.node.path.as_slice()).unwrap();
            let value = felt_from_be_slice(self.node.value.as_slice()).unwrap();
            (index, TreeNode::Edge { length: self.node.length, path, value })
        } else {
            let value = felt_from_be_slice(self.node.value.as_slice()).unwrap();
            (index, TreeNode::Leaf { value })
        }
    }
}

/// The nodes of each layer of a tree file, in order.
pub fn nodes_by_dependency_layer(layers: &Vec<Vec<DeserializedIndexedNode>>) -> (r: Vec<Vec<IndexedNode>>)
    requires
        forall|i: int, j: int| 0 <= i < layers@.len() && 0 <= j < layers@[i]@.len() ==> (#[trigger] layers@[i]@[j]).readable(),
    ensures
        r@.len() == layers@.len(),
        forall|i: int| 0 <= i < layers@.len() ==> (#[trigger] r@[i])@.len() == layers@[i]@.len(),
        forall|i: int, j: int| 0 <= i < layers@.len() && 0 <= j < layers@[i]@.len() ==> (#[trigger] layers@[i]@[j]).stands_for(
            r@[i]@[j],
        ),
{
    let mut r: Vec<Vec<IndexedNode>> = Vec::new();
    let mut i: usize = 0;
    while i < layers.len()
        invariant
            i <= layers@.len(),
            r@.len() == i,
            forall|i: int, j: int| 0 <= i < layers@.len() && 0 <= j < layers@[i]@.len() ==> (#[trigger] layers@[i]@[j]).readable(),
            forall|t: int| 0 <= t < i ==> (#[trigger] r@[t])@.len() == layers@[t]@.len(),
            forall|t: int, j: int| 0 <= t < i && 0 <= j < layers@[t]@.len() ==> (#[trigger] layers@[t]@[j]).stands_for(r@[t]@[j]),
        decreases layers@.len() - i,
    {
        let layer = &layers[i];
        let mut nodes: Vec<IndexedNode> = Vec::new();
        let mut j: usize = 0;
        while j < layer.len()
            invariant
                j <= layer@.len(),
                nodes@.len() == j,
                forall|t: int| 0 <= t < layer@.len() ==> (#[trigger] layer@[t]).readable(),
                forall|t: int| 0 <= t < j ==> (#[trigger] layer@[t]).stands_for(nodes@[t]),
            decreases layer@.len() - j,
        {
            nodes.push(layer[j].to_indexed_node());
            j += 1;
        }
        r.push(nodes);
        i += 1;
    }
    r
}

} // verus!
