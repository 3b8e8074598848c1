//! The updated skeleton tree: the shape of the part of a tree that an update
//! touches, after the update, with the hashes of the untouched nodes next to it.
use crate::assoc::AssocMap;
use crate::bits::{bit_len, is_ancestor, lemma_ancestor_unique};
use crate::errors::UpdatedSkeletonTreeError;
use crate::hash::HashOutput;
use crate::leaf::SkeletonLeaf;
use crate::node_data::{EdgeData, PathToBottom};
use crate::original_skeleton::{index_values, lemma_child_ancestor, sorted, OriginalSkeletonNode, OriginalSkeletonTreeImpl};
use crate::types::{index_bound, NodeIndex, TreeHeight};
use vstd::arithmetic::power2::*;
use vstd::prelude::*;

verus! {

/// A node of the updated skeleton tree.
#[derive(Clone, Copy, Debug, PartialEq, Eq, Structural)]
pub enum UpdatedSkeletonNode {
    Binary,
    Edge(PathToBottom),
    /// An unmodified node next to the modified part, known by its hash.
    Sibling(HashOutput),
    /// The unmodified bottom of an edge, known by its hash.
    UnmodifiedBottom(HashOutput),
    /// A modified leaf that is not deleted.
    Leaf,
}

/// Modified leaves of a skeleton, by index.
pub type LeafModifications = AssocMap<NodeIndex, SkeletonLeaf>;

/// A skeleton node while the updated skeleton is being computed bottom-up.
#[derive(Clone, Copy, Debug, PartialEq, Eq, Structural)]
pub enum TempSkeletonNode {
    /// No leaf below is left: the subtree is deleted.
    Empty,
    /// A modified leaf.
    Leaf,
    /// A node of the original skeleton.
    Original(OriginalSkeletonNode),
    /// An edge whose bottom is unmodified, with the bottom's hash.
    EdgeSibling(EdgeData),
}

impl TempSkeletonNode {
    pub fn is_empty(&self) -> (r: bool)
        ensures
            r == (*self == TempSkeletonNode::Empty),
    {
        match self {
            TempSkeletonNode::Empty => true,
            _ => false,
        }
    }
}

/// The updated skeleton tree of an update.
pub struct UpdatedSkeletonTreeImpl {
    pub tree_height: TreeHeight,
    pub skeleton_tree: AssocMap<NodeIndex, UpdatedSkeletonNode>,
}

/// The node at `index` stands for a node of a tree: a binary node's children
/// and an edge's bottom are in range, and an edge is not empty and has no more
/// turns than its length.
pub open spec fn node_in_range(index: nat, node: UpdatedSkeletonNode) -> bool {
    match node {
        UpdatedSkeletonNode::Binary => 2 * index + 1 < index_bound(),
        UpdatedSkeletonNode::Edge(p) => p.is_valid() && p.length.0 >= 1 && p.bottom_of(index) < index_bound(),
        _ => true,
    }
}

/// Whether a node is only known by its hash.
pub open spec fn is_sibling(node: UpdatedSkeletonNode) -> bool {
    node is Sibling || node is UnmodifiedBottom
}

impl UpdatedSkeletonTreeImpl {
    /// The nodes have distinct indices and each stands for a node of a tree.
    pub open spec fn wf(&self) -> bool {
        &&& self.skeleton_tree.wf()
        &&& forall|k: nat| #[trigger] self.skeleton_tree.map().dom().contains(k) ==> node_in_range(
            k,
            self.skeleton_tree.map()[k],
        )
    }

    /// The nodes by index.
    pub open spec fn nodes(&self) -> Map<nat, UpdatedSkeletonNode> {
        self.skeleton_tree.map()
    }
}

/// Whether a modified leaf is deleted.
pub open spec fn leaf_is_zero(leaf_modifications: Map<nat, SkeletonLeaf>, index: nat) -> bool {
    leaf_modifications[index] == SkeletonLeaf::Zero
}

impl UpdatedSkeletonTreeImpl {
    /// The node at the given index.
    pub fn get_node(&self, index: NodeIndex) -> (r: Result<&UpdatedSkeletonNode, UpdatedSkeletonTreeError>)
        requires
            self.skeleton_tree.wf(),
        ensures
            r is Ok <==> self.skeleton_tree.map().dom().contains(index.value()),
            r matches Ok(n) ==> *n == self.skeleton_tree.map()[index.value()],
            r matches Err(e) ==> e == UpdatedSkeletonTreeError::MissingNode(index),
    {
        match self.skeleton_tree.get(&index) {
            Some(node) => Ok(node),
            None => Err(UpdatedSkeletonTreeError::MissingNode(index)),
        }
    }

    /// All the (index, node) pairs of the tree.
    pub fn get_nodes(&self) -> (r: Vec<(NodeIndex, UpdatedSkeletonNode)>)
        ensures
            r@ == self.skeleton_tree.entries@,
    {
        let mut r: Vec<(NodeIndex, UpdatedSkeletonNode)> = Vec::new();
        let mut i: usize = 0;
        while i < self.skeleton_tree.entries.len()
            invariant
                i <= self.skeleton_tree.entries@.len(),
                r@ == self.skeleton_tree.entries@.subrange(0, i as int),
            decreases self.skeleton_tree.entries@.len() - i,
        {
            let (index, node) = self.skeleton_tree.entries[i];
            r.push((index, node));
            i += 1;
            proof {
                assert(r@ =~= self.skeleton_tree.entries@.subrange(0, i as int));
            }
        }
        proof {
            assert(self.skeleton_tree.entries@.subrange(0, i as int) =~= self.skeleton_tree.entries@);
        }
        r
    }

    /// Builds the node that stands, for the subtree of the edge's source, for
    /// an edge along `path` down to the updated `bottom` (at `bottom_index`).
    /// An empty or deleted bottom leaves the subtree empty; a binary bottom is
    /// final and recorded; an edge bottom is merged into one longer edge.
    pub fn node_from_edge_data(
        &mut self,
        path: &PathToBottom,
        bottom_index: &NodeIndex,
        bottom: &TempSkeletonNode,
        leaf_modifications: &LeafModifications,
    ) -> (r: TempSkeletonNode)
        requires
            old(self).skeleton_tree.wf(),
            leaf_modifications.wf(),
            path.is_valid(),
            *bottom == TempSkeletonNode::Leaf ==> leaf_modifications.map().dom().contains(bottom_index.value()),
            bottom matches TempSkeletonNode::Original(OriginalSkeletonNode::Edge(p)) ==> p.is_valid()
                && path.length.0 + p.length.0 <= 251,
            bottom matches TempSkeletonNode::EdgeSibling(e) ==> e.path_to_bottom.is_valid()
                && path.length.0 + e.path_to_bottom.length.0 <= 251,
        ensures
            final(self).skeleton_tree.wf(),
            final(self).tree_height == old(self).tree_height,
            edge_node_step(
                *path,
                bottom_index.value(),
                *bottom,
                leaf_modifications.map(),
                old(self).skeleton_tree.map(),
                final(self).skeleton_tree.map(),
                r,
            ),
    {
        match bottom {
            TempSkeletonNode::Empty => TempSkeletonNode::Empty,
            TempSkeletonNode::Leaf => {
                let leaf = match leaf_modifications.get(bottom_index) {
                    Some(l) => l,
                    None => {
                        proof {
                            assert(false);
                        }
                        return TempSkeletonNode::Empty;
                    },
                };
                if leaf.is_zero() {
                    return TempSkeletonNode::Empty;
                }
                TempSkeletonNode::Original(OriginalSkeletonNode::Edge(*path))
            },
            TempSkeletonNode::Original(OriginalSkeletonNode::Edge(path_to_bottom)) => {
                TempSkeletonNode::Original(OriginalSkeletonNode::Edge(path.concat_paths(*path_to_bottom)))
            },
            TempSkeletonNode::EdgeSibling(edge_data) => TempSkeletonNode::EdgeSibling(
                EdgeData {
                    bottom_hash: edge_data.bottom_hash,
                    path_to_bottom: path.concat_paths(edge_data.path_to_bottom),
                },
            ),
            TempSkeletonNode::Original(OriginalSkeletonNode::Binary) => {
                // A binary descendant cannot change form: finalize it.
                self.skeleton_tree.insert(*bottom_index, UpdatedSkeletonNode::Binary);
                TempSkeletonNode::Original(OriginalSkeletonNode::Edge(*path))
            },
            TempSkeletonNode::Original(OriginalSkeletonNode::LeafOrBinarySibling(_)) => TempSkeletonNode::Original(
                OriginalSkeletonNode::Edge(*path),
            ),
            TempSkeletonNode::Original(OriginalSkeletonNode::UnmodifiedBottom(_)) => TempSkeletonNode::Original(
                OriginalSkeletonNode::Edge(*path),
            ),
        }
    }
}

/// What `node_from_edge_data` does: the nodes it records and the node it
/// returns.
pub open spec fn edge_node_step(
    path: PathToBottom,
    bottom_index: nat,
    bottom: TempSkeletonNode,
    leaf_modifications: Map<nat, SkeletonLeaf>,
    nodes: Map<nat, UpdatedSkeletonNode>,
    new_nodes: Map<nat, UpdatedSkeletonNode>,
    r: TempSkeletonNode,
) -> bool {
    &&& new_nodes == edge_node_updates(nodes, bottom_index, bottom)
    &&& edge_node_result(path, bottom_index, bottom, leaf_modifications, r)
}

/// What `node_from_edge_data` records: a binary bottom is final.
pub open spec fn edge_node_updates(
    nodes: Map<nat, UpdatedSkeletonNode>,
    bottom_index: nat,
    bottom: TempSkeletonNode,
) -> Map<nat, UpdatedSkeletonNode> {
    if bottom == TempSkeletonNode::Original(OriginalSkeletonNode::Binary) {
        nodes.insert(bottom_index, UpdatedSkeletonNode::Binary)
    } else {
        nodes
    }
}

/// What `node_from_edge_data` returns for an edge along `path` to `bottom`:
/// nothing below leaves nothing; a deleted leaf leaves nothing; an edge below
/// merges into one longer edge (keeping an unmodified bottom's hash); anything
/// else is reached by the edge itself.
pub open spec fn edge_node_result(
    path: PathToBottom,
    bottom_index: nat,
    bottom: TempSkeletonNode,
    leaf_modifications: Map<nat, SkeletonLeaf>,
    r: TempSkeletonNode,
) -> bool {
    match bottom {
        TempSkeletonNode::Empty => r == TempSkeletonNode::Empty,
        TempSkeletonNode::Leaf => if leaf_is_zero(leaf_modifications, bottom_index) {
            r == TempSkeletonNode::Empty
        } else {
            r == TempSkeletonNode::Original(OriginalSkeletonNode::Edge(path))
        },
        TempSkeletonNode::Original(OriginalSkeletonNode::Edge(p)) => r matches TempSkeletonNode::Original(
            OriginalSkeletonNode::Edge(q),
        ) && q.length.0 == path.length.0 + p.length.0 && q.path.0.value() == path.path.0.value() * pow2(
            p.length.0 as nat,
        ) + p.path.0.value(),
        TempSkeletonNode::EdgeSibling(e) => r matches TempSkeletonNode::EdgeSibling(f) && f.bottom_hash
            == e.bottom_hash && f.path_to_bottom.length.0 == path.length.0 + e.path_to_bottom.length.0
            && f.path_to_bottom.path.0.value() == path.path.0.value() * pow2(e.path_to_bottom.length.0 as nat)
            + e.path_to_bottom.path.0.value(),
        _ => r == TempSkeletonNode::Original(OriginalSkeletonNode::Edge(path)),
    }
}

/// What finalizing a child of a binary node records: the child itself (a
/// modified leaf needs nothing), and for an edge with an unmodified bottom the
/// bottom's hash too.
pub open spec fn finalized_child(
    nodes: Map<nat, UpdatedSkeletonNode>,
    index: nat,
    node: TempSkeletonNode,
) -> Map<nat, UpdatedSkeletonNode> {
    match node {
        TempSkeletonNode::Original(OriginalSkeletonNode::Binary) => nodes.insert(index, UpdatedSkeletonNode::Binary),
        TempSkeletonNode::Original(OriginalSkeletonNode::Edge(p)) => nodes.insert(index, UpdatedSkeletonNode::Edge(p)),
        TempSkeletonNode::Original(OriginalSkeletonNode::LeafOrBinarySibling(h)) => nodes.insert(
            index,
            UpdatedSkeletonNode::Sibling(h),
        ),
        TempSkeletonNode::Original(OriginalSkeletonNode::UnmodifiedBottom(h)) => nodes.insert(
            index,
            UpdatedSkeletonNode::UnmodifiedBottom(h),
        ),
        TempSkeletonNode::EdgeSibling(e) => nodes.insert(
            e.path_to_bottom.bottom_of(index),
            UpdatedSkeletonNode::Sibling(e.bottom_hash),
        ).insert(index, UpdatedSkeletonNode::Edge(e.path_to_bottom)),
        _ => nodes,
    }
}

/// A child of a binary node can be finalized at `index`.
pub open spec fn finalizable(index: nat, node: TempSkeletonNode) -> bool {
    node matches TempSkeletonNode::EdgeSibling(e) ==> e.path_to_bottom.is_valid() && e.path_to_bottom.bottom_of(index)
        < index_bound()
}

/// What `node_from_binary_data` does for the node at `root` with children
/// `left` and `right`: with both non-empty, a binary node whose children are
/// final; otherwise what `node_from_edge_data` does for the edge to the
/// non-empty child (the left one where the right is empty).
pub open spec fn binary_node_step(
    root: nat,
    left: TempSkeletonNode,
    right: TempSkeletonNode,
    leaf_modifications: Map<nat, SkeletonLeaf>,
    nodes: Map<nat, UpdatedSkeletonNode>,
    new_nodes: Map<nat, UpdatedSkeletonNode>,
    r: TempSkeletonNode,
) -> bool {
    if left != TempSkeletonNode::Empty && right != TempSkeletonNode::Empty {
        &&& r == TempSkeletonNode::Original(OriginalSkeletonNode::Binary)
        &&& new_nodes == finalized_child(finalized_child(nodes, 2 * root, left), 2 * root + 1, right)
    } else if right == TempSkeletonNode::Empty {
        edge_node_step(PathToBottom::to_left_child(), 2 * root, left, leaf_modifications, nodes, new_nodes, r)
    } else {
        edge_node_step(PathToBottom::to_right_child(), 2 * root + 1, right, leaf_modifications, nodes, new_nodes, r)
    }
}

impl UpdatedSkeletonTreeImpl {
    /// Records the final form of a child of a binary node.
    fn finalize_child(&mut self, index: NodeIndex, node: &TempSkeletonNode)
        requires
            old(self).skeleton_tree.wf(),
            finalizable(index.value(), *node),
        ensures
            final(self).skeleton_tree.wf(),
            final(self).tree_height == old(self).tree_height,
            final(self).skeleton_tree.map() == finalized_child(old(self).skeleton_tree.map(), index.value(), *node),
    {
        match node {
            TempSkeletonNode::Empty => {},
            TempSkeletonNode::Leaf => {},
            TempSkeletonNode::Original(OriginalSkeletonNode::Binary) => {
                self.skeleton_tree.insert(index, UpdatedSkeletonNode::Binary);
            },
            TempSkeletonNode::Original(OriginalSkeletonNode::Edge(path_to_bottom)) => {
                self.skeleton_tree.insert(index, UpdatedSkeletonNode::Edge(*path_to_bottom));
            },
            TempSkeletonNode::Original(OriginalSkeletonNode::LeafOrBinarySibling(hash)) => {
                self.skeleton_tree.insert(index, UpdatedSkeletonNode::Sibling(*hash));
            },
            TempSkeletonNode::Original(OriginalSkeletonNode::UnmodifiedBottom(hash)) => {
                self.skeleton_tree.insert(index, UpdatedSkeletonNode::UnmodifiedBottom(*hash));
            },
            TempSkeletonNode::EdgeSibling(edge_data) => {
                let bottom_index = edge_data.path_to_bottom.bottom_index(index);
                self.skeleton_tree.insert(bottom_index, UpdatedSkeletonNode::Sibling(edge_data.bottom_hash));
                self.skeleton_tree.insert(index, UpdatedSkeletonNode::Edge(edge_data.path_to_bottom));
            },
        }
    }

    /// Builds the node that stands for the subtree of `root_index` from its
    /// two updated children. With both children non-empty it is a binary node,
    /// and the children are final; otherwise it is an edge to the non-empty
    /// child (or empty), as `node_from_edge_data` builds it.
    pub fn node_from_binary_data(
        &mut self,
        root_index: &NodeIndex,
        left: &TempSkeletonNode,
        right: &TempSkeletonNode,
        leaf_modifications: &LeafModifications,
    ) -> (r: TempSkeletonNode)
        requires
            old(self).skeleton_tree.wf(),
            leaf_modifications.wf(),
            2 * root_index.value() + 1 < index_bound(),
            finalizable(2 * root_index.value(), *left),
            finalizable(2 * root_index.value() + 1, *right),
            *left == TempSkeletonNode::Leaf ==> leaf_modifications.map().dom().contains(2 * root_index.value()),
            *right == TempSkeletonNode::Leaf ==> leaf_modifications.map().dom().contains(2 * root_index.value() + 1),
            left matches TempSkeletonNode::Original(OriginalSkeletonNode::Edge(p)) ==> p.is_valid() && p.length.0 <= 250,
            right matches TempSkeletonNode::Original(OriginalSkeletonNode::Edge(p)) ==> p.is_valid() && p.length.0 <= 250,
            left matches TempSkeletonNode::EdgeSibling(e) ==> e.path_to_bottom.length.0 <= 250,
            right matches TempSkeletonNode::EdgeSibling(e) ==> e.path_to_bottom.length.0 <= 250,
        ensures
            final(self).skeleton_tree.wf(),
            final(self).tree_height == old(self).tree_height,
            binary_node_step(
                root_index.value(),
                *left,
                *right,
                leaf_modifications.map(),
                old(self).skeleton_tree.map(),
                final(self).skeleton_tree.map(),
                r,
            ),
    {
        let children = root_index.get_children_indices();
        let left_index = children[0];
        let right_index = children[1];
        if !left.is_empty() && !right.is_empty() {
            // Both children are non-empty: a binary node, whose children cannot
            // change form any more.
            self.finalize_child(left_index, left);
            self.finalize_child(right_index, right);
            return TempSkeletonNode::Original(OriginalSkeletonNode::Binary);
        }
        // At least one of the children is empty.
        if right.is_empty() {
            self.node_from_edge_data(&PathToBottom::left_child(), &left_index, left, leaf_modifications)
        } else {
            self.node_from_edge_data(&PathToBottom::right_child(), &right_index, right, leaf_modifications)
        }
    }
}

/// A binary node with an empty child is not kept: what `node_from_binary_data`
/// does is exactly what `node_from_edge_data` does for the edge to the other
/// child (the left child where the right one is empty); so its result is never
/// a binary node, and with both children empty it is empty and nothing is
/// recorded.
pub proof fn lemma_binary_node_with_an_empty_child(
    root: nat,
    left: TempSkeletonNode,
    right: TempSkeletonNode,
    leaf_modifications: Map<nat, SkeletonLeaf>,
    nodes: Map<nat, UpdatedSkeletonNode>,
    new_nodes: Map<nat, UpdatedSkeletonNode>,
    r: TempSkeletonNode,
)
    requires
        left == TempSkeletonNode::Empty || right == TempSkeletonNode::Empty,
    ensures
        binary_node_step(root, left, right, leaf_modifications, nodes, new_nodes, r) == (if right
            == TempSkeletonNode::Empty {
            edge_node_step(PathToBottom::to_left_child(), 2 * root, left, leaf_modifications, nodes, new_nodes, r)
        } else {
            edge_node_step(PathToBottom::to_right_child(), 2 * root + 1, right, leaf_modifications, nodes, new_nodes, r)
        }),
        binary_node_step(root, left, right, leaf_modifications, nodes, new_nodes, r) ==> r
            != TempSkeletonNode::Original(OriginalSkeletonNode::Binary),
        binary_node_step(root, left, right, leaf_modifications, nodes, new_nodes, r) && left == TempSkeletonNode::Empty
            && right == TempSkeletonNode::Empty ==> r == TempSkeletonNode::Empty && new_nodes == nodes,
{
}

/// An edge to an updated bottom is empty only where nothing is left below it:
/// the bottom is empty, or a modified leaf that is deleted. Any bottom that
/// still holds a node (a kept leaf, a binary node, an unmodified sibling or
/// unmodified bottom, an edge) is kept, and a node that is not an edge is
/// reached by an edge along the given path.
pub proof fn lemma_edge_keeps_what_is_below(
    path: PathToBottom,
    bottom_index: nat,
    bottom: TempSkeletonNode,
    leaf_modifications: Map<nat, SkeletonLeaf>,
    r: TempSkeletonNode,
)
    requires
        edge_node_result(path, bottom_index, bottom, leaf_modifications, r),
    ensures
        r == TempSkeletonNode::Empty <==> (bottom == TempSkeletonNode::Empty || (bottom == TempSkeletonNode::Leaf
            && leaf_modifications[bottom_index] == SkeletonLeaf::Zero)),
        bottom matches TempSkeletonNode::Original(OriginalSkeletonNode::LeafOrBinarySibling(_)) ==> r
            == TempSkeletonNode::Original(OriginalSkeletonNode::Edge(path)),
        bottom matches TempSkeletonNode::Original(OriginalSkeletonNode::UnmodifiedBottom(_)) ==> r
            == TempSkeletonNode::Original(OriginalSkeletonNode::Edge(path)),
        bottom == TempSkeletonNode::Original(OriginalSkeletonNode::Binary) ==> r == TempSkeletonNode::Original(
            OriginalSkeletonNode::Edge(path),
        ),
        bottom == TempSkeletonNode::Leaf && leaf_modifications[bottom_index] != SkeletonLeaf::Zero ==> r
            == TempSkeletonNode::Original(OriginalSkeletonNode::Edge(path)),
{
}

/// A binary node with two non-empty children records both children in the
/// skeleton: each child other than a modified leaf (which is recorded when
/// the skeleton is created) is at its index afterwards, a binary child as a
/// binary node, an edge child as that edge, and an unmodified child with its
/// hash; and the node built is binary.
pub proof fn lemma_binary_node_records_its_children(
    root: nat,
    left: TempSkeletonNode,
    right: TempSkeletonNode,
    leaf_modifications: Map<nat, SkeletonLeaf>,
    nodes: Map<nat, UpdatedSkeletonNode>,
    new_nodes: Map<nat, UpdatedSkeletonNode>,
    r: TempSkeletonNode,
)
    requires
        binary_node_step(root, left, right, leaf_modifications, nodes, new_nodes, r),
        left != TempSkeletonNode::Empty,
        right != TempSkeletonNode::Empty,
    ensures
        r == TempSkeletonNode::Original(OriginalSkeletonNode::Binary),
        left != TempSkeletonNode::Leaf ==> new_nodes.dom().contains(2 * root),
        right != TempSkeletonNode::Leaf ==> new_nodes.dom().contains(2 * root + 1),
        left == TempSkeletonNode::Original(OriginalSkeletonNode::Binary) ==> new_nodes[2 * root]
            == UpdatedSkeletonNode::Binary,
        right == TempSkeletonNode::Original(OriginalSkeletonNode::Binary) ==> new_nodes[2 * root + 1]
            == UpdatedSkeletonNode::Binary,
        left matches TempSkeletonNode::Original(OriginalSkeletonNode::Edge(p)) ==> new_nodes[2 * root]
            == UpdatedSkeletonNode::Edge(p),
        right matches TempSkeletonNode::Original(OriginalSkeletonNode::Edge(p)) ==> new_nodes[2 * root + 1]
            == UpdatedSkeletonNode::Edge(p),
        left matches TempSkeletonNode::Original(OriginalSkeletonNode::LeafOrBinarySibling(h)) ==> new_nodes[2
            * root] == UpdatedSkeletonNode::Sibling(h),
        right matches TempSkeletonNode::Original(OriginalSkeletonNode::LeafOrBinarySibling(h)) ==> new_nodes[2
            * root + 1] == UpdatedSkeletonNode::Sibling(h),
{
    let mid = finalized_child(nodes, 2 * root, left);
    if let TempSkeletonNode::EdgeSibling(e) = right {
        let k = e.path_to_bottom.length.0 as nat;
        lemma_pow2_pos(k);
        assert(e.path_to_bottom.bottom_of(2 * root + 1) >= 2 * root + 1) by (nonlinear_arith)
            requires
                e.path_to_bottom.bottom_of(2 * root + 1) == (2 * root + 1) * pow2(k) + e.path_to_bottom.path.0.value(),
                pow2(k) >= 1,
        ;
    }
    assert(new_nodes == finalized_child(mid, 2 * root + 1, right));
}

/// `c` is the lowest common ancestor of `a` and `b`.
pub open spec fn is_lca(c: nat, a: nat, b: nat) -> bool {
    &&& is_ancestor(c, a)
    &&& is_ancestor(c, b)
    &&& forall|d: nat| is_ancestor(d, a) && is_ancestor(d, b) ==> #[trigger] is_ancestor(d, c)
}

/// For sorted leaves of one level, the lowest common ancestor of the first and
/// the last is that of all of them: an ancestor of every leaf, and below
/// every common ancestor of all of them.
pub proof fn lemma_lca_of_sorted_leaves(leaves: Seq<nat>, c: nat)
    requires
        leaves.len() > 0,
        sorted(leaves),
        forall|i: int| 0 <= i < leaves.len() ==> bit_len(#[trigger] leaves[i]) == bit_len(leaves[0]),
        is_lca(c, leaves[0], leaves.last()),
    ensures
        forall|i: int| 0 <= i < leaves.len() ==> is_ancestor(c, #[trigger] leaves[i]),
        forall|d: nat| (forall|i: int| 0 <= i < leaves.len() ==> is_ancestor(d, #[trigger] leaves[i])) ==> is_ancestor(
            d,
            c,
        ),
{
    let first = leaves[0];
    let last = leaves.last();
    let k = (bit_len(first) - bit_len(c)) as nat;
    vstd::arithmetic::power2::lemma_pow2_pos(k);
    assert forall|i: int| 0 <= i < leaves.len() implies is_ancestor(c, #[trigger] leaves[i]) by {
        let x = leaves[i];
        assert(first <= x) by {
            if i > 0 {
                assert(leaves[0] < leaves[i]);
            }
        }
        assert(x <= last) by {
            if i < leaves.len() - 1 {
                assert(leaves[i] < leaves[leaves.len() - 1]);
            }
        }
        vstd::arithmetic::div_mod::lemma_div_is_ordered(first as int, x as int, pow2(k) as int);
        vstd::arithmetic::div_mod::lemma_div_is_ordered(x as int, last as int, pow2(k) as int);
        assert(bit_len(x) == bit_len(first));
        assert(bit_len(last) == bit_len(first));
        crate::bits::lemma_bit_len_range(x);
    }
    assert forall|d: nat| (forall|i: int| 0 <= i < leaves.len() ==> is_ancestor(d, #[trigger] leaves[i])) implies is_ancestor(
        d,
        c,
    ) by {
        assert(is_ancestor(d, leaves[0]));
        assert(is_ancestor(d, leaves[leaves.len() - 1]));
    }
}

impl OriginalSkeletonTreeImpl {
    /// The path from `root_index` down to the lowest common ancestor of the
    /// leaves (of the first and the last, which for sorted leaves of one
    /// level is that of all of them). The leaves must be below the root and
    /// there must be at least one.
    pub fn get_path_to_lca(&self, root_index: &NodeIndex, leaf_indices: &[NodeIndex]) -> (r: PathToBottom)
        requires
            leaf_indices@.len() > 0,
            forall|i: int| 0 <= i < leaf_indices@.len() ==> is_ancestor(root_index.value(), #[trigger] leaf_indices@[i].value()),
        ensures
            r.is_valid(),
            is_lca(r.bottom_of(root_index.value()), leaf_indices@[0].value(), leaf_indices@.last().value()),
            r.length.0 == bit_len(r.bottom_of(root_index.value())) - bit_len(root_index.value()),
    {
        let n = leaf_indices.len();
        let first = leaf_indices[0];
        let last = leaf_indices[n - 1];
        proof {
            assert(is_ancestor(root_index.value(), first.value()));
            assert(is_ancestor(root_index.value(), last.value()));
        }
        let lca = if n == 1 {
            proof {
                crate::bits::lemma_self_ancestor(first.value());
                assert forall|d: nat| is_ancestor(d, first.value()) && is_ancestor(d, last.value()) implies #[trigger] is_ancestor(
                    d,
                    first.value(),
                ) by {}
            }
            first
        } else {
            first.get_lca(&last)
        };
        proof {
            assert(is_ancestor(root_index.value(), lca.value()));
        }
        root_index.get_path_to_descendant(lca)
    }

    /// Whether the root of a subtree has modified leaves below both of its
    /// children. The leaves must be sorted, on the leaf level and below the
    /// root, which must be above the leaf level.
    pub fn has_leaves_on_both_sides(&self, root_index: &NodeIndex, leaf_indices: &[NodeIndex]) -> (r: bool)
        requires
            self.tree_height.0 <= 251,
            sorted(index_values(leaf_indices@)),
            root_index.value() >= 1,
            bit_len(root_index.value()) <= self.tree_height.0,
            forall|i: int| 0 <= i < leaf_indices@.len() ==> is_ancestor(root_index.value(), #[trigger] leaf_indices@[i].value())
                && bit_len(leaf_indices@[i].value()) == self.tree_height.0 + 1,
        ensures
            r == ((exists|i: int| 0 <= i < leaf_indices@.len() && is_ancestor(2 * root_index.value(), #[trigger] leaf_indices@[i].value()))
                && (exists|i: int| 0 <= i < leaf_indices@.len() && is_ancestor(2 * root_index.value() + 1, #[trigger] leaf_indices@[i].value()))),
    {
        if leaf_indices.len() == 0 {
            return false;
        }
        let sides = crate::original_skeleton::split_leaves(&self.tree_height, root_index, leaf_indices);
        let ghost root = root_index.value();
        proof {
            lemma_child_ancestor(root);
            let l = sides[0]@;
            let rt = sides[1]@;
            assert forall|i: int| 0 <= i < l.len() implies l[i] == leaf_indices@[i] by {
                assert((l + rt)[i] == l[i]);
            }
            assert forall|i: int| 0 <= i < rt.len() implies rt[i] == leaf_indices@[l.len() + i] by {
                assert((l + rt)[l.len() + i] == rt[i]);
            }
            // No leaf is below both children.
            assert forall|i: int| 0 <= i < leaf_indices@.len() && is_ancestor(2 * root, #[trigger] leaf_indices@[i].value())
                implies !is_ancestor(2 * root + 1, leaf_indices@[i].value()) by {
                if is_ancestor(2 * root + 1, leaf_indices@[i].value()) {
                    lemma_ancestor_unique(2 * root, 2 * root + 1, leaf_indices@[i].value());
                }
            }
            if l.len() > 0 {
                assert(is_ancestor(2 * root, leaf_indices@[0].value()));
            }
            if rt.len() > 0 {
                assert(is_ancestor(2 * root + 1, leaf_indices@[l.len() as int].value()));
            }
            if l.len() == 0 {
                assert forall|i: int| 0 <= i < leaf_indices@.len() implies !is_ancestor(2 * root, #[trigger] leaf_indices@[i].value()) by {
                    assert(leaf_indices@[i] == rt[i]);
                }
            }
            if rt.len() == 0 {
                assert forall|i: int| 0 <= i < leaf_indices@.len() implies !is_ancestor(2 * root + 1, #[trigger] leaf_indices@[i].value()) by {
                    assert(leaf_indices@[i] == l[i]);
                }
            }
        }
        sides[0].len() > 0 && sides[1].len() > 0
    }
}

} // verus!
