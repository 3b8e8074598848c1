//! The original skeleton tree: the part of a stored tree that an update of
//! given leaves touches, read from storage.
//!
//! Starting from the root, every node on the way to a modified leaf is read; a
//! node with no modified leaf below it is kept as a sibling (only its hash is
//! needed), and an edge that leads away from all modified leaves keeps its
//! bottom hash.
use crate::assoc::{AssocMap, KeyView};
use crate::bits::{
    bit_len, is_ancestor, lemma_ancestor_of_descendant, lemma_ancestor_transitive,
    lemma_ancestors_nested, lemma_bit_len_range, lemma_pow2_le, lemma_self_ancestor,
};
use crate::errors::OriginalSkeletonTreeError;
use crate::felt::{be_bytes, be_value, felt_prime, Felt};
use crate::filled_node::{decoded_inner_node, inner_node_fields, FilledNode};
use crate::hash::HashOutput;
use crate::leaf::LeafDataImpl;
use crate::node_data::{NodeData, PathToBottom};
use crate::storage::{create_db_key, db_key, MapStorage, StoragePrefix, StorageValue};
use crate::types::{index_bound, NodeIndex, TreeHeight};
use vstd::arithmetic::mul::*;
use vstd::arithmetic::power2::*;
use vstd::prelude::*;

verus! {

/// A node of the original skeleton tree.
#[derive(Clone, Copy, Debug, PartialEq, Eq, Structural)]
pub enum OriginalSkeletonNode {
    Binary,
    Edge(PathToBottom),
    /// A leaf or binary node with no modified leaf below it.
    LeafOrBinarySibling(HashOutput),
    /// The bottom of an edge with no modified leaf below it.
    UnmodifiedBottom(HashOutput),
}

/// What a skeleton node stands for.
pub enum SkeletonShape {
    Binary,
    /// An edge with the given path and length.
    Edge(nat, nat),
    Sibling(nat),
    UnmodifiedBottom(nat),
}

impl OriginalSkeletonNode {
    pub open spec fn shape(self) -> SkeletonShape {
        match self {
            OriginalSkeletonNode::Binary => SkeletonShape::Binary,
            OriginalSkeletonNode::Edge(p) => SkeletonShape::Edge(p.path.0.value(), p.length.0 as nat),
            OriginalSkeletonNode::LeafOrBinarySibling(h) => SkeletonShape::Sibling(h.val()),
            OriginalSkeletonNode::UnmodifiedBottom(h) => SkeletonShape::UnmodifiedBottom(h.val()),
        }
    }
}

/// The shapes of the nodes of a skeleton.
pub open spec fn shapes(m: Map<nat, OriginalSkeletonNode>) -> Map<nat, SkeletonShape> {
    m.map_values(|n: OriginalSkeletonNode| n.shape())
}

/// The stored bytes of the inner node with the given hash, if any.
pub open spec fn stored_node(st: Map<Seq<u8>, StorageValue>, hash: nat) -> Option<Seq<u8>> {
    let key = db_key(StoragePrefix::InnerNode, be_bytes(hash, 32));
    if st.dom().contains(key) {
        Some(st[key].0@)
    } else {
        None
    }
}

/// The first position in `[lo, hi)` whose leaf is at least `x` (or `hi`).
pub open spec fn first_at_least(leaves: Seq<nat>, lo: int, hi: int, x: nat) -> int
    decreases hi - lo,
{
    if lo >= hi {
        lo
    } else if leaves[lo] >= x {
        lo
    } else {
        first_at_least(leaves, lo + 1, hi, x)
    }
}

/// The leaves are strictly increasing.
pub open spec fn sorted(leaves: Seq<nat>) -> bool {
    forall|i: int, j: int| 0 <= i < j < leaves.len() ==> leaves[i] < leaves[j]
}

/// The original skeleton of the stored subtree rooted at `root`, of the given
/// height and hash, for the modified leaves in positions `[lo, hi)`; nothing
/// when a node on the way is missing from storage, is not an inner node, or is
/// an edge that is empty, longer than its height or has more turns than its
/// length.
pub open spec fn skeleton(
    st: Map<Seq<u8>, StorageValue>,
    leaves: Seq<nat>,
    root: nat,
    hash: nat,
    height: nat,
    lo: int,
    hi: int,
) -> Option<Map<nat, SkeletonShape>>
    decreases height,
{
    if height == 0 {
        if lo == hi {
            Some(map![root => SkeletonShape::Sibling(hash)])
        } else {
            Some(Map::empty())
        }
    } else {
        match stored_node(st, hash) {
            None => None,
            Some(bytes) => match decoded_inner_node(bytes) {
                None => None,
                Some((is_binary, a, b, len)) => if is_binary {
                    if lo == hi {
                        Some(map![root => SkeletonShape::Sibling(hash)])
                    } else {
                        let mid = first_at_least(
                            leaves,
                            lo,
                            hi,
                            (2 * root + 1) * pow2((height - 1) as nat),
                        );
                        let left = skeleton(st, leaves, 2 * root, a, (height - 1) as nat, lo, mid);
                        let right = skeleton(st, leaves, 2 * root + 1, b, (height - 1) as nat, mid, hi);
                        if left is Some && right is Some {
                            Some(left.unwrap().union_prefer_right(right.unwrap()).insert(root, SkeletonShape::Binary))
                        } else {
                            None
                        }
                    }
                } else if len == 0 || len > height || b >= pow2(len as nat) {
                    None
                } else {
                    let bottom = root * pow2(len as nat) + b;
                    let bh = (height - len) as nat;
                    if lo == hi {
                        Some(
                            map![root => SkeletonShape::Edge(b, len as nat), bottom => SkeletonShape::UnmodifiedBottom(a)],
                        )
                    } else {
                        let blo = first_at_least(leaves, lo, hi, bottom * pow2(bh));
                        let bhi = first_at_least(leaves, lo, hi, (bottom + 1) * pow2(bh));
                        match skeleton(st, leaves, bottom, a, bh, blo, bhi) {
                            Some(m) => Some(m.insert(root, SkeletonShape::Edge(b, len as nat))),
                            None => None,
                        }
                    }
                },
            },
        }
    }
}

/// Why reading an original skeleton fails.
pub enum ReadFailure {
    /// No inner node is stored under this hash.
    MissingNode(nat),
    /// What is stored under this hash is not an inner node.
    NotInnerNode(nat),
    /// The stored edge at this index is empty, longer than the height of its
    /// subtree, or has more turns than its length.
    InvalidEdge(nat),
}

/// A subtree to explore by the numbers: its root, the root's hash, and the
/// positions `[lo, hi)` of the modified leaves below it.
pub type SubTreeView = (nat, nat, int, int);

/// Why reading the root of a subtree fails, if it does (a leaf is not read).
pub open spec fn root_failure(st: Map<Seq<u8>, StorageValue>, tree_height: nat, t: SubTreeView) -> Option<ReadFailure> {
    if subtree_height(t.0, tree_height) == 0 {
        None
    } else {
        match stored_node(st, t.1) {
            None => Some(ReadFailure::MissingNode(t.1)),
            Some(bytes) => if decoded_inner_node(bytes) is None {
                Some(ReadFailure::NotInnerNode(t.1))
            } else {
                None
            },
        }
    }
}

/// Why the stored root of a subtree is refused as an edge, if it is.
pub open spec fn edge_failure(st: Map<Seq<u8>, StorageValue>, tree_height: nat, t: SubTreeView) -> Option<ReadFailure> {
    let h = subtree_height(t.0, tree_height);
    if h == 0 {
        None
    } else {
        match stored_node(st, t.1) {
            Some(bytes) => match decoded_inner_node(bytes) {
                Some((false, a, b, len)) => if len == 0 || len > h || b >= pow2(len as nat) {
                    Some(ReadFailure::InvalidEdge(t.0))
                } else {
                    None
                },
                _ => None,
            },
            None => None,
        }
    }
}

/// Why reading the roots of subtrees fails.
pub open spec fn root_failures(st: Map<Seq<u8>, StorageValue>, tree_height: nat) -> spec_fn(SubTreeView) -> Option<
    ReadFailure,
> {
    |t: SubTreeView| root_failure(st, tree_height, t)
}

/// Why stored roots of subtrees are refused as edges.
pub open spec fn edge_failures(st: Map<Seq<u8>, StorageValue>, tree_height: nat) -> spec_fn(SubTreeView) -> Option<
    ReadFailure,
> {
    |t: SubTreeView| edge_failure(st, tree_height, t)
}

/// A subtree by the numbers.
pub open spec fn subtree_view(s: SubTree) -> SubTreeView {
    (s.root_index.value(), s.root_hash.val(), s.leaves_start as int, s.leaves_end as int)
}

/// Subtrees by the numbers.
pub open spec fn frontier_view(w: Seq<SubTree>) -> Seq<SubTreeView> {
    w.map_values(|s: SubTree| subtree_view(s))
}

/// The first failure among the subtrees, in order.
pub open spec fn first_failure(w: Seq<SubTreeView>, f: spec_fn(SubTreeView) -> Option<ReadFailure>) -> Option<ReadFailure>
    decreases w.len(),
{
    if w.len() == 0 {
        None
    } else {
        match first_failure(w.drop_last(), f) {
            Some(x) => Some(x),
            None => f(w.last()),
        }
    }
}

/// The subtrees explored below a subtree whose root is read: the two
/// children of a binary node, the bottom of an edge; none for a sibling or a
/// leaf.
pub open spec fn children(
    st: Map<Seq<u8>, StorageValue>,
    leaves: Seq<nat>,
    tree_height: nat,
    t: SubTreeView,
) -> Seq<SubTreeView> {
    let (root, hash, lo, hi) = t;
    let h = subtree_height(root, tree_height);
    if h == 0 || lo == hi || stored_node(st, hash) is None {
        Seq::empty()
    } else {
        match decoded_inner_node(stored_node(st, hash).unwrap()) {
            Some((true, a, b, _)) => {
                let mid = first_at_least(leaves, lo, hi, (2 * root + 1) * pow2((h - 1) as nat));
                seq![(2 * root, a, lo, mid), (2 * root + 1, b, mid, hi)]
            },
            Some((false, a, b, len)) => {
                let bottom = root * pow2(len as nat) + b;
                let bh = (h - len) as nat;
                seq![
                    (
                        bottom,
                        a,
                        first_at_least(leaves, lo, hi, bottom * pow2(bh)),
                        first_at_least(leaves, lo, hi, (bottom + 1) * pow2(bh)),
                    ),
                ]
            },
            None => Seq::empty(),
        }
    }
}

/// The subtrees explored below a list of subtrees, in order.
pub open spec fn next_frontier(
    st: Map<Seq<u8>, StorageValue>,
    leaves: Seq<nat>,
    tree_height: nat,
    w: Seq<SubTreeView>,
) -> Seq<SubTreeView>
    decreases w.len(),
{
    if w.len() == 0 {
        Seq::empty()
    } else {
        next_frontier(st, leaves, tree_height, w.drop_last()) + children(st, leaves, tree_height, w.last())
    }
}

/// Why exploring the subtrees level by level fails: the first root of a level
/// that cannot be read, else the first refused edge of the level, else a
/// failure further down.
pub open spec fn bfs_failure(
    st: Map<Seq<u8>, StorageValue>,
    leaves: Seq<nat>,
    tree_height: nat,
    w: Seq<SubTreeView>,
    bound: nat,
) -> Option<ReadFailure>
    decreases bound,
{
    if bound == 0 || w.len() == 0 {
        None
    } else {
        match first_failure(w, root_failures(st, tree_height)) {
            Some(x) => Some(x),
            None => match first_failure(w, edge_failures(st, tree_height)) {
                Some(x) => Some(x),
                None => bfs_failure(st, leaves, tree_height, next_frontier(st, leaves, tree_height, w), (bound - 1) as nat),
            },
        }
    }
}

/// Why reading the original skeleton of the tree with the given root hash
/// fails: explored level by level from the root, the first failure.
pub open spec fn read_failure(
    st: Map<Seq<u8>, StorageValue>,
    leaves: Seq<nat>,
    root_hash: nat,
    tree_height: nat,
) -> Option<ReadFailure> {
    bfs_failure(st, leaves, tree_height, seq![(1nat, root_hash, 0int, leaves.len() as int)], tree_height + 1)
}

/// The exec error that stands for a failure.
pub open spec fn read_failure_is(e: OriginalSkeletonTreeError, f: Option<ReadFailure>) -> bool {
    match f {
        Some(ReadFailure::MissingNode(h)) => e matches OriginalSkeletonTreeError::MissingKey(k) && k.0@ == db_key(
            StoragePrefix::InnerNode,
            be_bytes(h, 32),
        ),
        Some(ReadFailure::NotInnerNode(_)) => e is Deserialization,
        Some(ReadFailure::InvalidEdge(i)) => e matches OriginalSkeletonTreeError::InvalidEdge(x) && x.value() == i,
        None => false,
    }
}

/// A failure among the first subtrees is the first failure of them all.
proof fn lemma_first_failure_prefix(w: Seq<SubTreeView>, f: spec_fn(SubTreeView) -> Option<ReadFailure>, k: int)
    requires
        0 <= k <= w.len(),
        first_failure(w.take(k), f) is Some,
    ensures
        first_failure(w, f) == first_failure(w.take(k), f),
    decreases w.len() - k,
{
    if k < w.len() {
        assert(w.take(k + 1).drop_last() =~= w.take(k));
        lemma_first_failure_prefix(w, f, k + 1);
    } else {
        assert(w.take(k) =~= w);
    }
}

/// A subtree to explore: its root, the root's hash, and the modified leaves
/// below it (positions `[leaves_start, leaves_end)` of the sorted leaf indices).
#[derive(Clone, Copy, Debug)]
pub struct SubTree {
    pub leaves_start: usize,
    pub leaves_end: usize,
    pub root_index: NodeIndex,
    pub root_hash: HashOutput,
}

/// The original skeleton tree of an update.
pub struct OriginalSkeletonTreeImpl {
    pub nodes: AssocMap<NodeIndex, OriginalSkeletonNode>,
    pub tree_height: TreeHeight,
}

/// The values of a sequence of indices.
pub open spec fn index_values(s: Seq<NodeIndex>) -> Seq<nat> {
    s.map_values(|i: NodeIndex| i.value())
}

/// `r` is where `x` would be inserted in the sorted positions `[lo, hi)`.
pub open spec fn is_insertion_point(leaves: Seq<nat>, lo: int, hi: int, x: nat, r: int) -> bool {
    &&& lo <= r <= hi
    &&& forall|i: int| lo <= i < r ==> leaves[i] < x
    &&& forall|i: int| r <= i < hi ==> leaves[i] >= x
}

/// The insertion point of a value is the first position holding at least it.
pub proof fn lemma_insertion_point(leaves: Seq<nat>, lo: int, hi: int, x: nat, r: int)
    requires
        is_insertion_point(leaves, lo, hi, x, r),
    ensures
        r == first_at_least(leaves, lo, hi, x),
    decreases hi - lo,
{
    if lo < hi && r > lo {
        lemma_insertion_point(leaves, lo + 1, hi, x, r);
    }
}

/// `first_at_least` is an insertion point in sorted positions.
pub proof fn lemma_first_at_least(leaves: Seq<nat>, lo: int, hi: int, x: nat)
    requires
        0 <= lo <= hi <= leaves.len(),
        sorted(leaves),
    ensures
        is_insertion_point(leaves, lo, hi, x, first_at_least(leaves, lo, hi, x)),
    decreases hi - lo,
{
    if lo < hi {
        if leaves[lo] < x {
            lemma_first_at_least(leaves, lo + 1, hi, x);
        } else {
            assert forall|i: int| lo <= i < hi implies leaves[i] >= x by {
                if i > lo {
                    assert(leaves[lo] < leaves[i]);
                }
            }
        }
    }
}

/// `bisection::bisect_right_slice` on the values of the indices in positions
/// `[lo, hi)`: the position after the last one holding at most `x`.
#[verifier::external_body]
fn bisect_right_indices(a: &[NodeIndex], x: &NodeIndex, lo: usize, hi: usize) -> (r: usize)
    requires
        lo <= hi <= a@.len(),
        sorted(index_values(a@)),
    ensures
        is_insertion_point(index_values(a@), lo as int, hi as int, x.value() + 1, r as int),
{
    let words: Vec<(u128, u128)> = a.iter().map(|i| (i.to_u256().high, i.to_u256().low)).collect();
    let target = (x.to_u256().high, x.to_u256().low);
    bisection::bisect_right_slice(&words, &target, lo..hi)
}

/// `bisection::bisect_left_slice` on the values of the indices in positions
/// `[lo, hi)`: where `x` would be inserted to keep them sorted.
#[verifier::external_body]
fn bisect_left_indices(a: &[NodeIndex], x: &NodeIndex, lo: usize, hi: usize) -> (r: usize)
    requires
        lo <= hi <= a@.len(),
        sorted(index_values(a@)),
    ensures
        is_insertion_point(index_values(a@), lo as int, hi as int, x.value(), r as int),
{
    let words: Vec<(u128, u128)> = a.iter().map(|i| (i.to_u256().high, i.to_u256().low)).collect();
    let target = (x.to_u256().high, x.to_u256().low);
    bisection::bisect_left_slice(&words, &target, lo..hi)
}

/// The height of the subtree rooted at `root` in a tree of height `tree_height`.
pub open spec fn subtree_height(root: nat, tree_height: nat) -> nat {
    (tree_height + 1 - bit_len(root)) as nat
}

/// Union of two optional maps: nothing if either is nothing.
pub open spec fn opt_union<V>(a: Option<Map<nat, V>>, b: Option<Map<nat, V>>) -> Option<Map<nat, V>> {
    if a is Some && b is Some {
        Some(a.unwrap().union_prefer_right(b.unwrap()))
    } else {
        None
    }
}

/// The skeleton of one subtree.
pub open spec fn sub_skeleton(
    st: Map<Seq<u8>, StorageValue>,
    leaves: Seq<nat>,
    tree_height: nat,
    s: SubTree,
) -> Option<Map<nat, SkeletonShape>> {
    skeleton(
        st,
        leaves,
        s.root_index.value(),
        s.root_hash.val(),
        subtree_height(s.root_index.value(), tree_height),
        s.leaves_start as int,
        s.leaves_end as int,
    )
}

/// The union of the skeletons of a list of subtrees.
pub open spec fn list_skeleton(
    st: Map<Seq<u8>, StorageValue>,
    leaves: Seq<nat>,
    tree_height: nat,
    w: Seq<SubTree>,
) -> Option<Map<nat, SkeletonShape>>
    decreases w.len(),
{
    if w.len() == 0 {
        Some(Map::empty())
    } else {
        opt_union(sub_skeleton(st, leaves, tree_height, w[0]), list_skeleton(st, leaves, tree_height, w.skip(1)))
    }
}

/// A subtree stands for a node of the tree and the modified leaves below it.
pub open spec fn valid_subtree(leaves: Seq<nat>, tree_height: nat, s: SubTree) -> bool {
    let root = s.root_index.value();
    let h = subtree_height(root, tree_height);
    &&& root >= 1
    &&& bit_len(root) <= tree_height + 1
    &&& s.leaves_start <= s.leaves_end <= leaves.len()
    &&& forall|i: int|
        s.leaves_start <= i < s.leaves_end ==> root * pow2(h) <= #[trigger] leaves[i] < (root + 1)
            * pow2(h)
}

/// No root of the list is in the subtree of another.
pub open spec fn non_nested(w: Seq<SubTree>) -> bool {
    forall|i: int, j: int|
        0 <= i < w.len() && 0 <= j < w.len() && i != j ==> !is_ancestor(
            (#[trigger] w[i]).root_index.value(),
            (#[trigger] w[j]).root_index.value(),
        )
}

/// A skeleton holds only nodes of its subtree.
pub proof fn lemma_skeleton_domain(
    st: Map<Seq<u8>, StorageValue>,
    leaves: Seq<nat>,
    root: nat,
    hash: nat,
    height: nat,
    lo: int,
    hi: int,
)
    requires
        root >= 1,
    ensures
        skeleton(st, leaves, root, hash, height, lo, hi) matches Some(m) ==> forall|k: nat|
            m.dom().contains(k) ==> is_ancestor(root, k),
    decreases height,
{
    lemma_self_ancestor(root);
    if height > 0 {
        if let Some(bytes) = stored_node(st, hash) {
            if let Some((is_binary, a, b, len)) = decoded_inner_node(bytes) {
                if is_binary {
                    if lo != hi {
                        let mid = first_at_least(leaves, lo, hi, (2 * root + 1) * pow2((height - 1) as nat));
                        lemma_skeleton_domain(st, leaves, 2 * root, a, (height - 1) as nat, lo, mid);
                        lemma_skeleton_domain(st, leaves, 2 * root + 1, b, (height - 1) as nat, mid, hi);
                        lemma_child_ancestor(root);
                        if let Some(m) = skeleton(st, leaves, root, hash, height, lo, hi) {
                            assert forall|k: nat| m.dom().contains(k) implies is_ancestor(root, k) by {
                                if k != root {
                                    if skeleton(st, leaves, 2 * root + 1, b, (height - 1) as nat, mid, hi).unwrap().dom().contains(k) {
                                        lemma_ancestor_transitive(root, 2 * root + 1, k);
                                    } else {
                                        lemma_ancestor_transitive(root, 2 * root, k);
                                    }
                                }
                            }
                        }
                    }
                } else if !(len == 0 || len > height || b >= pow2(len as nat)) {
                    let bottom = root * pow2(len as nat) + b;
                    let bh = (height - len) as nat;
                    lemma_ancestor_of_descendant(root, len as nat, b);
                    if lo != hi {
                        let blo = first_at_least(leaves, lo, hi, bottom * pow2(bh));
                        let bhi = first_at_least(leaves, lo, hi, (bottom + 1) * pow2(bh));
                        lemma_skeleton_domain(st, leaves, bottom, a, bh, blo, bhi);
                        if let Some(m) = skeleton(st, leaves, root, hash, height, lo, hi) {
                            assert forall|k: nat| m.dom().contains(k) implies is_ancestor(root, k) by {
                                if k != root {
                                    lemma_ancestor_transitive(root, bottom, k);
                                }
                            }
                        }
                    }
                }
            }
        }
    }
}

/// A node is an ancestor of its children.
pub proof fn lemma_child_ancestor(x: nat)
    requires
        x >= 1,
    ensures
        is_ancestor(x, 2 * x),
        is_ancestor(x, 2 * x + 1),
        bit_len(2 * x) == bit_len(x) + 1,
        bit_len(2 * x + 1) == bit_len(x) + 1,
{
    lemma2_to64();
    lemma_ancestor_of_descendant(x, 1, 0);
    lemma_ancestor_of_descendant(x, 1, 1);
}

/// The skeleton of a list holds only nodes of the subtrees of its roots.
pub proof fn lemma_list_domain(
    st: Map<Seq<u8>, StorageValue>,
    leaves: Seq<nat>,
    tree_height: nat,
    w: Seq<SubTree>,
)
    requires
        forall|j: int| 0 <= j < w.len() ==> (#[trigger] w[j]).root_index.value() >= 1,
    ensures
        list_skeleton(st, leaves, tree_height, w) matches Some(m) ==> forall|k: nat|
            #[trigger] m.dom().contains(k) ==> exists|j: int|
                0 <= j < w.len() && is_ancestor((#[trigger] w[j]).root_index.value(), k),
    decreases w.len(),
{
    if w.len() > 0 {
        let s = w[0];
        lemma_skeleton_domain(
            st,
            leaves,
            s.root_index.value(),
            s.root_hash.val(),
            subtree_height(s.root_index.value(), tree_height),
            s.leaves_start as int,
            s.leaves_end as int,
        );
        let rest = w.skip(1);
        assert forall|j: int| 0 <= j < rest.len() implies (#[trigger] rest[j]).root_index.value() >= 1 by {
            assert(rest[j] == w[j + 1]);
        }
        lemma_list_domain(st, leaves, tree_height, rest);
        if let Some(m) = list_skeleton(st, leaves, tree_height, w) {
            assert forall|k: nat| #[trigger] m.dom().contains(k) implies exists|j: int|
                0 <= j < w.len() && is_ancestor((#[trigger] w[j]).root_index.value(), k) by {
                if list_skeleton(st, leaves, tree_height, rest).unwrap().dom().contains(k) {
                    let j = choose|j: int| 0 <= j < rest.len() && is_ancestor((#[trigger] rest[j]).root_index.value(), k);
                    assert(rest[j] == w[j + 1]);
                } else {
                    assert(is_ancestor(w[0].root_index.value(), k));
                }
            }
        }
    }
}

/// The skeleton of a concatenation of lists is the union of their skeletons.
pub proof fn lemma_list_concat(
    st: Map<Seq<u8>, StorageValue>,
    leaves: Seq<nat>,
    tree_height: nat,
    a: Seq<SubTree>,
    b: Seq<SubTree>,
)
    ensures
        list_skeleton(st, leaves, tree_height, a + b) == opt_union(
            list_skeleton(st, leaves, tree_height, a),
            list_skeleton(st, leaves, tree_height, b),
        ),
    decreases a.len(),
{
    if a.len() == 0 {
        assert(a + b =~= b);
        if let Some(m) = list_skeleton(st, leaves, tree_height, b) {
            assert(Map::<nat, SkeletonShape>::empty().union_prefer_right(m) =~= m);
        }
    } else {
        lemma_list_concat(st, leaves, tree_height, a.skip(1), b);
        assert((a + b).skip(1) =~= a.skip(1) + b);
        assert((a + b)[0] == a[0]);
        let x = sub_skeleton(st, leaves, tree_height, a[0]);
        let y = list_skeleton(st, leaves, tree_height, a.skip(1));
        let z = list_skeleton(st, leaves, tree_height, b);
        if x is Some && y is Some && z is Some {
            assert(x.unwrap().union_prefer_right(y.unwrap().union_prefer_right(z.unwrap())) =~= x.unwrap().union_prefer_right(y.unwrap()).union_prefer_right(z.unwrap()));
        }
    }
}

/// A list with a failing subtree fails.
pub proof fn lemma_list_none(
    st: Map<Seq<u8>, StorageValue>,
    leaves: Seq<nat>,
    tree_height: nat,
    w: Seq<SubTree>,
    j: int,
)
    requires
        0 <= j < w.len(),
        sub_skeleton(st, leaves, tree_height, w[j]) is None,
    ensures
        list_skeleton(st, leaves, tree_height, w) is None,
    decreases w.len(),
{
    if j > 0 {
        assert(w.skip(1)[j - 1] == w[j]);
        lemma_list_none(st, leaves, tree_height, w.skip(1), j - 1);
    }
}

/// The position in `[lo, hi)` of the first leaf of the right subtree of
/// `root_index`, whose height is `height`; the leaves there must be sorted and
/// below the root.
fn split_point(leaves: &[NodeIndex], lo: usize, hi: usize, root_index: &NodeIndex, height: u8) -> (r: usize)
    requires
        lo <= hi <= leaves@.len(),
        sorted(index_values(leaves@)),
        height >= 1,
        root_index.value() >= 1,
        (2 * root_index.value() + 1) * pow2((height - 1) as nat) < index_bound(),
    ensures
        r == first_at_least(
            index_values(leaves@),
            lo as int,
            hi as int,
            (2 * root_index.value() + 1) * pow2((height - 1) as nat),
        ),
        lo <= r <= hi,
{
    proof {
        lemma_pow2_pos((height - 1) as nat);
        lemma_mul_increases(pow2((height - 1) as nat) as int, (2 * root_index.value() + 1) as int);
        lemma_mul_is_commutative(pow2((height - 1) as nat) as int, (2 * root_index.value() + 1) as int);
    }
    let children = root_index.get_children_indices();
    let right_child_index = children[1];
    let leftmost_index_in_right_subtree = right_child_index.shl(height - 1);
    let r = bisect_left_indices(leaves, &leftmost_index_in_right_subtree, lo, hi);
    proof {
        lemma_insertion_point(index_values(leaves@), lo as int, hi as int, leftmost_index_in_right_subtree.value(), r as int);
    }
    r
}

/// Splits sorted leaves below `root_index` into those of its left subtree and
/// those of its right subtree. The root must be above the leaf level and every
/// leaf must be below it.
pub fn split_leaves(tree_height: &TreeHeight, root_index: &NodeIndex, leaf_indices: &[NodeIndex]) -> (r: [Vec<NodeIndex>; 2])
    requires
        sorted(index_values(leaf_indices@)),
        root_index.value() >= 1,
        tree_height.0 <= 251,
        bit_len(root_index.value()) <= tree_height.0,
        forall|i: int| 0 <= i < leaf_indices@.len() ==> is_ancestor(root_index.value(), #[trigger] leaf_indices@[i].value())
            && bit_len(leaf_indices@[i].value()) == tree_height.0 + 1,
    ensures
        r[0]@ + r[1]@ == leaf_indices@,
        forall|i: int| 0 <= i < r[0]@.len() ==> is_ancestor(2 * root_index.value(), #[trigger] r[0]@[i].value()),
        forall|i: int| 0 <= i < r[1]@.len() ==> is_ancestor(2 * root_index.value() + 1, #[trigger] r[1]@[i].value()),
{
    let height = tree_height.0 + 1 - root_index.bit_length();
    proof {
        lemma_children_in_range(root_index.value(), height as nat, tree_height.0 as nat);
    }
    let mid = split_point(leaf_indices, 0, leaf_indices.len(), root_index, height);
    let ghost lv = index_values(leaf_indices@);
    let ghost x = (2 * root_index.value() + 1) * pow2((height - 1) as nat);
    proof {
        lemma_first_at_least(lv, 0, leaf_indices@.len() as int, x);
    }
    let mut left: Vec<NodeIndex> = Vec::new();
    let mut right: Vec<NodeIndex> = Vec::new();
    let mut i: usize = 0;
    while i < leaf_indices.len()
        invariant
            i <= leaf_indices@.len(),
            mid <= leaf_indices@.len(),
            left@ == leaf_indices@.subrange(0, if i < mid { i as int } else { mid as int }),
            right@ == if i < mid { Seq::empty() } else { leaf_indices@.subrange(mid as int, i as int) },
        decreases leaf_indices@.len() - i,
    {
        if i < mid {
            left.push(leaf_indices[i]);
        } else {
            right.push(leaf_indices[i]);
        }
        i += 1;
        proof {
            assert(left@ =~= leaf_indices@.subrange(0, if i < mid { i as int } else { mid as int }));
            assert(right@ =~= if i < mid { Seq::empty() } else { leaf_indices@.subrange(mid as int, i as int) });
        }
    }
    proof {
        assert(left@ + right@ =~= leaf_indices@);
        let root = root_index.value();
        let h = height as nat;
        lemma_child_ancestor(root);
        assert forall|i: int| 0 <= i < left@.len() implies is_ancestor(2 * root, #[trigger] left@[i].value()) by {
            assert(left@[i] == leaf_indices@[i]);
            assert(lv[i] == leaf_indices@[i].value());
            lemma_leaf_side(root, h, leaf_indices@[i].value(), true);
        }
        assert forall|i: int| 0 <= i < right@.len() implies is_ancestor(2 * root + 1, #[trigger] right@[i].value()) by {
            assert(right@[i] == leaf_indices@[mid + i]);
            assert(lv[mid + i] == leaf_indices@[mid + i].value());
            lemma_leaf_side(root, h, leaf_indices@[mid + i].value(), false);
        }
    }
    [left, right]
}

/// A leaf below `root` (of height `h`) is below the left child exactly when it
/// is before the first leaf of the right subtree.
proof fn lemma_leaf_side(root: nat, h: nat, leaf: nat, left: bool)
    requires
        root >= 1,
        h >= 1,
        is_ancestor(root, leaf),
        bit_len(leaf) == bit_len(root) + h,
        left ==> leaf < (2 * root + 1) * pow2((h - 1) as nat),
        !left ==> leaf >= (2 * root + 1) * pow2((h - 1) as nat),
    ensures
        left ==> is_ancestor(2 * root, leaf),
        !left ==> is_ancestor(2 * root + 1, leaf),
{
    let k = (h - 1) as nat;
    lemma_child_ancestor(root);
    assert((bit_len(leaf) - bit_len(root)) as nat == h);
    // leaf / 2^h == root, so leaf / 2^(h-1) is 2 root or 2 root + 1.
    crate::bits::lemma_div_pow2_compose(leaf, k, 1);
    lemma2_to64();
    assert(k + 1 == h);
    let c = leaf / pow2(k);
    lemma_pow2_pos(k);
    vstd::arithmetic::div_mod::lemma_fundamental_div_mod(leaf as int, pow2(k) as int);
    vstd::arithmetic::div_mod::lemma_mod_pos_bound(leaf as int, pow2(k) as int);
    vstd::arithmetic::div_mod::lemma_fundamental_div_mod(c as int, 2);
    assert(c / 2 == root);
    assert(c == 2 * root || c == 2 * root + 1);
    if left {
        if c == 2 * root + 1 {
            lemma_mul_is_commutative(pow2(k) as int, c as int);
            assert(leaf >= c * pow2(k));
        }
    } else {
        if c == 2 * root {
            lemma_mul_is_commutative(pow2(k) as int, c as int);
            lemma_mul_is_distributive_add_other_way(pow2(k) as int, c as int, 1);
            assert(leaf < (c + 1) * pow2(k));
        }
    }
    assert(bit_len(c) == bit_len(root) + 1) by {
        crate::bits::lemma_bit_len_div_pow2(leaf, k);
    }
    assert((bit_len(leaf) - bit_len(c)) as nat == k);
}

/// In a tree of height at most 251, the boundaries of the subtrees of a node
/// of height `h >= 1` are within range.
pub proof fn lemma_children_in_range(root: nat, h: nat, tree_height: nat)
    requires
        root >= 1,
        h >= 1,
        tree_height <= 251,
        bit_len(root) + h == tree_height + 1,
    ensures
        (2 * root + 1) * pow2((h - 1) as nat) < pow2(tree_height + 1),
        (root + 1) * pow2(h) <= pow2(tree_height + 1),
        pow2(tree_height + 1) <= index_bound(),
        2 * root + 1 < index_bound(),
{
    let b = bit_len(root);
    lemma_bit_len_range(root);
    lemma_pow2_le(tree_height + 1, 252);
    lemma_pow2_unfold(b + 1);
    lemma_pow2_pos((h - 1) as nat);
    lemma_pow2_pos(h);
    lemma_mul_strict_inequality((2 * root + 1) as int, pow2(b + 1) as int, pow2((h - 1) as nat) as int);
    assert((b + 1) + (h - 1) as nat == tree_height + 1);
    lemma_pow2_adds(b + 1, (h - 1) as nat);
    lemma_mul_inequality((root + 1) as int, pow2(b) as int, pow2(h) as int);
    lemma_pow2_adds(b, h);
    lemma_pow2_le(b + 1, tree_height + 1);
}

/// The node read for a subtree: a placeholder leaf at height zero, otherwise the
/// stored inner node with the root's hash.
pub open spec fn root_read(
    st: Map<Seq<u8>, StorageValue>,
    tree_height: nat,
    s: SubTree,
    n: FilledNode<LeafDataImpl>,
) -> bool {
    let h = subtree_height(s.root_index.value(), tree_height);
    &&& n.hash.val() == s.root_hash.val()
    &&& if h == 0 {
        n.data is Leaf
    } else {
        &&& stored_node(st, s.root_hash.val()) is Some
        &&& !(n.data is Leaf)
        &&& inner_node_fields(n.data) == decoded_inner_node(stored_node(st, s.root_hash.val()).unwrap())
    }
}

/// Reading the root of a subtree fails.
pub open spec fn read_fails(st: Map<Seq<u8>, StorageValue>, tree_height: nat, s: SubTree) -> bool {
    &&& subtree_height(s.root_index.value(), tree_height) > 0
    &&& (stored_node(st, s.root_hash.val()) is None || decoded_inner_node(
        stored_node(st, s.root_hash.val()).unwrap(),
    ) is None)
}

impl SubTree {
    /// The height of the subtree.
    pub fn get_height(&self, tree_height: &TreeHeight) -> (r: TreeHeight)
        requires
            self.root_index.value() >= 1,
            bit_len(self.root_index.value()) <= tree_height.0 + 1,
        ensures
            r.0 == subtree_height(self.root_index.value(), tree_height.0 as nat),
    {
        proof {
            lemma_bit_len_range(self.root_index.value());
        }
        TreeHeight(tree_height.0 - (self.root_index.bit_length() - 1))
    }

    /// No modified leaf is below the root.
    pub fn is_sibling(&self) -> (r: bool)
        ensures
            r == (self.leaves_start == self.leaves_end),
    {
        self.leaves_start == self.leaves_end
    }

    /// The subtree is a single leaf.
    pub fn is_leaf(&self, tree_height: &TreeHeight) -> (r: bool)
        requires
            self.root_index.value() >= 1,
            bit_len(self.root_index.value()) <= tree_height.0 + 1,
        ensures
            r == (subtree_height(self.root_index.value(), tree_height.0 as nat) == 0),
    {
        self.get_height(tree_height).0 == 0
    }
}

impl OriginalSkeletonTreeImpl {
    /// Reads the roots of the given subtrees: a placeholder leaf for a subtree
    /// of height zero, the stored inner node otherwise.
    fn calculate_subtrees_roots(
        subtrees: &Vec<SubTree>,
        storage: &MapStorage,
        tree_height: &TreeHeight,
    ) -> (r: Result<Vec<FilledNode<LeafDataImpl>>, OriginalSkeletonTreeError>)
        requires
            storage.wf(),
            forall|j: int|
                0 <= j < subtrees@.len() ==> (#[trigger] subtrees@[j]).root_index.value() >= 1 && bit_len(
                    subtrees@[j].root_index.value(),
                ) <= tree_height.0 + 1,
        ensures
            r matches Ok(v) ==> v@.len() == subtrees@.len() && forall|j: int|
                0 <= j < v@.len() ==> root_read(
                    storage.contents(),
                    tree_height.0 as nat,
                    subtrees@[j],
                    #[trigger] v@[j],
                ),
            r is Err ==> exists|j: int|
                0 <= j < subtrees@.len() && read_fails(
                    storage.contents(),
                    tree_height.0 as nat,
                    #[trigger] subtrees@[j],
                ),
            r is Ok ==> first_failure(frontier_view(subtrees@), root_failures(storage.contents(), tree_height.0 as nat))
                is None,
            r matches Err(e) ==> read_failure_is(
                e,
                first_failure(frontier_view(subtrees@), root_failures(storage.contents(), tree_height.0 as nat)),
            ),
    {
        let ghost fv = frontier_view(subtrees@);
        let ghost ff = root_failures(storage.contents(), tree_height.0 as nat);
        let mut subtrees_roots: Vec<FilledNode<LeafDataImpl>> = Vec::new();
        let mut i: usize = 0;
        while i < subtrees.len()
            invariant
                storage.wf(),
                i <= subtrees@.len(),
                subtrees_roots@.len() == i,
                forall|j: int|
                    0 <= j < subtrees@.len() ==> (#[trigger] subtrees@[j]).root_index.value() >= 1
                        && bit_len(subtrees@[j].root_index.value()) <= tree_height.0 + 1,
                forall|j: int|
                    0 <= j < i ==> root_read(
                        storage.contents(),
                        tree_height.0 as nat,
                        subtrees@[j],
                        #[trigger] subtrees_roots@[j],
                    ),
                fv == frontier_view(subtrees@),
                ff == root_failures(storage.contents(), tree_height.0 as nat),
                first_failure(fv.take(i as int), ff) is None,
            decreases subtrees@.len() - i,
        {
            let subtree = &subtrees[i];
            proof {
                assert(fv.take(i + 1).drop_last() =~= fv.take(i as int));
                assert(fv.take(i + 1).last() == subtree_view(*subtree));
            }
            if subtree.is_leaf(tree_height) {
                // Placeholder data; only the hash is used.
                subtrees_roots.push(
                    FilledNode { hash: subtree.root_hash, data: NodeData::Leaf(LeafDataImpl::StorageValue(Felt::zero())) },
                );
            } else {
                let suffix = subtree.root_hash.0.to_bytes_be();
                let key = create_db_key(StoragePrefix::InnerNode, suffix.as_slice());
                let val = match storage.get(&key) {
                    Some(v) => v,
                    None => {
                        proof {
                            lemma_first_failure_prefix(fv, ff, i + 1);
                        }
                        return Err(OriginalSkeletonTreeError::MissingKey(key));
                    },
                };
                let node = match FilledNode::deserialize(&crate::storage::StorageKey(suffix), val) {
                    Ok(n) => n,
                    Err(e) => {
                        proof {
                            lemma_first_failure_prefix(fv, ff, i + 1);
                        }
                        return Err(e);
                    },
                };
                subtree.root_hash.0.bound();
                proof {
                    crate::felt::lemma_be_bytes_value(subtree.root_hash.val(), 32);
                    crate::filled_node::lemma_prime_below_pow2_256();
                    vstd::arithmetic::div_mod::lemma_small_mod(subtree.root_hash.val(), felt_prime());
                }
                subtrees_roots.push(node);
            }
            i += 1;
        }
        proof {
            assert(fv.take(i as int) =~= fv);
        }
        Ok(subtrees_roots)
    }
}

/// The roots of a list are strictly below a node.
pub open spec fn strictly_below(root: nat, w: Seq<SubTree>) -> bool {
    forall|j: int|
        0 <= j < w.len() ==> is_ancestor(root, (#[trigger] w[j]).root_index.value()) && bit_len(
            root,
        ) < bit_len(w[j].root_index.value())
}

/// Two nodes each with a descendant in common are nested.
proof fn lemma_common_descendant(a: nat, b: nat, k: nat)
    requires
        is_ancestor(a, k),
        is_ancestor(b, k),
    ensures
        is_ancestor(a, b) || is_ancestor(b, a),
{
    if bit_len(a) <= bit_len(b) {
        lemma_ancestors_nested(a, b, k);
    } else {
        lemma_ancestors_nested(b, a, k);
    }
}

/// Replacing a subtree of the frontier by subtrees strictly below it keeps the
/// roots apart.
proof fn lemma_frontier_non_nested(next: Seq<SubTree>, s: SubTree, ch: Seq<SubTree>, rest: Seq<SubTree>)
    requires
        non_nested(next + seq![s] + rest),
        non_nested(ch),
        strictly_below(s.root_index.value(), ch),
        s.root_index.value() >= 1,
    ensures
        non_nested(next + ch + rest),
{
    let a = next + seq![s] + rest;
    let b = next + ch + rest;
    let n = next.len() as int;
    let c = ch.len() as int;
    assert forall|i: int, j: int|
        0 <= i < b.len() && 0 <= j < b.len() && i != j implies !is_ancestor(
        (#[trigger] b[i]).root_index.value(),
        (#[trigger] b[j]).root_index.value(),
    ) by {
        // Position of an element of `b` in `a`, for those not among the children.
        let ai = if i < n { i } else { i - c + 1 };
        let aj = if j < n { j } else { j - c + 1 };
        let sr = s.root_index.value();
        assert(a[n] == s);
        if (i < n || i >= n + c) && (j < n || j >= n + c) {
            assert(b[i] == a[ai]);
            assert(b[j] == a[aj]);
        } else if n <= i < n + c && n <= j < n + c {
            assert(b[i] == ch[i - n]);
            assert(b[j] == ch[j - n]);
        } else if n <= i < n + c {
            // b[i] is a child, b[j] another frontier root.
            assert(b[i] == ch[i - n]);
            assert(b[j] == a[aj]);
            let ci = b[i].root_index.value();
            let rj = b[j].root_index.value();
            if is_ancestor(ci, rj) {
                lemma_ancestor_transitive(sr, ci, rj);
            }
        } else {
            assert(b[j] == ch[j - n]);
            assert(b[i] == a[ai]);
            let cj = b[j].root_index.value();
            let ri = b[i].root_index.value();
            if is_ancestor(ri, cj) {
                lemma_common_descendant(ri, sr, cj);
                if is_ancestor(sr, ri) {
                    // Then ri is between sr and cj, contradicting `ri` being apart from `sr`.
                }
            }
        }
    }
}

/// Reordering disjoint unions.
proof fn lemma_union_swap<V>(
    nodes: Map<nat, V>,
    loc: Map<nat, V>,
    ln: Map<nat, V>,
    lc: Map<nat, V>,
    lr: Map<nat, V>,
)
    requires
        loc.dom().disjoint(ln.dom()),
    ensures
        nodes.union_prefer_right(loc).union_prefer_right(ln.union_prefer_right(lc).union_prefer_right(lr))
            == nodes.union_prefer_right(ln.union_prefer_right(loc.union_prefer_right(lc).union_prefer_right(lr))),
{
    let x = nodes.union_prefer_right(loc).union_prefer_right(ln.union_prefer_right(lc).union_prefer_right(lr));
    let y = nodes.union_prefer_right(ln.union_prefer_right(loc.union_prefer_right(lc).union_prefer_right(lr)));
    assert forall|k: nat| #[trigger] x.dom().contains(k) implies y.dom().contains(k) && x[k] == y[k] by {
        if loc.dom().contains(k) {
            assert(!ln.dom().contains(k));
        }
    }
    assert(x =~= y);
}

proof fn lemma_shapes_insert(m: Map<nat, OriginalSkeletonNode>, k: nat, v: OriginalSkeletonNode)
    ensures
        shapes(m.insert(k, v)) == shapes(m).union_prefer_right(map![k => v.shape()]),
{
    assert(shapes(m.insert(k, v)) =~= shapes(m).union_prefer_right(map![k => v.shape()]));
}

/// A one-element list's skeleton is its element's.
proof fn lemma_list_single(st: Map<Seq<u8>, StorageValue>, leaves: Seq<nat>, tree_height: nat, a: SubTree)
    ensures
        list_skeleton(st, leaves, tree_height, seq![a]) == opt_union(
            sub_skeleton(st, leaves, tree_height, a),
            Some(Map::<nat, SkeletonShape>::empty()),
        ),
{
    assert(seq![a].skip(1) =~= Seq::<SubTree>::empty());
    assert(list_skeleton(st, leaves, tree_height, Seq::<SubTree>::empty()) == Some(Map::<nat, SkeletonShape>::empty()));
    assert(seq![a][0] == a);
}

/// A two-element list's skeleton is the union of its elements'.
proof fn lemma_list_pair(st: Map<Seq<u8>, StorageValue>, leaves: Seq<nat>, tree_height: nat, a: SubTree, b: SubTree)
    ensures
        list_skeleton(st, leaves, tree_height, seq![a, b]) == opt_union(
            sub_skeleton(st, leaves, tree_height, a),
            opt_union(sub_skeleton(st, leaves, tree_height, b), Some(Map::<nat, SkeletonShape>::empty())),
        ),
{
    assert(seq![a, b].skip(1) =~= seq![b]);
    assert(seq![a, b][0] == a);
    lemma_list_single(st, leaves, tree_height, b);
}

/// What processing a subtree achieves: the new nodes `loc` are recorded, the
/// subtrees below with modified leaves are appended, and together they make up
/// the skeleton of the subtree.
pub open spec fn processed(
    st: Map<Seq<u8>, StorageValue>,
    lv: Seq<nat>,
    th: nat,
    subtree: SubTree,
    old_nodes: Map<nat, OriginalSkeletonNode>,
    new_nodes: Map<nat, OriginalSkeletonNode>,
    old_next: Seq<SubTree>,
    new_next: Seq<SubTree>,
    loc: Map<nat, SkeletonShape>,
) -> bool {
    let ch = new_next.skip(old_next.len() as int);
    let root = subtree.root_index.value();
    &&& new_next.len() >= old_next.len()
    &&& new_next.subrange(0, old_next.len() as int) == old_next
    &&& shapes(new_nodes) == shapes(old_nodes).union_prefer_right(loc)
    &&& sub_skeleton(st, lv, th, subtree) == opt_union(Some(loc), list_skeleton(st, lv, th, ch))
    &&& forall|k: nat| #[trigger] loc.dom().contains(k) ==> is_ancestor(root, k)
    &&& ch.len() > 0 ==> forall|k: nat| #[trigger] loc.dom().contains(k) ==> k == root
    &&& strictly_below(root, ch)
    &&& non_nested(ch)
    &&& forall|j: int|
        0 <= j < ch.len() ==> valid_subtree(lv, th, #[trigger] ch[j]) && subtree_height(
            ch[j].root_index.value(),
            th,
        ) < subtree_height(root, th)
}

/// The two children of a binary subtree, split at `mid`, are valid subtrees.
proof fn lemma_children_valid(lv: Seq<nat>, th: nat, s: SubTree, mid: int, left: SubTree, right: SubTree)
    requires
        th <= 251,
        sorted(lv),
        valid_subtree(lv, th, s),
        subtree_height(s.root_index.value(), th) >= 1,
        mid == first_at_least(
            lv,
            s.leaves_start as int,
            s.leaves_end as int,
            (2 * s.root_index.value() + 1) * pow2((subtree_height(s.root_index.value(), th) - 1) as nat),
        ),
        left.leaves_start == s.leaves_start,
        left.leaves_end == mid,
        right.leaves_start == mid,
        right.leaves_end == s.leaves_end,
        left.root_index.value() == 2 * s.root_index.value(),
        right.root_index.value() == 2 * s.root_index.value() + 1,
    ensures
        valid_subtree(lv, th, left),
        valid_subtree(lv, th, right),
        subtree_height(left.root_index.value(), th) == subtree_height(s.root_index.value(), th) - 1,
        subtree_height(right.root_index.value(), th) == subtree_height(s.root_index.value(), th) - 1,
{
    let root = s.root_index.value();
    let h = subtree_height(root, th);
    let k = (h - 1) as nat;
    lemma_child_ancestor(root);
    lemma_first_at_least(lv, s.leaves_start as int, s.leaves_end as int, (2 * root + 1) * pow2(k));
    lemma_pow2_unfold(h);
    lemma_mul_is_associative(2, root as int, pow2(k) as int);
    lemma_mul_is_distributive_add_other_way(pow2(k) as int, (2 * root + 1) as int, 1);
    lemma_mul_is_associative(2, (root + 1) as int, pow2(k) as int);
    let q = pow2(k);
    let ph = pow2(h);
    assert(root * ph == (2 * root) * q && (root + 1) * ph == (2 * root + 2) * q) by (nonlinear_arith)
        requires
            ph == 2 * q,
    ;
}

impl OriginalSkeletonTreeImpl {
    /// Records a subtree of height zero: a leaf, kept as a sibling when it is
    /// not modified.
    fn process_leaf(
        &mut self,
        node: FilledNode<LeafDataImpl>,
        subtree: SubTree,
        Ghost(st): Ghost<Map<Seq<u8>, StorageValue>>,
        Ghost(lv): Ghost<Seq<nat>>,
        Ghost(next): Ghost<Seq<SubTree>>,
    ) -> (r: Ghost<Map<nat, SkeletonShape>>)
        requires
            old(self).nodes.wf(),
            old(self).tree_height.0 <= 251,
            valid_subtree(lv, old(self).tree_height.0 as nat, subtree),
            root_read(st, old(self).tree_height.0 as nat, subtree, node),
            node.data is Leaf,
        ensures
            final(self).tree_height == old(self).tree_height,
            final(self).nodes.wf(),
            processed(st, lv, old(self).tree_height.0 as nat, subtree, old(self).nodes.map(), final(self).nodes.map(), next, next, r@),
            children(st, lv, old(self).tree_height.0 as nat, subtree_view(subtree)) == Seq::<SubTreeView>::empty(),
            edge_failure(st, old(self).tree_height.0 as nat, subtree_view(subtree)) is None,
    {
        let ghost th = self.tree_height.0 as nat;
        let ghost root = subtree.root_index.value();
        let ghost old_nodes = self.nodes.map();
        proof {
            lemma_self_ancestor(root);
            assert(next.subrange(0, next.len() as int) =~= next);
            assert(next.skip(next.len() as int) =~= Seq::<SubTree>::empty());
            assert(list_skeleton(st, lv, th, Seq::<SubTree>::empty()) == Some(Map::<nat, SkeletonShape>::empty()));
        }
        if subtree.is_sibling() {
            self.nodes.insert(subtree.root_index, OriginalSkeletonNode::LeafOrBinarySibling(node.hash));
            proof {
                lemma_shapes_insert(old_nodes, root, OriginalSkeletonNode::LeafOrBinarySibling(node.hash));
            }
            let ghost loc = map![root => SkeletonShape::Sibling(node.hash.val())];
            proof {
                assert(loc.union_prefer_right(Map::<nat, SkeletonShape>::empty()) =~= loc);
            }
            return Ghost(loc);
        }
        let ghost loc = Map::<nat, SkeletonShape>::empty();
        proof {
            assert(shapes(self.nodes.map()).union_prefer_right(loc) =~= shapes(self.nodes.map()));
            assert(loc.union_prefer_right(Map::<nat, SkeletonShape>::empty()) =~= loc);
        }
        Ghost(loc)
    }
}

impl SubTree {
    /// The subtrees of the two children, with the given hashes; the modified
    /// leaves split between them.
    fn get_children_subtrees(
        &self,
        leaves: &[NodeIndex],
        tree_height: &TreeHeight,
        left_hash: HashOutput,
        right_hash: HashOutput,
    ) -> (r: (SubTree, SubTree))
        requires
            tree_height.0 <= 251,
            sorted(index_values(leaves@)),
            valid_subtree(index_values(leaves@), tree_height.0 as nat, *self),
            subtree_height(self.root_index.value(), tree_height.0 as nat) >= 1,
        ensures
            r.0.leaves_start == self.leaves_start,
            r.0.leaves_end == r.1.leaves_start,
            r.1.leaves_end == self.leaves_end,
            r.0.leaves_end == first_at_least(
                index_values(leaves@),
                self.leaves_start as int,
                self.leaves_end as int,
                (2 * self.root_index.value() + 1) * pow2(
                    (subtree_height(self.root_index.value(), tree_height.0 as nat) - 1) as nat,
                ),
            ),
            r.0.root_index.value() == 2 * self.root_index.value(),
            r.1.root_index.value() == 2 * self.root_index.value() + 1,
            r.0.root_hash == left_hash,
            r.1.root_hash == right_hash,
    {
        proof {
            lemma_children_in_range(
                self.root_index.value(),
                subtree_height(self.root_index.value(), tree_height.0 as nat),
                tree_height.0 as nat,
            );
        }
        let height = self.get_height(tree_height);
        let mid = split_point(leaves, self.leaves_start, self.leaves_end, &self.root_index, height.0);
        let children = self.root_index.get_children_indices();
        (
            SubTree { leaves_start: self.leaves_start, leaves_end: mid, root_index: children[0], root_hash: left_hash },
            SubTree { leaves_start: mid, leaves_end: self.leaves_end, root_index: children[1], root_hash: right_hash },
        )
    }
}

impl OriginalSkeletonTreeImpl {
    /// Records a stored binary node: a sibling when no modified leaf is below
    /// it, otherwise a binary node whose two children are explored next.
    fn process_binary(
        &mut self,
        node: FilledNode<LeafDataImpl>,
        subtree: SubTree,
        leaves: &[NodeIndex],
        next: &mut Vec<SubTree>,
        Ghost(st): Ghost<Map<Seq<u8>, StorageValue>>,
    ) -> (r: Ghost<Map<nat, SkeletonShape>>)
        requires
            old(self).nodes.wf(),
            old(self).tree_height.0 <= 251,
            sorted(index_values(leaves@)),
            valid_subtree(index_values(leaves@), old(self).tree_height.0 as nat, subtree),
            root_read(st, old(self).tree_height.0 as nat, subtree, node),
            node.data is Binary,
        ensures
            final(self).tree_height == old(self).tree_height,
            final(self).nodes.wf(),
            processed(st, index_values(leaves@), old(self).tree_height.0 as nat, subtree, old(self).nodes.map(), final(self).nodes.map(), old(next)@, final(next)@, r@),
            frontier_view(final(next)@) == frontier_view(old(next)@) + children(
                st,
                index_values(leaves@),
                old(self).tree_height.0 as nat,
                subtree_view(subtree),
            ),
            edge_failure(st, old(self).tree_height.0 as nat, subtree_view(subtree)) is None,
    {
        let ghost lv = index_values(leaves@);
        let ghost th = self.tree_height.0 as nat;
        let ghost root = subtree.root_index.value();
        let ghost h = subtree_height(root, th);
        let ghost old_nodes = self.nodes.map();
        let ghost old_next = next@;
        let binary = match node.data {
            NodeData::Binary(b) => b,
            _ => {
                proof {
                    assert(false);
                }
                return Ghost(Map::empty());
            },
        };
        proof {
            lemma_self_ancestor(root);
            assert(next@.subrange(0, old_next.len() as int) =~= old_next);
            assert(next@.skip(old_next.len() as int) =~= Seq::<SubTree>::empty());
            assert(list_skeleton(st, lv, th, Seq::<SubTree>::empty()) == Some(Map::<nat, SkeletonShape>::empty()));
        }
        if subtree.is_sibling() {
            self.nodes.insert(subtree.root_index, OriginalSkeletonNode::LeafOrBinarySibling(node.hash));
            proof {
                lemma_shapes_insert(old_nodes, root, OriginalSkeletonNode::LeafOrBinarySibling(node.hash));
            }
            let ghost loc = map![root => SkeletonShape::Sibling(node.hash.val())];
            proof {
                assert(loc.union_prefer_right(Map::<nat, SkeletonShape>::empty()) =~= loc);
                assert(frontier_view(next@) =~= frontier_view(old_next) + Seq::<SubTreeView>::empty());
            }
            return Ghost(loc);
        }
        self.nodes.insert(subtree.root_index, OriginalSkeletonNode::Binary);
        proof {
            lemma_shapes_insert(old_nodes, root, OriginalSkeletonNode::Binary);
            lemma_children_in_range(root, h, th);
            lemma_child_ancestor(root);
        }
        let (left, right) = subtree.get_children_subtrees(leaves, &self.tree_height, binary.left_hash, binary.right_hash);
        let ghost mid = left.leaves_end;
        next.push(left);
        next.push(right);
        let ghost loc = map![root => SkeletonShape::Binary];
        proof {
            let ch = next@.skip(old_next.len() as int);
            assert(ch =~= seq![left, right]);
            assert(next@.subrange(0, old_next.len() as int) =~= old_next);
            lemma_list_pair(st, lv, th, left, right);
            lemma_children_valid(lv, th, subtree, mid as int, left, right);
            lemma_skeleton_domain(st, lv, 2 * root, binary.left_hash.val(), (h - 1) as nat, subtree.leaves_start as int, mid as int);
            lemma_skeleton_domain(st, lv, 2 * root + 1, binary.right_hash.val(), (h - 1) as nat, mid as int, subtree.leaves_end as int);
            let sl = sub_skeleton(st, lv, th, left);
            let sr = sub_skeleton(st, lv, th, right);
            if sl is Some && sr is Some {
                let u = sl.unwrap().union_prefer_right(sr.unwrap());
                if u.dom().contains(root) {
                    if sl.unwrap().dom().contains(root) {
                        assert(is_ancestor(2 * root, root));
                    } else {
                        assert(is_ancestor(2 * root + 1, root));
                    }
                }
                assert(loc.union_prefer_right(sl.unwrap().union_prefer_right(sr.unwrap().union_prefer_right(Map::<nat, SkeletonShape>::empty()))) =~= u.insert(root, SkeletonShape::Binary));
            }
            lemma2_to64();
            assert((bit_len(2 * root + 1) - bit_len(2 * root)) as nat == 0);
            assert((2 * root + 1) / pow2(0) == 2 * root + 1);
            assert((2 * root) / pow2(0) == 2 * root);
            assert(!is_ancestor(2 * root, 2 * root + 1));
            assert(!is_ancestor(2 * root + 1, 2 * root));
            assert(non_nested(ch));
            assert(strictly_below(root, ch));
            assert(frontier_view(next@) =~= frontier_view(old_next) + seq![subtree_view(left), subtree_view(right)]);
        }
        Ghost(loc)
    }
}

impl SubTree {
    /// The subtree below an edge from this subtree's root: the edge's bottom,
    /// with the given hash and the modified leaves below it.
    fn get_bottom_subtree(
        &self,
        leaves: &[NodeIndex],
        tree_height: &TreeHeight,
        path_to_bottom: &PathToBottom,
        bottom_hash: HashOutput,
    ) -> (r: SubTree)
        requires
            tree_height.0 <= 251,
            sorted(index_values(leaves@)),
            valid_subtree(index_values(leaves@), tree_height.0 as nat, *self),
            path_to_bottom.is_valid(),
            1 <= path_to_bottom.length.0 <= subtree_height(self.root_index.value(), tree_height.0 as nat),
        ensures
            r.root_index.value() == path_to_bottom.bottom_of(self.root_index.value()),
            r.root_hash == bottom_hash,
            subtree_height(r.root_index.value(), tree_height.0 as nat) == subtree_height(
                self.root_index.value(),
                tree_height.0 as nat,
            ) - path_to_bottom.length.0,
            r.leaves_start == first_at_least(
                index_values(leaves@),
                self.leaves_start as int,
                self.leaves_end as int,
                r.root_index.value() * pow2(subtree_height(r.root_index.value(), tree_height.0 as nat)),
            ),
            r.leaves_end == first_at_least(
                index_values(leaves@),
                self.leaves_start as int,
                self.leaves_end as int,
                (r.root_index.value() + 1) * pow2(subtree_height(r.root_index.value(), tree_height.0 as nat)),
            ),
            valid_subtree(index_values(leaves@), tree_height.0 as nat, r),
    {
        let ghost lv = index_values(leaves@);
        let ghost th = tree_height.0 as nat;
        let ghost root = self.root_index.value();
        let ghost len = path_to_bottom.length.0 as nat;
        let ghost p = path_to_bottom.path.0.value();
        proof {
            lemma_ancestor_of_descendant(root, len, p);
            lemma_bit_len_range(root * pow2(len) + p);
            lemma_pow2_le(bit_len(root * pow2(len) + p), 252);
        }
        let bottom_index = path_to_bottom.bottom_index(self.root_index);
        let height = self.get_height(tree_height);
        let bottom_height = height.sub(TreeHeight(path_to_bottom.length.0));
        let ghost b = bottom_index.value();
        let ghost bh = bottom_height.0 as nat;
        proof {
            lemma_pow2_pos(bh);
            lemma_bit_len_range(b);
            lemma_mul_inequality((b + 1) as int, pow2(bit_len(b)) as int, pow2(bh) as int);
            lemma_pow2_adds(bit_len(b), bh);
            assert(bit_len(b) + bh == th + 1);
            lemma_pow2_le(th + 1, 252);
            lemma_mul_is_distributive_add_other_way(pow2(bh) as int, b as int, 1);
            lemma_pow2_le(0, bh);
            lemma2_to64();
            lemma_mul_is_commutative(b as int, pow2(bh) as int);
            lemma_pow2_strictly_increases(bh, 252);
            assert(1 * pow2(bh) == pow2(bh));
        }
        let leftmost_in_subtree = bottom_index.shl(bottom_height.0);
        let span = NodeIndex::root().shl(bottom_height.0).sub(NodeIndex::root());
        let rightmost_in_subtree = leftmost_in_subtree.add(span);
        let bottom_start = bisect_left_indices(leaves, &leftmost_in_subtree, self.leaves_start, self.leaves_end);
        let bottom_end = bisect_right_indices(leaves, &rightmost_in_subtree, self.leaves_start, self.leaves_end);
        proof {
            lemma_insertion_point(lv, self.leaves_start as int, self.leaves_end as int, leftmost_in_subtree.value(), bottom_start as int);
            lemma_insertion_point(lv, self.leaves_start as int, self.leaves_end as int, rightmost_in_subtree.value() + 1, bottom_end as int);
            if bottom_end < bottom_start {
                assert(lv[bottom_end as int] < leftmost_in_subtree.value());
                assert(lv[bottom_end as int] >= rightmost_in_subtree.value() + 1);
            }
        }
        let bottom_subtree = SubTree {
            leaves_start: bottom_start,
            leaves_end: bottom_end,
            root_index: bottom_index,
            root_hash: bottom_hash,
        };
        proof {
            assert(bottom_start <= bottom_end);
            assert(valid_subtree(lv, th, bottom_subtree));
        }
        bottom_subtree
    }
}

impl OriginalSkeletonTreeImpl {
    /// Records a stored edge: with its unmodified bottom when no modified leaf
    /// is below it, otherwise the bottom is explored next. An empty edge, one
    /// longer than the height of its subtree, or one with more turns than its
    /// length is refused.
    fn process_edge(
        &mut self,
        node: FilledNode<LeafDataImpl>,
        subtree: SubTree,
        leaves: &[NodeIndex],
        next: &mut Vec<SubTree>,
        Ghost(st): Ghost<Map<Seq<u8>, StorageValue>>,
    ) -> (r: Result<Ghost<Map<nat, SkeletonShape>>, OriginalSkeletonTreeError>)
        requires
            old(self).nodes.wf(),
            old(self).tree_height.0 <= 251,
            sorted(index_values(leaves@)),
            valid_subtree(index_values(leaves@), old(self).tree_height.0 as nat, subtree),
            root_read(st, old(self).tree_height.0 as nat, subtree, node),
            node.data is Edge,
        ensures
            final(self).tree_height == old(self).tree_height,
            final(self).nodes.wf(),
            r is Err ==> sub_skeleton(st, index_values(leaves@), old(self).tree_height.0 as nat, subtree) is None,
            r is Err ==> final(self).nodes == old(self).nodes && final(next)@ == old(next)@,
            r matches Ok(loc) ==> processed(st, index_values(leaves@), old(self).tree_height.0 as nat, subtree, old(self).nodes.map(), final(self).nodes.map(), old(next)@, final(next)@, loc@),
            r is Ok ==> frontier_view(final(next)@) == frontier_view(old(next)@) + children(
                st,
                index_values(leaves@),
                old(self).tree_height.0 as nat,
                subtree_view(subtree),
            ),
            r is Ok ==> edge_failure(st, old(self).tree_height.0 as nat, subtree_view(subtree)) is None,
            r matches Err(e) ==> e == OriginalSkeletonTreeError::InvalidEdge(subtree.root_index) && edge_failure(
                st,
                old(self).tree_height.0 as nat,
                subtree_view(subtree),
            ) == Some(ReadFailure::InvalidEdge(subtree.root_index.value())),
    {
        let ghost lv = index_values(leaves@);
        let ghost th = self.tree_height.0 as nat;
        let ghost root = subtree.root_index.value();
        let ghost h = subtree_height(root, th);
        let ghost old_nodes = self.nodes.map();
        let ghost old_next = next@;
        let edge = match node.data {
            NodeData::Edge(e) => e,
            _ => {
                proof {
                    assert(false);
                }
                return Err(OriginalSkeletonTreeError::Deserialization);
            },
        };
        let path_to_bottom = edge.path_to_bottom;
        let height = subtree.get_height(&self.tree_height);
        if path_to_bottom.length.0 == 0 || path_to_bottom.length.0 > height.0 || PathToBottom::new(
            path_to_bottom.path,
            path_to_bottom.length,
        ).is_none() {
            proof {
                assert(edge_failure(st, th, subtree_view(subtree)) == Some(ReadFailure::InvalidEdge(root)));
            }
            return Err(OriginalSkeletonTreeError::InvalidEdge(subtree.root_index));
        }
        let ghost len = path_to_bottom.length.0 as nat;
        let ghost p = path_to_bottom.path.0.value();
        proof {
            lemma_self_ancestor(root);
            assert(next@.subrange(0, old_next.len() as int) =~= old_next);
            assert(next@.skip(old_next.len() as int) =~= Seq::<SubTree>::empty());
            assert(list_skeleton(st, lv, th, Seq::<SubTree>::empty()) == Some(Map::<nat, SkeletonShape>::empty()));
            lemma_ancestor_of_descendant(root, len, p);
            lemma_bit_len_range(root * pow2(len) + p);
            lemma_pow2_le(bit_len(root * pow2(len) + p), 252);
        }
        let bottom_index = path_to_bottom.bottom_index(subtree.root_index);
        self.nodes.insert(subtree.root_index, OriginalSkeletonNode::Edge(path_to_bottom));
        proof {
            lemma_shapes_insert(old_nodes, root, OriginalSkeletonNode::Edge(path_to_bottom));
        }
        if subtree.is_sibling() {
            let ghost mid_nodes = self.nodes.map();
            self.nodes.insert(bottom_index, OriginalSkeletonNode::UnmodifiedBottom(edge.bottom_hash));
            proof {
                lemma_shapes_insert(mid_nodes, bottom_index.value(), OriginalSkeletonNode::UnmodifiedBottom(edge.bottom_hash));
            }
            let ghost loc = map![root => SkeletonShape::Edge(p, len), bottom_index.value() => SkeletonShape::UnmodifiedBottom(edge.bottom_hash.val())];
            proof {
                assert(shapes(self.nodes.map()) =~= shapes(old_nodes).union_prefer_right(loc));
                assert(loc.union_prefer_right(Map::<nat, SkeletonShape>::empty()) =~= loc);
                assert(frontier_view(next@) =~= frontier_view(old_next) + Seq::<SubTreeView>::empty());
            }
            return Ok(Ghost(loc));
        }
        let bottom_subtree = subtree.get_bottom_subtree(leaves, &self.tree_height, &path_to_bottom, edge.bottom_hash);
        let ghost b = bottom_index.value();
        let ghost bh = subtree_height(b, th);
        let ghost bottom_start = bottom_subtree.leaves_start;
        let ghost bottom_end = bottom_subtree.leaves_end;
        next.push(bottom_subtree);
        let ghost loc = map![root => SkeletonShape::Edge(p, len)];
        proof {
            let ch = next@.skip(old_next.len() as int);
            assert(ch =~= seq![bottom_subtree]);
            assert(next@.subrange(0, old_next.len() as int) =~= old_next);
            lemma_list_single(st, lv, th, bottom_subtree);
            assert(bottom_start <= bottom_end);
            assert(valid_subtree(lv, th, bottom_subtree));
            lemma_skeleton_domain(st, lv, b, edge.bottom_hash.val(), bh, bottom_start as int, bottom_end as int);
            let sb = sub_skeleton(st, lv, th, bottom_subtree);
            if sb is Some {
                if sb.unwrap().dom().contains(root) {
                    assert(is_ancestor(b, root));
                }
                assert(loc.union_prefer_right(sb.unwrap().union_prefer_right(Map::<nat, SkeletonShape>::empty())) =~= sb.unwrap().insert(root, SkeletonShape::Edge(p, len)));
            }
            assert(strictly_below(root, ch));
            assert(non_nested(ch));
            assert(frontier_view(next@) =~= frontier_view(old_next) + seq![subtree_view(bottom_subtree)]);
        }
        Ok(Ghost(loc))
    }
}

/// The skeleton `m`, if any, laid over the nodes `base`.
pub open spec fn laid_over(
    base: Map<nat, SkeletonShape>,
    m: Option<Map<nat, SkeletonShape>>,
) -> Option<Map<nat, SkeletonShape>> {
    match m {
        Some(m) => Some(base.union_prefer_right(m)),
        None => None,
    }
}

/// A subtree whose root cannot be read has no skeleton.
proof fn lemma_read_fails(st: Map<Seq<u8>, StorageValue>, lv: Seq<nat>, th: nat, s: SubTree)
    requires
        read_fails(st, th, s),
    ensures
        sub_skeleton(st, lv, th, s) is None,
{
}

/// Processing one subtree of the frontier `next + [s] + rest` keeps the
/// skeleton that the nodes and the frontier describe together.
proof fn lemma_frontier_step(
    st: Map<Seq<u8>, StorageValue>,
    lv: Seq<nat>,
    th: nat,
    s: SubTree,
    old_nodes: Map<nat, OriginalSkeletonNode>,
    new_nodes: Map<nat, OriginalSkeletonNode>,
    next: Seq<SubTree>,
    new_next: Seq<SubTree>,
    rest: Seq<SubTree>,
    loc: Map<nat, SkeletonShape>,
)
    requires
        processed(st, lv, th, s, old_nodes, new_nodes, next, new_next, loc),
        non_nested(next + seq![s] + rest),
        s.root_index.value() >= 1,
        forall|j: int| 0 <= j < next.len() ==> (#[trigger] next[j]).root_index.value() >= 1,
    ensures
        laid_over(shapes(new_nodes), list_skeleton(st, lv, th, new_next + rest)) == laid_over(
            shapes(old_nodes),
            list_skeleton(st, lv, th, next + seq![s] + rest),
        ),
        non_nested(new_next + rest),
{
    let ch = new_next.skip(next.len() as int);
    assert(new_next =~= next + ch);
    assert(new_next + rest =~= next + (ch + rest));
    assert(next + seq![s] + rest =~= next + (seq![s] + rest));
    assert((seq![s] + rest)[0] == s);
    assert((seq![s] + rest).skip(1) =~= rest);
    lemma_list_concat(st, lv, th, next, seq![s] + rest);
    lemma_list_concat(st, lv, th, next, ch + rest);
    lemma_list_concat(st, lv, th, ch, rest);
    lemma_frontier_non_nested(next, s, ch, rest);
    assert(next + ch + rest =~= new_next + rest);
    lemma_list_domain(st, lv, th, next);
    let ln = list_skeleton(st, lv, th, next);
    let lc = list_skeleton(st, lv, th, ch);
    let lr = list_skeleton(st, lv, th, rest);
    let sr = s.root_index.value();
    if ln is Some && lc is Some && lr is Some {
        let a = next + seq![s] + rest;
        assert(a[next.len() as int] == s);
        assert(loc.dom().disjoint(ln.unwrap().dom())) by {
            assert forall|k: nat| loc.dom().contains(k) implies !ln.unwrap().dom().contains(k) by {
                if ln.unwrap().dom().contains(k) {
                    let j = choose|j: int| 0 <= j < next.len() && is_ancestor((#[trigger] next[j]).root_index.value(), k);
                    assert(a[j] == next[j]);
                    lemma_common_descendant(sr, next[j].root_index.value(), k);
                }
            }
        }
        lemma_union_swap(shapes(old_nodes), loc, ln.unwrap(), lc.unwrap(), lr.unwrap());
        let x = shapes(old_nodes).union_prefer_right(loc).union_prefer_right(
            ln.unwrap().union_prefer_right(lc.unwrap().union_prefer_right(lr.unwrap())),
        );
        let y = shapes(old_nodes).union_prefer_right(loc).union_prefer_right(
            ln.unwrap().union_prefer_right(lc.unwrap()).union_prefer_right(lr.unwrap()),
        );
        assert(x =~= y);
    }
}

impl OriginalSkeletonTreeImpl {
    /// Explores the given subtrees, level by level, recording every node of
    /// the skeleton below them. Fails as the skeleton does: on a node missing
    /// from storage, one that cannot be read, or an invalid edge.
    fn fetch_nodes(
        &mut self,
        subtrees: Vec<SubTree>,
        storage: &MapStorage,
        leaves: &[NodeIndex],
        Ghost(bound): Ghost<nat>,
    ) -> (r: Result<(), OriginalSkeletonTreeError>)
        requires
            old(self).nodes.wf(),
            old(self).tree_height.0 <= 251,
            storage.wf(),
            sorted(index_values(leaves@)),
            non_nested(subtrees@),
            forall|j: int|
                0 <= j < subtrees@.len() ==> valid_subtree(
                    index_values(leaves@),
                    old(self).tree_height.0 as nat,
                    #[trigger] subtrees@[j],
                ) && subtree_height(subtrees@[j].root_index.value(), old(self).tree_height.0 as nat) < bound,
        ensures
            final(self).tree_height == old(self).tree_height,
            final(self).nodes.wf(),
            r is Ok <==> list_skeleton(
                storage.contents(),
                index_values(leaves@),
                old(self).tree_height.0 as nat,
                subtrees@,
            ) is Some,
            r is Ok ==> shapes(final(self).nodes.map()) == shapes(old(self).nodes.map()).union_prefer_right(
                list_skeleton(storage.contents(), index_values(leaves@), old(self).tree_height.0 as nat, subtrees@).unwrap(),
            ),
            r matches Err(e) ==> read_failure_is(
                e,
                bfs_failure(
                    storage.contents(),
                    index_values(leaves@),
                    old(self).tree_height.0 as nat,
                    frontier_view(subtrees@),
                    bound,
                ),
            ),
        decreases bound,
    {
        let ghost st = storage.contents();
        let ghost lv = index_values(leaves@);
        let ghost th = self.tree_height.0 as nat;
        let ghost nodes0 = self.nodes.map();
        let ghost target = laid_over(shapes(nodes0), list_skeleton(st, lv, th, subtrees@));
        let ghost height0 = self.tree_height;
        if subtrees.len() == 0 {
            proof {
                assert(shapes(nodes0).union_prefer_right(Map::<nat, SkeletonShape>::empty()) =~= shapes(nodes0));
            }
            return Ok(());
        }
        let ghost fv = frontier_view(subtrees@);
        proof {
            assert(subtree_height(subtrees@[0].root_index.value(), th) < bound);
        }
        let subtrees_roots = match Self::calculate_subtrees_roots(&subtrees, storage, &self.tree_height) {
            Ok(v) => v,
            Err(e) => {
                proof {
                    let j = choose|j: int| 0 <= j < subtrees@.len() && read_fails(st, th, #[trigger] subtrees@[j]);
                    lemma_read_fails(st, lv, th, subtrees@[j]);
                    lemma_list_none(st, lv, th, subtrees@, j);
                }
                return Err(e);
            },
        };
        let mut next: Vec<SubTree> = Vec::new();
        let mut i: usize = 0;
        proof {
            assert(next@ + subtrees@.skip(0) =~= subtrees@);
        }
        while i < subtrees.len()
            invariant
                self.nodes.wf(),
                self.tree_height == height0,
                height0 == old(self).tree_height,
                height0.0 as nat == th,
                target == laid_over(shapes(old(self).nodes.map()), list_skeleton(st, lv, th, subtrees@)),
                th <= 251,
                st == storage.contents(),
                lv == index_values(leaves@),
                sorted(lv),
                i <= subtrees@.len(),
                subtrees_roots@.len() == subtrees@.len(),
                forall|j: int|
                    0 <= j < subtrees@.len() ==> root_read(st, th, subtrees@[j], #[trigger] subtrees_roots@[j]),
                forall|j: int|
                    0 <= j < subtrees@.len() ==> valid_subtree(lv, th, #[trigger] subtrees@[j]) && subtree_height(
                        subtrees@[j].root_index.value(),
                        th,
                    ) < bound,
                forall|j: int|
                    0 <= j < next@.len() ==> valid_subtree(lv, th, #[trigger] next@[j]) && subtree_height(
                        next@[j].root_index.value(),
                        th,
                    ) + 1 < bound,
                non_nested(next@ + subtrees@.skip(i as int)),
                laid_over(shapes(self.nodes.map()), list_skeleton(st, lv, th, next@ + subtrees@.skip(i as int))) == target,
                fv == frontier_view(subtrees@),
                bound > 0,
                first_failure(fv, root_failures(st, th)) is None,
                first_failure(fv.take(i as int), edge_failures(st, th)) is None,
                frontier_view(next@) == next_frontier(st, lv, th, fv.take(i as int)),
            decreases subtrees@.len() - i,
        {
            let node = subtrees_roots[i];
            let subtree = subtrees[i];
            let ghost old_nodes = self.nodes.map();
            let ghost old_next = next@;
            let ghost rest = subtrees@.skip(i as int + 1);
            proof {
                assert(subtrees@.skip(i as int) =~= seq![subtree] + rest);
                assert(old_next + subtrees@.skip(i as int) =~= old_next + seq![subtree] + rest);
                assert(forall|j: int| 0 <= j < old_next.len() ==> (#[trigger] old_next[j]).root_index.value() >= 1);
            }
            let ghost mut loc: Map<nat, SkeletonShape> = Map::empty();
            proof {
                assert(fv.take(i + 1).drop_last() =~= fv.take(i as int));
                assert(fv.take(i + 1).last() == subtree_view(subtree));
            }
            match node.data {
                NodeData::Binary(_) => {
                    let g = self.process_binary(node, subtree, leaves, &mut next, Ghost(st));
                    proof {
                        loc = g@;
                    }
                },
                NodeData::Edge(_) => {
                    match self.process_edge(node, subtree, leaves, &mut next, Ghost(st)) {
                        Ok(g) => {
                            proof {
                                loc = g@;
                            }
                        },
                        Err(e) => {
                            proof {
                                let a = old_next + seq![subtree] + rest;
                                assert(a[old_next.len() as int] == subtree);
                                lemma_list_none(st, lv, th, a, old_next.len() as int);
                                assert(laid_over(shapes(self.nodes.map()), list_skeleton(st, lv, th, a)) is None);
                                assert(target is None);
                                lemma_first_failure_prefix(fv, edge_failures(st, th), i + 1);
                            }
                            return Err(e);
                        },
                    }
                },
                NodeData::Leaf(_) => {
                    let g = self.process_leaf(node, subtree, Ghost(st), Ghost(lv), Ghost(next@));
                    proof {
                        loc = g@;
                    }
                },
            }
            proof {
                lemma_frontier_step(st, lv, th, subtree, old_nodes, self.nodes.map(), old_next, next@, rest, loc);
                let ch = next@.skip(old_next.len() as int);
                assert forall|j: int| 0 <= j < next@.len() implies valid_subtree(lv, th, #[trigger] next@[j]) && subtree_height(
                    next@[j].root_index.value(),
                    th,
                ) + 1 < bound by {
                    if j < old_next.len() {
                        assert(next@.subrange(0, old_next.len() as int)[j] == next@[j]);
                        assert(old_next[j] == next@[j]);
                    } else {
                        assert(ch[j - old_next.len()] == next@[j]);
                    }
                }
            }
            i += 1;
            proof {
                assert(subtrees@.skip(i as int) =~= rest);
            }
        }
        let ghost nodes_n = self.nodes.map();
        proof {
            assert(next@ + subtrees@.skip(i as int) =~= next@);
            assert(non_nested(next@));
            assert(fv.take(i as int) =~= fv);
        }
        let r = self.fetch_nodes(next, storage, leaves, Ghost((bound - 1) as nat));
        proof {
            if r is Ok {
                let m = list_skeleton(st, lv, th, next@).unwrap();
                assert(laid_over(shapes(nodes_n), list_skeleton(st, lv, th, next@)) == Some(shapes(nodes_n).union_prefer_right(m)));
            }
        }
        r
    }
}

/// Every leaf index is on the leaf level of a tree of the given height.
pub open spec fn on_leaf_level(leaves: Seq<nat>, tree_height: nat) -> bool {
    forall|i: int| 0 <= i < leaves.len() ==> pow2(tree_height) <= #[trigger] leaves[i] < pow2(tree_height + 1)
}

impl OriginalSkeletonTreeImpl {
    /// Reads from storage the original skeleton of the tree of the given
    /// height and root hash, for the given sorted modified leaf indices.
    pub fn create_tree(
        storage: &MapStorage,
        sorted_leaf_indices: &[NodeIndex],
        root_hash: HashOutput,
        tree_height: TreeHeight,
    ) -> (r: Result<OriginalSkeletonTreeImpl, OriginalSkeletonTreeError>)
        requires
            storage.wf(),
            tree_height.0 <= 251,
            sorted(index_values(sorted_leaf_indices@)),
            on_leaf_level(index_values(sorted_leaf_indices@), tree_height.0 as nat),
        ensures
            r is Ok <==> skeleton(
                storage.contents(),
                index_values(sorted_leaf_indices@),
                1,
                root_hash.val(),
                tree_height.0 as nat,
                0,
                sorted_leaf_indices@.len() as int,
            ) is Some,
            r matches Ok(t) ==> {
                &&& t.tree_height == tree_height
                &&& t.nodes.wf()
                &&& shapes(t.nodes.map()) == skeleton(
                    storage.contents(),
                    index_values(sorted_leaf_indices@),
                    1,
                    root_hash.val(),
                    tree_height.0 as nat,
                    0,
                    sorted_leaf_indices@.len() as int,
                ).unwrap()
            },
            r matches Err(e) ==> read_failure_is(
                e,
                read_failure(
                    storage.contents(),
                    index_values(sorted_leaf_indices@),
                    root_hash.val(),
                    tree_height.0 as nat,
                ),
            ),
    {
        let ghost st = storage.contents();
        let ghost lv = index_values(sorted_leaf_indices@);
        let ghost th = tree_height.0 as nat;
        let main_subtree = SubTree {
            leaves_start: 0,
            leaves_end: sorted_leaf_indices.len(),
            root_index: NodeIndex::root(),
            root_hash,
        };
        let mut skeleton_tree = OriginalSkeletonTreeImpl { nodes: AssocMap::new(), tree_height };
        let mut subtrees: Vec<SubTree> = Vec::new();
        subtrees.push(main_subtree);
        proof {
            lemma2_to64();
            crate::bits::lemma_bit_len_exact(1, 1);
            assert(subtree_height(1, th) == th);
            assert(valid_subtree(lv, th, main_subtree)) by {
                assert forall|i: int| 0 <= i < lv.len() implies 1 * pow2(th) <= #[trigger] lv[i] < (1 + 1) * pow2(th) by {
                    lemma_pow2_unfold(th + 1);
                }
            }
            assert(subtrees@ =~= seq![main_subtree]);
            assert(frontier_view(subtrees@) =~= seq![(1nat, root_hash.val(), 0int, lv.len() as int)]);
            assert(non_nested(subtrees@));
            lemma_list_single(st, lv, th, main_subtree);
            assert(shapes(skeleton_tree.nodes.map()) =~= Map::<nat, SkeletonShape>::empty());
        }
        match skeleton_tree.fetch_nodes(subtrees, storage, sorted_leaf_indices, Ghost(th + 1)) {
            Ok(()) => {
                proof {
                    let m = sub_skeleton(st, lv, th, main_subtree).unwrap();
                    assert(m.union_prefer_right(Map::<nat, SkeletonShape>::empty()) =~= m);
                    assert(Map::<nat, SkeletonShape>::empty().union_prefer_right(m) =~= m);
                }
                Ok(skeleton_tree)
            },
            Err(e) => Err(e),
        }
    }
}

/// No two indices of a list have the same value.
pub open spec fn distinct_indices(s: Seq<NodeIndex>) -> bool {
    forall|i: int, j: int| 0 <= i < s.len() && 0 <= j < s.len() && i != j ==> (#[trigger] s[i]).value() != (#[trigger] s[j]).value()
}

/// The increasing list of the numbers of a finite set.
pub open spec fn sorted_form(s: Set<nat>) -> Seq<nat> {
    choose|q: Seq<nat>| sorted(q) && q.to_set() == s
}

/// Two increasing lists of the same numbers are equal.
pub proof fn lemma_sorted_unique(a: Seq<nat>, b: Seq<nat>)
    requires
        sorted(a),
        sorted(b),
        a.to_set() == b.to_set(),
    ensures
        a == b,
    decreases a.len(),
{
    if a.len() == 0 {
        if b.len() > 0 {
            assert(b.to_set().contains(b[0]));
        }
        assert(a =~= b);
    } else {
        assert(a.to_set().contains(a[0]));
        assert(b.len() > 0) by {
            if b.len() == 0 {
                assert(b.to_set().contains(a[0]));
            }
        }
        // The first elements are both the least of the set.
        assert(b.to_set().contains(a[0]));
        let j = choose|j: int| 0 <= j < b.len() && b[j] == a[0];
        assert(a.to_set().contains(b[0]));
        let k = choose|k: int| 0 <= k < a.len() && a[k] == b[0];
        assert(a[0] == b[0]) by {
            if j > 0 {
                assert(b[0] < b[j]);
            }
            if k > 0 {
                assert(a[0] < a[k]);
            }
        }
        let a1 = a.skip(1);
        let b1 = b.skip(1);
        assert forall|x: nat| a1.to_set().contains(x) <==> b1.to_set().contains(x) by {
            if a1.to_set().contains(x) {
                let i = choose|i: int| 0 <= i < a1.len() && a1[i] == x;
                assert(a[i + 1] == x);
                assert(a.to_set().contains(x));
                let t = choose|t: int| 0 <= t < b.len() && b[t] == x;
                assert(x != a[0]);
                assert(t != 0);
                assert(b1[t - 1] == x);
            }
            if b1.to_set().contains(x) {
                let i = choose|i: int| 0 <= i < b1.len() && b1[i] == x;
                assert(b[i + 1] == x);
                assert(b.to_set().contains(x));
                let t = choose|t: int| 0 <= t < a.len() && a[t] == x;
                assert(x != b[0]);
                assert(t != 0);
                assert(a1[t - 1] == x);
            }
        }
        assert(a1.to_set() =~= b1.to_set());
        assert(sorted(a1)) by {
            assert forall|x: int, y: int| 0 <= x < y < a1.len() implies a1[x] < a1[y] by {
                assert(a1[x] == a[x + 1] && a1[y] == a[y + 1]);
            }
        }
        assert(sorted(b1)) by {
            assert forall|x: int, y: int| 0 <= x < y < b1.len() implies b1[x] < b1[y] by {
                assert(b1[x] == b[x + 1] && b1[y] == b[y + 1]);
            }
        }
        lemma_sorted_unique(a1, b1);
        assert(a =~= b) by {
            assert forall|i: int| 0 <= i < a.len() implies a[i] == b[i] by {
                if i > 0 {
                    assert(a[i] == a1[i - 1] && b[i] == b1[i - 1]);
                }
            }
        }
    }
}

/// An increasing list is the sorted form of its numbers.
pub proof fn lemma_sorted_form(q: Seq<nat>)
    requires
        sorted(q),
    ensures
        sorted_form(q.to_set()) == q,
{
    let s = q.to_set();
    assert(sorted(q) && q.to_set() == s);
    let c = sorted_form(s);
    lemma_sorted_unique(c, q);
}

/// Sorts indices with distinct values into increasing order.
pub fn sort_indices(v: Vec<NodeIndex>) -> (r: Vec<NodeIndex>)
    requires
        distinct_indices(v@),
    ensures
        sorted(index_values(r@)),
        index_values(r@).to_set() == index_values(v@).to_set(),
        r@.len() == v@.len(),
{
    let mut r: Vec<NodeIndex> = Vec::new();
    let mut i: usize = 0;
    while i < v.len()
        invariant
            i <= v@.len(),
            distinct_indices(v@),
            r@.len() == i,
            sorted(index_values(r@)),
            index_values(r@).to_set() == index_values(v@.take(i as int)).to_set(),
        decreases v@.len() - i,
    {
        let x = v[i];
        let ghost old_r = r@;
        let ghost ov = index_values(old_r);
        proof {
            // `x` is not among the values sorted so far.
            if ov.to_set().contains(x.value()) {
                assert(index_values(v@.take(i as int)).to_set().contains(x.value()));
                let t = choose|t: int| 0 <= t < i && index_values(v@.take(i as int))[t] == x.value();
                assert(v@[t].value() == v@[i as int].value());
            }
        }
        let mut j: usize = 0;
        let mut go = true;
        while go && j < r.len()
            invariant
                r@ == old_r,
                j <= r@.len(),
                forall|k: int| 0 <= k < j ==> (#[trigger] r@[k]).value() < x.value(),
                !go ==> j < r@.len() && r@[j as int].value() >= x.value(),
            decreases r@.len() - j + (if go { 1int } else { 0int }),
        {
            if r[j].lt(&x) {
                j += 1;
            } else {
                go = false;
            }
        }
        r.insert(j, x);
        let ghost nv = index_values(r@);
        proof {
            assert(nv =~= ov.insert(j as int, x.value()));
            assert forall|k: int| j <= k < ov.len() implies ov[k] > x.value() by {
                assert(ov[j as int] >= x.value());
                if k > j {
                    assert(ov[j as int] < ov[k]);
                }
                assert(ov[k] != x.value()) by {
                    assert(ov.to_set().contains(ov[k]));
                }
            }
            assert forall|a: int, b: int| 0 <= a < b < nv.len() implies nv[a] < nv[b] by {
                if b < j {
                    assert(nv[a] == ov[a] && nv[b] == ov[b]);
                } else if b == j {
                    assert(nv[a] == ov[a]);
                } else if a == j {
                    assert(nv[b] == ov[b - 1]);
                } else if a < j {
                    assert(nv[a] == ov[a] && nv[b] == ov[b - 1]);
                } else {
                    assert(nv[a] == ov[a - 1] && nv[b] == ov[b - 1]);
                }
            }
            let tv = index_values(v@.take(i as int + 1));
            assert(tv =~= index_values(v@.take(i as int)).push(x.value()));
            assert forall|y: nat| nv.to_set().contains(y) <==> tv.to_set().contains(y) by {
                let pv = index_values(v@.take(i as int));
                if nv.to_set().contains(y) {
                    let t = choose|t: int| 0 <= t < nv.len() && nv[t] == y;
                    if t == j {
                        assert(tv[i as int] == y);
                    } else {
                        let u = if t < j { t } else { t - 1 };
                        assert(ov[u] == y);
                        assert(ov.to_set().contains(y));
                        assert(pv.to_set().contains(y));
                        let w = choose|w: int| 0 <= w < pv.len() && pv[w] == y;
                        assert(tv[w] == y);
                    }
                }
                if tv.to_set().contains(y) {
                    let t = choose|t: int| 0 <= t < tv.len() && tv[t] == y;
                    if t == i {
                        assert(nv[j as int] == y);
                    } else {
                        assert(pv[t] == y);
                        assert(pv.to_set().contains(y));
                        assert(ov.to_set().contains(y));
                        let w = choose|w: int| 0 <= w < ov.len() && ov[w] == y;
                        if w < j {
                            assert(nv[w] == y);
                        } else {
                            assert(nv[w + 1] == y);
                        }
                    }
                }
            }
            assert(nv.to_set() =~= tv.to_set());
        }
        i += 1;
    }
    proof {
        assert(v@.take(v@.len() as int) =~= v@);
    }
    r
}

} // verus!
