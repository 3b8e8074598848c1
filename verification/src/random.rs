//! Random values of the library's types, for tests and benchmarks. The
//! randomness comes from `rand`; of a random value only its range is known.
use crate::assoc::AssocMap;
use crate::felt::Felt;
use crate::filled_node::FilledNode;
use crate::filled_tree::FilledTreeImpl;
use crate::forest::FilledForestImpl;
use crate::hash::HashOutput;
use crate::input::ContractAddress;
use crate::leaf::{ClassHash, CompiledClassHash, ContractState, LeafDataImpl, Nonce};
use crate::node_data::{BinaryData, EdgeData, EdgePath, EdgePathLength, NodeData, PathToBottom};
use crate::types::NodeIndex;
use crate::uint256::{u256_add, u256_sub, U256};
use vstd::arithmetic::power2::*;
use vstd::prelude::*;

verus! {

/// `rand::random::<u128>()`: any 128-bit number.
#[verifier::external_body]
fn random_u128() -> (r: u128) {
    rand::random::<u128>()
}

/// `rand::random::<u8>()`: any byte.
#[verifier::external_body]
fn random_u8() -> (r: u8) {
    rand::random::<u8>()
}

/// `rand::Rng::gen_range` on `low..high` with the thread's generator: a
/// number in the range, which must not be empty.
#[verifier::external_body]
fn gen_range_u128(low: u128, high: u128) -> (r: u128)
    requires
        low < high,
    ensures
        low <= r < high,
{
    rand::Rng::gen_range(&mut rand::thread_rng(), low..high)
}

/// `rand::Rng::gen_range` on `low..high` with the thread's generator, for bytes.
#[verifier::external_body]
fn gen_range_u8(low: u8, high: u8) -> (r: u8)
    requires
        low < high,
    ensures
        low <= r < high,
{
    rand::Rng::gen_range(&mut rand::thread_rng(), low..high)
}

/// A random number in `[low, high)`, a range of at most `u128::MAX` numbers:
/// `low` plus a random offset below the size of the range.
pub fn random_u256_in_short_range(low: U256, high: U256) -> (r: U256)
    requires
        low.value() < high.value(),
        high.value() - low.value() <= u128::MAX,
    ensures
        low.value() <= r.value() < high.value(),
{
    let delta = u256_sub(high, low);
    proof {
        crate::bits::lemma_pow2_128();
        crate::uint256::lemma_value_bound(high);
        if delta.high > 0 {
            assert(delta.value() >= crate::bits::pow2_128()) by (nonlinear_arith)
                requires
                    delta.value() == delta.high as nat * crate::bits::pow2_128() + delta.low as nat,
                    delta.high > 0,
            ;
        }
    }
    let offset = gen_range_u128(0, delta.low);
    u256_add(low, U256::from_u128(offset))
}

/// A random leaf: of any kind, each of its field elements below `2^128`.
pub open spec fn random_leaf(l: LeafDataImpl) -> bool {
    match l {
        LeafDataImpl::StorageValue(v) => v.val() <= u128::MAX,
        LeafDataImpl::CompiledClassHash(c) => c.0.val() <= u128::MAX,
        LeafDataImpl::ContractState(s) => s.nonce.0.val() <= u128::MAX && s.storage_root_hash.val() <= u128::MAX
            && s.class_hash.0.val() <= u128::MAX,
    }
}

/// Random binary data: both hashes below `2^128`.
pub open spec fn random_binary(b: BinaryData) -> bool {
    b.left_hash.val() <= u128::MAX && b.right_hash.val() <= u128::MAX
}

/// A random path to a bottom: a path in `[1, 2^128)`, of any length.
pub open spec fn random_path_to_bottom(p: PathToBottom) -> bool {
    1 <= p.path.0.value() <= u128::MAX
}

/// Random edge data: the bottom hash below `2^128` and a random path.
pub open spec fn random_edge(e: EdgeData) -> bool {
    e.bottom_hash.val() <= u128::MAX && random_path_to_bottom(e.path_to_bottom)
}

/// Random node data: binary, edge or leaf data, each random.
pub open spec fn random_node_data(d: NodeData<LeafDataImpl>) -> bool {
    match d {
        NodeData::Binary(b) => random_binary(b),
        NodeData::Edge(e) => random_edge(e),
        NodeData::Leaf(l) => random_leaf(l),
    }
}

/// Values chosen at random.
pub trait RandomValue: Sized {
    fn random() -> Self;
}

/// Values chosen at random that need not stand for anything consistent (a
/// tree whose hashes do not match, say).
pub trait DumpyRandomValue: Sized {
    fn dumpy_random() -> Self;
}

impl RandomValue for Felt {
    /// A field element below `2^128`.
    fn random() -> (r: Self)
        ensures
            r.val() <= u128::MAX,
    {
        Felt::from_u128(random_u128())
    }
}

impl RandomValue for HashOutput {
    /// A hash below `2^128`.
    fn random() -> (r: Self)
        ensures
            r.val() <= u128::MAX,
    {
        HashOutput(Felt::random())
    }
}

impl RandomValue for LeafDataImpl {
    /// A leaf of a kind chosen at random, with random field elements.
    fn random() -> (r: Self)
        ensures
            random_leaf(r),
    {
        let kind = gen_range_u8(0, 3);
        if kind == 0 {
            LeafDataImpl::StorageValue(Felt::random())
        } else if kind == 1 {
            LeafDataImpl::CompiledClassHash(CompiledClassHash(Felt::random()))
        } else {
            LeafDataImpl::ContractState(
                ContractState {
                    nonce: Nonce(Felt::random()),
                    storage_root_hash: HashOutput::random(),
                    class_hash: ClassHash(Felt::random()),
                },
            )
        }
    }
}

impl RandomValue for BinaryData {
    /// Two random hashes.
    fn random() -> (r: Self)
        ensures
            random_binary(r),
    {
        BinaryData { left_hash: HashOutput::random(), right_hash: HashOutput::random() }
    }
}

impl RandomValue for EdgePath {
    /// A path in `[1, 2^128)`.
    fn random() -> (r: Self)
        ensures
            1 <= r.0.value() <= u128::MAX,
    {
        proof {
            crate::bits::lemma_pow2_128();
        }
        EdgePath(random_u256_in_short_range(U256::one(), U256::from_words(1, 0)))
    }
}

impl RandomValue for EdgePathLength {
    fn random() -> Self {
        EdgePathLength(random_u8())
    }
}

impl RandomValue for PathToBottom {
    /// A random path and a random length.
    fn random() -> (r: Self)
        ensures
            random_path_to_bottom(r),
    {
        PathToBottom { path: EdgePath::random(), length: EdgePathLength::random() }
    }
}

impl RandomValue for EdgeData {
    /// A random bottom hash and a random path to it.
    fn random() -> (r: Self)
        ensures
            random_edge(r),
    {
        EdgeData { bottom_hash: HashOutput::random(), path_to_bottom: PathToBottom::random() }
    }
}

impl RandomValue for NodeData<LeafDataImpl> {
    /// Random data of a kind chosen at random.
    fn random() -> (r: Self)
        ensures
            random_node_data(r),
    {
        let kind = gen_range_u8(0, 3);
        if kind == 0 {
            NodeData::Binary(BinaryData::random())
        } else if kind == 1 {
            NodeData::Edge(EdgeData::random())
        } else {
            NodeData::Leaf(LeafDataImpl::random())
        }
    }
}

impl RandomValue for NodeIndex {
    /// An index in `[1, 2^128)`.
    fn random() -> (r: Self)
        ensures
            1 <= r.value() <= u128::MAX,
    {
        proof {
            crate::bits::lemma_pow2_128();
            lemma_pow2_strictly_increases(128, 252);
        }
        let value = random_u256_in_short_range(U256::one(), U256::from_words(1, 0));
        NodeIndex::new(value)
    }
}

impl RandomValue for FilledNode<LeafDataImpl> {
    /// Random data and a random hash, which need not match.
    fn random() -> (r: Self)
        ensures
            random_node_data(r.data),
            r.hash.val() <= u128::MAX,
    {
        FilledNode { data: NodeData::random(), hash: HashOutput::random() }
    }
}

impl DumpyRandomValue for FilledTreeImpl {
    /// A tree of the root and up to 100 more random nodes at random indices;
    /// its hashes need not match its data.
    fn dumpy_random() -> (r: Self)
        ensures
            r.tree_map.wf(),
            r.tree_map.map().dom().contains(1),
    {
        let mut tree_map: AssocMap<NodeIndex, FilledNode<LeafDataImpl>> = AssocMap::new();
        tree_map.insert(NodeIndex::root(), FilledNode::random());
        let mut i: u32 = 0;
        while i < 100
            invariant
                tree_map.wf(),
                tree_map.map().dom().contains(1),
            decreases 100 - i,
        {
            let node_index = NodeIndex::random();
            let node = FilledNode::random();
            tree_map.insert(node_index, node);
            i += 1;
        }
        FilledTreeImpl::new(tree_map)
    }
}

impl DumpyRandomValue for FilledForestImpl {
    /// A forest of up to 100 dumpy random storage tries at random addresses,
    /// a dumpy random contracts trie and a dumpy random classes trie.
    fn dumpy_random() -> (r: Self)
        ensures
            r.storage_tries.wf(),
            r.contracts_trie.tree_map.wf(),
            r.classes_trie.tree_map.wf(),
    {
        let mut storage_tries: AssocMap<ContractAddress, FilledTreeImpl> = AssocMap::new();
        let mut i: u32 = 0;
        while i < 100
            invariant
                storage_tries.wf(),
            decreases 100 - i,
        {
            let address = ContractAddress(Felt::random());
            let tree = FilledTreeImpl::dumpy_random();
            storage_tries.insert(address, tree);
            i += 1;
        }
        let contracts_trie = FilledTreeImpl::dumpy_random();
        let classes_trie = FilledTreeImpl::dumpy_random();
        FilledForestImpl { storage_tries, contracts_trie, classes_trie }
    }
}

} // verus!
