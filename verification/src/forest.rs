//! Forests of tries: the classes trie, the contracts trie and a storage trie
//! for each contract, before and after the update of a block.
use crate::assoc::{AssocMap, KeyView};
use crate::errors::{FilledTreeError, ForestError, OriginalSkeletonTreeError, UpdatedSkeletonTreeError};
use crate::filled_node::{node_bytes, node_prefix, FilledNode};
use crate::filled_tree::{
    complete, entries_of, entry_of, fill, fill_error_is, filled_hash, filled_nodes, lemma_filled_tree_consistent,
    FilledTreeImpl,
};
use crate::hash::TreeHashFunction;
use crate::leaf::{LeafData, LeafDataImpl};
use crate::updated_skeleton::{LeafModifications, UpdatedSkeletonTreeImpl};
use crate::felt::{be_bytes, Felt};
use crate::hash::HashOutput;
use crate::input::{address_values, distinct_addresses, ContractAddress, Input, StateDiff};
use crate::leaf::{ClassHash, CompiledClassHash, ContractState, Nonce, SkeletonLeaf};
use crate::original_skeleton::{
    distinct_indices, index_values, lemma_sorted_form, on_leaf_level, read_failure, read_failure_is, shapes, skeleton,
    sort_indices, sorted, sorted_form, OriginalSkeletonTreeImpl, ReadFailure, SkeletonShape,
};
use crate::storage::{db_key, entries_map, MapStorage, StorageKey, StorageValue};
use crate::types::{index_bound, NodeIndex, TreeHeight};
use vstd::arithmetic::power2::*;
use vstd::prelude::*;

verus! {

/// The leaf indices of the given keys in a tree of the given height.
pub open spec fn leaves_of(keys: Set<nat>, tree_height: nat) -> Set<nat> {
    Set::new(|x: nat| x >= pow2(tree_height) && keys.contains((x - pow2(tree_height)) as nat))
}

/// The original skeleton of the trie with the given root hash, for the given
/// modified leaves.
pub open spec fn trie_skeleton(
    st: Map<Seq<u8>, StorageValue>,
    leaves: Set<nat>,
    root_hash: nat,
    tree_height: nat,
) -> Option<Map<nat, SkeletonShape>> {
    let lv = sorted_form(leaves);
    skeleton(st, lv, 1, root_hash, tree_height, 0, lv.len() as int)
}

/// Why reading the original skeleton of the trie with the given root hash,
/// for the given modified leaves, fails.
pub open spec fn trie_failure(
    st: Map<Seq<u8>, StorageValue>,
    leaves: Set<nat>,
    root_hash: nat,
    tree_height: nat,
) -> Option<ReadFailure> {
    read_failure(st, sorted_form(leaves), root_hash, tree_height)
}

/// The field elements of a list, as numbers.
pub open spec fn felt_values(s: Seq<Felt>) -> Seq<nat> {
    s.map_values(|f: Felt| f.val())
}

/// The leaf indices of distinct keys, each below `2^tree_height`.
fn leaf_indices_of(keys: &Vec<Felt>, tree_height: &TreeHeight) -> (r: Vec<NodeIndex>)
    requires
        tree_height.0 <= 251,
        forall|i: int, j: int| 0 <= i < keys@.len() && 0 <= j < keys@.len() && i != j ==> (#[trigger] keys@[i]).val() != (#[trigger] keys@[j]).val(),
        forall|i: int| 0 <= i < keys@.len() ==> (#[trigger] keys@[i]).val() < pow2(tree_height.0 as nat),
    ensures
        distinct_indices(r@),
        on_leaf_level(index_values(r@), tree_height.0 as nat),
        index_values(r@).to_set() == leaves_of(felt_values(keys@).to_set(), tree_height.0 as nat),
{
    let ghost th = tree_height.0 as nat;
    proof {
        lemma_pow2_unfold(th + 1);
        if th < 251 {
            lemma_pow2_strictly_increases(th + 1, 252);
        }
    }
    let mut r: Vec<NodeIndex> = Vec::new();
    let mut i: usize = 0;
    while i < keys.len()
        invariant
            th == tree_height.0,
            th <= 251,
            pow2(th + 1) == 2 * pow2(th),
            pow2(th + 1) <= index_bound(),
            i <= keys@.len(),
            r@.len() == i,
            forall|t: int| 0 <= t < i ==> (#[trigger] r@[t]).value() == pow2(th) + keys@[t].val(),
            forall|i: int| 0 <= i < keys@.len() ==> (#[trigger] keys@[i]).val() < pow2(th),
        decreases keys@.len() - i,
    {
        let index = NodeIndex::from_leaf_felt(&keys[i], tree_height);
        r.push(index);
        i += 1;
    }
    proof {
        let rv = index_values(r@);
        let kv = felt_values(keys@);
        assert forall|x: nat| rv.to_set().contains(x) <==> leaves_of(kv.to_set(), th).contains(x) by {
            if rv.to_set().contains(x) {
                let t = choose|t: int| 0 <= t < rv.len() && rv[t] == x;
                assert(r@[t].value() == x);
                assert(kv[t] == (x - pow2(th)) as nat);
                assert(kv.to_set().contains((x - pow2(th)) as nat));
            }
            if leaves_of(kv.to_set(), th).contains(x) {
                let t = choose|t: int| 0 <= t < kv.len() && kv[t] == (x - pow2(th)) as nat;
                assert(rv[t] == x);
            }
        }
        assert(rv.to_set() =~= leaves_of(kv.to_set(), th));
        assert forall|a: int, b: int| 0 <= a < r@.len() && 0 <= b < r@.len() && a != b implies (#[trigger] r@[a]).value() != (#[trigger] r@[b]).value() by {
            assert(keys@[a].val() != keys@[b].val());
        }
    }
    r
}

/// Reads the original skeleton of a trie for the given distinct leaves.
fn create_trie(
    storage: &MapStorage,
    leaf_indices: Vec<NodeIndex>,
    root_hash: HashOutput,
    tree_height: TreeHeight,
) -> (r: Result<OriginalSkeletonTreeImpl, OriginalSkeletonTreeError>)
    requires
        storage.wf(),
        tree_height.0 <= 251,
        distinct_indices(leaf_indices@),
        on_leaf_level(index_values(leaf_indices@), tree_height.0 as nat),
    ensures
        r is Ok <==> trie_skeleton(
            storage.contents(),
            index_values(leaf_indices@).to_set(),
            root_hash.val(),
            tree_height.0 as nat,
        ) is Some,
        r matches Ok(t) ==> {
            &&& t.nodes.wf()
            &&& t.tree_height == tree_height
            &&& shapes(t.nodes.map()) == trie_skeleton(
                storage.contents(),
                index_values(leaf_indices@).to_set(),
                root_hash.val(),
                tree_height.0 as nat,
            ).unwrap()
        },
        r matches Err(e) ==> read_failure_is(
            e,
            trie_failure(storage.contents(), index_values(leaf_indices@).to_set(), root_hash.val(), tree_height.0 as nat),
        ),
{
    let ghost input = index_values(leaf_indices@);
    let sorted_leaf_indices = sort_indices(leaf_indices);
    let ghost lv = index_values(sorted_leaf_indices@);
    proof {
        lemma_sorted_form(lv);
        assert forall|i: int| 0 <= i < lv.len() implies pow2(tree_height.0 as nat) <= #[trigger] lv[i] < pow2(
            tree_height.0 as nat + 1,
        ) by {
            assert(lv.to_set().contains(lv[i]));
            assert(input.to_set().contains(lv[i]));
            let j = choose|j: int| 0 <= j < input.len() && input[j] == lv[i];
        }
    }
    OriginalSkeletonTreeImpl::create_tree(storage, sorted_leaf_indices.as_slice(), root_hash, tree_height)
}

/// The keys of a contract's storage that the diff updates.
pub open spec fn storage_keys(state_diff: &StateDiff, address: nat) -> Set<nat> {
    if state_diff.storage_updates.map().dom().contains(address) {
        state_diff.storage_updates.map()[address].map().dom()
    } else {
        Set::empty()
    }
}

/// Every address, storage key and class hash of the diff is below
/// `2^tree_height`, so that it has a leaf in the tries.
pub open spec fn keys_fit(state_diff: &StateDiff, tree_height: nat) -> bool {
    &&& forall|a: nat| #[trigger] state_diff.accessed().contains(a) ==> a < pow2(tree_height)
    &&& forall|a: nat, k: nat| #[trigger] storage_keys(state_diff, a).contains(k) ==> k < pow2(tree_height)
    &&& forall|c: nat| #[trigger] state_diff.class_hash_to_compiled_class_hash.map().dom().contains(c) ==> c < pow2(
        tree_height,
    )
}

/// The original skeletons of the tries of a block.
pub struct OriginalSkeletonForestImpl {
    pub classes_trie: OriginalSkeletonTreeImpl,
    pub contracts_trie: OriginalSkeletonTreeImpl,
    pub storage_tries: AssocMap<ContractAddress, OriginalSkeletonTreeImpl>,
}

/// The storage keys of entries with distinct keys, as field elements.
fn storage_key_felts<V>(entries: &Vec<(crate::input::StarknetStorageKey, V)>) -> (r: Vec<Felt>)
    requires
        crate::assoc::unique_keys(entries@),
    ensures
        r@.len() == entries@.len(),
        forall|i: int| 0 <= i < r@.len() ==> (#[trigger] r@[i]).val() == entries@[i].0.0.val(),
        forall|i: int, j: int| 0 <= i < r@.len() && 0 <= j < r@.len() && i != j ==> (#[trigger] r@[i]).val() != (#[trigger] r@[j]).val(),
{
    let mut r: Vec<Felt> = Vec::new();
    let mut i: usize = 0;
    while i < entries.len()
        invariant
            i <= entries@.len(),
            r@.len() == i,
            forall|t: int| 0 <= t < i ==> (#[trigger] r@[t]).val() == entries@[t].0.0.val(),
        decreases entries@.len() - i,
    {
        r.push(entries[i].0.0);
        i += 1;
    }
    proof {
        assert forall|a: int, b: int| 0 <= a < r@.len() && 0 <= b < r@.len() && a != b implies (#[trigger] r@[a]).val() != (#[trigger] r@[b]).val() by {
            assert(entries@[a].0.key() != entries@[b].0.key());
        }
    }
    r
}

/// The class hashes of entries with distinct keys, as field elements.
fn class_hash_felts<V>(entries: &Vec<(ClassHash, V)>) -> (r: Vec<Felt>)
    requires
        crate::assoc::unique_keys(entries@),
    ensures
        r@.len() == entries@.len(),
        forall|i: int| 0 <= i < r@.len() ==> (#[trigger] r@[i]).val() == entries@[i].0.0.val(),
        forall|i: int, j: int| 0 <= i < r@.len() && 0 <= j < r@.len() && i != j ==> (#[trigger] r@[i]).val() != (#[trigger] r@[j]).val(),
{
    let mut r: Vec<Felt> = Vec::new();
    let mut i: usize = 0;
    while i < entries.len()
        invariant
            i <= entries@.len(),
            r@.len() == i,
            forall|t: int| 0 <= t < i ==> (#[trigger] r@[t]).val() == entries@[t].0.0.val(),
        decreases entries@.len() - i,
    {
        r.push(entries[i].0.0);
        i += 1;
    }
    proof {
        assert forall|a: int, b: int| 0 <= a < r@.len() && 0 <= b < r@.len() && a != b implies (#[trigger] r@[a]).val() != (#[trigger] r@[b]).val() by {
            assert(entries@[a].0.key() != entries@[b].0.key());
        }
    }
    r
}

/// The keys of entries of a map, as numbers, are its domain.
proof fn lemma_entry_keys<K: KeyView<Key = nat>, V>(m: AssocMap<K, V>, r: Seq<Felt>)
    requires
        r.len() == m.entries@.len(),
        forall|i: int| 0 <= i < r.len() ==> (#[trigger] r[i]).val() == m.entries@[i].0.key(),
    ensures
        felt_values(r).to_set() == m.map().dom(),
{
    assert forall|k: nat| felt_values(r).to_set().contains(k) <==> m.map().dom().contains(k) by {
        crate::assoc::lemma_to_map_dom(m.entries@, k);
        if felt_values(r).to_set().contains(k) {
            let i = choose|i: int| 0 <= i < felt_values(r).len() && felt_values(r)[i] == k;
            assert(r[i].val() == k);
        }
        if m.map().dom().contains(k) {
            let i = choose|i: int| 0 <= i < m.entries@.len() && (#[trigger] m.entries@[i]).0.key() == k;
            assert(felt_values(r)[i] == k);
        }
    }
    assert(felt_values(r).to_set() =~= m.map().dom());
}

impl OriginalSkeletonForestImpl {
    pub fn new(
        classes_trie: OriginalSkeletonTreeImpl,
        contracts_trie: OriginalSkeletonTreeImpl,
        storage_tries: AssocMap<ContractAddress, OriginalSkeletonTreeImpl>,
    ) -> (r: OriginalSkeletonForestImpl)
        ensures
            r.classes_trie == classes_trie,
            r.contracts_trie == contracts_trie,
            r.storage_tries == storage_tries,
    {
        OriginalSkeletonForestImpl { classes_trie, contracts_trie, storage_tries }
    }
}

/// The storage trie of a contract can be read: its current state is known and
/// the skeleton of its storage trie, for the updated keys, is in storage.
pub open spec fn storage_trie_readable(
    st: Map<Seq<u8>, StorageValue>,
    tree_height: nat,
    current: Map<nat, ContractState>,
    state_diff: &StateDiff,
    address: nat,
) -> bool {
    &&& current.dom().contains(address)
    &&& trie_skeleton(
        st,
        leaves_of(storage_keys(state_diff, address), tree_height),
        current[address].storage_root_hash.val(),
        tree_height,
    ) is Some
}

/// The original skeleton read for a contract's storage trie.
pub open spec fn storage_trie_matches(
    st: Map<Seq<u8>, StorageValue>,
    tree_height: TreeHeight,
    current: Map<nat, ContractState>,
    state_diff: &StateDiff,
    address: nat,
    trie: OriginalSkeletonTreeImpl,
) -> bool {
    &&& trie.nodes.wf()
    &&& trie.tree_height == tree_height
    &&& shapes(trie.nodes.map()) == trie_skeleton(
        st,
        leaves_of(storage_keys(state_diff, address), tree_height.0 as nat),
        current[address].storage_root_hash.val(),
        tree_height.0 as nat,
    ).unwrap()
}

/// The error that stands for a failure to read the storage trie of a
/// contract: its current state is missing, or reading the trie fails.
pub open spec fn storage_trie_error(
    st: Map<Seq<u8>, StorageValue>,
    tree_height: nat,
    current: Map<nat, ContractState>,
    state_diff: &StateDiff,
    address: nat,
    e: OriginalSkeletonTreeError,
) -> bool {
    if !current.dom().contains(address) {
        e matches OriginalSkeletonTreeError::LowerTreeCommitmentError(x) && x.0.val() == address
    } else {
        read_failure_is(
            e,
            trie_failure(
                st,
                leaves_of(storage_keys(state_diff, address), tree_height),
                current[address].storage_root_hash.val(),
                tree_height,
            ),
        )
    }
}

/// The addresses before position `i` are those of a map whose keys are all
/// readable.
proof fn lemma_earlier_readable<V>(
    st: Map<Seq<u8>, StorageValue>,
    tree_height: nat,
    current: Map<nat, ContractState>,
    state_diff: &StateDiff,
    addresses: Seq<ContractAddress>,
    done: Map<nat, V>,
    i: int,
)
    requires
        forall|k: nat| #[trigger] done.dom().contains(k) <==> exists|t: int|
            0 <= t < i && (#[trigger] addresses[t]).0.val() == k,
        forall|k: nat| #[trigger] done.dom().contains(k) ==> storage_trie_readable(st, tree_height, current, state_diff, k),
    ensures
        forall|t: int| 0 <= t < i ==> storage_trie_readable(
            st,
            tree_height,
            current,
            state_diff,
            (#[trigger] addresses[t]).0.val(),
        ),
{
    assert forall|t: int| 0 <= t < i implies storage_trie_readable(
        st,
        tree_height,
        current,
        state_diff,
        (#[trigger] addresses[t]).0.val(),
    ) by {
        assert(done.dom().contains(addresses[t].0.val()));
    }
}

/// The error of reading the original skeletons of a block: that of the
/// contracts trie if it cannot be read; else that of the storage trie of some
/// contract whose trie cannot be read (the contracts are tried in no stated
/// order); else that of the classes trie.
pub open spec fn forest_read_error(
    st: Map<Seq<u8>, StorageValue>,
    contracts_trie_root_hash: nat,
    classes_trie_root_hash: nat,
    tree_height: nat,
    current: Map<nat, ContractState>,
    state_diff: &StateDiff,
    e: OriginalSkeletonTreeError,
) -> bool {
    let contracts_leaves = leaves_of(state_diff.accessed(), tree_height);
    if trie_skeleton(st, contracts_leaves, contracts_trie_root_hash, tree_height) is None {
        read_failure_is(e, trie_failure(st, contracts_leaves, contracts_trie_root_hash, tree_height))
    } else if exists|a: nat| #[trigger] state_diff.accessed().contains(a) && !storage_trie_readable(
        st,
        tree_height,
        current,
        state_diff,
        a,
    ) {
        exists|a: nat| #[trigger] state_diff.accessed().contains(a) && !storage_trie_readable(
            st,
            tree_height,
            current,
            state_diff,
            a,
        ) && storage_trie_error(st, tree_height, current, state_diff, a, e)
    } else {
        read_failure_is(
            e,
            trie_failure(
                st,
                leaves_of(state_diff.class_hash_to_compiled_class_hash.map().dom(), tree_height),
                classes_trie_root_hash,
                tree_height,
            ),
        )
    }
}

/// The original skeletons of a block can all be read.
pub open spec fn forest_readable(
    st: Map<Seq<u8>, StorageValue>,
    contracts_trie_root_hash: nat,
    classes_trie_root_hash: nat,
    tree_height: nat,
    current: Map<nat, ContractState>,
    state_diff: &StateDiff,
) -> bool {
    &&& trie_skeleton(st, leaves_of(state_diff.accessed(), tree_height), contracts_trie_root_hash, tree_height) is Some
    &&& forall|a: nat| #[trigger] state_diff.accessed().contains(a) ==> storage_trie_readable(st, tree_height, current, state_diff, a)
    &&& trie_skeleton(
        st,
        leaves_of(state_diff.class_hash_to_compiled_class_hash.map().dom(), tree_height),
        classes_trie_root_hash,
        tree_height,
    ) is Some
}

impl OriginalSkeletonForestImpl {
    /// Reads the original skeleton of the contracts trie at the leaves of the
    /// given addresses.
    fn create_contracts_trie(
        accessed_addresses: &Vec<ContractAddress>,
        contracts_trie_root_hash: HashOutput,
        storage: &MapStorage,
        tree_height: TreeHeight,
    ) -> (r: Result<OriginalSkeletonTreeImpl, OriginalSkeletonTreeError>)
        requires
            storage.wf(),
            tree_height.0 <= 251,
            distinct_addresses(accessed_addresses@),
            forall|t: int| 0 <= t < accessed_addresses@.len() ==> (#[trigger] accessed_addresses@[t]).0.val() < pow2(
                tree_height.0 as nat,
            ),
        ensures
            r is Ok <==> trie_skeleton(
                storage.contents(),
                leaves_of(address_values(accessed_addresses@).to_set(), tree_height.0 as nat),
                contracts_trie_root_hash.val(),
                tree_height.0 as nat,
            ) is Some,
            r matches Ok(t) ==> {
                &&& t.nodes.wf()
                &&& t.tree_height == tree_height
                &&& shapes(t.nodes.map()) == trie_skeleton(
                    storage.contents(),
                    leaves_of(address_values(accessed_addresses@).to_set(), tree_height.0 as nat),
                    contracts_trie_root_hash.val(),
                    tree_height.0 as nat,
                ).unwrap()
            },
            r matches Err(e) ==> read_failure_is(
                e,
                trie_failure(
                    storage.contents(),
                    leaves_of(address_values(accessed_addresses@).to_set(), tree_height.0 as nat),
                    contracts_trie_root_hash.val(),
                    tree_height.0 as nat,
                ),
            ),
    {
        let ghost th = tree_height.0 as nat;
        // The contracts trie.
        let mut address_keys: Vec<Felt> = Vec::new();
        let mut i: usize = 0;
        while i < accessed_addresses.len()
            invariant
                i <= accessed_addresses@.len(),
                address_keys@.len() == i,
                forall|t: int| 0 <= t < i ==> (#[trigger] address_keys@[t]).val() == accessed_addresses@[t].0.val(),
            decreases accessed_addresses@.len() - i,
        {
            address_keys.push(accessed_addresses[i].0);
            i += 1;
        }
        proof {
            assert(felt_values(address_keys@) =~= address_values(accessed_addresses@));
            assert forall|a: int| 0 <= a < address_keys@.len() implies (#[trigger] address_keys@[a]).val() < pow2(th) by {
                assert(address_keys@[a].val() == accessed_addresses@[a].0.val());
            }
            assert forall|a: int, b: int| 0 <= a < address_keys@.len() && 0 <= b < address_keys@.len() && a != b implies (#[trigger] address_keys@[a]).val() != (#[trigger] address_keys@[b]).val() by {
                assert(address_keys@[a].val() == accessed_addresses@[a].0.val());
                assert(address_keys@[b].val() == accessed_addresses@[b].0.val());
            }
        }
        let contract_leaves = leaf_indices_of(&address_keys, &tree_height);
        create_trie(storage, contract_leaves, contracts_trie_root_hash, tree_height)
    }

    /// Reads the original skeleton of the storage trie of each given address,
    /// at the leaves of the keys the diff updates, from the storage root of
    /// the contract's current state.
    fn create_storage_tries(
        accessed_addresses: &Vec<ContractAddress>,
        current_contracts_trie_leaves: &AssocMap<ContractAddress, ContractState>,
        state_diff: &StateDiff,
        storage: &MapStorage,
        tree_height: TreeHeight,
    ) -> (r: Result<AssocMap<ContractAddress, OriginalSkeletonTreeImpl>, OriginalSkeletonTreeError>)
        requires
            storage.wf(),
            tree_height.0 <= 251,
            state_diff.wf(),
            current_contracts_trie_leaves.wf(),
            keys_fit(state_diff, tree_height.0 as nat),
            address_values(accessed_addresses@).to_set() == state_diff.accessed(),
        ensures
            r is Ok <==> forall|a: nat| #[trigger] state_diff.accessed().contains(a) ==> storage_trie_readable(
                storage.contents(),
                tree_height.0 as nat,
                current_contracts_trie_leaves.map(),
                state_diff,
                a,
            ),
            r matches Ok(m) ==> {
                &&& m.wf()
                &&& m.map().dom() == state_diff.accessed()
                &&& forall|a: nat| #[trigger] state_diff.accessed().contains(a) ==> storage_trie_matches(
                    storage.contents(),
                    tree_height,
                    current_contracts_trie_leaves.map(),
                    state_diff,
                    a,
                    m.map()[a],
                )
            },
            r matches Err(e) ==> exists|i: int|
                0 <= i < accessed_addresses@.len() && (forall|t: int|
                    0 <= t < i ==> storage_trie_readable(
                        storage.contents(),
                        tree_height.0 as nat,
                        current_contracts_trie_leaves.map(),
                        state_diff,
                        (#[trigger] accessed_addresses@[t]).0.val(),
                    )) && !storage_trie_readable(
                    storage.contents(),
                    tree_height.0 as nat,
                    current_contracts_trie_leaves.map(),
                    state_diff,
                    (#[trigger] accessed_addresses@[i]).0.val(),
                ) && storage_trie_error(
                    storage.contents(),
                    tree_height.0 as nat,
                    current_contracts_trie_leaves.map(),
                    state_diff,
                    accessed_addresses@[i].0.val(),
                    e,
                ),
    {
        let ghost st = storage.contents();
        let ghost th = tree_height.0 as nat;
        let ghost current = current_contracts_trie_leaves.map();
        // The storage tries.
        let mut storage_tries: AssocMap<ContractAddress, OriginalSkeletonTreeImpl> = AssocMap::new();
        let mut i: usize = 0;
        while i < accessed_addresses.len()
            invariant
                i <= accessed_addresses@.len(),
                storage.wf(),
                st == storage.contents(),
                th == tree_height.0,
                th <= 251,
                state_diff.wf(),
                keys_fit(state_diff, th),
                current_contracts_trie_leaves.wf(),
                current == current_contracts_trie_leaves.map(),
                address_values(accessed_addresses@).to_set() == state_diff.accessed(),
                storage_tries.wf(),
                forall|k: nat| #[trigger] storage_tries.map().dom().contains(k) <==> exists|t: int|
                    0 <= t < i && (#[trigger] accessed_addresses@[t]).0.val() == k,
                forall|k: nat| #[trigger] storage_tries.map().dom().contains(k) ==> storage_trie_readable(
                    st,
                    th,
                    current,
                    state_diff,
                    k,
                ) && storage_trie_matches(st, tree_height, current, state_diff, k, storage_tries.map()[k]),
            decreases accessed_addresses@.len() - i,
        {
            let address = accessed_addresses[i];
            let ghost a = address.0.val();
            proof {
                assert(address_values(accessed_addresses@)[i as int] == a);
                assert(state_diff.accessed().contains(a));
            }
            let keys = match state_diff.storage_updates.get(&address) {
                Some(updates) => {
                    let k = storage_key_felts(&updates.entries);
                    proof {
                        lemma_entry_keys(*updates, k@);
                    }
                    k
                },
                None => {
                    let k: Vec<Felt> = Vec::new();
                    proof {
                        assert(felt_values(k@).to_set() =~= Set::<nat>::empty());
                    }
                    k
                },
            };
            proof {
                assert(felt_values(keys@).to_set() == storage_keys(state_diff, a));
                assert forall|x: int| 0 <= x < keys@.len() implies (#[trigger] keys@[x]).val() < pow2(th) by {
                    assert(felt_values(keys@)[x] == keys@[x].val());
                    assert(storage_keys(state_diff, a).contains(keys@[x].val()));
                }
            }
            let leaves = leaf_indices_of(&keys, &tree_height);
            let contract_state = match current_contracts_trie_leaves.get(&address) {
                Some(c) => *c,
                None => {
                    proof {
                        assert(!storage_trie_readable(st, th, current, state_diff, a));
                        lemma_earlier_readable(st, th, current, state_diff, accessed_addresses@, storage_tries.map(), i as int);
                    }
                    return Err(OriginalSkeletonTreeError::LowerTreeCommitmentError(address));
                },
            };
            let trie = match create_trie(storage, leaves, contract_state.storage_root_hash, tree_height) {
                Ok(t) => t,
                Err(e) => {
                    proof {
                        assert(!storage_trie_readable(st, th, current, state_diff, a));
                        lemma_earlier_readable(st, th, current, state_diff, accessed_addresses@, storage_tries.map(), i as int);
                        assert(storage_trie_error(st, th, current, state_diff, accessed_addresses@[i as int].0.val(), e));
                    }
                    return Err(e);
                },
            };
            storage_tries.insert(address, trie);
            proof {
                assert forall|k: nat| #[trigger] storage_tries.map().dom().contains(k) <==> exists|t: int|
                    0 <= t < i + 1 && (#[trigger] accessed_addresses@[t]).0.val() == k by {
                    if k != a && storage_tries.map().dom().contains(k) {
                        let t = choose|t: int| 0 <= t < i && (#[trigger] accessed_addresses@[t]).0.val() == k;
                        assert(0 <= t < i + 1);
                    }
                    if exists|t: int| 0 <= t < i + 1 && (#[trigger] accessed_addresses@[t]).0.val() == k {
                        let t = choose|t: int| 0 <= t < i + 1 && (#[trigger] accessed_addresses@[t]).0.val() == k;
                        if t < i {
                            assert(exists|u: int| 0 <= u < i && (#[trigger] accessed_addresses@[u]).0.val() == k);
                        }
                    }
                }
            }
            i += 1;
        }
        proof {
            assert forall|a: nat| #[trigger] state_diff.accessed().contains(a) implies storage_tries.map().dom().contains(a) by {
                assert(address_values(accessed_addresses@).to_set().contains(a));
                let t = choose|t: int| 0 <= t < address_values(accessed_addresses@).len() && address_values(accessed_addresses@)[t] == a;
                assert(accessed_addresses@[t].0.val() == a);
            }
            assert forall|a: nat| #[trigger] storage_tries.map().dom().contains(a) implies state_diff.accessed().contains(a) by {
                let t = choose|t: int| 0 <= t < i && (#[trigger] accessed_addresses@[t]).0.val() == a;
                assert(address_values(accessed_addresses@)[t] == a);
            }
            assert(storage_tries.map().dom() =~= state_diff.accessed());
        }
        Ok(storage_tries)
    }

    /// Reads the original skeleton of the classes trie at the leaves of the
    /// declared class hashes.
    fn create_classes_trie(
        class_hash_to_compiled_class_hash: &AssocMap<ClassHash, CompiledClassHash>,
        classes_trie_root_hash: HashOutput,
        storage: &MapStorage,
        tree_height: TreeHeight,
    ) -> (r: Result<OriginalSkeletonTreeImpl, OriginalSkeletonTreeError>)
        requires
            storage.wf(),
            tree_height.0 <= 251,
            class_hash_to_compiled_class_hash.wf(),
            forall|c: nat| #[trigger] class_hash_to_compiled_class_hash.map().dom().contains(c) ==> c < pow2(
                tree_height.0 as nat,
            ),
        ensures
            r is Ok <==> trie_skeleton(
                storage.contents(),
                leaves_of(class_hash_to_compiled_class_hash.map().dom(), tree_height.0 as nat),
                classes_trie_root_hash.val(),
                tree_height.0 as nat,
            ) is Some,
            r matches Ok(t) ==> {
                &&& t.nodes.wf()
                &&& t.tree_height == tree_height
                &&& shapes(t.nodes.map()) == trie_skeleton(
                    storage.contents(),
                    leaves_of(class_hash_to_compiled_class_hash.map().dom(), tree_height.0 as nat),
                    classes_trie_root_hash.val(),
                    tree_height.0 as nat,
                ).unwrap()
            },
            r matches Err(e) ==> read_failure_is(
                e,
                trie_failure(
                    storage.contents(),
                    leaves_of(class_hash_to_compiled_class_hash.map().dom(), tree_height.0 as nat),
                    classes_trie_root_hash.val(),
                    tree_height.0 as nat,
                ),
            ),
    {
        let ghost th = tree_height.0 as nat;
        // The classes trie.
        let class_keys = class_hash_felts(&class_hash_to_compiled_class_hash.entries);
        proof {
            lemma_entry_keys(*class_hash_to_compiled_class_hash, class_keys@);
            assert forall|x: int| 0 <= x < class_keys@.len() implies (#[trigger] class_keys@[x]).val() < pow2(th) by {
                assert(felt_values(class_keys@)[x] == class_keys@[x].val());
                assert(class_hash_to_compiled_class_hash.map().dom().contains(class_keys@[x].val()));
            }
        }
        let class_leaves = leaf_indices_of(&class_keys, &tree_height);
        create_trie(storage, class_leaves, classes_trie_root_hash, tree_height)
    }
}

impl OriginalSkeletonForestImpl {
    /// Reads the original skeletons of the tries that a block updates: the
    /// contracts trie at the accessed addresses, the storage trie of each
    /// accessed contract at its updated keys, and the classes trie at the
    /// declared class hashes.
    pub fn create_original_skeleton_forest(
        storage: &MapStorage,
        contracts_trie_root_hash: HashOutput,
        classes_trie_root_hash: HashOutput,
        tree_heights: TreeHeight,
        current_contracts_trie_leaves: &AssocMap<ContractAddress, ContractState>,
        state_diff: &StateDiff,
    ) -> (r: Result<OriginalSkeletonForestImpl, OriginalSkeletonTreeError>)
        requires
            storage.wf(),
            tree_heights.0 <= 251,
            state_diff.wf(),
            current_contracts_trie_leaves.wf(),
            keys_fit(state_diff, tree_heights.0 as nat),
        ensures
            r is Ok <==> forest_readable(
                storage.contents(),
                contracts_trie_root_hash.val(),
                classes_trie_root_hash.val(),
                tree_heights.0 as nat,
                current_contracts_trie_leaves.map(),
                state_diff,
            ),
            r matches Ok(f) ==> {
                &&& f.contracts_trie.nodes.wf()
                &&& f.contracts_trie.tree_height == tree_heights
                &&& shapes(f.contracts_trie.nodes.map()) == trie_skeleton(
                    storage.contents(),
                    leaves_of(state_diff.accessed(), tree_heights.0 as nat),
                    contracts_trie_root_hash.val(),
                    tree_heights.0 as nat,
                ).unwrap()
                &&& f.classes_trie.nodes.wf()
                &&& f.classes_trie.tree_height == tree_heights
                &&& shapes(f.classes_trie.nodes.map()) == trie_skeleton(
                    storage.contents(),
                    leaves_of(state_diff.class_hash_to_compiled_class_hash.map().dom(), tree_heights.0 as nat),
                    classes_trie_root_hash.val(),
                    tree_heights.0 as nat,
                ).unwrap()
                &&& f.storage_tries.wf()
                &&& f.storage_tries.map().dom() == state_diff.accessed()
                &&& forall|a: nat| #[trigger] state_diff.accessed().contains(a) ==> storage_trie_matches(
                    storage.contents(),
                    tree_heights,
                    current_contracts_trie_leaves.map(),
                    state_diff,
                    a,
                    f.storage_tries.map()[a],
                )
            },
            r matches Err(e) ==> forest_read_error(
                storage.contents(),
                contracts_trie_root_hash.val(),
                classes_trie_root_hash.val(),
                tree_heights.0 as nat,
                current_contracts_trie_leaves.map(),
                state_diff,
                e,
            ),
    {
        let accessed_addresses = state_diff.accessed_addresses();
        proof {
            assert forall|t: int| 0 <= t < accessed_addresses@.len() implies (#[trigger] accessed_addresses@[t]).0.val() < pow2(
                tree_heights.0 as nat,
            ) by {
                assert(address_values(accessed_addresses@)[t] == accessed_addresses@[t].0.val());
                assert(state_diff.accessed().contains(accessed_addresses@[t].0.val()));
            }
        }
        let global_state_tree = match Self::create_contracts_trie(
            &accessed_addresses,
            contracts_trie_root_hash,
            storage,
            tree_heights,
        ) {
            Ok(t) => t,
            Err(e) => {
                return Err(e);
            },
        };
        let contract_states = match Self::create_storage_tries(
            &accessed_addresses,
            current_contracts_trie_leaves,
            state_diff,
            storage,
            tree_heights,
        ) {
            Ok(m) => m,
            Err(e) => {
                proof {
                    let i = choose|i: int|
                        0 <= i < accessed_addresses@.len() && (forall|t: int|
                            0 <= t < i ==> storage_trie_readable(
                                storage.contents(),
                                tree_heights.0 as nat,
                                current_contracts_trie_leaves.map(),
                                state_diff,
                                (#[trigger] accessed_addresses@[t]).0.val(),
                            )) && !storage_trie_readable(
                            storage.contents(),
                            tree_heights.0 as nat,
                            current_contracts_trie_leaves.map(),
                            state_diff,
                            (#[trigger] accessed_addresses@[i]).0.val(),
                        ) && storage_trie_error(
                            storage.contents(),
                            tree_heights.0 as nat,
                            current_contracts_trie_leaves.map(),
                            state_diff,
                            accessed_addresses@[i].0.val(),
                            e,
                        );
                    let a = accessed_addresses@[i].0.val();
                    assert(address_values(accessed_addresses@)[i] == a);
                    assert(state_diff.accessed().contains(a));
                    assert(trie_skeleton(
                        storage.contents(),
                        leaves_of(state_diff.accessed(), tree_heights.0 as nat),
                        contracts_trie_root_hash.val(),
                        tree_heights.0 as nat,
                    ) is Some);
                    assert(state_diff.accessed().contains(a) && !storage_trie_readable(
                        storage.contents(),
                        tree_heights.0 as nat,
                        current_contracts_trie_leaves.map(),
                        state_diff,
                        a,
                    ) && storage_trie_error(
                        storage.contents(),
                        tree_heights.0 as nat,
                        current_contracts_trie_leaves.map(),
                        state_diff,
                        a,
                        e,
                    ));
                }
                return Err(e);
            },
        };
        let classes_tree = match Self::create_classes_trie(
            &state_diff.class_hash_to_compiled_class_hash,
            classes_trie_root_hash,
            storage,
            tree_heights,
        ) {
            Ok(t) => t,
            Err(e) => {
                return Err(e);
            },
        };
        Ok(OriginalSkeletonForestImpl::new(classes_tree, global_state_tree, contract_states))
    }
}

/// Reads the original skeleton of the storage trie of every contract whose
/// state the input's diff changes, from the storage root of the contract's
/// current state in the diff.
pub fn create_original_skeleton_forest(input: &Input) -> (r: Result<
    AssocMap<ContractAddress, OriginalSkeletonTreeImpl>,
    OriginalSkeletonTreeError,
>)
    requires
        input.storage.wf(),
        input.tree_height.0 <= 251,
        input.state_diff.wf(),
        keys_fit(&input.state_diff, input.tree_height.0 as nat),
    ensures
        r is Ok <==> forall|a: nat| #[trigger] input.state_diff.accessed().contains(a) ==> storage_trie_readable(
            input.storage.contents(),
            input.tree_height.0 as nat,
            input.state_diff.current_contract_state_leaves.map(),
            &input.state_diff,
            a,
        ),
        r matches Ok(m) ==> {
            &&& m.wf()
            &&& m.map().dom() == input.state_diff.accessed()
            &&& forall|a: nat| #[trigger] input.state_diff.accessed().contains(a) ==> storage_trie_matches(
                input.storage.contents(),
                input.tree_height,
                input.state_diff.current_contract_state_leaves.map(),
                &input.state_diff,
                a,
                m.map()[a],
            )
        },
        r matches Err(e) ==> exists|a: nat| #[trigger] input.state_diff.accessed().contains(a) && !storage_trie_readable(
            input.storage.contents(),
            input.tree_height.0 as nat,
            input.state_diff.current_contract_state_leaves.map(),
            &input.state_diff,
            a,
        ) && storage_trie_error(
            input.storage.contents(),
            input.tree_height.0 as nat,
            input.state_diff.current_contract_state_leaves.map(),
            &input.state_diff,
            a,
            e,
        ),
{
    let accessed_addresses = input.state_diff.accessed_addresses();
    let r = OriginalSkeletonForestImpl::create_storage_tries(
        &accessed_addresses,
        &input.state_diff.current_contract_state_leaves,
        &input.state_diff,
        &input.storage,
        input.tree_height,
    );
    proof {
        if r is Err {
            let e = r->Err_0;
            let i = choose|i: int|
                0 <= i < accessed_addresses@.len() && (forall|t: int|
                    0 <= t < i ==> storage_trie_readable(
                        input.storage.contents(),
                        input.tree_height.0 as nat,
                        input.state_diff.current_contract_state_leaves.map(),
                        &input.state_diff,
                        (#[trigger] accessed_addresses@[t]).0.val(),
                    )) && !storage_trie_readable(
                    input.storage.contents(),
                    input.tree_height.0 as nat,
                    input.state_diff.current_contract_state_leaves.map(),
                    &input.state_diff,
                    (#[trigger] accessed_addresses@[i]).0.val(),
                ) && storage_trie_error(
                    input.storage.contents(),
                    input.tree_height.0 as nat,
                    input.state_diff.current_contract_state_leaves.map(),
                    &input.state_diff,
                    accessed_addresses@[i].0.val(),
                    e,
                );
            let a = accessed_addresses@[i].0.val();
            assert(address_values(accessed_addresses@)[i] == a);
            assert(input.state_diff.accessed().contains(a));
        }
    }
    r
}

impl OriginalSkeletonForestImpl {
    /// The skeleton leaf of a contract after the update: zero exactly when its
    /// storage becomes empty and its nonce and class hash (the new ones where
    /// given, else the previous ones) are zero.
    pub fn updated_contract_skeleton_leaf(
        new_nonce: Option<&Nonce>,
        new_class_hash: Option<&ClassHash>,
        previous_state: &ContractState,
        storage_becomes_empty: bool,
    ) -> (r: SkeletonLeaf)
        ensures
            r == SkeletonLeaf::Zero <==> {
                &&& storage_becomes_empty
                &&& (match new_nonce {
                    Some(n) => *n,
                    None => previous_state.nonce,
                }).0.val() == 0
                &&& (match new_class_hash {
                    Some(c) => *c,
                    None => previous_state.class_hash,
                }).0.val() == 0
            },
    {
        let actual_new_nonce = match new_nonce {
            Some(n) => n,
            None => &previous_state.nonce,
        };
        let actual_new_class_hash = match new_class_hash {
            Some(c) => c,
            None => &previous_state.class_hash,
        };
        if storage_becomes_empty && actual_new_nonce.0.is_zero() && actual_new_class_hash.0.is_zero() {
            SkeletonLeaf::Zero
        } else {
            SkeletonLeaf::NonZero
        }
    }
}

/// An updated skeleton tree, built from an original skeleton tree and the
/// modifications of its leaves. What `create` gives is a function of the
/// original tree and the modifications, named by `created`; whether a tree is
/// empty is named by `empty`. Each kind of tree says what the two are; where
/// it does not, they are fixed values that nothing more is known of.
pub trait UpdatedSkeletonTree: Sized {
    /// What creating a tree from an original tree and modifications gives.
    closed spec fn created(
        original_skeleton: OriginalSkeletonTreeImpl,
        leaf_modifications: Map<nat, SkeletonLeaf>,
    ) -> Result<Self, UpdatedSkeletonTreeError> {
        vstd::pervasive::arbitrary()
    }

    /// Whether the tree stands for an empty tree (all its leaves are empty).
    closed spec fn empty(&self) -> bool {
        vstd::pervasive::arbitrary()
    }

    /// Creates an updated tree from an original tree and modifications.
    fn create(
        original_skeleton: &OriginalSkeletonTreeImpl,
        leaf_modifications: &LeafModifications,
    ) -> (r: Result<Self, UpdatedSkeletonTreeError>)
        ensures
            r == Self::created(*original_skeleton, leaf_modifications.map()),
    ;

    /// Whether the tree stands for an empty tree (all its leaves are empty).
    fn is_empty(&self) -> (r: bool)
        ensures
            r == self.empty(),
    ;
}

/// The updated skeletons of the tries of a block, of any kind of updated tree.
pub struct UpdatedSkeletonForest<U> {
    pub classes_trie: U,
    pub contracts_trie: U,
    pub storage_tries: AssocMap<ContractAddress, U>,
}

/// The storage trie of each updated contract has an original skeleton, and
/// the contract has a current state.
pub open spec fn storage_tries_known(
    original_storage_tries: Map<nat, OriginalSkeletonTreeImpl>,
    storage_updates: Map<nat, LeafModifications>,
    current: Map<nat, ContractState>,
) -> bool {
    forall|a: nat| #[trigger] storage_updates.dom().contains(a) ==> original_storage_tries.dom().contains(a)
        && current.dom().contains(a)
}

/// The skeleton leaf of a contract: zero exactly when its storage becomes
/// empty and its nonce and class hash are zero.
pub open spec fn skeleton_leaf_of(nonce: Nonce, class_hash: ClassHash, storage_becomes_empty: bool) -> SkeletonLeaf {
    if storage_becomes_empty && nonce.0.val() == 0 && class_hash.0.val() == 0 {
        SkeletonLeaf::Zero
    } else {
        SkeletonLeaf::NonZero
    }
}

/// A contract state leaf is empty exactly when its storage root is zero and
/// the contracts trie would get a zero skeleton leaf for it with its storage
/// empty: its nonce and class hash are zero too.
pub proof fn lemma_empty_contract_leaf_is_a_zero_skeleton_leaf(s: ContractState)
    ensures
        LeafDataImpl::ContractState(s).empty() <==> (s.storage_root_hash.val() == 0 && skeleton_leaf_of(
            s.nonce,
            s.class_hash,
            true,
        ) == SkeletonLeaf::Zero),
{
}

/// What updating the storage trie of an entry of storage updates gives: the
/// tree created from its original skeleton and modifications; refused with
/// `LowerTreeCommitmentError` where the original skeleton is missing, or,
/// after the tree is created, where the contract's current state is missing.
pub open spec fn entry_created<U: UpdatedSkeletonTree>(
    originals: Map<nat, OriginalSkeletonTreeImpl>,
    current: Map<nat, ContractState>,
    entry: (ContractAddress, LeafModifications),
) -> Result<U, UpdatedSkeletonTreeError> {
    let a = entry.0.0.val();
    if !originals.dom().contains(a) {
        Err(UpdatedSkeletonTreeError::LowerTreeCommitmentError(entry.0))
    } else {
        match U::created(originals[a], entry.1.map()) {
            Err(e) => Err(e),
            Ok(t) => if current.dom().contains(a) {
                Ok(t)
            } else {
                Err(UpdatedSkeletonTreeError::LowerTreeCommitmentError(entry.0))
            },
        }
    }
}

/// The modifications of the contracts trie: at the leaf of each updated
/// contract, its skeleton leaf, from its new nonce and class hash (else the
/// current ones) and whether its updated storage trie is empty.
pub open spec fn contracts_trie_leaves<U: UpdatedSkeletonTree>(
    originals: Map<nat, OriginalSkeletonTreeImpl>,
    storage_updates: Map<nat, LeafModifications>,
    current: Map<nat, ContractState>,
    address_to_nonce: Map<nat, Nonce>,
    address_to_class_hash: Map<nat, ClassHash>,
    tree_height: nat,
) -> Map<nat, SkeletonLeaf> {
    Map::new(
        |x: nat| leaves_of(storage_updates.dom(), tree_height).contains(x),
        |x: nat|
            {
                let a = (x - pow2(tree_height)) as nat;
                skeleton_leaf_of(
                    if address_to_nonce.dom().contains(a) {
                        address_to_nonce[a]
                    } else {
                        current[a].nonce
                    },
                    if address_to_class_hash.dom().contains(a) {
                        address_to_class_hash[a]
                    } else {
                        current[a].class_hash
                    },
                    U::created(originals[a], storage_updates[a].map())->Ok_0.empty(),
                )
            },
    )
}

/// The error of building the updated skeletons of a block: that of creating
/// the classes trie; else that of the first entry of storage updates that
/// fails; else that of creating the contracts trie.
pub open spec fn updated_forest_error<U: UpdatedSkeletonTree>(
    forest: OriginalSkeletonForestImpl,
    class_hash_leaf_modifications: Map<nat, SkeletonLeaf>,
    storage_updates: AssocMap<ContractAddress, LeafModifications>,
    current: Map<nat, ContractState>,
    address_to_nonce: Map<nat, Nonce>,
    address_to_class_hash: Map<nat, ClassHash>,
    tree_height: nat,
    e: UpdatedSkeletonTreeError,
) -> bool {
    let originals = forest.storage_tries.map();
    let entries = storage_updates.entries@;
    if U::created(forest.classes_trie, class_hash_leaf_modifications) is Err {
        U::created(forest.classes_trie, class_hash_leaf_modifications) == Err::<U, UpdatedSkeletonTreeError>(e)
    } else if exists|i: int| 0 <= i < entries.len() && entry_created::<U>(originals, current, #[trigger] entries[i]) is Err {
        exists|i: int|
            0 <= i < entries.len() && (forall|t: int|
                0 <= t < i ==> entry_created::<U>(originals, current, #[trigger] entries[t]) is Ok)
                && entry_created::<U>(originals, current, #[trigger] entries[i]) == Err::<U, UpdatedSkeletonTreeError>(
                e,
            )
    } else {
        U::created(
            forest.contracts_trie,
            contracts_trie_leaves::<U>(
                originals,
                storage_updates.map(),
                current,
                address_to_nonce,
                address_to_class_hash,
                tree_height,
            ),
        ) == Err::<U, UpdatedSkeletonTreeError>(e)
    }
}

impl OriginalSkeletonForestImpl {
    /// Builds the updated skeletons of a block: the classes trie from the
    /// class hash modifications; the storage trie of each updated contract
    /// from its original skeleton and its storage modifications; and the
    /// contracts trie from the skeleton leaf of each updated contract (zero
    /// exactly when its storage becomes empty and its nonce and class hash
    /// are zero). A contract without an original storage skeleton or a
    /// current state is refused with `LowerTreeCommitmentError`; errors of
    /// `create` are passed on.
    pub fn compute_updated_skeleton_forest<U: UpdatedSkeletonTree>(
        &self,
        class_hash_leaf_modifications: &LeafModifications,
        storage_updates: &AssocMap<ContractAddress, LeafModifications>,
        current_contracts_trie_leaves: &AssocMap<ContractAddress, ContractState>,
        address_to_class_hash: &AssocMap<ContractAddress, ClassHash>,
        address_to_nonce: &AssocMap<ContractAddress, Nonce>,
        tree_heights: TreeHeight,
    ) -> (r: Result<UpdatedSkeletonForest<U>, UpdatedSkeletonTreeError>)
        requires
            self.storage_tries.wf(),
            storage_updates.wf(),
            current_contracts_trie_leaves.wf(),
            address_to_class_hash.wf(),
            address_to_nonce.wf(),
            tree_heights.0 <= 251,
            forall|a: nat| #[trigger] storage_updates.map().dom().contains(a) ==> pow2(tree_heights.0 as nat) + a
                < index_bound(),
        ensures
            r is Ok <==> {
                &&& U::created(self.classes_trie, class_hash_leaf_modifications.map()) is Ok
                &&& forall|i: int| 0 <= i < storage_updates.entries@.len() ==> entry_created::<U>(
                    self.storage_tries.map(),
                    current_contracts_trie_leaves.map(),
                    #[trigger] storage_updates.entries@[i],
                ) is Ok
                &&& U::created(
                    self.contracts_trie,
                    contracts_trie_leaves::<U>(
                        self.storage_tries.map(),
                        storage_updates.map(),
                        current_contracts_trie_leaves.map(),
                        address_to_nonce.map(),
                        address_to_class_hash.map(),
                        tree_heights.0 as nat,
                    ),
                ) is Ok
            },
            r matches Ok(f) ==> {
                &&& U::created(self.classes_trie, class_hash_leaf_modifications.map()) == Ok::<
                    U,
                    UpdatedSkeletonTreeError,
                >(f.classes_trie)
                &&& f.storage_tries.wf()
                &&& f.storage_tries.map().dom() == storage_updates.map().dom()
                &&& storage_tries_known(
                    self.storage_tries.map(),
                    storage_updates.map(),
                    current_contracts_trie_leaves.map(),
                )
                &&& forall|a: nat| #[trigger] storage_updates.map().dom().contains(a) ==> U::created(
                    self.storage_tries.map()[a],
                    storage_updates.map()[a].map(),
                ) == Ok::<U, UpdatedSkeletonTreeError>(f.storage_tries.map()[a])
                &&& U::created(
                    self.contracts_trie,
                    contracts_trie_leaves::<U>(
                        self.storage_tries.map(),
                        storage_updates.map(),
                        current_contracts_trie_leaves.map(),
                        address_to_nonce.map(),
                        address_to_class_hash.map(),
                        tree_heights.0 as nat,
                    ),
                ) == Ok::<U, UpdatedSkeletonTreeError>(f.contracts_trie)
            },
            r matches Err(e) ==> updated_forest_error::<U>(
                *self,
                class_hash_leaf_modifications.map(),
                *storage_updates,
                current_contracts_trie_leaves.map(),
                address_to_nonce.map(),
                address_to_class_hash.map(),
                tree_heights.0 as nat,
                e,
            ),
    {
        let ghost entries = storage_updates.entries@;
        let ghost su = storage_updates.map();
        let ghost originals = self.storage_tries.map();
        let ghost current = current_contracts_trie_leaves.map();
        let ghost nonces = address_to_nonce.map();
        let ghost class_hashes = address_to_class_hash.map();
        let ghost th = tree_heights.0 as nat;
        let ghost leaves = contracts_trie_leaves::<U>(originals, su, current, nonces, class_hashes, th);
        let classes_trie = match U::create(&self.classes_trie, class_hash_leaf_modifications) {
            Ok(t) => t,
            Err(e) => {
                return Err(e);
            },
        };
        let mut contract_leaves: LeafModifications = AssocMap::new();
        let mut storage_tries: AssocMap<ContractAddress, U> = AssocMap::new();
        proof {
            assert(keys_before(entries, 0) =~= Set::<nat>::empty());
            assert(contract_leaves.map().dom() =~= leaves_of(keys_before(entries, 0), th));
        }
        let mut i: usize = 0;
        while i < storage_updates.entries.len()
            invariant
                i <= entries.len(),
                entries == storage_updates.entries@,
                crate::assoc::unique_keys(entries),
                su == storage_updates.map(),
                su == crate::assoc::to_map(entries),
                originals == self.storage_tries.map(),
                self.storage_tries.wf(),
                current == current_contracts_trie_leaves.map(),
                current_contracts_trie_leaves.wf(),
                nonces == address_to_nonce.map(),
                class_hashes == address_to_class_hash.map(),
                address_to_class_hash.wf(),
                address_to_nonce.wf(),
                th == tree_heights.0,
                tree_heights.0 <= 251,
                leaves == contracts_trie_leaves::<U>(originals, su, current, nonces, class_hashes, th),
                U::created(self.classes_trie, class_hash_leaf_modifications.map()) is Ok,
                forall|a: nat| #[trigger] su.dom().contains(a) ==> pow2(tree_heights.0 as nat) + a < index_bound(),
                forall|t: int| 0 <= t < i ==> entry_created::<U>(originals, current, #[trigger] entries[t]) is Ok,
                storage_tries.wf(),
                storage_tries.map().dom() == keys_before(entries, i as int),
                contract_leaves.wf(),
                contract_leaves.map().dom() == leaves_of(keys_before(entries, i as int), th),
                forall|a: nat| #[trigger] keys_before(entries, i as int).contains(a) ==> {
                    &&& originals.dom().contains(a)
                    &&& current.dom().contains(a)
                    &&& su.dom().contains(a)
                    &&& U::created(originals[a], su[a].map()) == Ok::<U, UpdatedSkeletonTreeError>(
                        storage_tries.map()[a],
                    )
                    &&& contract_leaves.map()[pow2(th) + a] == leaves[pow2(th) + a]
                },
            decreases entries.len() - i,
        {
            let address = storage_updates.entries[i].0;
            let ghost a = address.0.val();
            let ghost before = keys_before(entries, i as int);
            proof {
                crate::assoc::lemma_to_map_entry(entries, i as int);
                assert(!before.contains(a)) by {
                    if before.contains(a) {
                        let t = choose|t: int| 0 <= t < i && (#[trigger] entries[t]).0.0.val() == a;
                        assert(entries[t].0.key() == entries[i as int].0.key());
                    }
                }
                assert(keys_before(entries, i + 1) =~= before.insert(a)) by {
                    assert forall|x: nat| keys_before(entries, i + 1).contains(x) <==> before.insert(a).contains(x) by {
                        if keys_before(entries, i + 1).contains(x) && x != a {
                            let t = choose|t: int| 0 <= t < i + 1 && (#[trigger] entries[t]).0.0.val() == x;
                            assert(t != i);
                        }
                        if before.contains(x) {
                            let t = choose|t: int| 0 <= t < i && (#[trigger] entries[t]).0.0.val() == x;
                            assert(0 <= t < i + 1);
                        }
                        if x == a {
                            assert(entries[i as int].0.0.val() == x);
                        }
                    }
                }
            }
            let original_storage_trie = match self.storage_tries.get(&address) {
                Some(t) => t,
                None => {
                    proof {
                        assert(entry_created::<U>(originals, current, entries[i as int]) == Err::<
                            U,
                            UpdatedSkeletonTreeError,
                        >(UpdatedSkeletonTreeError::LowerTreeCommitmentError(address)));
                    }
                    return Err(UpdatedSkeletonTreeError::LowerTreeCommitmentError(address));
                },
            };
            let updated_storage_trie = match U::create(original_storage_trie, &storage_updates.entries[i].1) {
                Ok(t) => t,
                Err(e) => {
                    proof {
                        assert(entry_created::<U>(originals, current, entries[i as int]) == Err::<
                            U,
                            UpdatedSkeletonTreeError,
                        >(e));
                    }
                    return Err(e);
                },
            };
            let storage_trie_becomes_empty = updated_storage_trie.is_empty();
            let ghost created = updated_storage_trie;
            storage_tries.insert(address, updated_storage_trie);
            let current_leaf = match current_contracts_trie_leaves.get(&address) {
                Some(c) => c,
                None => {
                    proof {
                        assert(entry_created::<U>(originals, current, entries[i as int]) == Err::<
                            U,
                            UpdatedSkeletonTreeError,
                        >(UpdatedSkeletonTreeError::LowerTreeCommitmentError(address)));
                    }
                    return Err(UpdatedSkeletonTreeError::LowerTreeCommitmentError(address));
                },
            };
            let skeleton_leaf = Self::updated_contract_skeleton_leaf(
                address_to_nonce.get(&address),
                address_to_class_hash.get(&address),
                current_leaf,
                storage_trie_becomes_empty,
            );
            proof {
                lemma_pow2_pos(th);
                assert(leaves_of(su.dom(), th).contains(pow2(th) + a));
                assert((pow2(th) + a - pow2(th)) as nat == a);
                assert(skeleton_leaf == leaves[pow2(th) + a]);
            }
            contract_leaves.insert(NodeIndex::from_contract_address(&address, &tree_heights), skeleton_leaf);
            proof {
                assert(entry_created::<U>(originals, current, entries[i as int]) is Ok);
                assert(leaves_of(before.insert(a), th) =~= leaves_of(before, th).insert(pow2(th) + a));
                assert forall|x: nat| #[trigger] before.insert(a).contains(x) && x != a implies pow2(th) + x != pow2(
                    th,
                ) + a by {}
            }
            i += 1;
        }
        proof {
            assert(keys_before(entries, entries.len() as int) =~= su.dom()) by {
                assert forall|x: nat| keys_before(entries, entries.len() as int).contains(x) <==> su.dom().contains(x) by {
                    crate::assoc::lemma_to_map_dom(entries, x);
                }
            }
            assert forall|x: nat| #[trigger] contract_leaves.map().dom().contains(x) implies contract_leaves.map()[x]
                == leaves[x] by {
                let a = (x - pow2(th)) as nat;
                assert(su.dom().contains(a));
                assert(pow2(th) + a == x);
            }
            assert(contract_leaves.map() =~= leaves);
        }
        let contracts_trie = match U::create(&self.contracts_trie, &contract_leaves) {
            Ok(t) => t,
            Err(e) => {
                return Err(e);
            },
        };
        Ok(UpdatedSkeletonForest { classes_trie, contracts_trie, storage_tries })
    }
}

/// The updated skeletons of the tries of a block.
pub struct UpdatedSkeletonForestImpl {
    pub classes_trie: UpdatedSkeletonTreeImpl,
    pub contracts_trie: UpdatedSkeletonTreeImpl,
    pub storage_tries: AssocMap<ContractAddress, UpdatedSkeletonTreeImpl>,
}

/// The filled tries of a block.
pub struct FilledForestImpl {
    pub storage_tries: AssocMap<ContractAddress, FilledTreeImpl>,
    pub contracts_trie: FilledTreeImpl,
    pub classes_trie: FilledTreeImpl,
}

/// Filling a storage trie succeeds and gives a root: the skeleton's root is
/// modified.
pub open spec fn storage_trie_fillable<TH: TreeHashFunction>(
    trie: UpdatedSkeletonTreeImpl,
    updates: Map<nat, LeafDataImpl>,
) -> bool {
    &&& complete::<TH>(trie.nodes(), updates)
    &&& filled_nodes(fill::<TH>(trie.nodes(), updates, 1)).dom().contains(1)
}

/// The error of filling a storage trie that cannot be filled: that of the
/// fill, or a missing root where the fill is complete.
pub open spec fn storage_fill_error<TH: TreeHashFunction>(
    trie: UpdatedSkeletonTreeImpl,
    updates: Map<nat, LeafDataImpl>,
    e: ForestError,
) -> bool {
    e matches ForestError::StorageTrie(x) && if complete::<TH>(trie.nodes(), updates) {
        x is MissingRoot
    } else {
        fill_error_is::<TH>(trie.nodes(), updates, x)
    }
}

impl FilledForestImpl {
    /// Fills a contract's storage trie, and the contract's new state: the
    /// given nonce and class hash, and the new root of the storage trie.
    pub fn new_contract_state<TH: TreeHashFunction>(
        contract_address: ContractAddress,
        new_nonce: Nonce,
        new_class_hash: ClassHash,
        updated_storage_trie: UpdatedSkeletonTreeImpl,
        inner_updates: AssocMap<NodeIndex, LeafDataImpl>,
    ) -> (r: Result<(ContractAddress, ContractState, FilledTreeImpl), ForestError>)
        requires
            updated_storage_trie.wf(),
            inner_updates.wf(),
        ensures
            r is Ok <==> storage_trie_fillable::<TH>(updated_storage_trie, inner_updates.map()),
            r matches Ok((a, s, t)) ==> {
                &&& a == contract_address
                &&& s.nonce == new_nonce
                &&& s.class_hash == new_class_hash
                &&& s.storage_root_hash.val() == filled_hash(fill::<TH>(updated_storage_trie.nodes(), inner_updates.map(), 1))
                &&& t.tree_map.wf()
                &&& t.view() == filled_nodes(fill::<TH>(updated_storage_trie.nodes(), inner_updates.map(), 1))
            },
            r matches Err(e) ==> storage_fill_error::<TH>(updated_storage_trie, inner_updates.map(), e),
    {
        let ghost nodes = updated_storage_trie.nodes();
        let ghost updates = inner_updates.map();
        let filled_storage_trie = match FilledTreeImpl::create::<TH>(updated_storage_trie, inner_updates) {
            Ok(t) => t,
            Err(e) => {
                return Err(ForestError::StorageTrie(e));
            },
        };
        let new_root_hash = match filled_storage_trie.get_root_hash() {
            Ok(h) => h,
            Err(e) => {
                return Err(ForestError::StorageTrie(e));
            },
        };
        proof {
            lemma_filled_tree_consistent::<TH>(nodes, updates, 1);
        }
        Ok((
            contract_address,
            ContractState { nonce: new_nonce, storage_root_hash: new_root_hash, class_hash: new_class_hash },
            filled_storage_trie,
        ))
    }
}

/// The filled tries of a block.
pub trait FilledForest {
    /// The tries are well formed.
    spec fn wf(&self) -> bool;

    /// Serializes each trie and stores it.
    fn write_to_storage(&self, storage: &mut MapStorage)
        requires
            old(storage).wf(),
    ;

    /// The root hash of the classes trie.
    fn get_compiled_class_root_hash(&self) -> Result<HashOutput, FilledTreeError>
        requires
            self.wf(),
    ;

    /// The root hash of the contracts trie.
    fn get_contract_root_hash(&self) -> Result<HashOutput, FilledTreeError>
        requires
            self.wf(),
    ;
}

impl FilledForest for FilledForestImpl {
    open spec fn wf(&self) -> bool {
        &&& self.contracts_trie.tree_map.wf()
        &&& self.classes_trie.tree_map.wf()
    }

    /// Writes every node of every trie to storage, under its key (a later
    /// node overriding an earlier one with the same key).
    fn write_to_storage(&self, storage: &mut MapStorage)
        ensures
            final(storage).wf(),
            exists|written: Seq<(StorageKey, StorageValue)>| #[trigger] entries_of(written, self.nodes())
                && final(storage).contents() == old(storage).contents().union_prefer_right(entries_map(written)),
    {
        let mut new_db_objects: Vec<(StorageKey, StorageValue)> = Vec::new();
        let mut i: usize = 0;
        while i < self.storage_tries.entries.len()
            invariant
                i <= self.storage_tries.entries@.len(),
                entries_of(new_db_objects@, trees_nodes(self.storage_tries.entries@.take(i as int))),
            decreases self.storage_tries.entries@.len() - i,
        {
            let mut entries = self.storage_tries.entries[i].1.serialize();
            let ghost before = new_db_objects@;
            let ghost added = entries@;
            new_db_objects.append(&mut entries);
            proof {
                let t = self.storage_tries.entries@.take(i as int + 1);
                assert(t.drop_last() =~= self.storage_tries.entries@.take(i as int));
                let ns = trees_nodes(t);
                let nb = trees_nodes(self.storage_tries.entries@.take(i as int));
                assert(ns == nb + t.last().1.nodes());
                assert forall|j: int| 0 <= j < new_db_objects@.len() implies entry_of(#[trigger] new_db_objects@[j], ns[j]) by {
                    if j < before.len() {
                        assert(new_db_objects@[j] == before[j]);
                    } else {
                        assert(new_db_objects@[j] == added[j - before.len()]);
                    }
                }
            }
            i += 1;
        }
        proof {
            assert(self.storage_tries.entries@.take(i as int) =~= self.storage_tries.entries@);
        }
        let mut contracts = self.contracts_trie.serialize();
        let mut classes = self.classes_trie.serialize();
        let ghost before = new_db_objects@;
        let ghost c1 = contracts@;
        let ghost c2 = classes@;
        new_db_objects.append(&mut contracts);
        new_db_objects.append(&mut classes);
        proof {
            let ns = self.nodes();
            let n0 = trees_nodes(self.storage_tries.entries@);
            let n1 = self.contracts_trie.nodes();
            assert forall|j: int| 0 <= j < new_db_objects@.len() implies entry_of(#[trigger] new_db_objects@[j], ns[j]) by {
                if j < before.len() {
                    assert(new_db_objects@[j] == before[j]);
                    assert(ns[j] == n0[j]);
                } else if j < before.len() + c1.len() {
                    assert(new_db_objects@[j] == c1[j - before.len()]);
                    assert(ns[j] == n1[j - n0.len()]);
                } else {
                    assert(new_db_objects@[j] == c2[j - before.len() - c1.len()]);
                }
            }
        }
        let ghost written = new_db_objects@;
        storage.mset(new_db_objects);
        proof {
            assert(entries_of(written, self.nodes()));
        }
    }

    /// The root hash of the contracts trie.
    fn get_contract_root_hash(&self) -> (r: Result<HashOutput, FilledTreeError>)
        ensures
            r is Ok <==> self.contracts_trie.view().dom().contains(1),
            r matches Ok(h) ==> h.val() == self.contracts_trie.view()[1].0,
            r matches Err(e) ==> e is MissingRoot,
    {
        self.contracts_trie.get_root_hash()
    }

    /// The root hash of the classes trie.
    fn get_compiled_class_root_hash(&self) -> (r: Result<HashOutput, FilledTreeError>)
        ensures
            r is Ok <==> self.classes_trie.view().dom().contains(1),
            r matches Ok(h) ==> h.val() == self.classes_trie.view()[1].0,
            r matches Err(e) ==> e is MissingRoot,
    {
        self.classes_trie.get_root_hash()
    }
}

/// The new state of contract `address`: the new nonce and class hash where the
/// block gives them (else the previous ones) and the given storage root.
pub open spec fn new_state(
    state: ContractState,
    address: nat,
    address_to_nonce: Map<nat, Nonce>,
    address_to_class_hash: Map<nat, ClassHash>,
    previous: ContractState,
    storage_root: nat,
) -> bool {
    &&& state.nonce == (if address_to_nonce.dom().contains(address) {
        address_to_nonce[address]
    } else {
        previous.nonce
    })
    &&& state.class_hash == (if address_to_class_hash.dom().contains(address) {
        address_to_class_hash[address]
    } else {
        previous.class_hash
    })
    &&& state.storage_root_hash.val() == storage_root
}

/// `mods` are the modifications of the contracts trie: at the leaf of each
/// contract whose storage is updated, its new state, with the root of its
/// filled storage trie.
pub open spec fn contract_modifications<TH: TreeHashFunction>(
    mods: Map<nat, LeafDataImpl>,
    storage_tries: Map<nat, UpdatedSkeletonTreeImpl>,
    storage_updates: Map<nat, AssocMap<NodeIndex, LeafDataImpl>>,
    current: Map<nat, ContractState>,
    address_to_nonce: Map<nat, Nonce>,
    address_to_class_hash: Map<nat, ClassHash>,
    tree_height: nat,
) -> bool {
    &&& mods.dom() == leaves_of(storage_updates.dom(), tree_height)
    &&& forall|a: nat| #[trigger] storage_updates.dom().contains(a) ==> (mods[pow2(tree_height) + a] matches LeafDataImpl::ContractState(
        s,
    ) && new_state(
        s,
        a,
        address_to_nonce,
        address_to_class_hash,
        current[a],
        filled_hash(fill::<TH>(storage_tries[a].nodes(), storage_updates[a].map(), 1)),
    ))
}

/// The modifications of the contracts trie are determined.
proof fn lemma_contract_modifications_unique<TH: TreeHashFunction>(
    m1: Map<nat, LeafDataImpl>,
    m2: Map<nat, LeafDataImpl>,
    storage_tries: Map<nat, UpdatedSkeletonTreeImpl>,
    storage_updates: Map<nat, AssocMap<NodeIndex, LeafDataImpl>>,
    current: Map<nat, ContractState>,
    address_to_nonce: Map<nat, Nonce>,
    address_to_class_hash: Map<nat, ClassHash>,
    tree_height: nat,
)
    requires
        contract_modifications::<TH>(m1, storage_tries, storage_updates, current, address_to_nonce, address_to_class_hash, tree_height),
        contract_modifications::<TH>(m2, storage_tries, storage_updates, current, address_to_nonce, address_to_class_hash, tree_height),
    ensures
        m1 == m2,
{
    assert forall|x: nat| #[trigger] m1.dom().contains(x) implies m1[x] == m2[x] by {
        let a = (x - pow2(tree_height)) as nat;
        assert(leaves_of(storage_updates.dom(), tree_height).contains(x));
        assert(storage_updates.dom().contains(a));
        assert(pow2(tree_height) + a == x);
        if let (LeafDataImpl::ContractState(s1), LeafDataImpl::ContractState(s2)) = (m1[x], m2[x]) {
            crate::felt::lemma_val_injective(s1.storage_root_hash.0, s2.storage_root_hash.0);
            assert(s1 == s2);
        }
    }
    assert(m1 =~= m2);
}

/// The filled forest of a block can be computed.
pub open spec fn forest_fillable<TH: TreeHashFunction>(
    updated_forest: UpdatedSkeletonForestImpl,
    storage_updates: Map<nat, AssocMap<NodeIndex, LeafDataImpl>>,
    classes_updates: Map<nat, LeafDataImpl>,
    current: Map<nat, ContractState>,
    address_to_nonce: Map<nat, Nonce>,
    address_to_class_hash: Map<nat, ClassHash>,
    tree_height: nat,
) -> bool {
    let tries = updated_forest.storage_tries.map();
    &&& complete::<TH>(updated_forest.classes_trie.nodes(), classes_updates)
    &&& forall|a: nat| #[trigger] storage_updates.dom().contains(a) ==> {
        &&& tries.dom().contains(a)
        &&& current.dom().contains(a)
        &&& storage_trie_fillable::<TH>(tries[a], storage_updates[a].map())
    }
    &&& forall|mods: Map<nat, LeafDataImpl>|
        contract_modifications::<TH>(mods, tries, storage_updates, current, address_to_nonce, address_to_class_hash, tree_height)
            ==> #[trigger] complete::<TH>(updated_forest.contracts_trie.nodes(), mods)
}

/// The updated forest is well formed: its maps have distinct keys and its
/// skeletons stand for trees.
pub open spec fn updated_forest_wf(f: UpdatedSkeletonForestImpl) -> bool {
    &&& f.classes_trie.wf()
    &&& f.contracts_trie.wf()
    &&& f.storage_tries.wf()
    &&& forall|a: nat| #[trigger] f.storage_tries.map().dom().contains(a) ==> f.storage_tries.map()[a].wf()
}

/// The storage trie of an entry of storage updates can be filled: its updated
/// skeleton and its contract's current state are known, and the fill succeeds.
pub open spec fn entry_fillable<TH: TreeHashFunction>(
    tries: Map<nat, UpdatedSkeletonTreeImpl>,
    current: Map<nat, ContractState>,
    entry: (ContractAddress, AssocMap<NodeIndex, LeafDataImpl>),
) -> bool {
    let a = entry.0.0.val();
    &&& tries.dom().contains(a)
    &&& current.dom().contains(a)
    &&& storage_trie_fillable::<TH>(tries[a], entry.1.map())
}

/// The error of an entry of storage updates whose trie cannot be filled: its
/// updated skeleton is missing, else its contract's current state, else the
/// fill fails.
pub open spec fn entry_fill_error<TH: TreeHashFunction>(
    tries: Map<nat, UpdatedSkeletonTreeImpl>,
    current: Map<nat, ContractState>,
    entry: (ContractAddress, AssocMap<NodeIndex, LeafDataImpl>),
    e: ForestError,
) -> bool {
    let a = entry.0.0.val();
    if !tries.dom().contains(a) {
        e == ForestError::MissingUpdatedSkeleton(entry.0)
    } else if !current.dom().contains(a) {
        e == ForestError::MissingContractCurrentState(entry.0)
    } else {
        storage_fill_error::<TH>(tries[a], entry.1.map(), e)
    }
}

/// The error of filling the tries of a block: that of the classes trie if it
/// cannot be filled; else that of the first entry of storage updates whose
/// trie cannot be filled; else that of the contracts trie.
pub open spec fn forest_fill_error<TH: TreeHashFunction>(
    updated_forest: UpdatedSkeletonForestImpl,
    storage_updates: AssocMap<ContractAddress, AssocMap<NodeIndex, LeafDataImpl>>,
    classes_updates: Map<nat, LeafDataImpl>,
    current: Map<nat, ContractState>,
    address_to_nonce: Map<nat, Nonce>,
    address_to_class_hash: Map<nat, ClassHash>,
    tree_height: nat,
    e: ForestError,
) -> bool {
    let tries = updated_forest.storage_tries.map();
    let entries = storage_updates.entries@;
    if !complete::<TH>(updated_forest.classes_trie.nodes(), classes_updates) {
        e matches ForestError::CompiledClassHashTrie(x) && fill_error_is::<TH>(
            updated_forest.classes_trie.nodes(),
            classes_updates,
            x,
        )
    } else if exists|i: int| 0 <= i < entries.len() && !entry_fillable::<TH>(tries, current, #[trigger] entries[i]) {
        exists|i: int|
            0 <= i < entries.len() && (forall|t: int|
                0 <= t < i ==> entry_fillable::<TH>(tries, current, #[trigger] entries[t])) && !entry_fillable::<TH>(
                tries,
                current,
                #[trigger] entries[i],
            ) && entry_fill_error::<TH>(tries, current, entries[i], e)
    } else {
        e matches ForestError::ContractTrie(x) && forall|mods: Map<nat, LeafDataImpl>|
            #[trigger] contract_modifications::<TH>(
                mods,
                tries,
                storage_updates.map(),
                current,
                address_to_nonce,
                address_to_class_hash,
                tree_height,
            ) ==> fill_error_is::<TH>(updated_forest.contracts_trie.nodes(), mods, x)
    }
}

/// The keys of the first `n` entries.
pub open spec fn keys_before<V>(entries: Seq<(ContractAddress, V)>, n: int) -> Set<nat> {
    Set::new(|a: nat| exists|t: int| 0 <= t < n && (#[trigger] entries[t]).0.0.val() == a)
}

impl FilledForestImpl {
    /// Fills the tries of a block: the classes trie with the new compiled class
    /// hashes; the storage trie of each contract with its storage updates; and
    /// the contracts trie with the new state of each contract whose storage is
    /// updated (its new nonce and class hash where given, and its new storage
    /// root).
    pub fn create<TH: TreeHashFunction>(
        updated_forest: UpdatedSkeletonForestImpl,
        storage_updates: AssocMap<ContractAddress, AssocMap<NodeIndex, LeafDataImpl>>,
        classes_updates: AssocMap<NodeIndex, LeafDataImpl>,
        current_contracts_trie_leaves: &AssocMap<ContractAddress, ContractState>,
        address_to_class_hash: &AssocMap<ContractAddress, ClassHash>,
        address_to_nonce: &AssocMap<ContractAddress, Nonce>,
        tree_heights: TreeHeight,
    ) -> (r: Result<FilledForestImpl, ForestError>)
        requires
            updated_forest_wf(updated_forest),
            storage_updates.wf(),
            forall|a: nat| #[trigger] storage_updates.map().dom().contains(a) ==> storage_updates.map()[a].wf(),
            classes_updates.wf(),
            current_contracts_trie_leaves.wf(),
            address_to_class_hash.wf(),
            address_to_nonce.wf(),
            tree_heights.0 <= 251,
            forall|a: nat| #[trigger] storage_updates.map().dom().contains(a) ==> a < pow2(tree_heights.0 as nat),
        ensures
            r is Ok <==> forest_fillable::<TH>(
                updated_forest,
                storage_updates.map(),
                classes_updates.map(),
                current_contracts_trie_leaves.map(),
                address_to_nonce.map(),
                address_to_class_hash.map(),
                tree_heights.0 as nat,
            ),
            r matches Ok(f) ==> {
                &&& f.classes_trie.tree_map.wf()
                &&& f.classes_trie.view() == filled_nodes(
                    fill::<TH>(updated_forest.classes_trie.nodes(), classes_updates.map(), 1),
                )
                &&& f.storage_tries.wf()
                &&& f.storage_tries.map().dom() == storage_updates.map().dom()
                &&& forall|a: nat| #[trigger] storage_updates.map().dom().contains(a) ==> {
                    &&& f.storage_tries.map()[a].tree_map.wf()
                    &&& f.storage_tries.map()[a].view() == filled_nodes(
                        fill::<TH>(updated_forest.storage_tries.map()[a].nodes(), storage_updates.map()[a].map(), 1),
                    )
                }
                &&& f.contracts_trie.tree_map.wf()
                &&& exists|mods: Map<nat, LeafDataImpl>| {
                    &&& #[trigger] contract_modifications::<TH>(
                        mods,
                        updated_forest.storage_tries.map(),
                        storage_updates.map(),
                        current_contracts_trie_leaves.map(),
                        address_to_nonce.map(),
                        address_to_class_hash.map(),
                        tree_heights.0 as nat,
                    )
                    &&& f.contracts_trie.view() == filled_nodes(
                        fill::<TH>(updated_forest.contracts_trie.nodes(), mods, 1),
                    )
                }
            },
            r matches Err(e) ==> forest_fill_error::<TH>(
                updated_forest,
                storage_updates,
                classes_updates.map(),
                current_contracts_trie_leaves.map(),
                address_to_nonce.map(),
                address_to_class_hash.map(),
                tree_heights.0 as nat,
                e,
            ),
    {
        let ghost th = tree_heights.0 as nat;
        let ghost su = storage_updates.map();
        let ghost cu = classes_updates.map();
        let ghost current = current_contracts_trie_leaves.map();
        let ghost nonces = address_to_nonce.map();
        let ghost class_hashes = address_to_class_hash.map();
        let ghost forest0 = updated_forest;
        let ghost tries0 = updated_forest.storage_tries.map();
        let ghost entries = storage_updates.entries@;
        let UpdatedSkeletonForestImpl { classes_trie, contracts_trie, storage_tries } = updated_forest;
        let mut updated_storage_tries = storage_tries;
        let classes_trie = match FilledTreeImpl::create::<TH>(classes_trie, classes_updates) {
            Ok(t) => t,
            Err(e) => {
                return Err(ForestError::CompiledClassHashTrie(e));
            },
        };
        let mut contracts_trie_modifications: AssocMap<NodeIndex, LeafDataImpl> = AssocMap::new();
        let mut filled_storage_tries: AssocMap<ContractAddress, FilledTreeImpl> = AssocMap::new();
        proof {
            assert(keys_before(entries, 0) =~= Set::<nat>::empty());
            assert(leaves_of(Set::<nat>::empty(), th) =~= Set::<nat>::empty());
        }
        for entry in it: storage_updates.entries
            invariant
                it.seq() == entries,
                forest0 == updated_forest,
                su == storage_updates.map(),
                cu == classes_updates.map(),
                crate::assoc::unique_keys(entries),
                su == crate::assoc::to_map(entries),
                forall|a: nat| #[trigger] su.dom().contains(a) ==> su[a].wf() && a < pow2(th),
                th == tree_heights.0,
                th <= 251,
                current_contracts_trie_leaves.wf(),
                current == current_contracts_trie_leaves.map(),
                address_to_nonce.wf(),
                nonces == address_to_nonce.map(),
                address_to_class_hash.wf(),
                class_hashes == address_to_class_hash.map(),
                tries0 == forest0.storage_tries.map(),
                updated_forest_wf(forest0),
                updated_storage_tries.wf(),
                forall|a: nat| #[trigger] updated_storage_tries.map().dom().contains(a) ==> tries0.dom().contains(a)
                    && updated_storage_tries.map()[a] == tries0[a] && !keys_before(entries, it.index() as int).contains(a),
                forall|a: nat| #[trigger] tries0.dom().contains(a) && !keys_before(entries, it.index() as int).contains(a)
                    ==> updated_storage_tries.map().dom().contains(a),
                filled_storage_tries.wf(),
                filled_storage_tries.map().dom() == keys_before(entries, it.index() as int),
                forall|a: nat| #[trigger] keys_before(entries, it.index() as int).contains(a) ==> {
                    &&& tries0.dom().contains(a)
                    &&& current.dom().contains(a)
                    &&& storage_trie_fillable::<TH>(tries0[a], su[a].map())
                    &&& filled_storage_tries.map()[a].tree_map.wf()
                    &&& filled_storage_tries.map()[a].view() == filled_nodes(fill::<TH>(tries0[a].nodes(), su[a].map(), 1))
                },
                complete::<TH>(forest0.classes_trie.nodes(), cu),
                forall|t: int| 0 <= t < it.index() ==> entry_fillable::<TH>(tries0, current, #[trigger] entries[t]),
                contracts_trie_modifications.wf(),
                contracts_trie_modifications.map().dom() == leaves_of(keys_before(entries, it.index() as int), th),
                forall|a: nat| #[trigger] keys_before(entries, it.index() as int).contains(a) ==> (
                contracts_trie_modifications.map()[pow2(th) + a] matches LeafDataImpl::ContractState(s) && new_state(
                    s,
                    a,
                    nonces,
                    class_hashes,
                    current[a],
                    filled_hash(fill::<TH>(tries0[a].nodes(), su[a].map(), 1)),
                )),
        {
            let ghost i = it.index() as int;
            let ghost before = keys_before(entries, i);
            let (address, inner_updates) = entry;
            let ghost a = address.0.val();
            proof {
                crate::assoc::lemma_to_map_entry(entries, i);
                assert(entries[i] == (address, inner_updates));
                assert(su[a] == inner_updates);
                assert(!before.contains(a)) by {
                    if before.contains(a) {
                        let t = choose|t: int| 0 <= t < i && (#[trigger] entries[t]).0.0.val() == a;
                        assert(entries[t].0.key() == entries[i].0.key());
                    }
                }
                assert(keys_before(entries, i + 1) =~= before.insert(a)) by {
                    assert forall|x: nat| keys_before(entries, i + 1).contains(x) <==> before.insert(a).contains(x) by {
                        if keys_before(entries, i + 1).contains(x) && x != a {
                            let t = choose|t: int| 0 <= t < i + 1 && (#[trigger] entries[t]).0.0.val() == x;
                            assert(t != i);
                        }
                        if before.contains(x) {
                            let t = choose|t: int| 0 <= t < i && (#[trigger] entries[t]).0.0.val() == x;
                            assert(0 <= t < i + 1);
                        }
                        if x == a {
                            assert(entries[i].0.0.val() == x);
                        }
                    }
                }
            }
            let updated_storage_trie = match updated_storage_tries.remove(&address) {
                Some(t) => t,
                None => {
                    proof {
                        assert(!entry_fillable::<TH>(tries0, current, entries[i]));
                        assert(entry_fill_error::<TH>(tries0, current, entries[i], ForestError::MissingUpdatedSkeleton(address)));
                    }
                    return Err(ForestError::MissingUpdatedSkeleton(address));
                },
            };
            let old_contract_state = match current_contracts_trie_leaves.get(&address) {
                Some(c) => *c,
                None => {
                    proof {
                        assert(!entry_fillable::<TH>(tries0, current, entries[i]));
                        assert(entry_fill_error::<TH>(tries0, current, entries[i], ForestError::MissingContractCurrentState(address)));
                    }
                    return Err(ForestError::MissingContractCurrentState(address));
                },
            };
            let new_nonce = match address_to_nonce.get(&address) {
                Some(n) => *n,
                None => old_contract_state.nonce,
            };
            let new_class_hash = match address_to_class_hash.get(&address) {
                Some(c) => *c,
                None => old_contract_state.class_hash,
            };
            let (_, new_contract_state, filled_storage_trie) = match Self::new_contract_state::<TH>(
                address,
                new_nonce,
                new_class_hash,
                updated_storage_trie,
                inner_updates,
            ) {
                Ok(x) => x,
                Err(e) => {
                    proof {
                        assert(!entry_fillable::<TH>(tries0, current, entries[i]));
                        assert(entry_fill_error::<TH>(tries0, current, entries[i], e));
                    }
                    return Err(e);
                },
            };
            proof {
                assert(entry_fillable::<TH>(tries0, current, entries[i]));
                lemma_pow2_unfold(th + 1);
                if th < 251 {
                    lemma_pow2_strictly_increases(th + 1, 252);
                }
            }
            let leaf_index = NodeIndex::from_contract_address(&address, &tree_heights);
            contracts_trie_modifications.insert(leaf_index, LeafDataImpl::ContractState(new_contract_state));
            filled_storage_tries.insert(address, filled_storage_trie);
            proof {
                assert(leaves_of(before.insert(a), th) =~= leaves_of(before, th).insert(pow2(th) + a));
                assert forall|x: nat| #[trigger] before.insert(a).contains(x) && x != a implies pow2(th) + x != pow2(th) + a by {}
            }
        }
        let ghost mods = contracts_trie_modifications.map();
        proof {
            assert(keys_before(entries, entries.len() as int) =~= su.dom()) by {
                assert forall|x: nat| keys_before(entries, entries.len() as int).contains(x) <==> su.dom().contains(x) by {
                    crate::assoc::lemma_to_map_dom(entries, x);
                }
            }
            assert(contract_modifications::<TH>(mods, tries0, su, current, nonces, class_hashes, th));
        }
        let contracts_trie = match FilledTreeImpl::create::<TH>(contracts_trie, contracts_trie_modifications) {
            Ok(t) => t,
            Err(e) => {
                proof {
                    assert forall|m: Map<nat, LeafDataImpl>|
                        #[trigger] contract_modifications::<TH>(m, tries0, su, current, nonces, class_hashes, th) implies fill_error_is::<TH>(
                        forest0.contracts_trie.nodes(),
                        m,
                        e,
                    ) by {
                        lemma_contract_modifications_unique::<TH>(m, mods, tries0, su, current, nonces, class_hashes, th);
                    }
                }
                return Err(ForestError::ContractTrie(e));
            },
        };
        proof {
            assert forall|m: Map<nat, LeafDataImpl>|
                contract_modifications::<TH>(m, tries0, su, current, nonces, class_hashes, th) implies #[trigger] complete::<TH>(
                forest0.contracts_trie.nodes(),
                m,
            ) by {
                lemma_contract_modifications_unique::<TH>(m, mods, tries0, su, current, nonces, class_hashes, th);
            }
        }
        Ok(FilledForestImpl { storage_tries: filled_storage_tries, contracts_trie, classes_trie })
    }
}

/// The nodes of a list of trees, one tree after the other.
pub open spec fn trees_nodes(trees: Seq<(ContractAddress, FilledTreeImpl)>) -> Seq<FilledNode<LeafDataImpl>>
    decreases trees.len(),
{
    if trees.len() == 0 {
        Seq::empty()
    } else {
        trees_nodes(trees.drop_last()) + trees.last().1.nodes()
    }
}

impl FilledForestImpl {
    /// The nodes of the forest in the order they are written: the storage
    /// tries, then the contracts trie, then the classes trie.
    pub open spec fn nodes(&self) -> Seq<FilledNode<LeafDataImpl>> {
        trees_nodes(self.storage_tries.entries@) + self.contracts_trie.nodes() + self.classes_trie.nodes()
    }
}

/// The storage key of a node: its prefix and its hash.
pub open spec fn node_key(n: FilledNode<LeafDataImpl>) -> Seq<u8> {
    db_key(node_prefix(n.data), be_bytes(n.hash.val(), 32))
}

/// Once the nodes of a forest are written to storage (as `write_to_storage`
/// does), reading the key of a node that no later node shares gives the
/// node's stored form.
pub proof fn lemma_written_node_reads_back(
    nodes: Seq<FilledNode<LeafDataImpl>>,
    written: Seq<(StorageKey, StorageValue)>,
    before: Map<Seq<u8>, StorageValue>,
    after: Map<Seq<u8>, StorageValue>,
    i: int,
)
    requires
        entries_of(written, nodes),
        after == before.union_prefer_right(entries_map(written)),
        0 <= i < nodes.len(),
        forall|j: int| i < j < nodes.len() ==> node_key(#[trigger] nodes[j]) != node_key(nodes[i]),
    ensures
        after.dom().contains(node_key(nodes[i])),
        after[node_key(nodes[i])].0@ == node_bytes(nodes[i].data),
{
    assert(entry_of(written[i], nodes[i]));
    assert forall|j: int| i < j < written.len() implies (#[trigger] written[j]).0.0@ != written[i].0.0@ by {
        assert(entry_of(written[j], nodes[j]));
        assert(node_key(nodes[j]) != node_key(nodes[i]));
    }
    crate::storage::lemma_entries_map_reads(written, i);
}

} // verus!
