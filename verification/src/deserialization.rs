//! The input of the committer as it is read, with byte strings for keys and
//! field elements, and its conversion into maps; and the summary of an input
//! that is written back.
use crate::assoc::{to_map, unique_keys, AssocMap, KeyView};
use crate::felt::{be_value, felt_prime, Felt};
use crate::hash::HashOutput;
use crate::input::{ContractAddress, Input, StarknetStorageKey, StarknetStorageValue, StateDiff};
use crate::leaf::{ClassHash, CompiledClassHash, ContractState, Nonce};
use crate::storage::{MapStorage, StorageKey, StoragePrefix, StorageValue};
use starknet_types_core::felt::FromStrError;
use crate::types::TreeHeight;
use vstd::prelude::*;

verus! {

/// A storage entry as read.
pub struct RawStorageEntry {
    pub key: Vec<u8>,
    pub value: Vec<u8>,
}

/// An entry of a map from field elements to field elements, as read.
pub struct RawFeltMapEntry {
    pub key: [u8; 32],
    pub value: [u8; 32],
}

/// The storage updates of a contract, as read.
pub struct RawStorageUpdates {
    pub address: [u8; 32],
    pub storage_updates: Vec<RawFeltMapEntry>,
}

/// The current state of a contract, as read.
pub struct RawContractStateLeaf {
    pub address: [u8; 32],
    pub nonce: [u8; 32],
    pub storage_root_hash: [u8; 32],
    pub class_hash: [u8; 32],
}

/// The state diff as read.
pub struct RawStateDiff {
    pub address_to_class_hash: Vec<RawFeltMapEntry>,
    pub address_to_nonce: Vec<RawFeltMapEntry>,
    pub class_hash_to_compiled_class_hash: Vec<RawFeltMapEntry>,
    pub current_contract_state_leaves: Vec<RawContractStateLeaf>,
    pub storage_updates: Vec<RawStorageUpdates>,
}

/// The input of the committer as read.
pub struct RawInput {
    pub storage: Vec<RawStorageEntry>,
    pub state_diff: RawStateDiff,
    pub tree_height: u8,
}

/// The input as it was first read.
pub type DeserializedInput = RawInput;

/// Errors while reading the input or stored leaves.
#[derive(Debug)]
pub enum DeserializationError {
    /// A key occurs twice in the named mapping.
    KeyDuplicate(String),
    /// The text is not the JSON expected.
    ParsingError(serde_json::Error),
    /// A member that the JSON must have is missing.
    NonExistingKey(String),
    /// A member of the JSON is not a string.
    LeafTypeError,
    /// The prefix is not that of a leaf.
    LeafPrefixError(StoragePrefix),
    /// The bytes are not UTF-8.
    StringConversionError(std::str::Utf8Error),
    /// A text is not a hexadecimal field element.
    FeltParsingError(FromStrError),
}

/// The field element that 32 bytes stand for.
pub open spec fn felt_of(bytes: [u8; 32]) -> nat {
    be_value(bytes@) % felt_prime()
}

/// The field element of 32 bytes.
fn felt_from_bytes(bytes: &[u8; 32]) -> (r: Felt)
    ensures
        r.val() == felt_of(*bytes),
{
    Felt::from_bytes_be_slice(bytes.as_slice())
}

/// A map holding the given entries, or nothing when two of them have the same
/// key.
pub fn map_from_pairs<K: KeyView, V>(pairs: Vec<(K, V)>) -> (r: Option<AssocMap<K, V>>)
    ensures
        r is Some <==> unique_keys(pairs@),
        r matches Some(m) ==> m.wf() && m.entries@ == pairs@,
{
    let ghost all = pairs@;
    let mut m: AssocMap<K, V> = AssocMap::new();
    for pair in it: pairs
        invariant
            it.seq() == all,
            m.wf(),
            m.entries@ == all.take(it.index() as int),
    {
        let ghost i = it.index() as int;
        let (k, v) = pair;
        if m.contains_key(&k) {
            proof {
                crate::assoc::lemma_to_map_dom(m.entries@, k.key());
                let j = choose|j: int| 0 <= j < m.entries@.len() && (#[trigger] m.entries@[j]).0.key() == k.key();
                assert(all[j] == m.entries@[j]);
                assert(all[i].0 == k);
            }
            return None;
        }
        m.insert(k, v);
        proof {
            assert(m.entries@ =~= all.take(i + 1));
        }
    }
    proof {
        assert(all.take(all.len() as int) =~= all);
    }
    Some(m)
}

/// A map holding the given entries, a later one overriding an earlier one
/// with the same key.
pub fn map_from_pairs_overriding<K: KeyView, V>(pairs: Vec<(K, V)>) -> (r: AssocMap<K, V>)
    ensures
        r.wf(),
        r.map() == to_map(pairs@),
{
    let ghost all = pairs@;
    let mut m: AssocMap<K, V> = AssocMap::new();
    proof {
        assert(all.take(0) =~= Seq::<(K, V)>::empty());
    }
    for pair in it: pairs
        invariant
            it.seq() == all,
            m.wf(),
            m.map() == to_map(all.take(it.index() as int)),
    {
        let ghost i = it.index() as int;
        let (k, v) = pair;
        m.insert(k, v);
        proof {
            assert(all.take(i + 1).drop_last() =~= all.take(i));
            assert(all.take(i + 1).last() == all[i]);
        }
    }
    proof {
        assert(all.take(all.len() as int) =~= all);
    }
    m
}

/// The storage entries of the input.
fn storage_pairs(entries: Vec<RawStorageEntry>) -> (r: Vec<(StorageKey, StorageValue)>)
    ensures
        r@.len() == entries@.len(),
        forall|i: int| 0 <= i < r@.len() ==> (#[trigger] r@[i]).0.0@ == entries@[i].key@ && r@[i].1.0@
            == entries@[i].value@,
{
    let ghost all = entries@;
    let mut r: Vec<(StorageKey, StorageValue)> = Vec::new();
    for entry in it: entries
        invariant
            it.seq() == all,
            r@.len() == it.index(),
            forall|i: int| 0 <= i < r@.len() ==> (#[trigger] r@[i]).0.0@ == all[i].key@ && r@[i].1.0@ == all[i].value@,
    {
        let RawStorageEntry { key, value } = entry;
        r.push((StorageKey(key), StorageValue(value)));
    }
    r
}

/// The entries of a map from addresses to class hashes.
fn address_class_hash_pairs(entries: &Vec<RawFeltMapEntry>) -> (r: Vec<(ContractAddress, ClassHash)>)
    ensures
        r@.len() == entries@.len(),
        forall|i: int| 0 <= i < r@.len() ==> (#[trigger] r@[i]).0.0.val() == felt_of(entries@[i].key) && r@[i].1.0.val()
            == felt_of(entries@[i].value),
{
    let mut r: Vec<(ContractAddress, ClassHash)> = Vec::new();
    let mut i: usize = 0;
    while i < entries.len()
        invariant
            i <= entries@.len(),
            r@.len() == i,
            forall|t: int| 0 <= t < i ==> (#[trigger] r@[t]).0.0.val() == felt_of(entries@[t].key) && r@[t].1.0.val()
                == felt_of(entries@[t].value),
        decreases entries@.len() - i,
    {
        let entry = &entries[i];
        r.push((ContractAddress(felt_from_bytes(&entry.key)), ClassHash(felt_from_bytes(&entry.value))));
        i += 1;
    }
    r
}

/// The entries of a map from addresses to nonces.
fn address_nonce_pairs(entries: &Vec<RawFeltMapEntry>) -> (r: Vec<(ContractAddress, Nonce)>)
    ensures
        r@.len() == entries@.len(),
        forall|i: int| 0 <= i < r@.len() ==> (#[trigger] r@[i]).0.0.val() == felt_of(entries@[i].key) && r@[i].1.0.val()
            == felt_of(entries@[i].value),
{
    let mut r: Vec<(ContractAddress, Nonce)> = Vec::new();
    let mut i: usize = 0;
    while i < entries.len()
        invariant
            i <= entries@.len(),
            r@.len() == i,
            forall|t: int| 0 <= t < i ==> (#[trigger] r@[t]).0.0.val() == felt_of(entries@[t].key) && r@[t].1.0.val()
                == felt_of(entries@[t].value),
        decreases entries@.len() - i,
    {
        let entry = &entries[i];
        r.push((ContractAddress(felt_from_bytes(&entry.key)), Nonce(felt_from_bytes(&entry.value))));
        i += 1;
    }
    r
}

/// The entries of a map from class hashes to compiled class hashes.
fn class_hash_pairs(entries: &Vec<RawFeltMapEntry>) -> (r: Vec<(ClassHash, CompiledClassHash)>)
    ensures
        r@.len() == entries@.len(),
        forall|i: int| 0 <= i < r@.len() ==> (#[trigger] r@[i]).0.0.val() == felt_of(entries@[i].key) && r@[i].1.0.val()
            == felt_of(entries@[i].value),
{
    let mut r: Vec<(ClassHash, CompiledClassHash)> = Vec::new();
    let mut i: usize = 0;
    while i < entries.len()
        invariant
            i <= entries@.len(),
            r@.len() == i,
            forall|t: int| 0 <= t < i ==> (#[trigger] r@[t]).0.0.val() == felt_of(entries@[t].key) && r@[t].1.0.val()
                == felt_of(entries@[t].value),
        decreases entries@.len() - i,
    {
        let entry = &entries[i];
        r.push((ClassHash(felt_from_bytes(&entry.key)), CompiledClassHash(felt_from_bytes(&entry.value))));
        i += 1;
    }
    r
}

/// The entries of a contract's storage updates.
fn storage_update_pairs(entries: &Vec<RawFeltMapEntry>) -> (r: Vec<(StarknetStorageKey, StarknetStorageValue)>)
    ensures
        r@.len() == entries@.len(),
        forall|i: int| 0 <= i < r@.len() ==> (#[trigger] r@[i]).0.0.val() == felt_of(entries@[i].key) && r@[i].1.0.val()
            == felt_of(entries@[i].value),
{
    let mut r: Vec<(StarknetStorageKey, StarknetStorageValue)> = Vec::new();
    let mut i: usize = 0;
    while i < entries.len()
        invariant
            i <= entries@.len(),
            r@.len() == i,
            forall|t: int| 0 <= t < i ==> (#[trigger] r@[t]).0.0.val() == felt_of(entries@[t].key) && r@[t].1.0.val()
                == felt_of(entries@[t].value),
        decreases entries@.len() - i,
    {
        let entry = &entries[i];
        r.push(
            (StarknetStorageKey(felt_from_bytes(&entry.key)), StarknetStorageValue(felt_from_bytes(&entry.value))),
        );
        i += 1;
    }
    r
}

/// The state of a contract as read.
pub open spec fn contract_state_of(leaf: RawContractStateLeaf, s: ContractState) -> bool {
    &&& s.nonce.0.val() == felt_of(leaf.nonce)
    &&& s.class_hash.0.val() == felt_of(leaf.class_hash)
    &&& s.storage_root_hash.val() == felt_of(leaf.storage_root_hash)
}

/// The entries of the map of current contract states.
fn contract_state_pairs(entries: &Vec<RawContractStateLeaf>) -> (r: Vec<(ContractAddress, ContractState)>)
    ensures
        r@.len() == entries@.len(),
        forall|i: int| 0 <= i < r@.len() ==> (#[trigger] r@[i]).0.0.val() == felt_of(entries@[i].address) && contract_state_of(
            entries@[i],
            r@[i].1,
        ),
{
    let mut r: Vec<(ContractAddress, ContractState)> = Vec::new();
    let mut i: usize = 0;
    while i < entries.len()
        invariant
            i <= entries@.len(),
            r@.len() == i,
            forall|t: int| 0 <= t < i ==> (#[trigger] r@[t]).0.0.val() == felt_of(entries@[t].address) && contract_state_of(
                entries@[t],
                r@[t].1,
            ),
        decreases entries@.len() - i,
    {
        let entry = &entries[i];
        let state = ContractState {
            nonce: Nonce(felt_from_bytes(&entry.nonce)),
            class_hash: ClassHash(felt_from_bytes(&entry.class_hash)),
            storage_root_hash: HashOutput(felt_from_bytes(&entry.storage_root_hash)),
        };
        r.push((ContractAddress(felt_from_bytes(&entry.address)), state));
        i += 1;
    }
    r
}

/// The map from field elements to field elements that the entries stand for,
/// a later entry overriding an earlier one with the same key.
pub open spec fn raw_felt_map(entries: Seq<RawFeltMapEntry>) -> Map<nat, nat>
    decreases entries.len(),
{
    if entries.len() == 0 {
        Map::empty()
    } else {
        raw_felt_map(entries.drop_last()).insert(felt_of(entries.last().key), felt_of(entries.last().value))
    }
}

/// Pairs built one for one from raw entries stand for the same map.
proof fn lemma_storage_update_map(
    pairs: Seq<(StarknetStorageKey, StarknetStorageValue)>,
    entries: Seq<RawFeltMapEntry>,
)
    requires
        pairs.len() == entries.len(),
        forall|i: int| 0 <= i < pairs.len() ==> (#[trigger] pairs[i]).0.0.val() == felt_of(entries[i].key) && pairs[i].1.0.val()
            == felt_of(entries[i].value),
    ensures
        to_map(pairs).dom() == raw_felt_map(entries).dom(),
        forall|k: nat| #[trigger] to_map(pairs).dom().contains(k) ==> to_map(pairs)[k].0.val() == raw_felt_map(entries)[k],
    decreases pairs.len(),
{
    if pairs.len() > 0 {
        lemma_storage_update_map(pairs.drop_last(), entries.drop_last());
        assert(to_map(pairs).dom() =~= raw_felt_map(entries).dom());
    }
}

/// No two storage entries have the same key.
pub open spec fn storage_keys_unique(entries: Seq<RawStorageEntry>) -> bool {
    forall|i: int, j: int| 0 <= i < entries.len() && 0 <= j < entries.len() && i != j ==> (#[trigger] entries[i]).key@
        != (#[trigger] entries[j]).key@
}

/// No two entries have keys standing for the same field element.
pub open spec fn felt_keys_unique(entries: Seq<RawFeltMapEntry>) -> bool {
    forall|i: int, j: int| 0 <= i < entries.len() && 0 <= j < entries.len() && i != j ==> felt_of(
        (#[trigger] entries[i]).key,
    ) != felt_of((#[trigger] entries[j]).key)
}

/// No two contract states have addresses standing for the same field element.
pub open spec fn leaf_addresses_unique(entries: Seq<RawContractStateLeaf>) -> bool {
    forall|i: int, j: int| 0 <= i < entries.len() && 0 <= j < entries.len() && i != j ==> felt_of(
        (#[trigger] entries[i]).address,
    ) != felt_of((#[trigger] entries[j]).address)
}

/// No two storage updates have addresses standing for the same field element.
pub open spec fn update_addresses_unique(entries: Seq<RawStorageUpdates>) -> bool {
    forall|i: int, j: int| 0 <= i < entries.len() && 0 <= j < entries.len() && i != j ==> felt_of(
        (#[trigger] entries[i]).address,
    ) != felt_of((#[trigger] entries[j]).address)
}

/// The name of the first mapping of the input with a duplicate key, if any.
pub open spec fn first_duplicate(raw: RawInput) -> Option<Seq<char>> {
    if !storage_keys_unique(raw.storage@) {
        Some("storage"@)
    } else if !felt_keys_unique(raw.state_diff.address_to_class_hash@) {
        Some("address to class hash"@)
    } else if !felt_keys_unique(raw.state_diff.address_to_nonce@) {
        Some("address to nonce"@)
    } else if !felt_keys_unique(raw.state_diff.class_hash_to_compiled_class_hash@) {
        Some("class hash to compiled class hash"@)
    } else if !leaf_addresses_unique(raw.state_diff.current_contract_state_leaves@) {
        Some("current contract state leaves"@)
    } else if !update_addresses_unique(raw.state_diff.storage_updates@) {
        Some("starknet storage updates"@)
    } else {
        None
    }
}

/// The entries of a map of field elements stand for the raw entries, one for one.
pub open spec fn felt_entries<K, V>(
    pairs: Seq<(K, V)>,
    entries: Seq<RawFeltMapEntry>,
    key: spec_fn(K) -> nat,
    value: spec_fn(V) -> nat,
) -> bool {
    &&& pairs.len() == entries.len()
    &&& forall|i: int| 0 <= i < pairs.len() ==> key((#[trigger] pairs[i]).0) == felt_of(entries[i].key) && value(
        pairs[i].1,
    ) == felt_of(entries[i].value)
}

/// The maps of a state diff other than the storage updates hold the raw
/// entries, one for one.
pub open spec fn state_maps_of(d: StateDiff, raw: RawStateDiff) -> bool {
    &&& felt_entries(
        d.address_to_class_hash.entries@,
        raw.address_to_class_hash@,
        |a: ContractAddress| a.0.val(),
        |c: ClassHash| c.0.val(),
    )
    &&& felt_entries(d.address_to_nonce.entries@, raw.address_to_nonce@, |a: ContractAddress| a.0.val(), |n: Nonce| n.0.val())
    &&& felt_entries(
        d.class_hash_to_compiled_class_hash.entries@,
        raw.class_hash_to_compiled_class_hash@,
        |c: ClassHash| c.0.val(),
        |c: CompiledClassHash| c.0.val(),
    )
    &&& d.current_contract_state_leaves.entries@.len() == raw.current_contract_state_leaves@.len()
    &&& forall|i: int| 0 <= i < raw.current_contract_state_leaves@.len() ==> (#[trigger] d.current_contract_state_leaves.entries@[i]).0.0.val()
        == felt_of(raw.current_contract_state_leaves@[i].address) && contract_state_of(
        raw.current_contract_state_leaves@[i],
        d.current_contract_state_leaves.entries@[i].1,
    )
}

/// The storage updates of a contract stand for raw ones: they map each key
/// to its last value.
pub open spec fn updates_of(m: AssocMap<StarknetStorageKey, StarknetStorageValue>, raw: RawStorageUpdates) -> bool {
    &&& m.wf()
    &&& m.map().dom() == raw_felt_map(raw.storage_updates@).dom()
    &&& forall|k: nat| #[trigger] m.map().dom().contains(k) ==> m.map()[k].0.val() == raw_felt_map(raw.storage_updates@)[k]
}

/// A state diff stands for a raw one: each map holds the raw entries, one for
/// one, and each contract's storage updates map its keys to their last values.
pub open spec fn state_diff_of(d: StateDiff, raw: RawStateDiff) -> bool {
    &&& d.wf()
    &&& state_maps_of(d, raw)
    &&& d.storage_updates.entries@.len() == raw.storage_updates@.len()
    &&& forall|i: int| 0 <= i < raw.storage_updates@.len() ==> {
        let (a, m) = #[trigger] d.storage_updates.entries@[i];
        &&& a.0.val() == felt_of(raw.storage_updates@[i].address)
        &&& updates_of(m, raw.storage_updates@[i])
    }
}

/// The storage updates of each contract, as maps.
fn storage_updates_pairs(entries: Vec<RawStorageUpdates>) -> (r: Vec<(ContractAddress, AssocMap<StarknetStorageKey, StarknetStorageValue>)>)
    ensures
        r@.len() == entries@.len(),
        forall|i: int| 0 <= i < r@.len() ==> {
            let (a, m) = #[trigger] r@[i];
            &&& a.0.val() == felt_of(entries@[i].address)
            &&& updates_of(m, entries@[i])
        },
{
    let ghost all = entries@;
    let mut r: Vec<(ContractAddress, AssocMap<StarknetStorageKey, StarknetStorageValue>)> = Vec::new();
    for outer_entry in it: entries
        invariant
            it.seq() == all,
            r@.len() == it.index(),
            forall|i: int| 0 <= i < r@.len() ==> {
                let (a, m) = #[trigger] r@[i];
                &&& a.0.val() == felt_of(all[i].address)
                &&& updates_of(m, all[i])
            },
    {
        let pairs = storage_update_pairs(&outer_entry.storage_updates);
        proof {
            lemma_storage_update_map(pairs@, outer_entry.storage_updates@);
        }
        let inner_map = map_from_pairs_overriding(pairs);
        let address = ContractAddress(felt_from_bytes(&outer_entry.address));
        r.push((address, inner_map));
    }
    r
}

/// No two numbers of a list are the same.
pub open spec fn distinct_nats(keys: Seq<nat>) -> bool {
    forall|i: int, j: int| 0 <= i < keys.len() && 0 <= j < keys.len() && i != j ==> (#[trigger] keys[i]) != (#[trigger] keys[j])
}

/// Keys standing for numbers are distinct exactly when the numbers are.
proof fn lemma_keys_unique<K: KeyView<Key = nat>, V>(pairs: Seq<(K, V)>, keys: Seq<nat>)
    requires
        pairs.len() == keys.len(),
        forall|i: int| 0 <= i < pairs.len() ==> (#[trigger] pairs[i]).0.key() == keys[i],
    ensures
        unique_keys(pairs) <==> distinct_nats(keys),
{
    if !unique_keys(pairs) {
        let (i, j) = choose|i: int, j: int| 0 <= i < pairs.len() && 0 <= j < pairs.len() && i != j
            && (#[trigger] pairs[i]).0.key() == (#[trigger] pairs[j]).0.key();
        assert(keys[i] == keys[j]);
    }
    if !distinct_nats(keys) {
        let (i, j) = choose|i: int, j: int| 0 <= i < keys.len() && 0 <= j < keys.len() && i != j && (#[trigger] keys[i]) == (#[trigger] keys[j]);
        assert(pairs[i].0.key() == pairs[j].0.key());
    }
}

/// The field elements of the keys of raw entries.
pub open spec fn felt_keys(entries: Seq<RawFeltMapEntry>) -> Seq<nat> {
    entries.map_values(|e: RawFeltMapEntry| felt_of(e.key))
}

proof fn lemma_felt_keys(entries: Seq<RawFeltMapEntry>)
    ensures
        felt_keys_unique(entries) <==> distinct_nats(felt_keys(entries)),
{
    let keys = felt_keys(entries);
    if !felt_keys_unique(entries) {
        let (i, j) = choose|i: int, j: int| 0 <= i < entries.len() && 0 <= j < entries.len() && i != j && felt_of(
            (#[trigger] entries[i]).key,
        ) == felt_of((#[trigger] entries[j]).key);
        assert(keys[i] == keys[j]);
    }
    if !distinct_nats(keys) {
        let (i, j) = choose|i: int, j: int| 0 <= i < keys.len() && 0 <= j < keys.len() && i != j && (#[trigger] keys[i]) == (#[trigger] keys[j]);
        assert(felt_of(entries[i].key) == felt_of(entries[j].key));
    }
}

/// The field elements of the addresses of raw contract states.
pub open spec fn leaf_addresses(entries: Seq<RawContractStateLeaf>) -> Seq<nat> {
    entries.map_values(|e: RawContractStateLeaf| felt_of(e.address))
}

proof fn lemma_leaf_addresses(entries: Seq<RawContractStateLeaf>)
    ensures
        leaf_addresses_unique(entries) <==> distinct_nats(leaf_addresses(entries)),
{
    let keys = leaf_addresses(entries);
    if !leaf_addresses_unique(entries) {
        let (i, j) = choose|i: int, j: int| 0 <= i < entries.len() && 0 <= j < entries.len() && i != j && felt_of(
            (#[trigger] entries[i]).address,
        ) == felt_of((#[trigger] entries[j]).address);
        assert(keys[i] == keys[j]);
    }
    if !distinct_nats(keys) {
        let (i, j) = choose|i: int, j: int| 0 <= i < keys.len() && 0 <= j < keys.len() && i != j && (#[trigger] keys[i]) == (#[trigger] keys[j]);
        assert(felt_of(entries[i].address) == felt_of(entries[j].address));
    }
}

/// The field elements of the addresses of raw storage updates.
pub open spec fn update_addresses(entries: Seq<RawStorageUpdates>) -> Seq<nat> {
    entries.map_values(|e: RawStorageUpdates| felt_of(e.address))
}

proof fn lemma_update_addresses(entries: Seq<RawStorageUpdates>)
    ensures
        update_addresses_unique(entries) <==> distinct_nats(update_addresses(entries)),
{
    let keys = update_addresses(entries);
    if !update_addresses_unique(entries) {
        let (i, j) = choose|i: int, j: int| 0 <= i < entries.len() && 0 <= j < entries.len() && i != j && felt_of(
            (#[trigger] entries[i]).address,
        ) == felt_of((#[trigger] entries[j]).address);
        assert(keys[i] == keys[j]);
    }
    if !distinct_nats(keys) {
        let (i, j) = choose|i: int, j: int| 0 <= i < keys.len() && 0 <= j < keys.len() && i != j && (#[trigger] keys[i]) == (#[trigger] keys[j]);
        assert(felt_of(entries[i].address) == felt_of(entries[j].address));
    }
}

impl Input {
    /// Converts the input as read into maps. Fails, naming the mapping, when
    /// two keys of the storage or of a map of the state diff are the same
    /// (field elements compared after reduction); the storage updates of one
    /// contract keep the last value of a repeated key.
    pub fn try_from(raw_input: RawInput) -> (r: Result<Input, DeserializationError>)
        ensures
            r is Ok <==> first_duplicate(raw_input) is None,
            r is Err ==> (r matches Err(DeserializationError::KeyDuplicate(name)) && first_duplicate(raw_input)
                == Some(name@)),
            r matches Ok(input) ==> {
                &&& input.tree_height.0 == raw_input.tree_height
                &&& input.storage.wf()
                &&& input.storage.storage.entries@.len() == raw_input.storage@.len()
                &&& forall|i: int| 0 <= i < raw_input.storage@.len() ==> (#[trigger] input.storage.storage.entries@[i]).0.0@
                    == raw_input.storage@[i].key@ && input.storage.storage.entries@[i].1.0@ == raw_input.storage@[i].value@
                &&& state_diff_of(input.state_diff, raw_input.state_diff)
            },
    {
        let ghost raw = raw_input;
        let RawInput { storage, state_diff, tree_height } = raw_input;
        let storage_entries = storage_pairs(storage);
        proof {
            assert(unique_keys(storage_entries@) <==> storage_keys_unique(raw.storage@)) by {
                if !storage_keys_unique(raw.storage@) {
                    let (i, j) = choose|i: int, j: int| 0 <= i < raw.storage@.len() && 0 <= j < raw.storage@.len() && i != j
                        && (#[trigger] raw.storage@[i]).key@ == (#[trigger] raw.storage@[j]).key@;
                    assert(storage_entries@[i].0.key() == storage_entries@[j].0.key());
                }
                if !unique_keys(storage_entries@) {
                    let (i, j) = choose|i: int, j: int| 0 <= i < storage_entries@.len() && 0 <= j < storage_entries@.len()
                        && i != j && (#[trigger] storage_entries@[i]).0.key() == (#[trigger] storage_entries@[j]).0.key();
                    assert(raw.storage@[i].key@ == raw.storage@[j].key@);
                }
            }
        }
        let storage = match map_from_pairs(storage_entries) {
            Some(m) => MapStorage { storage: m },
            None => {
                return Err(DeserializationError::KeyDuplicate("storage".to_owned()));
            },
        };
        let pairs = address_class_hash_pairs(&state_diff.address_to_class_hash);
        proof {
            lemma_keys_unique(pairs@, felt_keys(raw.state_diff.address_to_class_hash@));
            lemma_felt_keys(raw.state_diff.address_to_class_hash@);
        }
        let address_to_class_hash = match map_from_pairs(pairs) {
            Some(m) => m,
            None => {
                return Err(DeserializationError::KeyDuplicate("address to class hash".to_owned()));
            },
        };
        let pairs = address_nonce_pairs(&state_diff.address_to_nonce);
        proof {
            lemma_keys_unique(pairs@, felt_keys(raw.state_diff.address_to_nonce@));
            lemma_felt_keys(raw.state_diff.address_to_nonce@);
        }
        let address_to_nonce = match map_from_pairs(pairs) {
            Some(m) => m,
            None => {
                return Err(DeserializationError::KeyDuplicate("address to nonce".to_owned()));
            },
        };
        let pairs = class_hash_pairs(&state_diff.class_hash_to_compiled_class_hash);
        proof {
            lemma_keys_unique(pairs@, felt_keys(raw.state_diff.class_hash_to_compiled_class_hash@));
            lemma_felt_keys(raw.state_diff.class_hash_to_compiled_class_hash@);
        }
        let class_hash_to_compiled_class_hash = match map_from_pairs(pairs) {
            Some(m) => m,
            None => {
                return Err(DeserializationError::KeyDuplicate("class hash to compiled class hash".to_owned()));
            },
        };
        let pairs = contract_state_pairs(&state_diff.current_contract_state_leaves);
        proof {
            lemma_keys_unique(pairs@, leaf_addresses(raw.state_diff.current_contract_state_leaves@));
            lemma_leaf_addresses(raw.state_diff.current_contract_state_leaves@);
        }
        let current_contract_state_leaves = match map_from_pairs(pairs) {
            Some(m) => m,
            None => {
                return Err(DeserializationError::KeyDuplicate("current contract state leaves".to_owned()));
            },
        };
        let pairs = storage_updates_pairs(state_diff.storage_updates);
        proof {
            lemma_keys_unique(pairs@, update_addresses(raw.state_diff.storage_updates@));
            lemma_update_addresses(raw.state_diff.storage_updates@);
        }
        let storage_updates = match map_from_pairs(pairs) {
            Some(m) => m,
            None => {
                return Err(DeserializationError::KeyDuplicate("starknet storage updates".to_owned()));
            },
        };
        let input = Input {
            storage,
            state_diff: StateDiff {
                address_to_class_hash,
                address_to_nonce,
                class_hash_to_compiled_class_hash,
                current_contract_state_leaves,
                storage_updates,
            },
            tree_height: TreeHeight(tree_height),
        };
        proof {
            assert forall|a: nat| #[trigger] input.state_diff.storage_updates.map().dom().contains(a) implies input.state_diff.storage_updates.map()[a].wf() by {
                crate::assoc::lemma_to_map_dom(input.state_diff.storage_updates.entries@, a);
                let j = choose|j: int| 0 <= j < input.state_diff.storage_updates.entries@.len()
                    && (#[trigger] input.state_diff.storage_updates.entries@[j]).0.key() == a;
                crate::assoc::lemma_to_map_entry(input.state_diff.storage_updates.entries@, j);
            }
        }
        Ok(input)
    }
}

/// The decimal digits of a number, as ASCII bytes.
pub open spec fn decimal(n: nat) -> Seq<u8>
    decreases n,
{
    if n < 10 {
        seq![(48 + n) as u8]
    } else {
        decimal(n / 10).push((48 + n % 10) as u8)
    }
}

/// Decimal digits are ASCII.
proof fn lemma_decimal_ascii(n: nat)
    ensures
        forall|i: int| 0 <= i < decimal(n).len() ==> 48 <= #[trigger] decimal(n)[i] < 58,
    decreases n,
{
    if n >= 10 {
        lemma_decimal_ascii(n / 10);
        let d = decimal(n);
        let p = decimal(n / 10);
        assert(d == p.push((48 + n % 10) as u8));
        assert forall|i: int| 0 <= i < d.len() implies 48 <= #[trigger] d[i] < 58 by {
            if i < p.len() {
                assert(d[i] == p[i]);
            } else {
                assert(d[i] == (48 + n % 10) as u8);
            }
        }
    } else {
        assert(decimal(n)[0] == (48 + n) as u8);
    }
}

/// The decimal digits of a number.
pub fn decimal_bytes(n: u64) -> (r: Vec<u8>)
    ensures
        r@ == decimal(n as nat),
    decreases n,
{
    if n < 10 {
        vec![(48 + n) as u8]
    } else {
        let mut r = decimal_bytes(n / 10);
        r.push((48 + n % 10) as u8);
        r
    }
}

/// `String::from_utf8` of std on ASCII bytes: the string of those characters.
#[verifier::external_body]
fn ascii_string(bytes: Vec<u8>) -> (r: String)
    requires
        forall|i: int| 0 <= i < bytes@.len() ==> #[trigger] bytes@[i] < 128,
    ensures
        r@ == bytes@.map_values(|b: u8| b as char),
{
    match String::from_utf8(bytes) {
        Ok(s) => s,
        Err(_) => String::new(),
    }
}

/// The pieces of the summary of an input, between its numbers.
pub open spec fn summary_piece(i: int) -> Seq<u8> {
    if i == 0 {
        // "\n        {\n        \"storage_size\": "
        seq![10u8, 32, 32, 32, 32, 32, 32, 32, 32, 123, 10, 32, 32, 32, 32, 32, 32, 32, 32, 34, 115, 116, 111, 114, 97, 103, 101, 95, 115, 105, 122, 101, 34, 58, 32]
    } else if i == 1 {
        // ",\n        \"address_to_class_hash_size\": "
        seq![44u8, 10, 32, 32, 32, 32, 32, 32, 32, 32, 34, 97, 100, 100, 114, 101, 115, 115, 95, 116, 111, 95, 99, 108, 97, 115, 115, 95, 104, 97, 115, 104, 95, 115, 105, 122, 101, 34, 58, 32]
    } else if i == 2 {
        // ",\n        \"address_to_nonce_size\": "
        seq![44u8, 10, 32, 32, 32, 32, 32, 32, 32, 32, 34, 97, 100, 100, 114, 101, 115, 115, 95, 116, 111, 95, 110, 111, 110, 99, 101, 95, 115, 105, 122, 101, 34, 58, 32]
    } else if i == 3 {
        // ",\n        \"class_hash_to_compiled_class_hash\": "
        seq![44u8, 10, 32, 32, 32, 32, 32, 32, 32, 32, 34, 99, 108, 97, 115, 115, 95, 104, 97, 115, 104, 95, 116, 111, 95, 99, 111, 109, 112, 105, 108, 101, 100, 95, 99, 108, 97, 115, 115, 95, 104, 97, 115, 104, 34, 58, 32]
    } else if i == 4 {
        // ",\n        \"current_contract_state_leaves_size\": "
        seq![44u8, 10, 32, 32, 32, 32, 32, 32, 32, 32, 34, 99, 117, 114, 114, 101, 110, 116, 95, 99, 111, 110, 116, 114, 97, 99, 116, 95, 115, 116, 97, 116, 101, 95, 108, 101, 97, 118, 101, 115, 95, 115, 105, 122, 101, 34, 58, 32]
    } else if i == 5 {
        // ",  \n        \"outer_storage_updates_size\": "
        seq![44u8, 32, 32, 10, 32, 32, 32, 32, 32, 32, 32, 32, 34, 111, 117, 116, 101, 114, 95, 115, 116, 111, 114, 97, 103, 101, 95, 117, 112, 100, 97, 116, 101, 115, 95, 115, 105, 122, 101, 34, 58, 32]
    } else if i == 6 {
        // ",\n        \"tree_height\": "
        seq![44u8, 10, 32, 32, 32, 32, 32, 32, 32, 32, 34, 116, 114, 101, 101, 95, 104, 101, 105, 103, 104, 116, 34, 58, 32]
    } else {
        // "\n        }"
        seq![10u8, 32, 32, 32, 32, 32, 32, 32, 32, 125]
    }
}

/// The summary of an input with the given sizes: a JSON object with the
/// number of entries of each mapping and the tree height.
pub open spec fn summary(sizes: Seq<nat>) -> Seq<u8> {
    summary_piece(0) + decimal(sizes[0]) + summary_piece(1) + decimal(sizes[1]) + summary_piece(2) + decimal(sizes[2])
        + summary_piece(3) + decimal(sizes[3]) + summary_piece(4) + decimal(sizes[4]) + summary_piece(5) + decimal(
        sizes[5],
    ) + summary_piece(6) + decimal(sizes[6]) + summary_piece(7)
}

/// The bytes of the `i`-th piece of the summary.
fn summary_piece_bytes(i: u8) -> (r: Vec<u8>)
    requires
        i <= 7,
    ensures
        r@ == summary_piece(i as int),
        forall|j: int| 0 <= j < r@.len() ==> #[trigger] r@[j] < 128,
{
    let r: Vec<u8> = if i == 0 {
        vec![10u8, 32, 32, 32, 32, 32, 32, 32, 32, 123, 10, 32, 32, 32, 32, 32, 32, 32, 32, 34, 115, 116, 111, 114, 97, 103, 101, 95, 115, 105, 122, 101, 34, 58, 32]
    } else if i == 1 {
        vec![44u8, 10, 32, 32, 32, 32, 32, 32, 32, 32, 34, 97, 100, 100, 114, 101, 115, 115, 95, 116, 111, 95, 99, 108, 97, 115, 115, 95, 104, 97, 115, 104, 95, 115, 105, 122, 101, 34, 58, 32]
    } else if i == 2 {
        vec![44u8, 10, 32, 32, 32, 32, 32, 32, 32, 32, 34, 97, 100, 100, 114, 101, 115, 115, 95, 116, 111, 95, 110, 111, 110, 99, 101, 95, 115, 105, 122, 101, 34, 58, 32]
    } else if i == 3 {
        vec![44u8, 10, 32, 32, 32, 32, 32, 32, 32, 32, 34, 99, 108, 97, 115, 115, 95, 104, 97, 115, 104, 95, 116, 111, 95, 99, 111, 109, 112, 105, 108, 101, 100, 95, 99, 108, 97, 115, 115, 95, 104, 97, 115, 104, 34, 58, 32]
    } else if i == 4 {
        vec![44u8, 10, 32, 32, 32, 32, 32, 32, 32, 32, 34, 99, 117, 114, 114, 101, 110, 116, 95, 99, 111, 110, 116, 114, 97, 99, 116, 95, 115, 116, 97, 116, 101, 95, 108, 101, 97, 118, 101, 115, 95, 115, 105, 122, 101, 34, 58, 32]
    } else if i == 5 {
        vec![44u8, 32, 32, 10, 32, 32, 32, 32, 32, 32, 32, 32, 34, 111, 117, 116, 101, 114, 95, 115, 116, 111, 114, 97, 103, 101, 95, 117, 112, 100, 97, 116, 101, 115, 95, 115, 105, 122, 101, 34, 58, 32]
    } else if i == 6 {
        vec![44u8, 10, 32, 32, 32, 32, 32, 32, 32, 32, 34, 116, 114, 101, 101, 95, 104, 101, 105, 103, 104, 116, 34, 58, 32]
    } else {
        vec![10u8, 32, 32, 32, 32, 32, 32, 32, 32, 125]
    };
    proof {
        assert(r@ =~= summary_piece(i as int));
    }
    r
}

/// The sizes an input summary reports: the number of storage entries, of
/// each map of the state diff, and the tree height.
pub open spec fn input_sizes(input: &Input) -> Seq<nat> {
    seq![
        input.storage.storage.entries@.len(),
        input.state_diff.address_to_class_hash.entries@.len(),
        input.state_diff.address_to_nonce.entries@.len(),
        input.state_diff.class_hash_to_compiled_class_hash.entries@.len(),
        input.state_diff.current_contract_state_leaves.entries@.len(),
        input.state_diff.storage_updates.entries@.len(),
        input.tree_height.0 as nat,
    ]
}

/// Appends the decimal digits of a number, keeping the bytes ASCII.
fn append_decimal(out: &mut Vec<u8>, n: u64)
    requires
        forall|j: int| 0 <= j < old(out)@.len() ==> #[trigger] old(out)@[j] < 128,
    ensures
        final(out)@ == old(out)@ + decimal(n as nat),
        forall|j: int| 0 <= j < final(out)@.len() ==> #[trigger] final(out)@[j] < 128,
{
    let digits = decimal_bytes(n);
    proof {
        lemma_decimal_ascii(n as nat);
    }
    crate::storage::append_bytes(out, digits.as_slice());
    proof {
        assert forall|j: int| 0 <= j < out@.len() implies #[trigger] out@[j] < 128 by {
            if j >= old(out)@.len() {
                assert(out@[j] == digits@[j - old(out)@.len()]);
            }
        }
    }
}

/// Appends a piece of the summary, keeping the bytes ASCII.
fn append_piece(out: &mut Vec<u8>, i: u8)
    requires
        i <= 7,
        forall|j: int| 0 <= j < old(out)@.len() ==> #[trigger] old(out)@[j] < 128,
    ensures
        final(out)@ == old(out)@ + summary_piece(i as int),
        forall|j: int| 0 <= j < final(out)@.len() ==> #[trigger] final(out)@[j] < 128,
{
    let piece = summary_piece_bytes(i);
    crate::storage::append_bytes(out, piece.as_slice());
    proof {
        assert forall|j: int| 0 <= j < out@.len() implies #[trigger] out@[j] < 128 by {
            if j >= old(out)@.len() {
                assert(out@[j] == piece@[j - old(out)@.len()]);
            }
        }
    }
}

/// The summary of an input that is handed back: the number of entries of the
/// storage and of each map of the state diff, and the tree height.
pub fn create_output_to_python(actual_input: &Input) -> (r: String)
    ensures
        r@ == summary(input_sizes(actual_input)).map_values(|b: u8| b as char),
{
    let mut out: Vec<u8> = Vec::new();
    append_piece(&mut out, 0);
    append_decimal(&mut out, actual_input.storage.storage.len() as u64);
    append_piece(&mut out, 1);
    append_decimal(&mut out, actual_input.state_diff.address_to_class_hash.len() as u64);
    append_piece(&mut out, 2);
    append_decimal(&mut out, actual_input.state_diff.address_to_nonce.len() as u64);
    append_piece(&mut out, 3);
    append_decimal(&mut out, actual_input.state_diff.class_hash_to_compiled_class_hash.len() as u64);
    append_piece(&mut out, 4);
    append_decimal(&mut out, actual_input.state_diff.current_contract_state_leaves.len() as u64);
    append_piece(&mut out, 5);
    append_decimal(&mut out, actual_input.state_diff.storage_updates.len() as u64);
    append_piece(&mut out, 6);
    append_decimal(&mut out, actual_input.tree_height.0 as u64);
    append_piece(&mut out, 7);
    proof {
        assert(out@ =~= summary(input_sizes(actual_input)));
    }
    ascii_string(out)
}

/// The position of the last storage updates of contract `address` (or -1).
pub open spec fn last_update(entries: Seq<RawStorageUpdates>, address: nat) -> int
    decreases entries.len(),
{
    if entries.len() == 0 {
        -1
    } else if felt_of(entries.last().address) == address {
        entries.len() - 1
    } else {
        last_update(entries.drop_last(), address)
    }
}

/// The last storage updates of each contract make up the map of the pairs.
proof fn lemma_last_updates(
    pairs: Seq<(ContractAddress, AssocMap<StarknetStorageKey, StarknetStorageValue>)>,
    entries: Seq<RawStorageUpdates>,
)
    requires
        pairs.len() == entries.len(),
        forall|i: int| 0 <= i < pairs.len() ==> {
            let (a, m) = #[trigger] pairs[i];
            &&& a.0.val() == felt_of(entries[i].address)
            &&& updates_of(m, entries[i])
        },
    ensures
        forall|a: nat| #[trigger] to_map(pairs).dom().contains(a) <==> last_update(entries, a) >= 0,
        forall|a: nat| #[trigger] to_map(pairs).dom().contains(a) ==> 0 <= last_update(entries, a) < entries.len()
            && updates_of(to_map(pairs)[a], entries[last_update(entries, a)]),
    decreases pairs.len(),
{
    if pairs.len() > 0 {
        lemma_last_updates(pairs.drop_last(), entries.drop_last());
        let n = pairs.len() - 1;
        assert forall|a: nat| #[trigger] to_map(pairs).dom().contains(a) <==> last_update(entries, a) >= 0 by {
            if a != pairs[n].0.key() {
                assert(to_map(pairs.drop_last()).dom().contains(a) <==> last_update(entries.drop_last(), a) >= 0);
            }
        }
        assert forall|a: nat| #[trigger] to_map(pairs).dom().contains(a) implies 0 <= last_update(entries, a) < entries.len()
            && updates_of(to_map(pairs)[a], entries[last_update(entries, a)]) by {
            if a != pairs[n].0.key() {
                assert(to_map(pairs.drop_last()).dom().contains(a));
                let t = last_update(entries.drop_last(), a);
                assert(entries.drop_last()[t] == entries[t]);
            }
        }
    }
}

impl RawInput {
    /// Converts the input as first read into maps. The keys of the storage,
    /// of the maps of the state diff and of the contract states must be
    /// distinct; the storage updates of a contract repeated later replace the
    /// earlier ones, and within a contract a repeated key keeps its last value.
    pub fn actual_input(self) -> (r: Input)
        requires
            storage_keys_unique(self.storage@),
            felt_keys_unique(self.state_diff.address_to_class_hash@),
            felt_keys_unique(self.state_diff.address_to_nonce@),
            felt_keys_unique(self.state_diff.class_hash_to_compiled_class_hash@),
            leaf_addresses_unique(self.state_diff.current_contract_state_leaves@),
        ensures
            r.tree_height.0 == self.tree_height,
            r.storage.wf(),
            r.storage.storage.entries@.len() == self.storage@.len(),
            forall|i: int| 0 <= i < self.storage@.len() ==> (#[trigger] r.storage.storage.entries@[i]).0.0@
                == self.storage@[i].key@ && r.storage.storage.entries@[i].1.0@ == self.storage@[i].value@,
            r.state_diff.wf(),
            state_maps_of(r.state_diff, self.state_diff),
            forall|a: nat| #[trigger] r.state_diff.storage_updates.map().dom().contains(a) <==> last_update(
                self.state_diff.storage_updates@,
                a,
            ) >= 0,
            forall|a: nat| #[trigger] r.state_diff.storage_updates.map().dom().contains(a) ==> updates_of(
                r.state_diff.storage_updates.map()[a],
                self.state_diff.storage_updates@[last_update(self.state_diff.storage_updates@, a)],
            ),
    {
        let ghost raw = self;
        let RawInput { storage, state_diff, tree_height } = self;
        let storage_entries = storage_pairs(storage);
        proof {
            assert(unique_keys(storage_entries@)) by {
                assert forall|i: int, j: int| 0 <= i < storage_entries@.len() && 0 <= j < storage_entries@.len() && i != j
                    implies (#[trigger] storage_entries@[i]).0.key() != (#[trigger] storage_entries@[j]).0.key() by {
                    assert(raw.storage@[i].key@ != raw.storage@[j].key@);
                }
            }
        }
        let storage_map = map_from_pairs(storage_entries);
        let pairs = address_class_hash_pairs(&state_diff.address_to_class_hash);
        proof {
            lemma_keys_unique(pairs@, felt_keys(raw.state_diff.address_to_class_hash@));
            lemma_felt_keys(raw.state_diff.address_to_class_hash@);
        }
        let address_to_class_hash = map_from_pairs(pairs);
        let pairs = address_nonce_pairs(&state_diff.address_to_nonce);
        proof {
            lemma_keys_unique(pairs@, felt_keys(raw.state_diff.address_to_nonce@));
            lemma_felt_keys(raw.state_diff.address_to_nonce@);
        }
        let address_to_nonce = map_from_pairs(pairs);
        let pairs = class_hash_pairs(&state_diff.class_hash_to_compiled_class_hash);
        proof {
            lemma_keys_unique(pairs@, felt_keys(raw.state_diff.class_hash_to_compiled_class_hash@));
            lemma_felt_keys(raw.state_diff.class_hash_to_compiled_class_hash@);
        }
        let class_hash_to_compiled_class_hash = map_from_pairs(pairs);
        let pairs = contract_state_pairs(&state_diff.current_contract_state_leaves);
        proof {
            lemma_keys_unique(pairs@, leaf_addresses(raw.state_diff.current_contract_state_leaves@));
            lemma_leaf_addresses(raw.state_diff.current_contract_state_leaves@);
        }
        let current_contract_state_leaves = map_from_pairs(pairs);
        let update_pairs = storage_updates_pairs(state_diff.storage_updates);
        proof {
            lemma_last_updates(update_pairs@, raw.state_diff.storage_updates@);
        }
        let storage_updates = map_from_pairs_overriding(update_pairs);
        match (storage_map, address_to_class_hash, address_to_nonce, class_hash_to_compiled_class_hash, current_contract_state_leaves) {
            (Some(storage_map), Some(address_to_class_hash), Some(address_to_nonce), Some(class_hash_to_compiled_class_hash), Some(current_contract_state_leaves)) => {
                let input = Input {
                    storage: MapStorage { storage: storage_map },
                    state_diff: StateDiff {
                        address_to_class_hash,
                        address_to_nonce,
                        class_hash_to_compiled_class_hash,
                        current_contract_state_leaves,
                        storage_updates,
                    },
                    tree_height: TreeHeight(tree_height),
                };
                input
            },
            _ => {
                proof {
                    assert(false);
                }
                Input {
                    storage: MapStorage::new(),
                    state_diff: StateDiff {
                        address_to_class_hash: AssocMap::new(),
                        address_to_nonce: AssocMap::new(),
                        class_hash_to_compiled_class_hash: AssocMap::new(),
                        current_contract_state_leaves: AssocMap::new(),
                        storage_updates: AssocMap::new(),
                    },
                    tree_height: TreeHeight(tree_height),
                }
            },
        }
    }
}

} // verus!
