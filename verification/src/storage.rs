//! Key-value storage of serialized nodes.
use crate::assoc::{AssocMap, KeyView};
use vstd::prelude::*;

verus! {

/// A storage key.
#[derive(Clone, Debug, PartialEq, Eq, Hash)]
pub struct StorageKey(pub Vec<u8>);

/// A storage value.
#[derive(Clone, Debug, PartialEq, Eq)]
pub struct StorageValue(pub Vec<u8>);

/// Byte-wise equality of two byte strings.
pub fn bytes_eq(a: &[u8], b: &[u8]) -> (r: bool)
    ensures
        r == (a@ == b@),
{
    if a.len() != b.len() {
        return false;
    }
    let mut i: usize = 0;
    while i < a.len()
        invariant
            a@.len() == b@.len(),
            i <= a@.len(),
            forall|j: int| 0 <= j < i ==> a@[j] == b@[j],
        decreases a@.len() - i,
    {
        if a[i] != b[i] {
            return false;
        }
        i += 1;
    }
    assert(a@ =~= b@);
    true
}

/// Adds one to each byte, wrapping at 256.
pub fn add_one_to_each_byte(bytes: &mut Vec<u8>)
    ensures
        final(bytes)@.len() == old(bytes)@.len(),
        forall|i: int| 0 <= i < old(bytes)@.len() ==> #[trigger] final(bytes)@[i] == (old(bytes)@[i] + 1) % 256,
{
    let mut i: usize = 0;
    while i < bytes.len()
        invariant
            i <= bytes@.len(),
            bytes@.len() == old(bytes)@.len(),
            forall|t: int| 0 <= t < i ==> #[trigger] bytes@[t] == (old(bytes)@[t] + 1) % 256,
            forall|t: int| i <= t < bytes@.len() ==> #[trigger] bytes@[t] == old(bytes)@[t],
        decreases bytes@.len() - i,
    {
        let b = bytes[i];
        bytes.set(i, b.wrapping_add(1));
        i += 1;
    }
}

/// Appends the bytes of a slice.
pub fn append_bytes(out: &mut Vec<u8>, bytes: &[u8])
    ensures
        final(out)@ == old(out)@ + bytes@,
{
    let mut i: usize = 0;
    while i < bytes.len()
        invariant
            i <= bytes@.len(),
            out@ == old(out)@ + bytes@.subrange(0, i as int),
        decreases bytes@.len() - i,
    {
        out.push(bytes[i]);
        proof {
            assert(bytes@.subrange(0, i + 1) =~= bytes@.subrange(0, i as int).push(bytes@[i as int]));
        }
        i += 1;
    }
    assert(bytes@.subrange(0, bytes@.len() as int) =~= bytes@);
}

impl KeyView for StorageKey {
    type Key = Seq<u8>;

    open spec fn key(&self) -> Seq<u8> {
        self.0@
    }

    fn same_key(&self, other: &StorageKey) -> (r: bool) {
        bytes_eq(self.0.as_slice(), other.0.as_slice())
    }
}

/// The kinds of objects in storage, each with its own key prefix.
#[derive(Clone, Copy, Debug, PartialEq, Eq, Structural)]
pub enum StoragePrefix {
    InnerNode,
    StorageLeaf,
    StateTreeLeaf,
    CompiledClassLeaf,
}

impl StoragePrefix {
    /// The bytes of the prefix.
    pub open spec fn spec_bytes(self) -> Seq<u8> {
        match self {
            // "patricia_node"
            StoragePrefix::InnerNode => seq![112u8, 97, 116, 114, 105, 99, 105, 97, 95, 110, 111, 100, 101],
            // "starknet_storage_leaf"
            StoragePrefix::StorageLeaf => seq![
                115u8, 116, 97, 114, 107, 110, 101, 116, 95, 115, 116, 111, 114, 97, 103, 101, 95, 108, 101, 97, 102,
            ],
            // "contract_state"
            StoragePrefix::StateTreeLeaf => seq![99u8, 111, 110, 116, 114, 97, 99, 116, 95, 115, 116, 97, 116, 101],
            // "contract_class_leaf"
            StoragePrefix::CompiledClassLeaf => seq![
                99u8, 111, 110, 116, 114, 97, 99, 116, 95, 99, 108, 97, 115, 115, 95, 108, 101, 97, 102,
            ],
        }
    }

    /// The bytes of the prefix.
    pub fn to_bytes(&self) -> (r: Vec<u8>)
        ensures
            r@ == self.spec_bytes(),
    {
        let r = match self {
            StoragePrefix::InnerNode => vec![112u8, 97, 116, 114, 105, 99, 105, 97, 95, 110, 111, 100, 101],
            StoragePrefix::StorageLeaf => vec![
                115u8, 116, 97, 114, 107, 110, 101, 116, 95, 115, 116, 111, 114, 97, 103, 101, 95, 108, 101, 97, 102,
            ],
            StoragePrefix::StateTreeLeaf => vec![99u8, 111, 110, 116, 114, 97, 99, 116, 95, 115, 116, 97, 116, 101],
            StoragePrefix::CompiledClassLeaf => vec![
                99u8, 111, 110, 116, 114, 97, 99, 116, 95, 99, 108, 97, 115, 115, 95, 108, 101, 97, 102,
            ],
        };
        assert(r@ =~= self.spec_bytes());
        r
    }
}

/// The key of an object: `prefix ++ ":" ++ suffix`.
pub open spec fn db_key(prefix: StoragePrefix, suffix: Seq<u8>) -> Seq<u8> {
    prefix.spec_bytes() + seq![58u8] + suffix
}

/// Creates the storage key of an object from its prefix and suffix.
pub fn create_db_key(prefix: StoragePrefix, suffix: &[u8]) -> (r: StorageKey)
    ensures
        r.0@ == db_key(prefix, suffix@),
{
    let mut key = prefix.to_bytes();
    key.push(58u8);
    append_bytes(&mut key, suffix);
    StorageKey(key)
}

/// A storage held in memory.
pub struct MapStorage {
    pub storage: AssocMap<StorageKey, StorageValue>,
}

impl MapStorage {
    pub open spec fn wf(&self) -> bool {
        self.storage.wf()
    }

    /// What is stored, by key bytes.
    pub open spec fn contents(&self) -> Map<Seq<u8>, StorageValue> {
        self.storage.map()
    }

    pub fn new() -> (r: MapStorage)
        ensures
            r.wf(),
            r.contents() == Map::<Seq<u8>, StorageValue>::empty(),
    {
        MapStorage { storage: AssocMap::new() }
    }

    /// A storage holding the given entries (a later entry overrides an earlier one).
    pub fn from_entries(entries: Vec<(StorageKey, StorageValue)>) -> (r: MapStorage)
        ensures
            r.wf(),
            r.contents() == entries_map(entries@),
    {
        let mut s = MapStorage::new();
        s.mset(entries);
        proof {
            assert(Map::<Seq<u8>, StorageValue>::empty().union_prefer_right(entries_map(entries@)) =~= entries_map(entries@));
        }
        s
    }

    pub fn get(&self, key: &StorageKey) -> (r: Option<&StorageValue>)
        requires
            self.wf(),
        ensures
            r is Some <==> self.contents().dom().contains(key.0@),
            r matches Some(v) ==> *v == self.contents()[key.0@],
    {
        self.storage.get(key)
    }

    pub fn set(&mut self, key: StorageKey, value: StorageValue)
        requires
            old(self).wf(),
        ensures
            final(self).wf(),
            final(self).contents() == old(self).contents().insert(key.0@, value),
    {
        self.storage.insert(key, value);
    }

    /// Stores all the given entries, a later one overriding an earlier one.
    pub fn mset(&mut self, entries: Vec<(StorageKey, StorageValue)>)
        requires
            old(self).wf(),
        ensures
            final(self).wf(),
            final(self).contents() == old(self).contents().union_prefer_right(entries_map(entries@)),
    {
        let ghost all = entries@;
        let ghost start = self.contents();
        proof {
            assert(start.union_prefer_right(entries_map(all.take(0))) =~= start);
        }
        for entry in it: entries
            invariant
                self.wf(),
                it.seq() == all,
                self.contents() == start.union_prefer_right(entries_map(all.take(it.index() as int))),
        {
            let ghost before = self.contents();
            let ghost i = it.index() as int;
            let (k, v) = entry;
            self.set(k, v);
            proof {
                assert(all.take(i + 1).drop_last() =~= all.take(i));
                assert(all.take(i + 1).last() == all[i]);
                assert(self.contents() =~= start.union_prefer_right(entries_map(all.take(i + 1))));
            }
        }
        proof {
            assert(all.take(all.len() as int) =~= all);
        }
    }
}

/// What a list of entries stores, a later entry overriding an earlier one.
pub open spec fn entries_map(s: Seq<(StorageKey, StorageValue)>) -> Map<Seq<u8>, StorageValue>
    decreases s.len(),
{
    if s.len() == 0 {
        Map::empty()
    } else {
        entries_map(s.drop_last()).insert(s.last().0.0@, s.last().1)
    }
}

/// Storing a list of entries, a later entry overriding an earlier one: an
/// entry that no later one overrides reads back.
pub proof fn lemma_entries_map_reads(s: Seq<(StorageKey, StorageValue)>, i: int)
    requires
        0 <= i < s.len(),
        forall|j: int| i < j < s.len() ==> (#[trigger] s[j]).0.0@ != s[i].0.0@,
    ensures
        entries_map(s).dom().contains(s[i].0.0@),
        entries_map(s)[s[i].0.0@] == s[i].1,
    decreases s.len(),
{
    if i < s.len() - 1 {
        lemma_entries_map_reads(s.drop_last(), i);
        assert(s[s.len() - 1].0.0@ != s[i].0.0@);
    }
}

} // verus!
