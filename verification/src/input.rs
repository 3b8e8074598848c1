//! The input of a block commitment: addresses, keys and the state diff.
use crate::assoc::{AssocMap, KeyView};
use crate::felt::Felt;
use crate::leaf::{ClassHash, CompiledClassHash, ContractState, Nonce};
use crate::storage::MapStorage;
use crate::types::TreeHeight;
use vstd::prelude::*;

verus! {

/// The address of a contract.
#[derive(Clone, Copy, Debug, PartialEq, Eq, Hash, Structural)]
pub struct ContractAddress(pub Felt);

/// A key in a contract's storage.
#[derive(Clone, Copy, Debug, PartialEq, Eq, Hash, Structural)]
pub struct StarknetStorageKey(pub Felt);

/// A value in a contract's storage.
#[derive(Clone, Copy, Debug, PartialEq, Eq, Hash, Structural)]
pub struct StarknetStorageValue(pub Felt);

impl KeyView for ContractAddress {
    type Key = nat;

    open spec fn key(&self) -> nat {
        self.0.val()
    }

    fn same_key(&self, other: &ContractAddress) -> (r: bool) {
        self.0.equals(&other.0)
    }
}

impl KeyView for StarknetStorageKey {
    type Key = nat;

    open spec fn key(&self) -> nat {
        self.0.val()
    }

    fn same_key(&self, other: &StarknetStorageKey) -> (r: bool) {
        self.0.equals(&other.0)
    }
}

/// The changes of a block to the state.
pub struct StateDiff {
    pub address_to_class_hash: AssocMap<ContractAddress, ClassHash>,
    pub address_to_nonce: AssocMap<ContractAddress, Nonce>,
    pub class_hash_to_compiled_class_hash: AssocMap<ClassHash, CompiledClassHash>,
    pub current_contract_state_leaves: AssocMap<ContractAddress, ContractState>,
    pub storage_updates: AssocMap<ContractAddress, AssocMap<StarknetStorageKey, StarknetStorageValue>>,
}

/// The input of a block commitment.
pub struct Input {
    pub storage: MapStorage,
    pub state_diff: StateDiff,
    pub tree_height: TreeHeight,
}

/// The addresses in a list, as numbers.
pub open spec fn address_values(s: Seq<ContractAddress>) -> Seq<nat> {
    s.map_values(|a: ContractAddress| a.0.val())
}

/// No address occurs twice in a list.
pub open spec fn distinct_addresses(s: Seq<ContractAddress>) -> bool {
    forall|i: int, j: int| 0 <= i < s.len() && 0 <= j < s.len() && i != j ==> (#[trigger] s[i]).0.val() != (#[trigger] s[j]).0.val()
}

/// Appends the keys of `entries` that are not yet in `out`.
fn add_new_addresses<V>(out: &mut Vec<ContractAddress>, entries: &Vec<(ContractAddress, V)>)
    requires
        distinct_addresses(old(out)@),
    ensures
        distinct_addresses(final(out)@),
        forall|a: nat| address_values(final(out)@).contains(a) <==> (address_values(old(out)@).contains(a) || exists|j: int|
            0 <= j < entries@.len() && (#[trigger] entries@[j]).0.0.val() == a),
{
    let ghost start = out@;
    let mut j: usize = 0;
    while j < entries.len()
        invariant
            j <= entries@.len(),
            distinct_addresses(out@),
            forall|a: nat| address_values(out@).contains(a) <==> (address_values(start).contains(a) || exists|t: int|
                0 <= t < j && (#[trigger] entries@[t]).0.0.val() == a),
        decreases entries@.len() - j,
    {
        let address = entries[j].0;
        let mut found = false;
        let mut t: usize = 0;
        while t < out.len()
            invariant
                t <= out@.len(),
                found <==> exists|u: int| 0 <= u < t && (#[trigger] out@[u]).0.val() == address.0.val(),
            decreases out@.len() - t,
        {
            if out[t].same_key(&address) {
                found = true;
            }
            t += 1;
        }
        let ghost before = out@;
        proof {
            assert(forall|a: nat| address_values(before).contains(a) <==> (address_values(start).contains(a) || exists|t: int|
                0 <= t < j && (#[trigger] entries@[t]).0.0.val() == a));
        }
        if !found {
            out.push(address);
        }
        proof {
            assert(address_values(out@) =~= if found { address_values(before) } else { address_values(before).push(address.0.val()) });
            assert forall|a: nat| address_values(out@).contains(a) <==> (address_values(start).contains(a) || exists|u: int|
                0 <= u < j + 1 && (#[trigger] entries@[u]).0.0.val() == a) by {
                if address.0.val() == a {
                    assert(entries@[j as int].0.0.val() == a);
                    if found {
                        let w = choose|w: int| 0 <= w < before.len() && (#[trigger] before[w]).0.val() == address.0.val();
                        assert(address_values(before)[w] == a);
                    } else {
                        assert(address_values(out@)[before.len() as int] == a);
                    }
                } else {
                    let vb = address_values(before);
                    let vo = address_values(out@);
                    if vb.contains(a) {
                        let k = choose|k: int| 0 <= k < vb.len() && vb[k] == a;
                        assert(vo[k] == a);
                    }
                    if vo.contains(a) {
                        let k = choose|k: int| 0 <= k < vo.len() && vo[k] == a;
                        assert(k < vb.len());
                        assert(vb[k] == a);
                    }
                    if exists|u: int| 0 <= u < j + 1 && (#[trigger] entries@[u]).0.0.val() == a {
                        let u = choose|u: int| 0 <= u < j + 1 && (#[trigger] entries@[u]).0.0.val() == a;
                        assert(u < j);
                        assert(exists|t: int| 0 <= t < j && (#[trigger] entries@[t]).0.0.val() == a);
                    }
                    if vo.contains(a) && !address_values(start).contains(a) {
                        let t = choose|t: int| 0 <= t < j && (#[trigger] entries@[t]).0.0.val() == a;
                        assert(0 <= t < j + 1);
                    }
                }
            }
            assert forall|x: int, y: int| 0 <= x < out@.len() && 0 <= y < out@.len() && x != y implies (#[trigger] out@[x]).0.val() != (#[trigger] out@[y]).0.val() by {
                if !found && (x == before.len() || y == before.len()) {
                    if x == before.len() {
                        assert(out@[y] == before[y]);
                    } else {
                        assert(out@[x] == before[x]);
                    }
                } else {
                    assert(out@[x] == before[x]);
                    assert(out@[y] == before[y]);
                }
            }
        }
        j += 1;
    }
}

impl StateDiff {
    /// The maps of the state diff have distinct keys.
    pub open spec fn wf(&self) -> bool {
        &&& self.address_to_class_hash.wf()
        &&& self.address_to_nonce.wf()
        &&& self.class_hash_to_compiled_class_hash.wf()
        &&& self.current_contract_state_leaves.wf()
        &&& self.storage_updates.wf()
        &&& forall|a: nat| #[trigger] self.storage_updates.map().dom().contains(a) ==> self.storage_updates.map()[a].wf()
    }

    /// The addresses whose state the diff changes: those with a new class
    /// hash, a new nonce or storage updates.
    pub open spec fn accessed(&self) -> Set<nat> {
        self.address_to_class_hash.map().dom().union(self.address_to_nonce.map().dom()).union(
            self.storage_updates.map().dom(),
        )
    }

    /// The addresses whose state the diff changes, each once.
    pub fn accessed_addresses(&self) -> (r: Vec<ContractAddress>)
        requires
            self.wf(),
        ensures
            distinct_addresses(r@),
            address_values(r@).to_set() == self.accessed(),
    {
        let mut r: Vec<ContractAddress> = Vec::new();
        add_new_addresses(&mut r, &self.address_to_class_hash.entries);
        add_new_addresses(&mut r, &self.address_to_nonce.entries);
        add_new_addresses(&mut r, &self.storage_updates.entries);
        proof {
            assert forall|a: nat| address_values(r@).to_set().contains(a) <==> self.accessed().contains(a) by {
                crate::assoc::lemma_to_map_dom(self.address_to_class_hash.entries@, a);
                crate::assoc::lemma_to_map_dom(self.address_to_nonce.entries@, a);
                crate::assoc::lemma_to_map_dom(self.storage_updates.entries@, a);
            }
            assert(address_values(r@).to_set() =~= self.accessed());
        }
        r
    }
}

} // verus!
