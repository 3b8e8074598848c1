//! Finite maps kept as vectors of entries with distinct keys.
use vstd::prelude::*;

verus! {

/// Keys of an `AssocMap`: values that stand for a key and can be compared.
pub trait KeyView {
    type Key;

    /// The key this value stands for.
    spec fn key(&self) -> Self::Key;

    /// Whether two values stand for the same key.
    fn same_key(&self, other: &Self) -> (r: bool)
        ensures
            r == (self.key() == other.key()),
    ;
}

/// The keys of the entries are distinct.
pub open spec fn unique_keys<K: KeyView, V>(s: Seq<(K, V)>) -> bool {
    forall|i: int, j: int|
        0 <= i < s.len() && 0 <= j < s.len() && i != j ==> (#[trigger] s[i]).0.key() != (
        #[trigger] s[j]).0.key()
}

/// The map the entries stand for (a later entry overrides an earlier one).
pub open spec fn to_map<K: KeyView, V>(s: Seq<(K, V)>) -> Map<K::Key, V>
    decreases s.len(),
{
    if s.len() == 0 {
        Map::empty()
    } else {
        to_map(s.drop_last()).insert(s.last().0.key(), s.last().1)
    }
}

/// The map holds a key exactly when some entry has it.
pub proof fn lemma_to_map_dom<K: KeyView, V>(s: Seq<(K, V)>, k: K::Key)
    ensures
        to_map(s).dom().contains(k) <==> exists|i: int| 0 <= i < s.len() && (#[trigger] s[i]).0.key()
            == k,
    decreases s.len(),
{
    if s.len() > 0 {
        lemma_to_map_dom(s.drop_last(), k);
        if to_map(s.drop_last()).dom().contains(k) {
            let i = choose|i: int| 0 <= i < s.drop_last().len() && (#[trigger] s.drop_last()[i]).0.key() == k;
            assert(s[i] == s.drop_last()[i]);
        }
        if exists|i: int| 0 <= i < s.len() && (#[trigger] s[i]).0.key() == k {
            let i = choose|i: int| 0 <= i < s.len() && (#[trigger] s[i]).0.key() == k;
            if i < s.len() - 1 {
                assert(s.drop_last()[i] == s[i]);
            }
        }
    }
}

/// With distinct keys, the map holds each entry's value at its key.
pub proof fn lemma_to_map_entry<K: KeyView, V>(s: Seq<(K, V)>, i: int)
    requires
        unique_keys(s),
        0 <= i < s.len(),
    ensures
        to_map(s).dom().contains(s[i].0.key()),
        to_map(s)[s[i].0.key()] == s[i].1,
    decreases s.len(),
{
    if i < s.len() - 1 {
        let t = s.drop_last();
        assert(t[i] == s[i]);
        assert(unique_keys(t)) by {
            assert forall|a: int, b: int|
                0 <= a < t.len() && 0 <= b < t.len() && a != b implies (#[trigger] t[a]).0.key()
                != (#[trigger] t[b]).0.key() by {
                assert(t[a] == s[a]);
                assert(t[b] == s[b]);
            }
        }
        lemma_to_map_entry(t, i);
        assert(s[i].0.key() != s[s.len() - 1].0.key());
    }
}

/// A finite map kept as a vector of entries with distinct keys.
pub struct AssocMap<K, V> {
    pub entries: Vec<(K, V)>,
}

impl<K: KeyView, V> AssocMap<K, V> {
    /// The map stands for its entries: their keys are distinct.
    pub open spec fn wf(&self) -> bool {
        unique_keys(self.entries@)
    }

    /// The map the entries stand for.
    pub open spec fn map(&self) -> Map<K::Key, V> {
        to_map(self.entries@)
    }

    pub fn new() -> (r: AssocMap<K, V>)
        ensures
            r.wf(),
            r.map() == Map::<K::Key, V>::empty(),
            r.entries@.len() == 0,
    {
        AssocMap { entries: Vec::new() }
    }

    pub fn len(&self) -> (r: usize)
        ensures
            r == self.entries@.len(),
    {
        self.entries.len()
    }

    /// The position of the first entry with the given key, if there is one.
    pub fn position(&self, key: &K) -> (r: Option<usize>)
        ensures
            r matches Some(i) ==> i < self.entries@.len() && self.entries@[i as int].0.key() == key.key()
                && forall|j: int| 0 <= j < i ==> (#[trigger] self.entries@[j]).0.key() != key.key(),
            r is None ==> forall|j: int| 0 <= j < self.entries@.len() ==> (#[trigger] self.entries@[j]).0.key() != key.key(),
    {
        let mut i: usize = 0;
        while i < self.entries.len()
            invariant
                i <= self.entries@.len(),
                forall|j: int| 0 <= j < i ==> (#[trigger] self.entries@[j]).0.key() != key.key(),
            decreases self.entries@.len() - i,
        {
            if self.entries[i].0.same_key(key) {
                return Some(i);
            }
            i += 1;
        }
        None
    }

    /// The position of the entry with the given key, if there is one.
    pub fn find(&self, key: &K) -> (r: Option<usize>)
        requires
            self.wf(),
        ensures
            r is None <==> !self.map().dom().contains(key.key()),
            r matches Some(i) ==> i < self.entries@.len() && self.entries@[i as int].0.key()
                == key.key(),
            r matches Some(i) ==> self.map()[key.key()] == self.entries@[i as int].1,
    {
        let mut i: usize = 0;
        while i < self.entries.len()
            invariant
                self.wf(),
                i <= self.entries@.len(),
                forall|j: int| 0 <= j < i ==> (#[trigger] self.entries@[j]).0.key() != key.key(),
            decreases self.entries@.len() - i,
        {
            if self.entries[i].0.same_key(key) {
                proof {
                    lemma_to_map_entry(self.entries@, i as int);
                }
                return Some(i);
            }
            i += 1;
        }
        proof {
            lemma_to_map_dom(self.entries@, key.key());
        }
        None
    }

    /// The value at a key.
    pub fn get(&self, key: &K) -> (r: Option<&V>)
        requires
            self.wf(),
        ensures
            r is Some <==> self.map().dom().contains(key.key()),
            r matches Some(v) ==> *v == self.map()[key.key()],
    {
        match self.find(key) {
            Some(i) => Some(&self.entries[i].1),
            None => None,
        }
    }

    pub fn contains_key(&self, key: &K) -> (r: bool)
        requires
            self.wf(),
        ensures
            r == self.map().dom().contains(key.key()),
    {
        self.find(key).is_some()
    }

    /// Sets the value at a key; returns whether the key was already there.
    pub fn insert(&mut self, key: K, value: V) -> (r: bool)
        requires
            old(self).wf(),
        ensures
            final(self).wf(),
            final(self).map() == old(self).map().insert(key.key(), value),
            r == old(self).map().dom().contains(key.key()),
            !r ==> final(self).entries@ == old(self).entries@.push((key, value)),
    {
        match self.find(&key) {
            Some(i) => {
                let ghost old_entries = self.entries@;
                self.entries.set(i, (key, value));
                proof {
                    lemma_set_entry(old_entries, i as int, key, value);
                }
                true
            },
            None => {
                let ghost old_entries = self.entries@;
                proof {
                    lemma_to_map_dom(old_entries, key.key());
                }
                self.entries.push((key, value));
                proof {
                    assert(self.entries@.drop_last() == old_entries);
                    assert forall|a: int, b: int|
                        0 <= a < self.entries@.len() && 0 <= b < self.entries@.len() && a
                            != b implies (#[trigger] self.entries@[a]).0.key() != (
                    #[trigger] self.entries@[b]).0.key() by {
                        if a < old_entries.len() && b < old_entries.len() {
                            assert(self.entries@[a] == old_entries[a]);
                            assert(self.entries@[b] == old_entries[b]);
                        } else if a < old_entries.len() {
                            assert(self.entries@[a] == old_entries[a]);
                        } else if b < old_entries.len() {
                            assert(self.entries@[b] == old_entries[b]);
                        }
                    }
                }
                false
            },
        }
    }
}

impl<K: KeyView, V> AssocMap<K, V> {
    /// Takes out the value at a key, if there is one.
    pub fn remove(&mut self, key: &K) -> (r: Option<V>)
        requires
            old(self).wf(),
        ensures
            final(self).wf(),
            r is Some <==> old(self).map().dom().contains(key.key()),
            r matches Some(v) ==> v == old(self).map()[key.key()],
            final(self).map() == old(self).map().remove(key.key()),
    {
        match self.find(key) {
            Some(i) => {
                let ghost old_entries = self.entries@;
                let (_, v) = self.entries.remove(i);
                proof {
                    lemma_remove_entry(old_entries, i as int);
                }
                Some(v)
            },
            None => {
                proof {
                    assert(self.map().remove(key.key()) =~= self.map());
                }
                None
            },
        }
    }
}

/// Removing an entry removes its key from the map.
proof fn lemma_remove_entry<K: KeyView, V>(s: Seq<(K, V)>, i: int)
    requires
        unique_keys(s),
        0 <= i < s.len(),
    ensures
        unique_keys(s.remove(i)),
        to_map(s.remove(i)) == to_map(s).remove(s[i].0.key()),
{
    let t = s.remove(i);
    assert forall|a: int, b: int|
        0 <= a < t.len() && 0 <= b < t.len() && a != b implies (#[trigger] t[a]).0.key() != (#[trigger] t[b]).0.key() by {
        let sa = if a < i { a } else { a + 1 };
        let sb = if b < i { b } else { b + 1 };
        assert(t[a] == s[sa]);
        assert(t[b] == s[sb]);
    }
    let key = s[i].0.key();
    assert forall|k: K::Key| #[trigger] to_map(t).dom().contains(k) <==> to_map(s).remove(key).dom().contains(k) by {
        lemma_to_map_dom(t, k);
        lemma_to_map_dom(s, k);
        if exists|j: int| 0 <= j < t.len() && (#[trigger] t[j]).0.key() == k {
            let j = choose|j: int| 0 <= j < t.len() && (#[trigger] t[j]).0.key() == k;
            let sj = if j < i { j } else { j + 1 };
            assert(t[j] == s[sj]);
        }
        if exists|j: int| 0 <= j < s.len() && (#[trigger] s[j]).0.key() == k {
            let j = choose|j: int| 0 <= j < s.len() && (#[trigger] s[j]).0.key() == k;
            if j != i && k != key {
                let tj = if j < i { j } else { j - 1 };
                assert(t[tj] == s[j]);
            }
        }
    }
    assert forall|k: K::Key| #[trigger] to_map(t).dom().contains(k) implies to_map(t)[k] == to_map(s)[k] by {
        lemma_to_map_dom(t, k);
        let j = choose|j: int| 0 <= j < t.len() && (#[trigger] t[j]).0.key() == k;
        lemma_to_map_entry(t, j);
        let sj = if j < i { j } else { j + 1 };
        assert(t[j] == s[sj]);
        lemma_to_map_entry(s, sj);
    }
    assert(to_map(t) =~= to_map(s).remove(key));
}

/// Replacing an entry by one with the same key updates the map at that key.
proof fn lemma_set_entry<K: KeyView, V>(s: Seq<(K, V)>, i: int, key: K, value: V)
    requires
        unique_keys(s),
        0 <= i < s.len(),
        s[i].0.key() == key.key(),
    ensures
        unique_keys(s.update(i, (key, value))),
        to_map(s.update(i, (key, value))) == to_map(s).insert(key.key(), value),
    decreases s.len(),
{
    let t = s.update(i, (key, value));
    assert forall|a: int, b: int|
        0 <= a < t.len() && 0 <= b < t.len() && a != b implies (#[trigger] t[a]).0.key() != (
    #[trigger] t[b]).0.key() by {
        if a != i {
            assert(t[a] == s[a]);
        }
        if b != i {
            assert(t[b] == s[b]);
        }
    }
    assert(to_map(t) =~= to_map(s).insert(key.key(), value)) by {
        assert forall|k: K::Key| #[trigger] to_map(t).dom().contains(k) <==> to_map(s).insert(key.key(), value).dom().contains(k) by {
            lemma_to_map_dom(t, k);
            lemma_to_map_dom(s, k);
            if exists|j: int| 0 <= j < s.len() && (#[trigger] s[j]).0.key() == k {
                let j = choose|j: int| 0 <= j < s.len() && (#[trigger] s[j]).0.key() == k;
                if j != i {
                    assert(t[j] == s[j]);
                } else {
                    assert(t[i].0.key() == k);
                }
            }
            if exists|j: int| 0 <= j < t.len() && (#[trigger] t[j]).0.key() == k {
                let j = choose|j: int| 0 <= j < t.len() && (#[trigger] t[j]).0.key() == k;
                if j != i {
                    assert(t[j] == s[j]);
                }
            }
        }
        assert forall|k: K::Key| #[trigger] to_map(t).dom().contains(k) implies to_map(t)[k] == to_map(s).insert(key.key(), value)[k] by {
            lemma_to_map_dom(t, k);
            let j = choose|j: int| 0 <= j < t.len() && (#[trigger] t[j]).0.key() == k;
            lemma_to_map_entry(t, j);
            if j != i {
                assert(t[j] == s[j]);
                lemma_to_map_entry(s, j);
            }
        }
    }
}

} // verus!
