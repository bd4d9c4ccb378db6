//! The UTXO store: the mapping from 256-bit keys to outputs that backs the
//! ledger. Its narrow contract — get, insert, remove, contains — is stated
//! over a `Map` view; internally it keeps the entries in a vector whose keys
//! are pairwise distinct.

use vstd::prelude::*;

use crate::types::{OutputModel, TransactionOutput};

verus! {

/// Compares two 32-byte keys for equality.
pub fn key_eq(a: &[u8; 32], b: &[u8; 32]) -> (r: bool)
    ensures
        r == (a@ == b@),
{
    let mut i: usize = 0;
    while i < 32
        invariant
            i <= 32,
            forall|j: int| 0 <= j < i ==> a@[j] == b@[j],
        decreases 32 - i,
    {
        if a[i] != b[i] {
            assert(a@[i as int] != b@[i as int]);
            return false;
        }
        i = i + 1;
    }
    proof {
        assert(a@ =~= b@);
    }
    true
}

/// The mapping that a sequence of keyed entries denotes; a later entry for
/// the same key would win, though a well-formed store never holds one.
pub open spec fn as_map(s: Seq<([u8; 32], TransactionOutput)>) -> Map<Seq<u8>, OutputModel>
    decreases s.len(),
{
    if s.len() == 0 {
        Map::empty()
    } else {
        as_map(s.drop_last()).insert(s.last().0@, s.last().1@)
    }
}

/// The keys of a sequence of entries are pairwise distinct.
pub open spec fn unique_keys(s: Seq<([u8; 32], TransactionOutput)>) -> bool {
    forall|i: int, j: int| 0 <= i < j < s.len() ==> s[i].0@ != s[j].0@
}

/// A key is in the denoted map exactly when some entry carries it.
pub proof fn lemma_as_map_contains(s: Seq<([u8; 32], TransactionOutput)>, k: Seq<u8>)
    ensures
        as_map(s).contains_key(k) <==> exists|i: int| 0 <= i < s.len() && s[i].0@ == k,
    decreases s.len(),
{
    if s.len() > 0 {
        lemma_as_map_contains(s.drop_last(), k);
        if s.last().0@ == k {
            assert(s[s.len() - 1].0@ == k);
        } else {
            if as_map(s).contains_key(k) {
                let i = choose|i: int| 0 <= i < s.drop_last().len() && s.drop_last()[i].0@ == k;
                assert(s[i].0@ == k);
            }
            if exists|i: int| 0 <= i < s.len() && s[i].0@ == k {
                let i = choose|i: int| 0 <= i < s.len() && s[i].0@ == k;
                assert(i < s.len() - 1);
                assert(s.drop_last()[i].0@ == k);
            }
        }
    }
}

/// The denoted map is finite.
pub proof fn lemma_as_map_finite(s: Seq<([u8; 32], TransactionOutput)>)
    ensures
        as_map(s).dom().finite(),
    decreases s.len(),
{
    if s.len() > 0 {
        lemma_as_map_finite(s.drop_last());
    }
}

/// With distinct keys, each entry's key maps to that entry's output.
pub proof fn lemma_as_map_value(s: Seq<([u8; 32], TransactionOutput)>, i: int)
    requires
        unique_keys(s),
        0 <= i < s.len(),
    ensures
        as_map(s).contains_key(s[i].0@),
        as_map(s)[s[i].0@] == s[i].1@,
    decreases s.len(),
{
    if i == s.len() - 1 {
    } else {
        assert(s[i].0@ != s.last().0@);
        assert(s.drop_last()[i] == s[i]);
        assert(unique_keys(s.drop_last())) by {
            assert(forall|x: int, y: int|
                0 <= x < y < s.drop_last().len() ==> s.drop_last()[x] == s[x]
                    && s.drop_last()[y] == s[y]);
        }
        lemma_as_map_value(s.drop_last(), i);
    }
}

/// Removing the entry at a position removes exactly its key from the map.
pub proof fn lemma_as_map_remove(s: Seq<([u8; 32], TransactionOutput)>, i: int)
    requires
        unique_keys(s),
        0 <= i < s.len(),
    ensures
        as_map(s.remove(i)) == as_map(s).remove(s[i].0@),
    decreases s.len(),
{
    assert(unique_keys(s.drop_last())) by {
        assert(forall|x: int, y: int|
            0 <= x < y < s.drop_last().len() ==> s.drop_last()[x] == s[x] && s.drop_last()[y]
                == s[y]);
    }
    if i == s.len() - 1 {
        assert(s.remove(i) =~= s.drop_last());
        lemma_as_map_contains(s.drop_last(), s[i].0@);
        assert(forall|j: int| 0 <= j < s.drop_last().len() ==> s.drop_last()[j] == s[j]);
        assert(!as_map(s.drop_last()).contains_key(s[i].0@));
        assert(as_map(s).remove(s[i].0@) =~= as_map(s.drop_last()));
    } else {
        assert(s.remove(i).last() == s.last());
        assert(s.remove(i).drop_last() =~= s.drop_last().remove(i));
        assert(s.drop_last()[i] == s[i]);
        lemma_as_map_remove(s.drop_last(), i);
        assert(s[i].0@ != s.last().0@);
        assert(as_map(s.remove(i)) == as_map(s.drop_last()).remove(s[i].0@).insert(
            s.last().0@,
            s.last().1@,
        ));
        assert(as_map(s.drop_last()).remove(s[i].0@).insert(s.last().0@, s.last().1@) =~= as_map(
            s.drop_last(),
        ).insert(s.last().0@, s.last().1@).remove(s[i].0@));
    }
}

/// The mapping from 256-bit identifiers to unspent outputs.
pub struct UtxoStore {
    entries: Vec<([u8; 32], TransactionOutput)>,
}

impl View for UtxoStore {
    type V = Map<Seq<u8>, OutputModel>;

    closed spec fn view(&self) -> Map<Seq<u8>, OutputModel> {
        as_map(self.entries@)
    }
}

impl UtxoStore {
    /// The store's internal invariant: no key occurs twice.
    pub closed spec fn wf(&self) -> bool {
        unique_keys(self.entries@)
    }

    /// An empty store.
    pub fn new() -> (r: UtxoStore)
        ensures
            r.wf(),
            r@ == Map::<Seq<u8>, OutputModel>::empty(),
    {
        UtxoStore { entries: Vec::new() }
    }

    /// The store's mapping is always finite.
    pub proof fn lemma_finite(&self)
        ensures
            self@.dom().finite(),
    {
        lemma_as_map_finite(self.entries@);
    }

    /// Position of the entry holding `key`, if any.
    fn find(&self, key: &[u8; 32]) -> (r: Option<usize>)
        ensures
            match r {
                Some(i) => i < self.entries@.len() && self.entries@[i as int].0@ == key@,
                None => forall|i: int| 0 <= i < self.entries@.len() ==> self.entries@[i].0@ != key@,
            },
    {
        let mut i: usize = 0;
        while i < self.entries.len()
            invariant
                i <= self.entries@.len(),
                forall|j: int| 0 <= j < i ==> self.entries@[j].0@ != key@,
            decreases self.entries@.len() - i,
        {
            if key_eq(&self.entries[i].0, key) {
                return Some(i);
            }
            i = i + 1;
        }
        None
    }

    /// Whether `key` resolves in the store.
    pub fn contains(&self, key: &[u8; 32]) -> (r: bool)
        ensures
            r == self@.contains_key(key@),
    {
        proof {
            lemma_as_map_contains(self.entries@, key@);
        }
        match self.find(key) {
            Some(_) => true,
            None => false,
        }
    }

    /// The output stored under `key`, if any.
    pub fn get(&self, key: &[u8; 32]) -> (r: Option<TransactionOutput>)
        requires
            self.wf(),
        ensures
            match r {
                Some(o) => self@.contains_key(key@) && o@ == self@[key@],
                None => !self@.contains_key(key@),
            },
    {
        proof {
            lemma_as_map_contains(self.entries@, key@);
        }
        match self.find(key) {
            Some(i) => {
                proof {
                    lemma_as_map_value(self.entries@, i as int);
                }
                Some(self.entries[i].1.clone())
            },
            None => None,
        }
    }

    /// Stores `output` under `key`, replacing what was there.
    pub fn insert(&mut self, key: [u8; 32], output: TransactionOutput)
        requires
            old(self).wf(),
        ensures
            final(self).wf(),
            final(self)@ == old(self)@.insert(key@, output@),
    {
        let ghost pre = self.entries@;
        match self.find(&key) {
            Some(i) => {
                self.entries.remove(i);
                proof {
                    lemma_as_map_remove(pre, i as int);
                    assert(forall|j: int|
                        0 <= j < self.entries@.len() ==> self.entries@[j] == (if j < i {
                            pre[j]
                        } else {
                            pre[j + 1]
                        }));
                    assert(unique_keys(self.entries@));
                    assert(forall|j: int|
                        0 <= j < self.entries@.len() ==> self.entries@[j].0@ != key@);
                }
            },
            None => {},
        }
        let ghost mid = self.entries@;
        self.entries.push((key, output));
        proof {
            assert(self.entries@.drop_last() =~= mid);
            assert(self.entries@.last() == (key, output));
            assert(as_map(self.entries@) == as_map(mid).insert(key@, output@));
            assert(forall|j: int| 0 <= j < mid.len() ==> mid[j].0@ != key@);
            assert(forall|j: int| 0 <= j < mid.len() ==> self.entries@[j] == mid[j]);
            assert(unique_keys(self.entries@));
            assert(as_map(mid).insert(key@, output@) =~= as_map(pre).insert(key@, output@));
        }
    }

    /// Removes `key` from the store; absent keys are left alone.
    pub fn remove(&mut self, key: &[u8; 32])
        requires
            old(self).wf(),
        ensures
            final(self).wf(),
            final(self)@ == old(self)@.remove(key@),
    {
        let ghost pre = self.entries@;
        match self.find(key) {
            Some(i) => {
                self.entries.remove(i);
                proof {
                    lemma_as_map_remove(pre, i as int);
                    assert(forall|j: int|
                        0 <= j < self.entries@.len() ==> self.entries@[j] == (if j < i {
                            pre[j]
                        } else {
                            pre[j + 1]
                        }));
                    assert(unique_keys(self.entries@));
                }
            },
            None => {
                proof {
                    lemma_as_map_contains(pre, key@);
                    assert(as_map(pre).remove(key@) =~= as_map(pre));
                }
            },
        }
    }
}

} // verus!
