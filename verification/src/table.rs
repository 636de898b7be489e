//! Tables keyed by hash.
use crate::hash::{lemma_key_injective, H256};
use std::collections::BTreeMap;
use vstd::prelude::*;

verus! {

broadcast use vstd::laws_cmp::group_laws_cmp;

/// A table from hashes to values of type `V`.
pub struct HashTable<V> {
    entries: BTreeMap<(u128, u128), V>,
}

impl<V> View for HashTable<V> {
    type V = Map<H256, V>;

    closed spec fn view(&self) -> Map<H256, V> {
        Map::new(
            |hash: H256| self.entries@.contains_key(hash.spec_key()),
            |hash: H256| self.entries@[hash.spec_key()],
        )
    }
}

impl<V> HashTable<V> {
    /// How many entries the table has.
    pub closed spec fn size(&self) -> nat {
        self.entries@.len()
    }

    /// The table without entries.
    pub fn new() -> (r: Self)
        ensures
            r@ == Map::<H256, V>::empty(),
    {
        let r = HashTable { entries: BTreeMap::new() };
        assert(r@ =~= Map::<H256, V>::empty());
        r
    }

    /// The value filed under `hash`, if there is one.
    pub fn get(&self, hash: &H256) -> (r: Option<&V>)
        ensures
            match r {
                Some(v) => self@.contains_key(*hash) && *v == self@[*hash],
                None => !self@.contains_key(*hash),
            },
    {
        let key = hash.key();
        self.entries.get(&key)
    }

    /// Whether a value is filed under `hash`.
    pub fn contains(&self, hash: &H256) -> (r: bool)
        ensures
            r == self@.contains_key(*hash),
    {
        let key = hash.key();
        self.entries.contains_key(&key)
    }

    /// Files `value` under `hash`, in place of what was there.
    pub fn insert(&mut self, hash: H256, value: V)
        ensures
            final(self)@ == old(self)@.insert(hash, value),
    {
        let key = hash.key();
        self.entries.insert(key, value);
        proof {
            assert forall|other: H256| other != hash implies other.spec_key() != key by {
                if other.spec_key() == key {
                    lemma_key_injective(other, hash);
                }
            }
            assert(self@ =~= old(self)@.insert(hash, value));
        }
    }

    /// Takes out what is filed under `hash`.
    pub fn remove(&mut self, hash: &H256) -> (r: Option<V>)
        ensures
            final(self)@ == old(self)@.remove(*hash),
            match r {
                Some(v) => old(self)@.contains_key(*hash) && v == old(self)@[*hash],
                None => !old(self)@.contains_key(*hash),
            },
            r is Some ==> final(self).size() < old(self).size(),
            r is None ==> final(self).size() == old(self).size(),
    {
        let key = hash.key();
        let r = self.entries.remove(&key);
        proof {
            assert forall|other: H256| other != *hash implies other.spec_key() != key by {
                if other.spec_key() == key {
                    lemma_key_injective(other, *hash);
                }
            }
            assert(self@ =~= old(self)@.remove(*hash));
            if r is None {
                assert(self.entries@ =~= old(self).entries@);
            }
        }
        r
    }
}

} // verus!
