//! The table of entries: the mapping that the cache guards, with the exact
//! effect of every operation on it.

use std::collections::HashMap;
use std::hash::Hash;
use vstd::prelude::*;
use vstd::std_specs::hash::obeys_key_model;

verus! {

broadcast use vstd::std_specs::hash::group_hash_axioms;

/// What looking `key` up in `m` finds: the stored value, or nothing.
pub open spec fn lookup<K, V>(m: Map<K, V>, key: K) -> Option<V> {
    if m.contains_key(key) {
        Some(m[key])
    } else {
        None
    }
}

/// `copy` is what cloning `stored` gives: absent for absent, and a clone of
/// the value for a value.
pub open spec fn cloned_option<V: Clone>(stored: Option<V>, copy: Option<V>) -> bool {
    match (stored, copy) {
        (Some(a), Some(b)) => cloned(a, b),
        (None, None) => true,
        _ => false,
    }
}

/// The mapping after a compute-if-absent on `key`: unchanged where the key
/// was present, extended by `stored` where it was absent.
pub open spec fn after_load<K, V>(m: Map<K, V>, key: K, stored: V) -> Map<K, V> {
    if m.contains_key(key) {
        m
    } else {
        m.insert(key, stored)
    }
}

/// A set of unique key/value entries. Its view is the mapping it holds.
pub struct Table<K, V> {
    entries: HashMap<K, V>,
}

impl<K, V> View for Table<K, V> {
    type V = Map<K, V>;

    closed spec fn view(&self) -> Map<K, V> {
        self.entries@
    }
}

impl<K: Eq + Hash + Clone, V> Table<K, V> {
    /// A table holds finitely many entries.
    pub proof fn lemma_finite(self)
        ensures
            self@.dom().finite(),
    {
    }

    /// An empty table.
    pub fn new() -> (t: Self)
        ensures
            t@ == Map::<K, V>::empty(),
    {
        Table { entries: HashMap::new() }
    }

    /// An empty table with room for `capacity` entries. The capacity only
    /// saves reallocation: it is no bound and changes no result.
    pub fn with_capacity(capacity: usize) -> (t: Self)
        ensures
            t@ == Map::<K, V>::empty(),
    {
        Table { entries: HashMap::with_capacity(capacity) }
    }

    /// A clone of the value stored under `key`, if there is one.
    pub fn get(&self, key: &K) -> (found: Option<V>) where V: Clone
        requires
            obeys_key_model::<K>(),
        ensures
            cloned_option(lookup(self@, *key), found),
    {
        match self.entries.get(key) {
            Some(v) => Some(v.clone()),
            None => None,
        }
    }

    /// Stores `value` under `key`, replacing what was there.
    pub fn put(&mut self, key: K, value: V)
        requires
            obeys_key_model::<K>(),
        ensures
            final(self)@ == old(self)@.insert(key, value),
    {
        self.entries.insert(key, value);
    }

    /// Takes the entry of `key` out and returns its value, if there was one.
    pub fn remove(&mut self, key: &K) -> (removed: Option<V>)
        requires
            obeys_key_model::<K>(),
        ensures
            removed == lookup(old(self)@, *key),
            final(self)@ == old(self)@.remove(*key),
    {
        self.entries.remove(key)
    }

    /// Drops every entry.
    pub fn clear(&mut self)
        ensures
            final(self)@ == Map::<K, V>::empty(),
    {
        self.entries.clear();
    }

    /// The number of entries.
    pub fn len(&self) -> (n: usize)
        requires
            obeys_key_model::<K>(),
        ensures
            n == self@.len(),
    {
        self.entries.len()
    }

    /// Whether the table holds no entry: the same as `len() == 0`.
    pub fn is_empty(&self) -> (b: bool)
        requires
            obeys_key_model::<K>(),
        ensures
            b == (self@.len() == 0),
            b == (self@ == Map::<K, V>::empty()),
    {
        proof {
            self.lemma_finite();
            if self@.len() == 0 {
                assert(self@ =~= Map::<K, V>::empty());
            }
        }
        self.entries.len() == 0
    }

    /// Whether `key` has an entry.
    pub fn contains_key(&self, key: &K) -> (b: bool)
        requires
            obeys_key_model::<K>(),
        ensures
            b == self@.contains_key(*key),
    {
        self.entries.contains_key(key)
    }

    /// Compute-if-absent. Where `key` has an entry, a clone of its value
    /// comes back, the table stays as it was and `loader` is not called.
    /// Where it has none, `loader` is called once on the key, a clone of
    /// what it gave is stored under the key, and what it gave comes back.
    pub fn get_or_load<F>(&mut self, key: K, loader: F) -> (v: V) where
        F: FnOnce(&K) -> V,
        V: Clone,

        requires
            obeys_key_model::<K>(),
            loader.requires((&key,)),
        ensures
            final(self)@.contains_key(key),
            final(self)@ == after_load(old(self)@, key, final(self)@[key]),
            match lookup(old(self)@, key) {
                Some(stored) => cloned(stored, v),
                None => loader.ensures((&key,), v) && cloned(v, final(self)@[key]),
            },
    {
        match self.entries.get(&key) {
            Some(found) => found.clone(),
            None => {
                let v = loader(&key);
                self.entries.insert(key, v.clone());
                v
            },
        }
    }
}

} // verus!
