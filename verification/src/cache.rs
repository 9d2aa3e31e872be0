//! The shared cache: one table behind one reader/writer lock.
//!
//! Every operation takes the lock once (compute-if-absent at most twice),
//! works on the table inside with the table's own exact contract, and gives
//! the lock back. Between two operations of one caller any other caller may
//! have changed the table. So an operation on a shared cache cannot say
//! which table it met; it says that it met one that the cache's rule admits,
//! and that its result is the exact answer for that table.

use crate::table::cloned_option;
use crate::table::lookup;
use crate::table::Table;
use std::hash::Hash;
use vstd::prelude::*;
use vstd::rwlock::RwLock;
use vstd::rwlock::RwLockPredicate;
use vstd::std_specs::hash::obeys_key_model;

verus! {

/// The rule of a cache: which mappings its table may ever hold.
#[verifier::reject_recursive_types(K)]
#[verifier::reject_recursive_types(V)]
pub struct TableRule<K, V> {
    pub admits: spec_fn(Map<K, V>) -> bool,
}

impl<K, V> RwLockPredicate<Table<K, V>> for TableRule<K, V> {
    /// What the lock keeps true of the table inside: the rule admits what
    /// it holds, and admits the empty mapping.
    open spec fn inv(self, t: Table<K, V>) -> bool {
        (self.admits)(t@) && (self.admits)(Map::<K, V>::empty())
    }
}

/// A cache that any number of threads may use through a shared reference.
#[verifier::reject_recursive_types(K)]
#[verifier::reject_recursive_types(V)]
pub struct Cache<K, V> {
    inner: RwLock<Table<K, V>, TableRule<K, V>>,
}

impl<K, V> Cache<K, V> {
    /// Every cache was made for keys whose hashing and comparing agree, as
    /// the hash table under it needs.
    #[verifier::type_invariant]
    spec fn keys_behave(self) -> bool {
        obeys_key_model::<K>()
    }
}

impl<K: Eq + Hash + Clone, V> Cache<K, V> {
    /// Whether this cache's rule lets its table hold `m`. The rule is fixed
    /// when the cache is made.
    pub closed spec fn admits(&self, m: Map<K, V>) -> bool {
        (self.inner.pred().admits)(m)
    }

    /// Whether the table may hold `m` at some moment: the rule admits it,
    /// and it has finitely many entries.
    pub open spec fn may_hold(&self, m: Map<K, V>) -> bool {
        self.admits(m) && m.dom().finite()
    }

    /// An empty cache whose rule admits every mapping.
    pub fn new() -> (c: Self)
        requires
            obeys_key_model::<K>(),
        ensures
            forall|m: Map<K, V>| c.admits(m),
    {
        let ghost rule = TableRule { admits: |m: Map<K, V>| true };
        Cache { inner: RwLock::new(Table::new(), Ghost(rule)) }
    }

    /// An empty cache with room for `capacity` entries, whose rule admits
    /// every mapping. The capacity is a hint and no bound.
    pub fn with_capacity(capacity: usize) -> (c: Self)
        requires
            obeys_key_model::<K>(),
        ensures
            forall|m: Map<K, V>| c.admits(m),
    {
        let ghost rule = TableRule { admits: |m: Map<K, V>| true };
        Cache { inner: RwLock::new(Table::with_capacity(capacity), Ghost(rule)) }
    }

    /// An empty cache that admits exactly the mappings of `rule`, the empty
    /// one among them.
    pub fn with_rule(Ghost(rule): Ghost<spec_fn(Map<K, V>) -> bool>) -> (c: Self)
        requires
            obeys_key_model::<K>(),
            rule(Map::<K, V>::empty()),
        ensures
            forall|m: Map<K, V>| c.admits(m) == rule(m),
    {
        Cache { inner: RwLock::new(Table::new(), Ghost(TableRule { admits: rule })) }
    }

    /// Under the read lock: a clone of the value that stands under `key` at
    /// that moment, if one does.
    pub fn get(&self, key: &K) -> (found: Option<V>) where V: Clone
        ensures
            exists|m: Map<K, V>| #[trigger] self.may_hold(m) && cloned_option(lookup(m, *key), found),
    {
        proof {
            use_type_invariant(self);
        }
        let handle = self.inner.acquire_read();
        let found = handle.borrow().get(key);
        proof {
            handle@.lemma_finite();
            assert(self.may_hold(handle@@));
        }
        handle.release_read();
        found
    }

    /// Under the write lock: stores `value` under `key`, replacing what was
    /// there. The caller shows that the rule admits the table with the new
    /// entry, whatever admitted table the put meets.
    pub fn put(&self, key: K, value: V)
        requires
            forall|m: Map<K, V>| #[trigger] self.may_hold(m) ==> self.admits(m.insert(key, value)),
    {
        proof {
            use_type_invariant(self);
        }
        let (held, handle) = self.inner.acquire_write();
        let mut table = held;
        proof {
            held.lemma_finite();
            assert(self.may_hold(held@));
        }
        table.put(key, value);
        handle.release_write(table);
    }

    /// Compute-if-absent in two phases. First a probe under the read lock:
    /// a hit returns a clone and takes no write lock. On a miss the write
    /// lock is taken and the key probed again, since another caller may have
    /// filled it meanwhile; only if it is still absent is `loader` called,
    /// once, with the write lock held, and a clone of its value stored.
    ///
    /// The result is a clone of what stood under the key in a table that
    /// the cache may hold, or, where that table had nothing under the key,
    /// what the loader made. The caller shows that the rule admits such a
    /// table with a clone of what the loader makes under the key.
    ///
    /// The loader runs with the write lock held: until it returns, every
    /// other operation on the cache waits, whatever its key.
    pub fn get_or_load<F>(&self, key: K, loader: F) -> (v: V) where
        F: FnOnce(&K) -> V,
        V: Clone,

        requires
            loader.requires((&key,)),
            forall|m: Map<K, V>, made: V, copy: V| #[trigger]
                self.may_hold(m) && !m.contains_key(key) && loader.ensures((&key,), made)
                    && #[trigger] cloned(made, copy) ==> self.admits(m.insert(key, copy)),
        ensures
            exists|m: Map<K, V>| #[trigger]
                self.may_hold(m) && match lookup(m, key) {
                    Some(stored) => cloned(stored, v),
                    None => loader.ensures((&key,), v),
                },
    {
        proof {
            use_type_invariant(self);
        }
        let probe = self.inner.acquire_read();
        let hit = probe.borrow().get(&key);
        proof {
            probe@.lemma_finite();
            assert(self.may_hold(probe@@));
        }
        probe.release_read();
        match hit {
            Some(v) => v,
            None => {
                let (held, handle) = self.inner.acquire_write();
                let mut table = held;
                let v = table.get_or_load(key, loader);
                proof {
                    held.lemma_finite();
                    assert(self.may_hold(held@));
                    if !held@.contains_key(key) {
                        assert(cloned(v, table@[key]));
                        assert(self.admits(held@.insert(key, table@[key])));
                    }
                }
                handle.release_write(table);
                v
            },
        }
    }

    /// Under the read lock: the number of entries at that moment.
    pub fn len(&self) -> (n: usize)
        ensures
            exists|m: Map<K, V>| #[trigger] self.may_hold(m) && n == m.len(),
    {
        proof {
            use_type_invariant(self);
        }
        let handle = self.inner.acquire_read();
        let n = handle.borrow().len();
        proof {
            handle@.lemma_finite();
            assert(self.may_hold(handle@@));
        }
        handle.release_read();
        n
    }

    /// Under one read lock: whether the table is empty at that moment, which
    /// is whether its length is 0 at that moment.
    pub fn is_empty(&self) -> (b: bool)
        ensures
            exists|m: Map<K, V>| #[trigger] self.may_hold(m) && b == (m.len() == 0),
    {
        proof {
            use_type_invariant(self);
        }
        let handle = self.inner.acquire_read();
        let b = handle.borrow().is_empty();
        proof {
            handle@.lemma_finite();
            assert(self.may_hold(handle@@));
        }
        handle.release_read();
        b
    }

    /// Under the read lock: whether `key` has an entry at that moment.
    pub fn contains_key(&self, key: &K) -> (b: bool)
        ensures
            exists|m: Map<K, V>| #[trigger] self.may_hold(m) && b == m.contains_key(*key),
    {
        proof {
            use_type_invariant(self);
        }
        let handle = self.inner.acquire_read();
        let b = handle.borrow().contains_key(key);
        proof {
            handle@.lemma_finite();
            assert(self.may_hold(handle@@));
        }
        handle.release_read();
        b
    }

    /// Under the write lock: takes the entry of `key` out and returns its
    /// value, if there is one at that moment. The caller shows that the rule
    /// admits the table without the entry.
    pub fn remove(&self, key: &K) -> (removed: Option<V>)
        requires
            forall|m: Map<K, V>| #[trigger] self.may_hold(m) ==> self.admits(m.remove(*key)),
        ensures
            exists|m: Map<K, V>| #[trigger] self.may_hold(m) && removed == lookup(m, *key),
    {
        proof {
            use_type_invariant(self);
        }
        let (held, handle) = self.inner.acquire_write();
        let mut table = held;
        proof {
            held.lemma_finite();
            assert(self.may_hold(held@));
        }
        let removed = table.remove(key);
        handle.release_write(table);
        removed
    }

    /// Under the write lock: drops every entry at once.
    pub fn clear(&self) {
        let (held, handle) = self.inner.acquire_write();
        let mut table = held;
        table.clear();
        handle.release_write(table);
    }
}

} // verus!
