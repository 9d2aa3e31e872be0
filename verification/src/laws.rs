//! What holds of the operations together.
//!
//! The lock lets the table see the callers' operations one at a time, in
//! some order. Each law here is stated of the mapping, over the same
//! functions in which the table's operations state their effect, and holds
//! of every such order. Cloning is taken as handing back an equal value.

use crate::table::after_load;
use crate::table::lookup;
use vstd::prelude::*;

verus! {

/// What a compute-if-absent on `key` hands back when the loader would make
/// `made`: the stored value on a hit, `made` on a miss.
pub open spec fn load_returns<K, V>(m: Map<K, V>, key: K, made: V) -> V {
    if m.contains_key(key) {
        m[key]
    } else {
        made
    }
}

/// How often a compute-if-absent on `key` calls its loader: never on a hit,
/// once on a miss.
pub open spec fn load_calls<K, V>(m: Map<K, V>, key: K) -> nat {
    if m.contains_key(key) {
        0
    } else {
        1
    }
}

/// The mapping after `n` callers in a row did a compute-if-absent on `key`,
/// each with a loader that makes `made`.
pub open spec fn after_loads<K, V>(m: Map<K, V>, key: K, made: V, n: nat) -> Map<K, V>
    decreases n,
{
    if n == 0 {
        m
    } else {
        after_load(after_loads(m, key, made, (n - 1) as nat), key, made)
    }
}

/// How often the loader ran during those `n` calls.
pub open spec fn calls_in_loads<K, V>(m: Map<K, V>, key: K, made: V, n: nat) -> nat
    decreases n,
{
    if n == 0 {
        0
    } else {
        calls_in_loads(m, key, made, (n - 1) as nat) + load_calls(
            after_loads(m, key, made, (n - 1) as nat),
            key,
        )
    }
}

/// The mapping after the entries of `entries` were put one after another,
/// the first one first.
pub open spec fn after_puts<K, V>(m: Map<K, V>, entries: Seq<(K, V)>) -> Map<K, V>
    decreases entries.len(),
{
    if entries.len() == 0 {
        m
    } else {
        after_puts(m, entries.drop_last()).insert(entries.last().0, entries.last().1)
    }
}

/// No two entries of `entries` have the same key.
pub open spec fn distinct_keys<K, V>(entries: Seq<(K, V)>) -> bool {
    forall|i: int, j: int| 0 <= i < j < entries.len() ==> entries[i].0 != entries[j].0
}

/// Miss, then hit: an empty table has nothing under any key, and once a
/// value was put under a key, a lookup of that key finds it.
pub proof fn law_miss_then_hit<K, V>(m: Map<K, V>, key: K, value: V)
    ensures
        lookup(Map::<K, V>::empty(), key) == None::<V>,
        lookup(Map::<K, V>::empty().insert(key, value), key) == Some(value),
        lookup(m.insert(key, value), key) == Some(value),
{
}

/// Overwrite: of two puts under one key the later one is found, and the
/// table is as if the earlier had never been made.
pub proof fn law_overwrite<K, V>(m: Map<K, V>, key: K, first: V, second: V)
    ensures
        lookup(m.insert(key, first).insert(key, second), key) == Some(second),
        m.insert(key, first).insert(key, second) == m.insert(key, second),
{
    assert(m.insert(key, first).insert(key, second) =~= m.insert(key, second));
}

/// Remove: after a put, removing the key yields the value that was put;
/// then the key has no entry, and removing it again yields nothing and
/// changes nothing.
pub proof fn law_remove<K, V>(m: Map<K, V>, key: K, value: V)
    ensures
        lookup(m.insert(key, value), key) == Some(value),
        lookup(m.insert(key, value).remove(key), key) == None::<V>,
        m.insert(key, value).remove(key).remove(key) == m.insert(key, value).remove(key),
        m.insert(key, value).remove(key) == m.remove(key),
{
    assert(m.insert(key, value).remove(key).remove(key) =~= m.insert(key, value).remove(key));
    assert(m.insert(key, value).remove(key) =~= m.remove(key));
}

/// Put and remove touch one key: what stands under any other key stays.
pub proof fn law_other_keys_untouched<K, V>(m: Map<K, V>, key: K, value: V, other: K)
    requires
        other != key,
    ensures
        lookup(m.insert(key, value), other) == lookup(m, other),
        lookup(m.remove(key), other) == lookup(m, other),
        lookup(after_load(m, key, value), other) == lookup(m, other),
{
}

/// Clear: what a clear leaves behind has length 0 and no entry under any
/// key, whatever the table held before.
pub proof fn law_clear<K, V>(key: K)
    ensures
        Map::<K, V>::empty().len() == 0,
        lookup(Map::<K, V>::empty(), key) == None::<V>,
{
}

/// The states of one key's entry: a compute-if-absent makes an absent key
/// present and leaves a present one as it is; a put keeps or makes it
/// present with the new value; a remove makes it absent.
pub proof fn law_entry_states<K, V>(m: Map<K, V>, key: K, made: V)
    ensures
        !m.contains_key(key) ==> lookup(after_load(m, key, made), key) == Some(made),
        m.contains_key(key) ==> after_load(m, key, made) == m,
        lookup(after_load(m, key, made), key) == Some(load_returns(m, key, made)),
        after_load(after_load(m, key, made), key, made) == after_load(m, key, made),
        load_calls(after_load(m, key, made), key) == 0,
{
}

/// At most one computation per gap: when `n` callers, one or more, do a
/// compute-if-absent on one absent key, in whatever order the lock admits
/// them, the loader runs exactly once, every caller is handed the value it
/// made, and the table ends with that value under the key.
pub proof fn law_one_load_per_gap<K, V>(m: Map<K, V>, key: K, made: V, n: nat)
    requires
        !m.contains_key(key),
        n >= 1,
    ensures
        calls_in_loads(m, key, made, n) == 1,
        after_loads(m, key, made, n) == m.insert(key, made),
        forall|i: nat| i < n ==> load_returns(after_loads(m, key, made, i), key, made) == made,
    decreases n,
{
    if n == 1 {
        assert(after_loads(m, key, made, 0) == m);
        assert(calls_in_loads(m, key, made, 0) == 0);
        assert(after_loads(m, key, made, 1) == after_load(m, key, made));
        assert forall|i: nat| i < n implies load_returns(after_loads(m, key, made, i), key, made)
            == made by {
            assert(i == 0);
        }
    } else {
        let before = (n - 1) as nat;
        law_one_load_per_gap(m, key, made, before);
        assert(after_loads(m, key, made, before).contains_key(key));
        assert forall|i: nat| i < n implies load_returns(after_loads(m, key, made, i), key, made)
            == made by {
            if i == before {
                assert(after_loads(m, key, made, before)[key] == made);
            }
        }
    }
}

/// Where the key is present already, no caller's loader runs and each is
/// handed the stored value.
pub proof fn law_no_load_on_hit<K, V>(m: Map<K, V>, key: K, made: V, n: nat)
    requires
        m.contains_key(key),
    ensures
        calls_in_loads(m, key, made, n) == 0,
        after_loads(m, key, made, n) == m,
        load_returns(after_loads(m, key, made, n), key, made) == m[key],
    decreases n,
{
    if n > 0 {
        law_no_load_on_hit(m, key, made, (n - 1) as nat);
    }
}

/// No lost update: puts on distinct keys, in whatever order the lock admits
/// them, leave as many entries as there were puts in an empty table, and
/// each key is found with the value that was put under it.
pub proof fn law_no_lost_put<K, V>(entries: Seq<(K, V)>)
    requires
        distinct_keys(entries),
    ensures
        after_puts(Map::<K, V>::empty(), entries).dom().finite(),
        after_puts(Map::<K, V>::empty(), entries).len() == entries.len(),
        forall|i: int|
            0 <= i < entries.len() ==> lookup(
                after_puts(Map::<K, V>::empty(), entries),
                #[trigger] entries[i].0,
            ) == Some(entries[i].1),
        forall|k: K| #[trigger]
            after_puts(Map::<K, V>::empty(), entries).contains_key(k) ==> exists|i: int|
                0 <= i < entries.len() && #[trigger] entries[i].0 == k,
    decreases entries.len(),
{
    let full = after_puts(Map::<K, V>::empty(), entries);
    if entries.len() > 0 {
        let front = entries.drop_last();
        let part = after_puts(Map::<K, V>::empty(), front);
        let last = entries.last();
        assert forall|i: int, j: int| 0 <= i < j < front.len() implies front[i].0
            != front[j].0 by {
            assert(front[i] == entries[i]);
            assert(front[j] == entries[j]);
        }
        law_no_lost_put(front);
        assert(full == part.insert(last.0, last.1));
        if part.contains_key(last.0) {
            let i = choose|i: int| 0 <= i < front.len() && #[trigger] front[i].0 == last.0;
            assert(front[i] == entries[i]);
            assert(entries[i].0 == entries[entries.len() - 1].0);
            assert(false);
        }
        assert(full.len() == entries.len());
        assert forall|i: int| 0 <= i < entries.len() implies lookup(
            full,
            #[trigger] entries[i].0,
        ) == Some(entries[i].1) by {
            if i < front.len() {
                assert(front[i] == entries[i]);
                assert(lookup(part, front[i].0) == Some(front[i].1));
                assert(entries[i].0 != entries[entries.len() - 1].0);
            }
        }
        assert forall|k: K| #[trigger] full.contains_key(k) implies exists|i: int|
            0 <= i < entries.len() && #[trigger] entries[i].0 == k by {
            if k == last.0 {
                assert(entries[entries.len() - 1].0 == k);
            } else {
                assert(part.contains_key(k));
                let i = choose|i: int| 0 <= i < front.len() && #[trigger] front[i].0 == k;
                assert(front[i] == entries[i]);
                assert(entries[i].0 == k);
            }
        }
    }
}

} // verus!
