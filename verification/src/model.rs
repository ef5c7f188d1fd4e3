//! What the operations of the table do to the map that it stands for, and
//! the laws that follow.

use vstd::prelude::*;

verus! {

/// Whether an insertion under `key` is accepted: only where `key` has no entry yet.
pub open spec fn insert_succeeds<V>(m: Map<u64, V>, key: u64) -> bool {
    !m.contains_key(key)
}

/// The map after an insertion of `(key, value)`: an existing entry is kept as it is.
pub open spec fn after_insert<V>(m: Map<u64, V>, key: u64, value: V) -> Map<u64, V> {
    if m.contains_key(key) {
        m
    } else {
        m.insert(key, value)
    }
}

/// What a lookup of `key` finds.
pub open spec fn lookup<V>(m: Map<u64, V>, key: u64) -> Option<V> {
    if m.contains_key(key) {
        Some(m[key])
    } else {
        None
    }
}

/// The map after the removal of `key`; the removal returns `lookup(m, key)`.
pub open spec fn after_remove<V>(m: Map<u64, V>, key: u64) -> Map<u64, V> {
    m.remove(key)
}

/// An insertion under a key that has no entry is accepted, and a lookup of
/// the key then finds the inserted value.
pub proof fn lemma_insert_then_get<V>(m: Map<u64, V>, key: u64, value: V)
    requires
        !m.contains_key(key),
    ensures
        insert_succeeds(m, key),
        lookup(after_insert(m, key, value), key) == Some(value),
{
}

/// After an insertion under `key`, a second insertion under `key` is
/// rejected and changes nothing: a lookup still finds the value that the
/// key had after the first.
pub proof fn lemma_second_insert_rejected<V>(m: Map<u64, V>, key: u64, first: V, second: V)
    ensures
        !insert_succeeds(after_insert(m, key, first), key),
        after_insert(after_insert(m, key, first), key, second) == after_insert(m, key, first),
        insert_succeeds(m, key) ==> lookup(
            after_insert(after_insert(m, key, first), key, second),
            key,
        ) == Some(first),
{
}

/// After a removal of `key` the key has no entry, and a further removal
/// finds nothing and changes nothing.
pub proof fn lemma_removed_is_absent<V>(m: Map<u64, V>, key: u64)
    ensures
        !after_remove(m, key).contains_key(key),
        lookup(after_remove(m, key), key) == None::<V>,
        after_remove(after_remove(m, key), key) == after_remove(m, key),
{
    assert(after_remove(m, key).remove(key) =~= after_remove(m, key));
}

/// An accepted insertion adds one key, a rejected one none; a removal takes
/// one key away where the key had an entry.
pub proof fn lemma_len_steps<V>(m: Map<u64, V>, key: u64, value: V)
    requires
        m.dom().finite(),
    ensures
        after_insert(m, key, value).dom().finite(),
        after_remove(m, key).dom().finite(),
        after_insert(m, key, value).len() == m.len() + (if insert_succeeds(m, key) {
            1nat
        } else {
            0nat
        }),
        after_remove(m, key).len() + (if m.contains_key(key) {
            1nat
        } else {
            0nat
        }) == m.len(),
{
}

/// The empty map has no keys: every lookup finds nothing.
pub proof fn lemma_empty_has_nothing<V>(key: u64)
    ensures
        Map::<u64, V>::empty().len() == 0,
        lookup(Map::<u64, V>::empty(), key) == None::<V>,
{
}

} // verus!
