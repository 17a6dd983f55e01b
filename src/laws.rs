//! Properties that relate several operations of the trie, stated over the
//! postconditions of `insert`, `delete` and `auto_complete`.
use vstd::prelude::*;

use crate::trie::{deleted, inserted};

verus! {

/// After `insert(key, value)`, `get(key)` finds a clone of `value`.
pub proof fn law_get_after_insert<TValue: Clone>(
    before: Map<Seq<char>, TValue>,
    after: Map<Seq<char>, TValue>,
    key: Seq<char>,
    value: TValue,
)
    requires
        inserted(before, after, key, value),
    ensures
        after.contains_key(key),
        cloned(value, after[key]),
{
}

/// Inserting two different keys, one after the other, leaves both
/// retrievable, each with its own value, also where one key is a prefix of
/// the other.
pub proof fn law_insert_two_keys<TValue: Clone>(
    m0: Map<Seq<char>, TValue>,
    m1: Map<Seq<char>, TValue>,
    m2: Map<Seq<char>, TValue>,
    key1: Seq<char>,
    value1: TValue,
    key2: Seq<char>,
    value2: TValue,
)
    requires
        key1 != key2,
        inserted(m0, m1, key1, value1),
        inserted(m1, m2, key2, value2),
    ensures
        m2.contains_key(key1),
        m2[key1] == m1[key1],
        cloned(value1, m2[key1]),
        m2.contains_key(key2),
        cloned(value2, m2[key2]),
{
}

/// Inserting the same key and value twice leaves the keys and every other
/// value as one insert does; the value under the key is a clone of the same
/// value either way, and the two states are equal where cloning gives the
/// value back unchanged.
pub proof fn law_insert_idempotent<TValue: Clone>(
    m0: Map<Seq<char>, TValue>,
    m1: Map<Seq<char>, TValue>,
    m2: Map<Seq<char>, TValue>,
    key: Seq<char>,
    value: TValue,
)
    requires
        inserted(m0, m1, key, value),
        inserted(m1, m2, key, value),
    ensures
        m2.dom() == m1.dom(),
        m2 == m1.insert(key, m2[key]),
        cloned(value, m1[key]),
        cloned(value, m2[key]),
        (forall|w: TValue| cloned(value, w) ==> w == value) ==> m2 == m1,
{
    assert(m2.dom() =~= m1.dom());
    if forall|w: TValue| cloned(value, w) ==> w == value {
        assert(m2 =~= m1);
    }
}

/// A second insert under the same key replaces the first value.
pub proof fn law_insert_overwrites<TValue: Clone>(
    m0: Map<Seq<char>, TValue>,
    m1: Map<Seq<char>, TValue>,
    m2: Map<Seq<char>, TValue>,
    key: Seq<char>,
    value1: TValue,
    value2: TValue,
)
    requires
        inserted(m0, m1, key, value1),
        inserted(m1, m2, key, value2),
    ensures
        m2.contains_key(key),
        cloned(value2, m2[key]),
        m2.dom() == m1.dom(),
{
    assert(m2.dom() =~= m1.dom());
}

/// Deleting a non-empty key right after inserting it succeeds, and the key is
/// then absent.
pub proof fn law_delete_after_insert<TValue: Clone>(
    m0: Map<Seq<char>, TValue>,
    m1: Map<Seq<char>, TValue>,
    m2: Map<Seq<char>, TValue>,
    key: Seq<char>,
    value: TValue,
    removed: bool,
)
    requires
        key.len() > 0,
        inserted(m0, m1, key, value),
        deleted(m1, m2, key, removed),
    ensures
        removed,
        !m2.contains_key(key),
{
}

/// Deleting from an empty trie fails and leaves it empty.
pub proof fn law_delete_from_empty<TValue>(
    after: Map<Seq<char>, TValue>,
    key: Seq<char>,
    removed: bool,
)
    requires
        deleted(Map::<Seq<char>, TValue>::empty(), after, key, removed),
    ensures
        !removed,
        after == Map::<Seq<char>, TValue>::empty(),
{
}

/// Deleting the empty key always fails and changes nothing.
pub proof fn law_delete_empty_key<TValue>(
    before: Map<Seq<char>, TValue>,
    after: Map<Seq<char>, TValue>,
    removed: bool,
)
    requires
        deleted(before, after, Seq::<char>::empty(), removed),
    ensures
        !removed,
        after == before,
{
}

/// An empty trie completes nothing: every completion is a stored key.
pub proof fn law_empty_completes_nothing<TValue>(
    keys: Map<Seq<char>, TValue>,
    completions: Seq<Seq<char>>,
)
    requires
        keys == Map::<Seq<char>, TValue>::empty(),
        forall|i: int| 0 <= i < completions.len() ==> keys.contains_key(#[trigger] completions[i]),
    ensures
        completions.len() == 0,
{
    if completions.len() > 0 {
        assert(keys.contains_key(completions[0]));
    }
}

} // verus!
