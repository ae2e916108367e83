//! Sequences of key-value pairs read as mappings.
//!
//! The collections of this crate keep their entries in a vector, in the order
//! in which the keys first came. The functions here say which mapping such a
//! sequence stands for, and how a push and an update change it.

use vstd::prelude::*;

verus! {

/// Whether some entry carries `key`.
pub open spec fn has_key<K, V>(entries: Seq<(K, V)>, key: K) -> bool {
    exists|i: int| 0 <= i < entries.len() && (#[trigger] entries[i]).0 == key
}

/// The place of an entry that carries `key`.
pub open spec fn place_of<K, V>(entries: Seq<(K, V)>, key: K) -> int {
    choose|i: int| 0 <= i < entries.len() && (#[trigger] entries[i]).0 == key
}

/// No key has two entries.
pub open spec fn distinct_keys<K, V>(entries: Seq<(K, V)>) -> bool {
    forall|i: int, j: int|
        0 <= i < j < entries.len() ==> (#[trigger] entries[i]).0 != (#[trigger] entries[j]).0
}

/// The mapping that the entries stand for.
pub open spec fn as_map<K, V>(entries: Seq<(K, V)>) -> Map<K, V> {
    Map::new(|key: K| has_key(entries, key), |key: K| entries[place_of(entries, key)].1)
}

/// Without entries the mapping is empty.
pub proof fn lemma_no_entries<K, V>()
    ensures
        distinct_keys(Seq::<(K, V)>::empty()),
        as_map(Seq::<(K, V)>::empty()) == Map::<K, V>::empty(),
{
    assert(as_map(Seq::<(K, V)>::empty()) =~= Map::<K, V>::empty());
}

/// Where the keys are distinct, each entry is what the mapping holds under
/// its key.
pub proof fn lemma_entry<K, V>(entries: Seq<(K, V)>, i: int)
    requires
        distinct_keys(entries),
        0 <= i < entries.len(),
    ensures
        has_key(entries, entries[i].0),
        place_of(entries, entries[i].0) == i,
        as_map(entries).contains_key(entries[i].0),
        as_map(entries)[entries[i].0] == entries[i].1,
{
    let key = entries[i].0;
    let j = place_of(entries, key);
    assert(0 <= j < entries.len() && entries[j].0 == key);
    if i < j {
        assert(entries[i].0 != entries[j].0);
    } else if j < i {
        assert(entries[j].0 != entries[i].0);
    }
}

/// An entry with a new key, put behind the others, inserts into the mapping.
pub proof fn lemma_push_entry<K, V>(entries: Seq<(K, V)>, key: K, value: V)
    requires
        distinct_keys(entries),
        !has_key(entries, key),
    ensures
        distinct_keys(entries.push((key, value))),
        as_map(entries.push((key, value))) == as_map(entries).insert(key, value),
        forall|other: K|
            has_key(entries.push((key, value)), other) <==> (other == key || has_key(
                entries,
                other,
            )),
{
    let longer = entries.push((key, value));
    assert forall|i: int, j: int| 0 <= i < j < longer.len() implies (#[trigger] longer[i]).0 != (
    #[trigger] longer[j]).0 by {
        assert(longer[i] == entries[i]);
        if j < entries.len() {
            assert(longer[j] == entries[j]);
        }
    }
    assert forall|other: K|
        has_key(longer, other) <==> (other == key || has_key(entries, other)) by {
        if has_key(longer, other) {
            let i = place_of(longer, other);
            if i < entries.len() {
                assert(entries[i].0 == other);
            }
        }
        if has_key(entries, other) {
            let i = place_of(entries, other);
            assert(longer[i].0 == other);
        }
        if other == key {
            assert(longer[entries.len() as int].0 == other);
        }
    }
    assert forall|other: K| has_key(longer, other) implies as_map(longer)[other] == as_map(
        entries,
    ).insert(key, value)[other] by {
        let i = place_of(longer, other);
        lemma_entry(longer, i);
        if i < entries.len() {
            assert(longer[i] == entries[i]);
            lemma_entry(entries, i);
        }
    }
    assert(as_map(longer) =~= as_map(entries).insert(key, value));
}

/// A new value for the entry at `i` inserts into the mapping under that
/// entry's key.
pub proof fn lemma_update_entry<K, V>(entries: Seq<(K, V)>, i: int, value: V)
    requires
        distinct_keys(entries),
        0 <= i < entries.len(),
    ensures
        distinct_keys(entries.update(i, (entries[i].0, value))),
        as_map(entries.update(i, (entries[i].0, value))) == as_map(entries).insert(
            entries[i].0,
            value,
        ),
        forall|other: K|
            has_key(entries.update(i, (entries[i].0, value)), other) <==> has_key(entries, other),
{
    let key = entries[i].0;
    let changed = entries.update(i, (key, value));
    assert forall|a: int, b: int| 0 <= a < b < changed.len() implies (#[trigger] changed[a]).0 != (
    #[trigger] changed[b]).0 by {
        assert(changed[a].0 == entries[a].0);
        assert(changed[b].0 == entries[b].0);
    }
    assert forall|other: K| has_key(changed, other) <==> has_key(entries, other) by {
        if has_key(changed, other) {
            let a = place_of(changed, other);
            assert(entries[a].0 == other);
        }
        if has_key(entries, other) {
            let a = place_of(entries, other);
            assert(changed[a].0 == other);
        }
    }
    lemma_entry(entries, i);
    assert forall|other: K| has_key(changed, other) implies as_map(changed)[other] == as_map(
        entries,
    ).insert(key, value)[other] by {
        let a = place_of(changed, other);
        lemma_entry(changed, a);
        if a != i {
            assert(changed[a] == entries[a]);
            lemma_entry(entries, a);
        }
    }
    assert(as_map(changed) =~= as_map(entries).insert(key, value));
}

/// Where the keys are distinct, the mapping has as many keys as there are
/// entries.
pub proof fn lemma_map_size<K, V>(entries: Seq<(K, V)>)
    requires
        distinct_keys(entries),
    ensures
        as_map(entries).dom().finite(),
        as_map(entries).len() == entries.len(),
    decreases entries.len(),
{
    if entries.len() == 0 {
        assert(as_map(entries).dom() =~= Set::<K>::empty());
    } else {
        let rest = entries.drop_last();
        let last = entries.last();
        assert(entries =~= rest.push(last));
        assert forall|i: int, j: int| 0 <= i < j < rest.len() implies (#[trigger] rest[i]).0 != (
        #[trigger] rest[j]).0 by {
            assert(rest[i] == entries[i] && rest[j] == entries[j]);
        }
        if has_key(rest, last.0) {
            let i = place_of(rest, last.0);
            assert(entries[i].0 == entries[entries.len() - 1].0);
        }
        lemma_map_size(rest);
        lemma_push_entry(rest, last.0, last.1);
        assert(as_map(entries).dom() =~= as_map(rest).dom().insert(last.0));
    }
}

} // verus!
