//! What holds of the operations of a table taken together, stated over the
//! bucket store and the map that it represents.

use crate::key::Key;
use crate::lemmas::{
    lemma_inserted, lemma_listed_len, lemma_regrown, lemma_remove, lemma_traversal,
};
use crate::store::{
    as_map, entries, inserted, lists, regrown, total, valid_store, with_remove, Store,
};
use vstd::prelude::*;

verus! {

/// A change to a table: an insertion of a key with a value, or the removal
/// of a key.
pub enum Change<K: Key, V> {
    /// The insertion of the key with the value.
    Insert(K, V),
    /// The removal of the key.
    Remove(K),
}

/// The view of the key that `change` is about.
pub open spec fn subject<K: Key, V>(change: Change<K, V>) -> K::V {
    match change {
        Change::Insert(key, _) => key@,
        Change::Remove(key) => key@,
    }
}

/// `store` after `change`.
pub open spec fn changed<K: Key, V>(store: Store<K, V>, change: Change<K, V>) -> Store<K, V> {
    match change {
        Change::Insert(key, value) => inserted(store, key, value),
        Change::Remove(key) => with_remove(store, key@),
    }
}

/// `store` after `changes`, from the first to the last.
pub open spec fn replayed<K: Key, V>(
    store: Store<K, V>,
    changes: Seq<Change<K, V>>,
) -> Store<K, V>
    decreases changes.len(),
{
    if changes.len() == 0 {
        store
    } else {
        changed(replayed(store, changes.drop_last()), changes.last())
    }
}

/// `map` after `change`.
pub open spec fn changed_map<K: Key, V>(map: Map<K::V, V>, change: Change<K, V>) -> Map<K::V, V> {
    match change {
        Change::Insert(key, value) => map.insert(key@, value),
        Change::Remove(key) => map.remove(key@),
    }
}

/// `map` after `changes`, from the first to the last.
pub open spec fn replayed_map<K: Key, V>(
    map: Map<K::V, V>,
    changes: Seq<Change<K, V>>,
) -> Map<K::V, V>
    decreases changes.len(),
{
    if changes.len() == 0 {
        map
    } else {
        changed_map(replayed_map(map, changes.drop_last()), changes.last())
    }
}

/// The insertions of `pairs`, one after the other.
pub open spec fn insertions<K: Key, V>(pairs: Seq<(K, V)>) -> Seq<Change<K, V>> {
    Seq::new(pairs.len(), |i: int| Change::Insert(pairs[i].0, pairs[i].1))
}

/// A table without buckets is empty: it has no entry, holds no key, a
/// removal leaves it as it is, and its traversal yields nothing.
pub proof fn empty_table_holds_nothing<K: Key, V>(v: K::V)
    ensures
        valid_store(Store::<K, V>::empty()),
        total(Store::<K, V>::empty()) == 0,
        as_map(Store::<K, V>::empty()) == Map::<K::V, V>::empty(),
        as_map(Store::<K, V>::empty()).len() == 0,
        !as_map(Store::<K, V>::empty()).contains_key(v),
        with_remove(Store::<K, V>::empty(), v) == Store::<K, V>::empty(),
        entries(Store::<K, V>::empty()) == Seq::<(K, V)>::empty(),
{
    let store = Store::<K, V>::empty();
    assert(as_map(store) =~= Map::<K::V, V>::empty());
    assert(entries(store) =~= Seq::<(K, V)>::empty());
}

/// Whatever the changes made to a valid store, and however often it grew on
/// the way, the store is valid and represents the map that the same
/// changes give when made to the map it represented at first. Its
/// traversal lists that map, each key once, and yields as many entries as
/// the map has keys.
pub proof fn replay_agrees_with_map<K: Key, V>(store: Store<K, V>, changes: Seq<Change<K, V>>)
    requires
        valid_store(store),
    ensures
        valid_store(replayed(store, changes)),
        as_map(replayed(store, changes)) == replayed_map(as_map(store), changes),
        lists(entries(replayed(store, changes)), replayed_map(as_map(store), changes)),
        replayed_map(as_map(store), changes).dom().finite(),
        total(replayed(store, changes)) == replayed_map(as_map(store), changes).len(),
    decreases changes.len(),
{
    if changes.len() > 0 {
        let before = replayed(store, changes.drop_last());
        replay_agrees_with_map(store, changes.drop_last());
        match changes.last() {
            Change::Insert(key, value) => {
                lemma_inserted(before, key, value);
            },
            Change::Remove(key) => {
                lemma_remove(before, key@);
            },
        }
    }
    lemma_traversal(replayed(store, changes));
}

/// The traversal of a valid store is complete and without repetition: it
/// yields each key of the map once, with the value that the map has for
/// it, and nothing else, so as many entries as the map has keys.
pub proof fn traversal_is_complete<K: Key, V>(store: Store<K, V>)
    requires
        valid_store(store),
    ensures
        lists(entries(store), as_map(store)),
        entries(store).len() == as_map(store).len(),
        entries(store).len() == total(store),
{
    lemma_traversal(store);
}

/// Growth loses, adds and changes no entry: the grown store is valid and
/// represents the same map, so every key is found after it as before.
pub proof fn growth_keeps_entries<K: Key, V>(store: Store<K, V>)
    requires
        valid_store(store),
    ensures
        valid_store(regrown(store)),
        as_map(regrown(store)) == as_map(store),
        total(regrown(store)) == total(store),
{
    lemma_regrown(store);
}

/// After any changes, a key holds the value of the last insertion made for
/// it, if no removal of it came later.
pub proof fn last_insertion_is_found<K: Key, V>(
    map: Map<K::V, V>,
    changes: Seq<Change<K, V>>,
    i: int,
)
    requires
        0 <= i < changes.len(),
        changes[i] is Insert,
        forall|j: int|
            i < j < changes.len() ==> subject(#[trigger] changes[j]) != subject(changes[i]),
    ensures
        replayed_map(map, changes).contains_key(subject(changes[i])),
        replayed_map(map, changes)[subject(changes[i])] == changes[i]->Insert_1,
    decreases changes.len(),
{
    if i < changes.len() - 1 {
        let front = changes.drop_last();
        assert(front[i] == changes[i]);
        assert forall|j: int| i < j < front.len() implies
            subject(#[trigger] front[j]) != subject(front[i]) by {
            assert(front[j] == changes[j]);
        }
        last_insertion_is_found(map, front, i);
        assert(subject(changes[changes.len() - 1]) != subject(changes[i]));
    }
}

/// After any changes, a key whose last change was a removal is not found.
pub proof fn last_removal_is_final<K: Key, V>(
    map: Map<K::V, V>,
    changes: Seq<Change<K, V>>,
    i: int,
)
    requires
        0 <= i < changes.len(),
        changes[i] is Remove,
        forall|j: int|
            i < j < changes.len() ==> subject(#[trigger] changes[j]) != subject(changes[i]),
    ensures
        !replayed_map(map, changes).contains_key(subject(changes[i])),
    decreases changes.len(),
{
    if i < changes.len() - 1 {
        let front = changes.drop_last();
        assert(front[i] == changes[i]);
        assert forall|j: int| i < j < front.len() implies
            subject(#[trigger] front[j]) != subject(front[i]) by {
            assert(front[j] == changes[j]);
        }
        last_removal_is_final(map, front, i);
        assert(subject(changes[changes.len() - 1]) != subject(changes[i]));
    }
}

/// Inserting pairs with distinct keys into an empty map gives a map that
/// holds for each of the keys the value paired with it, and as many keys
/// as there are pairs.
pub proof fn insertions_round_trip<K: Key, V>(pairs: Seq<(K, V)>)
    requires
        forall|p: int, q: int|
            0 <= p < q < pairs.len() ==> #[trigger] pairs[p].0@ != #[trigger] pairs[q].0@,
    ensures
        lists(pairs, replayed_map(Map::<K::V, V>::empty(), insertions(pairs))),
        replayed_map(Map::<K::V, V>::empty(), insertions(pairs)).len() == pairs.len(),
    decreases pairs.len(),
{
    let map = replayed_map(Map::<K::V, V>::empty(), insertions(pairs));
    if pairs.len() > 0 {
        let front = pairs.drop_last();
        let last = pairs.len() - 1;
        assert(insertions(pairs).drop_last() =~= insertions(front));
        insertions_round_trip(front);
        let before = replayed_map(Map::<K::V, V>::empty(), insertions(front));
        assert(map == before.insert(pairs[last].0@, pairs[last].1));
        assert forall|p: int| 0 <= p < pairs.len() implies
            map.contains_key(#[trigger] pairs[p].0@) && map[pairs[p].0@] == pairs[p].1 by {
            if p < last {
                assert(front[p] == pairs[p]);
                assert(pairs[p].0@ != pairs[last].0@);
            }
        }
        assert forall|v: K::V| map.contains_key(v) implies
            exists|p: int| 0 <= p < pairs.len() && #[trigger] pairs[p].0@ == v by {
            if v != pairs[last].0@ {
                let p = choose|p: int| 0 <= p < front.len() && #[trigger] front[p].0@ == v;
                assert(pairs[p].0@ == v);
            }
        }
    }
    lemma_listed_len(pairs, map);
}

/// Inserting pairs with distinct keys into a table without buckets gives a
/// table in which each of the keys is found with the value paired with it,
/// and which has as many entries as there are pairs.
pub proof fn inserted_pairs_are_found<K: Key, V>(pairs: Seq<(K, V)>)
    requires
        forall|p: int, q: int|
            0 <= p < q < pairs.len() ==> #[trigger] pairs[p].0@ != #[trigger] pairs[q].0@,
    ensures
        lists(pairs, as_map(replayed(Store::<K, V>::empty(), insertions(pairs)))),
        total(replayed(Store::<K, V>::empty(), insertions(pairs))) == pairs.len(),
{
    let store = Store::<K, V>::empty();
    assert(as_map(store) =~= Map::<K::V, V>::empty());
    replay_agrees_with_map(store, insertions(pairs));
    insertions_round_trip(pairs);
}

/// Inserting a key that the table holds leaves the number of entries as it
/// was, and the key is then found with the new value.
pub proof fn overwrite_keeps_count<K: Key, V>(store: Store<K, V>, key: K, value: V)
    requires
        valid_store(store),
        as_map(store).contains_key(key@),
    ensures
        total(inserted(store, key, value)) == total(store),
        as_map(inserted(store, key, value)).contains_key(key@),
        as_map(inserted(store, key, value))[key@] == value,
        as_map(inserted(store, key, value)).len() == as_map(store).len(),
{
    lemma_inserted(store, key, value);
    lemma_traversal(store);
    lemma_traversal(inserted(store, key, value));
}

/// Removing a key that the table holds takes one entry away, and the key is
/// then not found. Inserting it again brings the number of entries back,
/// and the key is found with the value inserted last.
pub proof fn remove_then_insert<K: Key, V>(store: Store<K, V>, key: K, value: V)
    requires
        valid_store(store),
        as_map(store).contains_key(key@),
    ensures
        total(with_remove(store, key@)) == total(store) - 1,
        !as_map(with_remove(store, key@)).contains_key(key@),
        total(inserted(with_remove(store, key@), key, value)) == total(store),
        as_map(inserted(with_remove(store, key@), key, value)).contains_key(key@),
        as_map(inserted(with_remove(store, key@), key, value))[key@] == value,
{
    lemma_remove(store, key@);
    lemma_inserted(with_remove(store, key@), key, value);
}

/// Removing a key twice in a row takes one entry away, not two: after the
/// first removal the key is not found, and the second leaves the store as
/// it is.
pub proof fn second_removal_changes_nothing<K: Key, V>(store: Store<K, V>, v: K::V)
    requires
        valid_store(store),
    ensures
        !as_map(with_remove(store, v)).contains_key(v),
        with_remove(with_remove(store, v), v) == with_remove(store, v),
        as_map(store).contains_key(v)
            ==> total(with_remove(with_remove(store, v), v)) == total(store) - 1,
{
    lemma_remove(store, v);
    lemma_remove(with_remove(store, v), v);
}

} // verus!
