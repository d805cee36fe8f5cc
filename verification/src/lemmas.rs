//! Proofs about the bucket store: what an insertion, a removal and growth
//! keep and change, and how the traversal of a store relates to the map
//! that the store represents.

use crate::key::Key;
use crate::store::{
    as_map, blank, count_for_insert, entries, grown, holds, home, inserted, key_is_at, lists,
    offset, prepared, put, regrown, scatter, slot, stored, swap_out, total, valid_store, value_of,
    with_insert, with_remove, Store,
};
use vstd::arithmetic::power2::is_pow2;
use vstd::prelude::*;

verus! {

/// In a valid store a key lies in one place only.
pub proof fn lemma_one_place<K: Key, V>(
    store: Store<K, V>,
    v: K::V,
    b: int,
    i: int,
    c: int,
    j: int,
)
    requires
        valid_store(store),
        key_is_at(store, b, i, v),
        key_is_at(store, c, j, v),
    ensures
        b == c,
        i == j,
{
    assert(home::<K>(store[b][i].0@, store.len()) == b);
    assert(home::<K>(store[c][j].0@, store.len()) == c);
    if i < j {
        assert(store[b][i].0@ != store[b][j].0@);
    }
    if j < i {
        assert(store[b][j].0@ != store[b][i].0@);
    }
}

/// In a valid store the entry found for a key is the one the map speaks of.
pub proof fn lemma_found<K: Key, V>(store: Store<K, V>, v: K::V, b: int, i: int)
    requires
        valid_store(store),
        key_is_at(store, b, i, v),
    ensures
        b == home::<K>(v, store.len()),
        as_map(store).contains_key(v),
        as_map(store)[v] == store[b][i].1,
{
    let (c, j) = choose|c: int, j: int| key_is_at(store, c, j, v);
    lemma_one_place(store, v, b, i, c, j);
    assert(home::<K>(store[b][i].0@, store.len()) == b);
}

/// In a valid store a key that its home bucket lacks is not stored.
pub proof fn lemma_absent<K: Key, V>(store: Store<K, V>, v: K::V)
    requires
        valid_store(store),
        store.len() > 0 ==> !holds(store[home::<K>(v, store.len())], v),
    ensures
        !as_map(store).contains_key(v),
{
    if stored(store, v) {
        let (c, j) = choose|c: int, j: int| key_is_at(store, c, j, v);
        assert(home::<K>(store[c][j].0@, store.len()) == c);
        assert(store[c][j].0@ == v);
    }
}

/// Replacing one bucket changes the number of entries by the difference of
/// the two lengths.
pub proof fn lemma_total_update<K, V>(store: Store<K, V>, b: int, bucket: Seq<(K, V)>)
    requires
        0 <= b < store.len(),
    ensures
        total(store.update(b, bucket)) == total(store) - store[b].len() + bucket.len(),
{
    let before = store.take(b);
    let after = store.skip(b + 1);
    assert(store =~= before + seq![store[b]] + after);
    assert(store.update(b, bucket) =~= before + seq![bucket] + after);
    vstd::seq_lib::lemma_flatten_concat(before, seq![store[b]]);
    vstd::seq_lib::lemma_flatten_concat(before + seq![store[b]], after);
    vstd::seq_lib::lemma_flatten_concat(before, seq![bucket]);
    vstd::seq_lib::lemma_flatten_concat(before + seq![bucket], after);
    seq![store[b]].lemma_flatten_one_element();
    seq![bucket].lemma_flatten_one_element();
}

/// Insertion keeps the store valid, and changes the map and the number of
/// entries as an insertion into a map does.
pub proof fn lemma_insert<K: Key, V>(store: Store<K, V>, key: K, value: V)
    requires
        valid_store(store),
        store.len() > 0,
    ensures
        valid_store(with_insert(store, key, value)),
        as_map(with_insert(store, key, value)) == as_map(store).insert(key@, value),
        total(with_insert(store, key, value)) == total(store)
            + (if as_map(store).contains_key(key@) { 0int } else { 1int }),
{
    let b = home::<K>(key@, store.len());
    let after = with_insert(store, key, value);
    lemma_total_update(store, b, put(store[b], key, value));
    if holds(store[b], key@) {
        let i = slot(store[b], key@);
        assert(key_is_at(store, b, i, key@));
        lemma_found(store, key@, b, i);
        assert forall|c: int, j: int| 0 <= c < after.len() && 0 <= j < after[c].len() implies
            (#[trigger] after[c][j]).0 == store[c][j].0 by {}
        assert(valid_store(after));
        assert(key_is_at(after, b, i, key@));
        lemma_found(after, key@, b, i);
        assert forall|v: K::V| #[trigger] stored(after, v) <==> stored(store, v) by {
            if stored(after, v) {
                let (c, j) = choose|c: int, j: int| key_is_at(after, c, j, v);
                assert(key_is_at(store, c, j, v));
            }
            if stored(store, v) {
                let (c, j) = choose|c: int, j: int| key_is_at(store, c, j, v);
                assert(key_is_at(after, c, j, v));
            }
        }
        assert forall|v: K::V| stored(store, v) && v != key@ implies
            #[trigger] value_of(after, v) == value_of(store, v) by {
            let (c, j) = choose|c: int, j: int| key_is_at(store, c, j, v);
            assert(key_is_at(after, c, j, v));
            lemma_found(store, v, c, j);
            lemma_found(after, v, c, j);
        }
        assert(as_map(after) =~= as_map(store).insert(key@, value));
    } else {
        let n = store[b].len() as int;
        lemma_absent(store, key@);
        assert forall|c: int, j: int| 0 <= c < store.len() && 0 <= j < store[c].len() implies
            (#[trigger] after[c][j]) == store[c][j] by {}
        assert(after[b][n] == (key, value));
        assert(valid_store(after)) by {
            assert forall|c: int, i: int, j: int|
                0 <= c < after.len() && 0 <= i < j < after[c].len() implies
                #[trigger] after[c][i].0@ != #[trigger] after[c][j].0@ by {
                if c == b && j == n {
                    assert(store[b][i].0@ != key@);
                } else {
                    assert(store[c][i].0@ != store[c][j].0@);
                }
            }
            assert forall|c: int, i: int| 0 <= c < after.len() && 0 <= i < after[c].len() implies
                home::<K>(#[trigger] after[c][i].0@, after.len()) == c by {
                if !(c == b && i == n) {
                    assert(home::<K>(store[c][i].0@, store.len()) == c);
                }
            }
        }
        assert(key_is_at(after, b, n, key@));
        lemma_found(after, key@, b, n);
        assert forall|v: K::V| #[trigger] stored(after, v) <==> stored(store, v) || v == key@ by {
            if stored(after, v) && v != key@ {
                let (c, j) = choose|c: int, j: int| key_is_at(after, c, j, v);
                assert(key_is_at(store, c, j, v));
            }
            if stored(store, v) {
                let (c, j) = choose|c: int, j: int| key_is_at(store, c, j, v);
                assert(key_is_at(after, c, j, v));
            }
        }
        assert forall|v: K::V| stored(store, v) implies
            #[trigger] value_of(after, v) == value_of(store, v) by {
            let (c, j) = choose|c: int, j: int| key_is_at(store, c, j, v);
            assert(key_is_at(after, c, j, v));
            lemma_found(store, v, c, j);
            lemma_found(after, v, c, j);
        }
        assert(as_map(after) =~= as_map(store).insert(key@, value));
    }
}

/// Removal keeps the store valid, and changes the map and the number of
/// entries as a removal from a map does.
pub proof fn lemma_remove<K: Key, V>(store: Store<K, V>, v: K::V)
    requires
        valid_store(store),
    ensures
        valid_store(with_remove(store, v)),
        as_map(with_remove(store, v)) == as_map(store).remove(v),
        total(with_remove(store, v)) == total(store)
            - (if as_map(store).contains_key(v) { 1int } else { 0int }),
        with_remove(store, v).len() == store.len(),
        !as_map(store).contains_key(v) ==> with_remove(store, v) == store,
{
    let after = with_remove(store, v);
    if store.len() == 0 {
        lemma_absent(store, v);
        assert(as_map(after) =~= as_map(store).remove(v));
    } else {
        let b = home::<K>(v, store.len());
        lemma_total_update(store, b, swap_out(store[b], v));
        if holds(store[b], v) {
            let i = slot(store[b], v);
            let last = store[b].len() - 1;
            assert(key_is_at(store, b, i, v));
            lemma_found(store, v, b, i);
            // Where an entry of the store after the removal stood before it.
            let origin = |c: int, j: int| if c == b && j == i { last } else { j };
            assert forall|c: int, j: int| 0 <= c < after.len() && 0 <= j < after[c].len() implies
                (#[trigger] after[c][j]) == store[c][origin(c, j)]
                && 0 <= origin(c, j) < store[c].len()
                && after[c][j].0@ != v by {
                if c == b {
                    if origin(c, j) != i {
                        assert(store[b][origin(c, j)].0@ != store[b][i].0@) by {
                            if origin(c, j) < i {
                                assert(store[b][origin(c, j)].0@ != store[b][i].0@);
                            } else {
                                assert(store[b][i].0@ != store[b][origin(c, j)].0@);
                            }
                        }
                    }
                } else {
                    if store[c][j].0@ == v {
                        lemma_one_place(store, v, b, i, c, j);
                    }
                }
            }
            assert(valid_store(after)) by {
                assert forall|c: int, j: int, k: int|
                    0 <= c < after.len() && 0 <= j < k < after[c].len() implies
                    #[trigger] after[c][j].0@ != #[trigger] after[c][k].0@ by {
                    let oj = origin(c, j);
                    let ok = origin(c, k);
                    assert(after[c][j] == store[c][oj]);
                    assert(after[c][k] == store[c][ok]);
                    if oj < ok {
                        assert(store[c][oj].0@ != store[c][ok].0@);
                    } else {
                        assert(store[c][ok].0@ != store[c][oj].0@);
                    }
                }
                assert forall|c: int, j: int|
                    0 <= c < after.len() && 0 <= j < after[c].len() implies
                    home::<K>(#[trigger] after[c][j].0@, after.len()) == c by {
                    assert(after[c][j] == store[c][origin(c, j)]);
                    assert(home::<K>(store[c][origin(c, j)].0@, store.len()) == c);
                }
            }
            assert forall|w: K::V| #[trigger] stored(after, w) <==> stored(store, w) && w != v by {
                if stored(after, w) {
                    let (c, j) = choose|c: int, j: int| key_is_at(after, c, j, w);
                    assert(after[c][j] == store[c][origin(c, j)]);
                    assert(key_is_at(store, c, origin(c, j), w));
                }
                if stored(store, w) && w != v {
                    let (c, j) = choose|c: int, j: int| key_is_at(store, c, j, w);
                    if c == b && j == last {
                        assert(after[b][i] == store[b][last]);
                        assert(key_is_at(after, b, i, w));
                    } else {
                        assert(after[c][j] == store[c][origin(c, j)]);
                        assert(key_is_at(after, c, j, w));
                    }
                }
            }
            assert forall|w: K::V| stored(after, w) implies
                #[trigger] value_of(after, w) == value_of(store, w) by {
                let (c, j) = choose|c: int, j: int| key_is_at(after, c, j, w);
                assert(after[c][j] == store[c][origin(c, j)]);
                assert(key_is_at(store, c, origin(c, j), w));
                lemma_found(store, w, c, origin(c, j));
                lemma_found(after, w, c, j);
            }
            assert(as_map(after) =~= as_map(store).remove(v));
        } else {
            lemma_absent(store, v);
            assert(after =~= store);
            assert(as_map(after) =~= as_map(store).remove(v));
        }
    }
}

/// The buckets before bucket `b + 1` hold what those before `b` hold, and
/// bucket `b`.
pub proof fn lemma_offset_step<K, V>(store: Store<K, V>, b: int)
    requires
        0 <= b < store.len(),
    ensures
        store.take(b + 1).flatten() == store.take(b).flatten() + store[b],
        offset(store, b + 1) == offset(store, b) + store[b].len(),
{
    assert(store.take(b + 1) =~= store.take(b).push(store[b]));
    store.take(b).lemma_flatten_push(store[b]);
}

/// The buckets before the end are all of them.
pub proof fn lemma_offset_end<K, V>(store: Store<K, V>)
    ensures
        offset(store, 0) == 0,
        offset(store, store.len() as int) == total(store),
{
    assert(store.take(store.len() as int) =~= store);
    assert(store.take(0) =~= Store::<K, V>::empty());
}

/// Entry `i` of bucket `b` is entry `offset(store, b) + i` of the traversal.
pub proof fn lemma_entry_at<K, V>(store: Store<K, V>, b: int, i: int)
    requires
        0 <= b < store.len(),
        0 <= i < store[b].len(),
    ensures
        0 <= offset(store, b) + i < entries(store).len(),
        entries(store)[offset(store, b) + i] == store[b][i],
{
    let before = store.take(b);
    let after = store.skip(b + 1);
    assert(store =~= before + seq![store[b]] + after);
    vstd::seq_lib::lemma_flatten_concat(before, seq![store[b]]);
    vstd::seq_lib::lemma_flatten_concat(before + seq![store[b]], after);
    seq![store[b]].lemma_flatten_one_element();
}

/// Every entry of the traversal is an entry of some bucket.
pub proof fn lemma_entry_place<K, V>(store: Store<K, V>, p: int) -> (place: (int, int))
    requires
        0 <= p < entries(store).len(),
    ensures
        0 <= place.0 < store.len(),
        0 <= place.1 < store[place.0].len(),
        offset(store, place.0) + place.1 == p,
        entries(store)[p] == store[place.0][place.1],
    decreases store.len(),
{
    if store.len() == 0 {
        (0, 0)
    } else {
        let last = store.len() - 1;
        lemma_offset_step(store, last);
        lemma_offset_end(store);
        if p < offset(store, last) {
            let front = store.drop_last();
            assert(front =~= store.take(last));
            let place = lemma_entry_place(front, p);
            assert(front.take(place.0) =~= store.take(place.0));
            lemma_entry_at(store, place.0, place.1);
            place
        } else {
            let place = (last, p - offset(store, last));
            lemma_entry_at(store, place.0, place.1);
            place
        }
    }
}

/// A map has as many keys as a sequence that lists it has entries.
pub proof fn lemma_listed_len<K: Key, V>(entries: Seq<(K, V)>, map: Map<K::V, V>)
    requires
        lists(entries, map),
    ensures
        map.dom().finite(),
        map.len() == entries.len(),
{
    let keys = Seq::new(entries.len(), |p: int| entries[p].0@);
    assert(keys.no_duplicates()) by {
        assert forall|p: int, q: int|
            0 <= p < keys.len() && 0 <= q < keys.len() && p != q implies keys[p] != keys[q] by {
            if p < q {
                assert(entries[p].0@ != entries[q].0@);
            } else {
                assert(entries[q].0@ != entries[p].0@);
            }
        }
    }
    assert(keys.to_set() =~= map.dom()) by {
        assert forall|v: K::V| keys.to_set().contains(v) <==> map.dom().contains(v) by {
            if keys.to_set().contains(v) {
                let p = choose|p: int| 0 <= p < keys.len() && keys[p] == v;
                assert(map.contains_key(entries[p].0@));
            }
            if map.dom().contains(v) {
                let p = choose|p: int| 0 <= p < entries.len() && #[trigger] entries[p].0@ == v;
                assert(keys[p] == v);
            }
        }
    }
    keys.unique_seq_to_set();
    vstd::seq_lib::seq_to_set_is_finite(keys);
}

/// Two maps that one sequence lists are the same map.
pub proof fn lemma_listed_same<K: Key, V>(
    entries: Seq<(K, V)>,
    a: Map<K::V, V>,
    b: Map<K::V, V>,
)
    requires
        lists(entries, a),
        lists(entries, b),
    ensures
        a == b,
{
    assert forall|v: K::V| a.contains_key(v) implies b.contains_key(v) && a[v] == b[v] by {
        let p = choose|p: int| 0 <= p < entries.len() && #[trigger] entries[p].0@ == v;
        assert(b.contains_key(entries[p].0@));
    }
    assert forall|v: K::V| b.contains_key(v) implies a.contains_key(v) by {
        let p = choose|p: int| 0 <= p < entries.len() && #[trigger] entries[p].0@ == v;
        assert(a.contains_key(entries[p].0@));
    }
    assert(a =~= b);
}

/// The traversal of a valid store lists the map that the store represents.
pub proof fn lemma_traversal<K: Key, V>(store: Store<K, V>)
    requires
        valid_store(store),
    ensures
        lists(entries(store), as_map(store)),
        as_map(store).dom().finite(),
        as_map(store).len() == total(store),
{
    let es = entries(store);
    let map = as_map(store);
    assert forall|p: int, q: int| 0 <= p < q < es.len() implies
        #[trigger] es[p].0@ != #[trigger] es[q].0@ by {
        let a = lemma_entry_place(store, p);
        let b = lemma_entry_place(store, q);
        if es[p].0@ == es[q].0@ {
            assert(key_is_at(store, a.0, a.1, es[p].0@));
            assert(key_is_at(store, b.0, b.1, es[p].0@));
            lemma_one_place(store, es[p].0@, a.0, a.1, b.0, b.1);
        }
    }
    assert forall|p: int| 0 <= p < es.len() implies
        map.contains_key(#[trigger] es[p].0@) && map[es[p].0@] == es[p].1 by {
        let a = lemma_entry_place(store, p);
        assert(key_is_at(store, a.0, a.1, es[p].0@));
        lemma_found(store, es[p].0@, a.0, a.1);
    }
    assert forall|v: K::V| map.contains_key(v) implies
        exists|p: int| 0 <= p < es.len() && #[trigger] es[p].0@ == v by {
        let (b, i) = choose|b: int, i: int| key_is_at(store, b, i, v);
        lemma_entry_at(store, b, i);
        assert(es[offset(store, b) + i].0@ == v);
    }
    lemma_listed_len(es, map);
}

/// The grown bucket count is a power of two.
pub proof fn lemma_grown_pow2(count: nat)
    requires
        count == 0 || is_pow2(count as int),
    ensures
        is_pow2(grown(count) as int),
        grown(count) > 0,
{
    reveal(is_pow2);
}

/// A store of empty buckets is valid and represents the empty map.
pub proof fn lemma_blank<K: Key, V>(count: nat)
    requires
        count == 0 || is_pow2(count as int),
    ensures
        valid_store(blank::<K, V>(count)),
        as_map(blank::<K, V>(count)) == Map::<K::V, V>::empty(),
        total(blank::<K, V>(count)) == 0,
{
    let store = blank::<K, V>(count);
    assert(as_map(store) =~= Map::<K::V, V>::empty());
    assert(entries(store).len() == 0) by {
        if entries(store).len() > 0 {
            lemma_entry_place(store, 0);
        }
    }
}

/// Scattering entries with distinct keys gives a valid store that those
/// entries list.
pub proof fn lemma_scatter<K: Key, V>(entries: Seq<(K, V)>, count: nat)
    requires
        is_pow2(count as int),
        forall|p: int, q: int|
            0 <= p < q < entries.len() ==> #[trigger] entries[p].0@ != #[trigger] entries[q].0@,
    ensures
        scatter(entries, count).len() == count,
        valid_store(scatter(entries, count)),
        total(scatter(entries, count)) == entries.len(),
        lists(entries, as_map(scatter(entries, count))),
    decreases entries.len(),
{
    reveal(is_pow2);
    let store = scatter(entries, count);
    if entries.len() == 0 {
        lemma_blank::<K, V>(count);
    } else {
        let front = entries.drop_last();
        let entry = entries.last();
        let rest = scatter(front, count);
        lemma_scatter(front, count);
        let b = home::<K>(entry.0@, count);
        if as_map(rest).contains_key(entry.0@) {
            let p = choose|p: int| 0 <= p < front.len() && #[trigger] front[p].0@ == entry.0@;
            assert(entries[p].0@ != entries[entries.len() - 1].0@);
        }
        if holds(rest[b], entry.0@) {
            let i = slot(rest[b], entry.0@);
            assert(key_is_at(rest, b, i, entry.0@));
        }
        assert(store == with_insert(rest, entry.0, entry.1));
        lemma_insert(rest, entry.0, entry.1);
        let map = as_map(store);
        assert forall|p: int| 0 <= p < entries.len() implies
            map.contains_key(#[trigger] entries[p].0@) && map[entries[p].0@] == entries[p].1 by {
            if p < front.len() {
                assert(front[p] == entries[p]);
                assert(entries[p].0@ != entries[entries.len() - 1].0@);
            }
        }
        assert forall|v: K::V| map.contains_key(v) implies
            exists|p: int| 0 <= p < entries.len() && #[trigger] entries[p].0@ == v by {
            if v == entry.0@ {
                assert(entries[entries.len() - 1].0@ == v);
            } else {
                let p = choose|p: int| 0 <= p < front.len() && #[trigger] front[p].0@ == v;
                assert(entries[p].0@ == v);
            }
        }
    }
}

/// Growth keeps the store valid and loses, adds and changes no entry.
pub proof fn lemma_regrown<K: Key, V>(store: Store<K, V>)
    requires
        valid_store(store),
    ensures
        valid_store(regrown(store)),
        regrown(store).len() == grown(store.len()),
        as_map(regrown(store)) == as_map(store),
        total(regrown(store)) == total(store),
{
    lemma_grown_pow2(store.len());
    lemma_traversal(store);
    lemma_scatter(entries(store), grown(store.len()));
    lemma_listed_same(entries(store), as_map(regrown(store)), as_map(store));
}

/// A full insertion keeps the store valid, and changes the map and the
/// number of entries as an insertion into a map does, whether the store
/// grows or not.
pub proof fn lemma_inserted<K: Key, V>(store: Store<K, V>, key: K, value: V)
    requires
        valid_store(store),
    ensures
        valid_store(inserted(store, key, value)),
        inserted(store, key, value).len() == count_for_insert(store.len(), total(store)),
        as_map(inserted(store, key, value)) == as_map(store).insert(key@, value),
        total(inserted(store, key, value)) == total(store)
            + (if as_map(store).contains_key(key@) { 0int } else { 1int }),
{
    lemma_regrown(store);
    lemma_insert(prepared(store), key, value);
}

} // verus!
