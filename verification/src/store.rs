//! The bucket store as a mathematical value: a sequence of buckets, each a
//! sequence of entries. This module says which stores are valid, which map
//! a store represents, in which order its entries are traversed, and what
//! an insertion, a removal and growth make of it.

use crate::key::{key_hash, Key};
use vstd::arithmetic::power2::is_pow2;
use vstd::prelude::*;

verus! {

/// A bucket store: the buckets in order, each with its entries in order.
pub type Store<K, V> = Seq<Seq<(K, V)>>;

/// The index function: the bucket, among `count` buckets, of a key with hash
/// code `hash`.
pub open spec fn bucket_index(hash: u64, count: nat) -> int
    recommends
        count > 0,
{
    (hash as int) % (count as int)
}

/// The bucket, among `count` buckets, of the key of type `K` with view `v`.
pub open spec fn home<K: Key>(v: K::V, count: nat) -> int
    recommends
        count > 0,
{
    bucket_index(key_hash::<K>(v), count)
}

/// The store invariant: the bucket count is zero or a power of two, no
/// bucket holds a key twice, and every entry lies in the bucket that the
/// index function gives for its key.
pub open spec fn valid_store<K: Key, V>(store: Store<K, V>) -> bool {
    &&& store.len() == 0 || is_pow2(store.len() as int)
    &&& forall|b: int, i: int, j: int|
        0 <= b < store.len() && 0 <= i < j < store[b].len()
            ==> #[trigger] store[b][i].0@ != #[trigger] store[b][j].0@
    &&& forall|b: int, i: int|
        0 <= b < store.len() && 0 <= i < store[b].len()
            ==> home::<K>(#[trigger] store[b][i].0@, store.len()) == b
}

/// Entry `i` of bucket `b` of `store` exists and its key has view `v`.
pub open spec fn key_is_at<K: Key, V>(store: Store<K, V>, b: int, i: int, v: K::V) -> bool {
    &&& 0 <= b < store.len()
    &&& 0 <= i < store[b].len()
    &&& store[b][i].0@ == v
}

/// Some entry of `store` has a key with view `v`.
pub open spec fn stored<K: Key, V>(store: Store<K, V>, v: K::V) -> bool {
    exists|b: int, i: int| key_is_at(store, b, i, v)
}

/// The value that `store` holds for the key with view `v`.
pub open spec fn value_of<K: Key, V>(store: Store<K, V>, v: K::V) -> V
    recommends
        stored(store, v),
{
    let (b, i) = choose|b: int, i: int| key_is_at(store, b, i, v);
    store[b][i].1
}

/// The map from key views to values that `store` represents.
pub open spec fn as_map<K: Key, V>(store: Store<K, V>) -> Map<K::V, V> {
    Map::new(|v: K::V| stored(store, v), |v: K::V| value_of(store, v))
}

/// The entries of `store` in traversal order: bucket after bucket, each
/// bucket from its first entry to its last.
pub open spec fn entries<K, V>(store: Store<K, V>) -> Seq<(K, V)> {
    store.flatten()
}

/// The number of entries in `store`.
pub open spec fn total<K, V>(store: Store<K, V>) -> nat {
    store.flatten().len()
}

/// The number of entries in the buckets before bucket `b`.
pub open spec fn offset<K, V>(store: Store<K, V>, b: int) -> int
    recommends
        0 <= b <= store.len(),
{
    store.take(b).flatten().len() as int
}

/// `entries` lists `map`: it names each key of the map once, with the value
/// that the map has for it, and nothing else.
pub open spec fn lists<K: Key, V>(entries: Seq<(K, V)>, map: Map<K::V, V>) -> bool {
    &&& forall|p: int, q: int|
        0 <= p < q < entries.len() ==> #[trigger] entries[p].0@ != #[trigger] entries[q].0@
    &&& forall|p: int|
        0 <= p < entries.len() ==> {
            &&& map.contains_key(#[trigger] entries[p].0@)
            &&& map[entries[p].0@] == entries[p].1
        }
    &&& forall|v: K::V|
        map.contains_key(v) ==> exists|p: int|
            0 <= p < entries.len() && #[trigger] entries[p].0@ == v
}

/// Bucket `bucket` holds a key with view `v`.
pub open spec fn holds<K: Key, V>(bucket: Seq<(K, V)>, v: K::V) -> bool {
    exists|i: int| 0 <= i < bucket.len() && #[trigger] bucket[i].0@ == v
}

/// Where `bucket` holds the key with view `v`. A bucket of a valid store
/// holds a key in one place at most.
pub open spec fn slot<K: Key, V>(bucket: Seq<(K, V)>, v: K::V) -> int
    recommends
        holds(bucket, v),
{
    choose|i: int| 0 <= i < bucket.len() && #[trigger] bucket[i].0@ == v
}

/// `bucket` after an insertion: the value of the entry with that key is
/// replaced where it stands, or else the new entry is appended.
pub open spec fn put<K: Key, V>(bucket: Seq<(K, V)>, key: K, value: V) -> Seq<(K, V)> {
    if holds(bucket, key@) {
        let i = slot(bucket, key@);
        bucket.update(i, (bucket[i].0, value))
    } else {
        bucket.push((key, value))
    }
}

/// `bucket` after a removal: the last entry takes the place of the entry
/// with that key, and the bucket is one entry shorter.
pub open spec fn swap_out<K: Key, V>(bucket: Seq<(K, V)>, v: K::V) -> Seq<(K, V)> {
    if holds(bucket, v) {
        bucket.update(slot(bucket, v), bucket.last()).drop_last()
    } else {
        bucket
    }
}

/// `store` after the insertion of `key` with `value` into its home bucket.
pub open spec fn with_insert<K: Key, V>(store: Store<K, V>, key: K, value: V) -> Store<K, V>
    recommends
        store.len() > 0,
{
    let b = home::<K>(key@, store.len());
    store.update(b, put(store[b], key, value))
}

/// `store` after the removal of the key with view `v` from its home bucket.
pub open spec fn with_remove<K: Key, V>(store: Store<K, V>, v: K::V) -> Store<K, V> {
    if store.len() == 0 {
        store
    } else {
        let b = home::<K>(v, store.len());
        store.update(b, swap_out(store[b], v))
    }
}

/// A store of `count` empty buckets.
pub open spec fn blank<K, V>(count: nat) -> Store<K, V> {
    Seq::new(count, |b: int| Seq::<(K, V)>::empty())
}

/// `store` with `entry` appended to the home bucket of its key.
pub open spec fn with_push<K: Key, V>(store: Store<K, V>, entry: (K, V)) -> Store<K, V>
    recommends
        store.len() > 0,
{
    let b = home::<K>(entry.0@, store.len());
    store.update(b, store[b].push(entry))
}

/// The store of `count` buckets that receives `entries` one by one, each
/// appended to the home bucket of its key.
pub open spec fn scatter<K: Key, V>(entries: Seq<(K, V)>, count: nat) -> Store<K, V>
    recommends
        count > 0,
    decreases entries.len(),
{
    if entries.len() == 0 {
        blank(count)
    } else {
        with_push(scatter(entries.drop_last(), count), entries.last())
    }
}

/// The growth rule: a store grows before an insertion when it has no bucket,
/// or more entries than three quarters of its bucket count, rounded down.
pub open spec fn must_grow(count: nat, items: nat) -> bool {
    count == 0 || items > 3 * count / 4
}

/// The bucket count after growth: one bucket at first, then twice as many.
pub open spec fn grown(count: nat) -> nat {
    if count == 0 {
        1
    } else {
        2 * count
    }
}

/// The bucket count that an insertion works with: the grown count where
/// the growth rule asks for growth, and else the count as it is.
pub open spec fn count_for_insert(count: nat, items: nat) -> nat {
    if must_grow(count, items) {
        grown(count)
    } else {
        count
    }
}

/// `store` after growth: its entries, taken in traversal order, scattered
/// over the grown number of buckets.
pub open spec fn regrown<K: Key, V>(store: Store<K, V>) -> Store<K, V> {
    scatter(entries(store), grown(store.len()))
}

/// `store` as an insertion finds it once the growth rule has been applied.
pub open spec fn prepared<K: Key, V>(store: Store<K, V>) -> Store<K, V> {
    if must_grow(store.len(), total(store)) {
        regrown(store)
    } else {
        store
    }
}

/// `store` after a full insertion of `key` with `value`: the growth rule
/// first, then the insertion into the home bucket of the key.
pub open spec fn inserted<K: Key, V>(store: Store<K, V>, key: K, value: V) -> Store<K, V> {
    with_insert(prepared(store), key, value)
}

} // verus!
