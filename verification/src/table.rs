//! The hash table: buckets of entries, found through the index function.

use crate::key::{hash_of, Key, Lookup};
use crate::lemmas::{
    lemma_absent, lemma_blank, lemma_entry_at, lemma_found, lemma_insert, lemma_offset_end,
    lemma_offset_step, lemma_regrown, lemma_remove, lemma_traversal,
};
use crate::store::{
    as_map, blank, count_for_insert, entries, grown, holds, home, inserted, must_grow, offset,
    prepared, regrown, scatter, slot, total, valid_store, with_insert, with_push, with_remove,
    Store,
};
use vstd::prelude::*;

verus! {

/// A hash table that maps keys to values by separate chaining.
///
/// Its view is the map from key views to values, and `store` gives the
/// buckets with their entries in order. A table is made without buckets;
/// insertions give it one bucket and then double the number of buckets
/// whenever the load passes three quarters. Removals leave the number of
/// buckets as it is.
pub struct HashMap<K: Key, V> {
    buckets: Vec<Vec<(K, V)>>,
    items: usize,
}

impl<K: Key, V> View for HashMap<K, V> {
    type V = Map<K::V, V>;

    open spec fn view(&self) -> Map<K::V, V> {
        as_map(self.store())
    }
}

/// The bucket, among `count`, in which `key` is to be looked for.
fn index_for<K: Key, Q: Lookup<K> + ?Sized>(key: &Q, count: usize) -> (idx: usize)
    requires
        count > 0,
    ensures
        idx == home::<K>(key.key_view(), count as nat),
        idx < count,
{
    (hash_of::<K, Q>(key) % (count as u64)) as usize
}

/// Where in `bucket` the key that `key` stands for lies, if it does.
fn position<K: Key, V, Q: Lookup<K> + ?Sized>(
    bucket: &Vec<(K, V)>,
    key: &Q,
) -> (found: Option<usize>)
    ensures
        match found {
            Some(i) => i < bucket@.len() && bucket@[i as int].0@ == key.key_view(),
            None => !holds(bucket@, key.key_view()),
        },
{
    let mut i: usize = 0;
    while i < bucket.len()
        invariant
            i <= bucket@.len(),
            forall|j: int| 0 <= j < i ==> (#[trigger] bucket@[j]).0@ != key.key_view(),
        decreases bucket@.len() - i,
    {
        if key.matches(&bucket[i].0) {
            return Some(i);
        }
        i += 1;
    }
    None
}

/// The store that `buckets` holds.
spec fn store_of<K, V>(buckets: Vec<Vec<(K, V)>>) -> Store<K, V> {
    Seq::new(buckets@.len(), |b: int| buckets@[b]@)
}

/// Makes `count` empty buckets.
fn empty_buckets<K: Key, V>(count: usize) -> (buckets: Vec<Vec<(K, V)>>)
    ensures
        store_of(buckets) == blank::<K, V>(count as nat),
        buckets@.len() == count,
{
    let mut buckets: Vec<Vec<(K, V)>> = Vec::with_capacity(count);
    while buckets.len() < count
        invariant
            buckets@.len() <= count,
            forall|b: int| 0 <= b < buckets@.len() ==> (#[trigger] buckets@[b])@.len() == 0,
        decreases count - buckets@.len(),
    {
        buckets.push(Vec::new());
    }
    assert(store_of(buckets) =~~= blank::<K, V>(count as nat));
    buckets
}

impl<K: Key, V> HashMap<K, V> {
    /// The bucket store: the buckets in order, each with its entries in
    /// order.
    pub closed spec fn store(&self) -> Store<K, V> {
        store_of(self.buckets)
    }

    /// The table invariant: the store is valid and the item count is the
    /// number of entries in it.
    #[verifier::type_invariant]
    spec fn wf(&self) -> bool {
        &&& valid_store(self.store())
        &&& self.items == total(self.store())
    }

    /// Makes an empty table, with no bucket.
    pub fn new() -> (table: Self)
        ensures
            table.store() == Store::<K, V>::empty(),
            table@ == Map::<K::V, V>::empty(),
            valid_store(table.store()),
    {
        let table = HashMap { buckets: Vec::new(), items: 0 };
        proof {
            assert(table.store() =~= blank::<K, V>(0));
            assert(blank::<K, V>(0) =~= Store::<K, V>::empty());
            lemma_blank::<K, V>(0);
        }
        table
    }

    /// The number of entries.
    pub fn len(&self) -> (len: usize)
        ensures
            len == self@.len(),
            len == total(self.store()),
            self@.dom().finite(),
            valid_store(self.store()),
    {
        proof {
            use_type_invariant(self);
            lemma_traversal(self.store());
        }
        self.items
    }

    /// Tells whether the table has no entry.
    pub fn is_empty(&self) -> (empty: bool)
        ensures
            empty == (self@.len() == 0),
            self@.dom().finite(),
    {
        proof {
            use_type_invariant(self);
            lemma_traversal(self.store());
        }
        self.items == 0
    }

    /// The bucket in which `key` is to be looked for.
    fn bucket_idx<Q: Lookup<K> + ?Sized>(&self, key: &Q) -> (idx: usize)
        requires
            self.store().len() > 0,
        ensures
            idx == home::<K>(key.key_view(), self.store().len()),
            idx < self.store().len(),
    {
        index_for::<K, Q>(key, self.buckets.len())
    }

    /// The value stored for the key that `key` stands for, if there is one.
    ///
    /// A table without buckets holds nothing, and no index is computed for
    /// it.
    pub fn get<Q: Lookup<K> + ?Sized>(&self, key: &Q) -> (value: Option<&V>)
        ensures
            value == (if self@.contains_key(key.key_view()) {
                Some(&self@[key.key_view()])
            } else {
                None
            }),
    {
        proof {
            use_type_invariant(self);
        }
        if self.buckets.is_empty() {
            proof {
                lemma_absent(self.store(), key.key_view());
            }
            return None;
        }
        let idx = self.bucket_idx(key);
        let bucket = &self.buckets[idx];
        match position(bucket, key) {
            Some(i) => {
                proof {
                    lemma_found(self.store(), key.key_view(), idx as int, i as int);
                }
                Some(&bucket[i].1)
            },
            None => {
                proof {
                    lemma_absent(self.store(), key.key_view());
                }
                None
            },
        }
    }

    /// Tells whether a value is stored for the key that `key` stands for.
    pub fn contains_key<Q: Lookup<K> + ?Sized>(&self, key: &Q) -> (found: bool)
        ensures
            found == self@.contains_key(key.key_view()),
    {
        proof {
            use_type_invariant(self);
        }
        if self.buckets.is_empty() {
            proof {
                lemma_absent(self.store(), key.key_view());
            }
            return false;
        }
        let idx = self.bucket_idx(key);
        match position(&self.buckets[idx], key) {
            Some(i) => {
                proof {
                    lemma_found(self.store(), key.key_view(), idx as int, i as int);
                }
                true
            },
            None => {
                proof {
                    lemma_absent(self.store(), key.key_view());
                }
                false
            },
        }
    }

    /// Takes the buckets and the item count out and leaves an empty table.
    fn take_parts(&mut self) -> (parts: (Vec<Vec<(K, V)>>, usize))
        ensures
            store_of(parts.0) == old(self).store(),
            parts.1 == total(old(self).store()),
            valid_store(old(self).store()),
    {
        proof {
            use_type_invariant(&*self);
        }
        let mut taken = Self::new();
        std::mem::swap(self, &mut taken);
        let HashMap { buckets, items } = taken;
        (buckets, items)
    }

    /// Grows the table: all entries move, in traversal order, to a store
    /// of one bucket if there was none, and else of twice as many. No entry
    /// is lost, added or changed.
    fn resize(&mut self)
        requires
            grown(old(self).store().len()) <= usize::MAX,
        ensures
            final(self).store() == regrown(old(self).store()),
            final(self).store().len() == grown(old(self).store().len()),
            final(self)@ == old(self)@,
            total(final(self).store()) == total(old(self).store()),
    {
        let (old_buckets, items) = self.take_parts();
        let ghost old_store = store_of(old_buckets);
        let count = old_buckets.len();
        let target: usize = if count == 0 {
            1
        } else {
            2 * count
        };
        let mut new_buckets = empty_buckets::<K, V>(target);
        proof {
            lemma_offset_end(old_store);
        }
        for bucket in outer: old_buckets
            invariant
                target == grown(old_store.len()),
                new_buckets@.len() == target,
                outer.seq().len() == old_store.len(),
                forall|b: int|
                    0 <= b < old_store.len() ==> (#[trigger] outer.seq()[b])@ == old_store[b],
                store_of(new_buckets) == scatter(
                    old_store.take(outer.index() as int).flatten(),
                    target as nat,
                ),
        {
            let ghost b = outer.index() as int;
            let ghost moved = old_store.take(b).flatten();
            for entry in inner: bucket
                invariant
                    target == grown(old_store.len()),
                    new_buckets@.len() == target,
                    0 <= b < old_store.len(),
                    inner.seq() == old_store[b],
                    store_of(new_buckets) == scatter(
                        moved + old_store[b].take(inner.index() as int),
                        target as nat,
                    ),
            {
                let ghost done = moved + old_store[b].take(inner.index() as int);
                let idx = index_for::<K, K>(&entry.0, target);
                new_buckets[idx].push(entry);
                proof {
                    let next = moved + old_store[b].take(inner.index() + 1);
                    assert(next.drop_last() =~= done);
                    assert(next.last() == entry);
                    assert(store_of(new_buckets) =~= with_push(
                        scatter(done, target as nat),
                        entry,
                    ));
                }
            }
            proof {
                assert(old_store[b].take(old_store[b].len() as int) =~= old_store[b]);
                lemma_offset_step(old_store, b);
            }
        }
        proof {
            assert(old_store.take(old_store.len() as int) =~= old_store);
            lemma_regrown(old_store);
        }
        *self = HashMap { buckets: new_buckets, items };
    }

    /// Stores `value` for `key` and returns the value that was stored for
    /// it before, if there was one.
    ///
    /// The growth rule is applied first. Then the value of the entry with
    /// that key is replaced where it stands, or else the new entry is
    /// appended to the home bucket of the key.
    ///
    /// The counts have to stay within `usize`: the number of buckets where
    /// the table grows, and the number of entries where the key is new.
    pub fn insert(&mut self, key: K, value: V) -> (previous: Option<V>)
        requires
            must_grow(old(self).store().len(), total(old(self).store()))
                ==> grown(old(self).store().len()) <= usize::MAX,
            !old(self)@.contains_key(key@) ==> total(old(self).store()) + 1 <= usize::MAX,
        ensures
            final(self).store() == inserted(old(self).store(), key, value),
            final(self)@ == old(self)@.insert(key@, value),
            valid_store(final(self).store()),
            final(self).store().len() == count_for_insert(
                old(self).store().len(),
                total(old(self).store()),
            ),
            total(final(self).store()) == total(old(self).store())
                + (if old(self)@.contains_key(key@) { 0int } else { 1int }),
            previous == old(self)@.get(key@),
    {
        proof {
            use_type_invariant(&*self);
        }
        let count = self.buckets.len();
        // Three quarters of `count`, rounded down, without a product that
        // could pass `usize::MAX`.
        let limit = count / 4 * 3 + count % 4 * 3 / 4;
        assert(limit == 3 * count / 4);
        if count == 0 || self.items > limit {
            self.resize();
        }
        let (mut buckets, items) = self.take_parts();
        let ghost store = store_of(buckets);
        proof {
            lemma_regrown(old(self).store());
            assert(store == prepared(old(self).store()));
            lemma_insert(store, key, value);
        }
        let idx = index_for::<K, K>(&key, buckets.len());
        match position(&buckets[idx], &key) {
            Some(i) => {
                let ghost bucket = store[idx as int];
                proof {
                    lemma_found(store, key@, idx as int, i as int);
                    assert(bucket[i as int].0@ == key@);
                    assert(holds(bucket, key@));
                    let j = slot(bucket, key@);
                    if j < i {
                        assert(bucket[j].0@ != bucket[i as int].0@);
                    }
                    if i < j {
                        assert(bucket[i as int].0@ != bucket[j].0@);
                    }
                }
                let mut held = value;
                std::mem::swap(&mut buckets[idx][i].1, &mut held);
                assert(store_of(buckets) =~~= with_insert(store, key, value));
                *self = HashMap { buckets, items };
                Some(held)
            },
            None => {
                proof {
                    lemma_absent(store, key@);
                }
                buckets[idx].push((key, value));
                assert(store_of(buckets) =~~= with_insert(store, key, value));
                *self = HashMap { buckets, items: items + 1 };
                None
            },
        }
    }

    /// Removes the entry of the key that `key` stands for and returns its
    /// value, if there is one.
    ///
    /// The last entry of the bucket takes the place of the removed one. The
    /// number of buckets stays.
    pub fn remove<Q: Lookup<K> + ?Sized>(&mut self, key: &Q) -> (removed: Option<V>)
        ensures
            final(self).store() == with_remove(old(self).store(), key.key_view()),
            final(self)@ == old(self)@.remove(key.key_view()),
            valid_store(final(self).store()),
            final(self).store().len() == old(self).store().len(),
            total(final(self).store()) == total(old(self).store())
                - (if old(self)@.contains_key(key.key_view()) { 1int } else { 0int }),
            removed == old(self)@.get(key.key_view()),
    {
        proof {
            use_type_invariant(&*self);
            lemma_remove(self.store(), key.key_view());
        }
        if self.buckets.is_empty() {
            proof {
                lemma_absent(self.store(), key.key_view());
            }
            return None;
        }
        let idx = self.bucket_idx(key);
        match position(&self.buckets[idx], key) {
            Some(i) => {
                let (mut buckets, items) = self.take_parts();
                let ghost store = store_of(buckets);
                let ghost bucket = store[idx as int];
                proof {
                    lemma_found(store, key.key_view(), idx as int, i as int);
                    lemma_entry_at(store, idx as int, i as int);
                    assert(bucket[i as int].0@ == key.key_view());
                    assert(holds(bucket, key.key_view()));
                    let j = slot(bucket, key.key_view());
                    if j < i {
                        assert(bucket[j].0@ != bucket[i as int].0@);
                    }
                    if i < j {
                        assert(bucket[i as int].0@ != bucket[j].0@);
                    }
                }
                let entry = buckets[idx].swap_remove(i);
                assert(store_of(buckets) =~~= with_remove(store, key.key_view()));
                *self = HashMap { buckets, items: items - 1 };
                Some(entry.1)
            },
            None => {
                proof {
                    lemma_absent(self.store(), key.key_view());
                }
                None
            },
        }
    }
}

/// A traversal of a table: bucket after bucket, each bucket from its first
/// entry to its last.
pub struct HashIter<'a, K: Key, V> {
    map: &'a HashMap<K, V>,
    current_bucket: usize,
    current_item: usize,
}

impl<'a, K: Key, V> HashIter<'a, K, V> {
    /// The table that is traversed.
    pub closed spec fn table(&self) -> HashMap<K, V> {
        *self.map
    }

    /// The number of entries that lie before the cursor.
    pub closed spec fn passed(&self) -> int {
        offset(self.map.store(), self.current_bucket as int) + self.current_item
    }

    /// The entries still to come, in the order in which they will come.
    pub open spec fn remaining(&self) -> Seq<(K, V)> {
        entries(self.table().store()).skip(self.passed())
    }

    /// The cursor lies in a bucket, at an entry of it or at its end, or
    /// behind the last bucket.
    #[verifier::type_invariant]
    spec fn wf(&self) -> bool {
        let store = self.map.store();
        &&& self.current_bucket <= store.len()
        &&& self.current_bucket < store.len() ==> self.current_item
            <= store[self.current_bucket as int].len()
        &&& self.current_bucket == store.len() ==> self.current_item == 0
    }

    /// Starts a traversal of `hash_map` before its first entry.
    pub fn new(hash_map: &'a HashMap<K, V>) -> (iter: Self)
        ensures
            iter.table() == *hash_map,
            iter.passed() == 0,
            iter.remaining() == entries(hash_map.store()),
    {
        proof {
            lemma_offset_end(hash_map.store());
        }
        HashIter { map: hash_map, current_bucket: 0, current_item: 0 }
    }

    /// Yields the next entry and moves past it, or yields nothing once all
    /// entries have been yielded, and from then on.
    pub fn next(&mut self) -> (entry: Option<(&'a K, &'a V)>)
        ensures
            final(self).table() == old(self).table(),
            entry == (if old(self).remaining().len() > 0 {
                Some((&old(self).remaining()[0].0, &old(self).remaining()[0].1))
            } else {
                None
            }),
            final(self).remaining() == (if old(self).remaining().len() > 0 {
                old(self).remaining().drop_first()
            } else {
                old(self).remaining()
            }),
            final(self).passed() == old(self).passed() + (if old(self).remaining().len() > 0 {
                1int
            } else {
                0int
            }),
    {
        let map: &'a HashMap<K, V> = self.map;
        let ghost store = map.store();
        proof {
            lemma_offset_end(store);
        }
        loop
            invariant
                store == map.store(),
                self.map == map,
                old(self).table() == *map,
                self.passed() == old(self).passed(),
                offset(store, store.len() as int) == total(store),
            decreases store.len() - self.current_bucket,
        {
            proof {
                use_type_invariant(&*self);
            }
            if self.current_bucket < map.buckets.len() {
                let bucket = &map.buckets[self.current_bucket];
                proof {
                    lemma_offset_step(store, self.current_bucket as int);
                }
                if self.current_item < bucket.len() {
                    let entry = &bucket[self.current_item];
                    proof {
                        lemma_entry_at(store, self.current_bucket as int, self.current_item as int);
                    }
                    self.current_item += 1;
                    return Some((&entry.0, &entry.1));
                } else {
                    self.current_item = 0;
                    self.current_bucket += 1;
                }
            } else {
                return None;
            }
        }
    }
}

impl<K: Key, V> HashMap<K, V> {
    /// Starts a traversal of the table before its first entry.
    pub fn iter(&self) -> (iter: HashIter<'_, K, V>)
        ensures
            iter.table() == *self,
            iter.passed() == 0,
            iter.remaining() == entries(self.store()),
    {
        HashIter::new(self)
    }
}

impl<K: Key, V> Default for HashMap<K, V> {
    /// Makes an empty table, with no bucket.
    fn default() -> (table: Self)
        ensures
            table.store() == Store::<K, V>::empty(),
            table@ == Map::<K::V, V>::empty(),
            valid_store(table.store()),
    {
        Self::new()
    }
}

} // verus!
