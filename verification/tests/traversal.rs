use hash_table::{hash_of, HashIter, HashMap};
use std::collections::hash_map::DefaultHasher;
use std::hash::Hasher;

/// A table kept by hand, by the same rules: index function, growth rule,
/// replacement in place, appending, and removal by swapping the last entry
/// in.
struct Model {
    buckets: Vec<Vec<(u64, u64)>>,
    items: usize,
}

fn model_insert(model: &mut Model, key: u64, value: u64) -> Option<u64> {
    let count = model.buckets.len();
    if count == 0 || model.items > 3 * count / 4 {
        let target = if count == 0 { 1 } else { 2 * count };
        let mut grown: Vec<Vec<(u64, u64)>> = (0..target).map(|_| Vec::new()).collect();
        for bucket in model.buckets.iter() {
            for &(k, v) in bucket.iter() {
                let idx = (hash_of::<u64, u64>(&k) % target as u64) as usize;
                grown[idx].push((k, v));
            }
        }
        model.buckets = grown;
    }
    let count = model.buckets.len();
    let idx = (hash_of::<u64, u64>(&key) % count as u64) as usize;
    for entry in model.buckets[idx].iter_mut() {
        if entry.0 == key {
            return Some(std::mem::replace(&mut entry.1, value));
        }
    }
    model.items += 1;
    model.buckets[idx].push((key, value));
    None
}

fn model_remove(model: &mut Model, key: u64) -> Option<u64> {
    let count = model.buckets.len();
    if count == 0 {
        return None;
    }
    let idx = (hash_of::<u64, u64>(&key) % count as u64) as usize;
    let at = model.buckets[idx].iter().position(|entry| entry.0 == key)?;
    model.items -= 1;
    Some(model.buckets[idx].swap_remove(at).1)
}

fn model_entries(model: &Model) -> Vec<(u64, u64)> {
    model.buckets.iter().flat_map(|bucket| bucket.iter().copied()).collect()
}

fn table_entries(map: &HashMap<u64, u64>) -> Vec<(u64, u64)> {
    let mut out = Vec::new();
    let mut iter = HashIter::new(map);
    while let Some((key, value)) = iter.next() {
        out.push((*key, *value));
    }
    assert_eq!(iter.next(), None);
    out
}

#[test]
fn hash_of_an_integer_is_the_default_hash_of_its_bytes() {
    for key in [0u64, 1, 5, 0x0102_0304_0506_0708, u64::MAX] {
        let mut state = DefaultHasher::new();
        state.write(&key.to_le_bytes());
        assert_eq!(hash_of::<u64, u64>(&key), state.finish());
    }
    let mut state = DefaultHasher::new();
    state.write(&[0xff, 0xff, 0xff, 0xff, 0xff, 0xff, 0xff, 0xff]);
    assert_eq!(hash_of::<i32, i32>(&-1), state.finish());
    let mut state = DefaultHasher::new();
    state.write(&[7, 0, 0, 0, 0, 0, 0, 0]);
    assert_eq!(hash_of::<u32, u32>(&7), state.finish());
    assert_eq!(hash_of::<usize, usize>(&7), state.finish());
    assert_eq!(hash_of::<i64, i64>(&7), state.finish());
}

#[test]
fn hash_of_a_string_is_the_default_hash_of_its_encoding() {
    for word in ["", "foo", "é", "日本語"] {
        let mut state = DefaultHasher::new();
        state.write(word.as_bytes());
        let expected = state.finish();
        assert_eq!(hash_of::<&str, str>(word), expected);
        assert_eq!(hash_of::<String, str>(word), expected);
        assert_eq!(hash_of::<&str, &str>(&word), expected);
        assert_eq!(hash_of::<String, String>(&word.to_string()), expected);
    }
}

#[test]
fn hashes_of_equal_keys_are_equal() {
    let a = String::from("same");
    let b = String::from("same");
    assert_eq!(hash_of::<String, String>(&a), hash_of::<String, String>(&b));
    assert_eq!(hash_of::<u64, u64>(&42), hash_of::<u64, u64>(&42));
    assert_ne!(hash_of::<u64, u64>(&42), hash_of::<u64, u64>(&43));
}

/// Three keys whose home, among four buckets, is bucket 1.
fn three_keys_of_one_bucket() -> Vec<u64> {
    let mut keys = Vec::new();
    let mut key = 0u64;
    while keys.len() < 3 {
        if hash_of::<u64, u64>(&key) % 4 == 1 {
            keys.push(key);
        }
        key += 1;
    }
    keys
}

#[test]
fn a_bucket_keeps_the_order_of_insertion() {
    // The third insertion brings the table to four buckets, and the fourth
    // finds three entries, which is within the limit of 3 * 4 / 4.
    let keys = three_keys_of_one_bucket();
    let mut map: HashMap<u64, u64> = HashMap::new();
    map.insert(keys[0], 1);
    assert_eq!(table_entries(&map), vec![(keys[0], 1)]);
    map.insert(keys[1], 2);
    assert_eq!(table_entries(&map), vec![(keys[0], 1), (keys[1], 2)]);
    map.insert(keys[2], 3);
    assert_eq!(table_entries(&map), vec![(keys[0], 1), (keys[1], 2), (keys[2], 3)]);
    assert_eq!(map.insert(keys[0], 4), Some(1));
    assert_eq!(table_entries(&map), vec![(keys[0], 4), (keys[1], 2), (keys[2], 3)]);
    assert_eq!(map.insert(keys[1], 5), Some(2));
    assert_eq!(table_entries(&map), vec![(keys[0], 4), (keys[1], 5), (keys[2], 3)]);
}

#[test]
fn growth_comes_when_the_load_passes_three_quarters() {
    // An insertion grows the table when it finds no bucket, or more entries
    // than 3 * count / 4, rounded down: 0 for one bucket, 1 for two, 3 for
    // four, 6 for eight, 12 for sixteen.
    let mut map: HashMap<u64, u64> = HashMap::new();
    let mut model = Model { buckets: Vec::new(), items: 0 };
    let mut counts = Vec::new();
    for key in 0..14u64 {
        map.insert(key, key);
        model_insert(&mut model, key, key);
        counts.push(model.buckets.len());
        assert_eq!(table_entries(&map), model_entries(&model));
    }
    assert_eq!(counts, vec![1, 2, 4, 4, 8, 8, 8, 16, 16, 16, 16, 16, 16, 32]);
}

#[test]
fn traversal_follows_the_buckets() {
    let mut map: HashMap<u64, u64> = HashMap::new();
    let mut model = Model { buckets: Vec::new(), items: 0 };
    let mut seed: u64 = 0x2545_f491_4f6c_dd1d;
    for step in 0..4000u64 {
        seed = seed.wrapping_mul(6364136223846793005).wrapping_add(1442695040888963407);
        let key = (seed >> 33) % 257;
        if (seed >> 20) % 3 == 0 {
            assert_eq!(map.remove(&key), model_remove(&mut model, key));
        } else {
            assert_eq!(map.insert(key, step), model_insert(&mut model, key, step));
        }
        assert_eq!(map.len(), model.items);
        if step % 97 == 0 {
            assert_eq!(table_entries(&map), model_entries(&model));
        }
    }
    assert_eq!(table_entries(&map), model_entries(&model));
}

#[test]
fn removal_moves_the_last_entry_of_the_bucket() {
    let keys = three_keys_of_one_bucket();
    let mut map: HashMap<u64, u64> = HashMap::new();
    for &key in keys.iter() {
        map.insert(key, key + 100);
    }
    assert_eq!(
        table_entries(&map),
        vec![(keys[0], keys[0] + 100), (keys[1], keys[1] + 100), (keys[2], keys[2] + 100)]
    );
    assert_eq!(map.remove(&keys[0]), Some(keys[0] + 100));
    assert_eq!(table_entries(&map), vec![(keys[2], keys[2] + 100), (keys[1], keys[1] + 100)]);
    assert_eq!(map.remove(&keys[1]), Some(keys[1] + 100));
    assert_eq!(table_entries(&map), vec![(keys[2], keys[2] + 100)]);
    assert_eq!(map.remove(&keys[2]), Some(keys[2] + 100));
    assert_eq!(table_entries(&map), vec![]);
}

#[test]
fn traversal_agrees_with_a_reference_map() {
    let mut map: HashMap<u64, u64> = HashMap::new();
    let mut reference: std::collections::BTreeMap<u64, u64> = std::collections::BTreeMap::new();
    let mut seed: u64 = 12345;
    for step in 0..3000u64 {
        seed = seed.wrapping_mul(6364136223846793005).wrapping_add(1442695040888963407);
        let key = (seed >> 40) % 500;
        if (seed >> 13) % 4 == 0 {
            assert_eq!(map.remove(&key), reference.remove(&key));
        } else {
            assert_eq!(map.insert(key, step), reference.insert(key, step));
        }
        assert_eq!(map.len(), reference.len());
        assert_eq!(map.is_empty(), reference.is_empty());
    }
    let mut seen = table_entries(&map);
    assert_eq!(seen.len(), reference.len());
    seen.sort();
    let expected: Vec<(u64, u64)> = reference.iter().map(|(k, v)| (*k, *v)).collect();
    assert_eq!(seen, expected);
    for key in 0..500u64 {
        assert_eq!(map.get(&key), reference.get(&key));
        assert_eq!(map.contains_key(&key), reference.contains_key(&key));
    }
}

#[test]
fn traversal_yields_each_entry_once() {
    let mut map: HashMap<u64, u64> = HashMap::new();
    for key in 0..300u64 {
        map.insert(key, key + 1);
    }
    let seen = table_entries(&map);
    assert_eq!(seen.len(), 300);
    let mut keys: Vec<u64> = seen.iter().map(|entry| entry.0).collect();
    keys.sort();
    keys.dedup();
    assert_eq!(keys, (0..300u64).collect::<Vec<u64>>());
    for (key, value) in seen {
        assert_eq!(value, key + 1);
    }
}
