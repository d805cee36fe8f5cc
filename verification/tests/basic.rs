use hash_table::{HashIter, HashMap};

#[test]
fn basic_functionality() {
    let mut map = HashMap::new();
    assert!(map.is_empty());
    assert_eq!(map.len(), 0);
    map.insert("foo", 42);
    assert!(!map.is_empty());
    assert_eq!(map.len(), 1);
    assert_eq!(map.get("foo"), Some(&42));
    assert_eq!(map.remove("foo"), Some(42));
    assert!(map.is_empty());
    assert_eq!(map.len(), 0);
    assert_eq!(map.get("foo"), None);
}

#[test]
fn fresh_table_is_empty() {
    let mut map: HashMap<u64, u64> = HashMap::new();
    assert_eq!(map.len(), 0);
    assert!(map.is_empty());
    for key in [0u64, 1, 7, u64::MAX] {
        assert_eq!(map.get(&key), None);
        assert!(!map.contains_key(&key));
        assert_eq!(map.remove(&key), None);
    }
    assert_eq!(map.len(), 0);
    let mut iter = HashIter::new(&map);
    assert_eq!(iter.next(), None);
    assert_eq!(iter.next(), None);
}

#[test]
fn default_table_is_empty() {
    let map: HashMap<String, i32> = HashMap::default();
    assert!(map.is_empty());
    assert_eq!(map.len(), 0);
    assert_eq!(map.get("anything"), None);
    assert_eq!(map.iter().next(), None);
}

#[test]
fn lookup_in_a_table_without_buckets_finds_nothing() {
    let map: HashMap<&str, i32> = HashMap::new();
    assert_eq!(map.get("foo"), None);
    assert!(!map.contains_key("foo"));
}

#[test]
fn insert_then_get_round_trip() {
    let mut map = HashMap::new();
    for i in 0..100u64 {
        assert_eq!(map.insert(i, i * i + 1), None);
    }
    assert_eq!(map.len(), 100);
    for i in 0..100u64 {
        assert_eq!(map.get(&i), Some(&(i * i + 1)));
        assert!(map.contains_key(&i));
    }
    assert_eq!(map.get(&100), None);
    assert!(!map.contains_key(&100));
}

#[test]
fn insert_of_a_held_key_returns_the_previous_value() {
    let mut map = HashMap::new();
    assert_eq!(map.insert(5u32, "first"), None);
    assert_eq!(map.insert(9u32, "other"), None);
    assert_eq!(map.len(), 2);
    assert_eq!(map.insert(5u32, "second"), Some("first"));
    assert_eq!(map.len(), 2);
    assert_eq!(map.get(&5), Some(&"second"));
    assert_eq!(map.get(&9), Some(&"other"));
    assert_eq!(map.insert(5u32, "third"), Some("second"));
    assert_eq!(map.len(), 2);
    assert_eq!(map.get(&5), Some(&"third"));
}

#[test]
fn remove_then_insert_again() {
    let mut map = HashMap::new();
    map.insert(1i32, 10);
    map.insert(-2i32, 20);
    map.insert(3i32, 30);
    assert_eq!(map.len(), 3);
    assert_eq!(map.remove(&-2), Some(20));
    assert_eq!(map.len(), 2);
    assert_eq!(map.get(&-2), None);
    assert!(!map.contains_key(&-2));
    assert_eq!(map.insert(-2, 21), None);
    assert_eq!(map.len(), 3);
    assert_eq!(map.get(&-2), Some(&21));
    assert_eq!(map.get(&1), Some(&10));
    assert_eq!(map.get(&3), Some(&30));
}

#[test]
fn second_removal_finds_nothing() {
    let mut map = HashMap::new();
    map.insert(String::from("k"), 1);
    map.insert(String::from("l"), 2);
    assert_eq!(map.remove("k"), Some(1));
    assert_eq!(map.len(), 1);
    assert_eq!(map.remove("k"), None);
    assert_eq!(map.len(), 1);
    assert_eq!(map.get("l"), Some(&2));
}

#[test]
fn all_keys_are_found_after_growth() {
    let mut map = HashMap::new();
    for i in 0..2000u64 {
        assert_eq!(map.insert(i.wrapping_mul(0x9e37_79b9_7f4a_7c15), i), None);
        assert_eq!(map.len() as u64, i + 1);
    }
    for i in 0..2000u64 {
        assert_eq!(map.get(&i.wrapping_mul(0x9e37_79b9_7f4a_7c15)), Some(&i));
    }
    for i in 0..2000u64 {
        if i % 3 == 0 {
            assert_eq!(map.remove(&i.wrapping_mul(0x9e37_79b9_7f4a_7c15)), Some(i));
        }
    }
    assert_eq!(map.len(), 2000 - 667);
    for i in 0..2000u64 {
        let found = map.get(&i.wrapping_mul(0x9e37_79b9_7f4a_7c15));
        if i % 3 == 0 {
            assert_eq!(found, None);
        } else {
            assert_eq!(found, Some(&i));
        }
    }
}

#[test]
fn three_letters_scenario() {
    let mut map = HashMap::new();
    map.insert("a", 1);
    map.insert("b", 2);
    map.insert("c", 3);
    assert_eq!(map.len(), 3);
    assert_eq!(map.get("b"), Some(&2));
    assert_eq!(map.remove("b"), Some(2));
    assert_eq!(map.len(), 2);
    assert_eq!(map.get("b"), None);
    let mut seen: Vec<(&str, i32)> = Vec::new();
    let mut iter = map.iter();
    while let Some((key, value)) = iter.next() {
        seen.push((*key, *value));
    }
    seen.sort();
    assert_eq!(seen, vec![("a", 1), ("c", 3)]);
}

#[test]
fn owned_strings_are_found_by_slices() {
    let mut map: HashMap<String, usize> = HashMap::new();
    for word in ["alpha", "beta", "gamma", "", "é", "日本語"] {
        assert_eq!(map.insert(word.to_string(), word.len()), None);
    }
    assert_eq!(map.len(), 6);
    assert_eq!(map.get("alpha"), Some(&5));
    assert_eq!(map.get(""), Some(&0));
    assert_eq!(map.get("é"), Some(&2));
    assert_eq!(map.get("日本語"), Some(&9));
    assert_eq!(map.get("alph"), None);
    assert_eq!(map.get("alphaa"), None);
    assert!(map.contains_key("beta"));
    assert_eq!(map.get(&String::from("gamma")), Some(&5));
    assert_eq!(map.insert(String::from("beta"), 40), Some(4));
    assert_eq!(map.remove("beta"), Some(40));
    assert!(!map.contains_key("beta"));
    assert_eq!(map.len(), 5);
}

#[test]
fn integer_keys_of_each_width() {
    let mut small: HashMap<u32, u8> = HashMap::new();
    let mut sized: HashMap<usize, u8> = HashMap::new();
    let mut signed: HashMap<i64, u8> = HashMap::new();
    small.insert(u32::MAX, 1);
    small.insert(0, 2);
    sized.insert(usize::MAX, 3);
    sized.insert(1, 4);
    signed.insert(i64::MIN, 5);
    signed.insert(-1, 6);
    signed.insert(1, 7);
    assert_eq!(small.get(&u32::MAX), Some(&1));
    assert_eq!(small.get(&0), Some(&2));
    assert_eq!(small.get(&1), None);
    assert_eq!(sized.get(&usize::MAX), Some(&3));
    assert_eq!(sized.get(&1), Some(&4));
    assert_eq!(signed.get(&i64::MIN), Some(&5));
    assert_eq!(signed.get(&-1), Some(&6));
    assert_eq!(signed.get(&1), Some(&7));
    assert_eq!(signed.get(&0), None);
    assert_eq!(signed.len(), 3);
}

#[test]
fn values_need_not_be_comparable() {
    struct Opaque(u8);
    let mut map: HashMap<u64, Opaque> = HashMap::new();
    assert!(map.insert(1, Opaque(1)).is_none());
    let previous = map.insert(1, Opaque(2));
    assert_eq!(previous.map(|v| v.0), Some(1));
    assert_eq!(map.get(&1).map(|v| v.0), Some(2));
    assert_eq!(map.remove(&1).map(|v| v.0), Some(2));
    assert!(map.get(&1).is_none());
}
