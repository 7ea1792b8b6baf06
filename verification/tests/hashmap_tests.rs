use rustunsafedatastruct::hashmap::{bucket_index, hash_key, HashMap, HashTableList};
use std::collections::hash_map::DefaultHasher;
use std::hash::Hasher;

#[test]
fn test_hashmap() {
    let mut h = HashMap::new();
    h.insert(1, 3);
    h.insert(2, 5);

    assert_eq!(h.get(&2), Some(&5));
    assert_eq!(h.len(), 2);
    assert_eq!(h.remove(&1), Some((1, 3)));
    assert_eq!(h.len(), 1);
    h.insert(2, 6);
    assert_eq!(h.len(), 1);
    assert_eq!(h.get(&2), Some(&6));
    assert_eq!(h.remove(&2), Some((2, 6)));
    assert_eq!(h.remove(&3), None);
    assert_eq!(h.len(), 0);
}

#[test]
fn test_hashmap_other() {
    let mut h = HashMap::new();

    for i in 0..10000 {
        h.insert(i, i + 1);
    }

    assert_eq!(h.get(&289), Some(&290));
    assert_eq!(h.remove(&289), Some((289, 290)));
    h.insert(289, 290);
    assert_eq!(h.get(&289), Some(&290));
    h.insert(289, 290);
    assert_eq!(h.get(&289), Some(&290));

    for i in 0..2000 {
        assert_eq!(h.remove(&i), Some((i, i + 1)));
    }
    assert_eq!(h.get(&289), None);
}

#[test]
fn test_listhashtable() {
    let mut hl = HashTableList::new();
    hl.insert_after((1, 5));
    hl.insert_after((2, 5));
    hl.insert_after((3, 5));
    assert_eq!(hl.remove_after(), Some((3, 5)));
    assert_eq!(hl.remove_after(), Some((2, 5)));

    assert_eq!(hl.find(&1), Some(&(1, 5)));
}

#[test]
fn hashmap_keys_spread_over_buckets() {
    // Sixteen keys in sixteen buckets: were the hash the key itself, every
    // bucket would hold one.
    let mut h = HashMap::new();
    for i in 0..16u64 {
        h.insert(i, i);
    }
    assert!(h.item_len() < 16);
    assert!(h.item_len() >= 1);
    assert_eq!(h.len(), 16);
}

#[test]
fn hashmap_bucket_index_is_remainder() {
    assert_eq!(bucket_index(35, 16), 3);
    assert_eq!(bucket_index(u64::MAX, 10), 5);
    assert_eq!(bucket_index(7, 1), 0);
}

#[test]
fn hashmap_get_mut_and_contains() {
    let mut h = HashMap::new_with_capacity(3);
    h.insert(-4i64, String::from("a"));
    h.insert(9i64, String::from("b"));
    assert!(h.contains_key(&-4));
    assert!(!h.contains_key(&5));
    if let Some(v) = h.get_mut(&9) {
        v.push('c');
    }
    assert_eq!(h.get(&9).map(|s| s.as_str()), Some("bc"));
    assert!(h.get_mut(&10).is_none());
}

#[test]
fn hashmap_empty_and_item_len() {
    let mut h: HashMap<u8, u8> = HashMap::new();
    assert!(h.is_empty());
    assert_eq!(h.item_len(), 0);
    assert_eq!(h.len(), 0);
    h.insert(1, 1);
    assert!(!h.is_empty());
    assert_eq!(h.item_len(), 1);
    h.remove(&1);
    assert!(h.is_empty());
    let z: HashMap<u8, u8> = HashMap::new_with_capacity(0);
    assert!(z.is_empty());
    assert_eq!(z.len(), 0);
}

#[test]
fn hashtable_list_remove_current_and_iterators() {
    let mut hl = HashTableList::newinit((10, 'a'));
    hl.insert_after((20, 'b'));
    hl.insert_after((30, 'c'));
    assert_eq!(hl.size(), 3);
    assert_eq!(hl.remove_current(&20), Some((20, 'b')));
    assert_eq!(hl.remove_current(&20), None);
    if let Some(e) = hl.find_mut(&30) {
        e.1 = 'z';
    }
    let mut it = hl.iter_mut();
    while let Some((_, v)) = it.next() {
        *v = v.to_ascii_uppercase();
    }
    let mut got = Vec::new();
    let mut it = hl.into_iter();
    while let Some(e) = it.next() {
        got.push(e);
    }
    assert_eq!(got, vec![(10, 'A'), (30, 'Z')]);
}

#[test]
fn hashmap_iter_mut_visits_every_entry() {
    let mut h = HashMap::new();
    for i in 0..40 {
        h.insert(i, i * 2);
    }
    {
        let mut l = h.iter_mut().unwrap();
        let mut seen = Vec::new();
        let mut it = l.iter_mut();
        while let Some(e) = it.next() {
            seen.push(*e.0);
            *e.1 += 1;
        }
        seen.sort();
        assert_eq!(seen, (0..40).collect::<Vec<i32>>());
    }
    for i in 0..40 {
        assert_eq!(h.get(&i), Some(&(i * 2 + 1)));
    }
    let mut e: HashMap<i32, i32> = HashMap::new();
    assert!(e.iter_mut().is_none());
}

#[test]
fn hash_key_feeds_keys_then_input_to_default_hasher() {
    let mut h = DefaultHasher::new();
    h.write(&1u64.to_le_bytes());
    h.write(&2u64.to_le_bytes());
    h.write(&3u64.to_le_bytes());
    assert_eq!(hash_key(1, 2, 3), h.finish());
    assert_eq!(hash_key(1, 2, 3), hash_key(1, 2, 3));
    assert_ne!(hash_key(1, 2, 3), hash_key(2, 1, 3));
}
