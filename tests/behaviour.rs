use chained_map::entry::Entry;
use chained_map::key::hash_key;
use chained_map::map::HashMap;

#[test]
fn overwrite_returns_previous_value() {
    let mut map = HashMap::new();
    assert_eq!(map.insert("k", 1), None);
    assert_eq!(map.insert("k", 2), Some(1));
    assert_eq!(map.get(&"k"), Some(&2));
    assert_eq!(map.len(), 1);
}

#[test]
fn remove_present_and_absent() {
    let mut map = HashMap::new();
    map.insert("a", 10);
    map.insert("b", 20);
    assert_eq!(map.remove(&"a"), Some(10));
    assert_eq!(map.get(&"a"), None);
    assert_eq!(map.len(), 1);
    assert_eq!(map.remove(&"a"), None);
    assert_eq!(map.remove(&"zzz"), None);
    assert_eq!(map.len(), 1);
    assert_eq!(map.get(&"b"), Some(&20));
}

#[test]
fn lookups_on_fresh_map_find_nothing() {
    let mut map: HashMap<&str, i32> = HashMap::new();
    assert_eq!(map.get(&"a"), None);
    assert_eq!(map.contains_key(&"a"), false);
    assert_eq!(map.get_mut(&"a"), None);
    assert_eq!(map.remove(&"a"), None);
    assert_eq!(map.len(), 0);
    assert!(map.is_empty());
}

#[test]
fn length_counts_distinct_keys() {
    let mut map = HashMap::new();
    let names = ["a", "b", "c", "d", "e", "f", "g", "h", "i", "j", "k", "l"];
    for (n, name) in names.iter().enumerate() {
        map.insert(*name, n);
    }
    assert_eq!(map.len(), 12);
    map.insert("c", 100);
    assert_eq!(map.len(), 12);
    map.remove(&"d");
    map.remove(&"d");
    assert_eq!(map.len(), 11);
    for (n, name) in names.iter().enumerate() {
        let expected = match *name {
            "c" => Some(100),
            "d" => None,
            _ => Some(n),
        };
        assert_eq!(map.get(name).copied(), expected);
    }
}

#[test]
fn many_keys_survive_growth() {
    let mut map = HashMap::new();
    let keys: Vec<String> = (0..200).map(|i| format!("key{}", i)).collect();
    for (i, k) in keys.iter().enumerate() {
        assert_eq!(map.insert(k.clone(), i), None);
    }
    assert_eq!(map.len(), 200);
    for (i, k) in keys.iter().enumerate() {
        assert_eq!(map.get(k.as_str()), Some(&i));
    }
}

#[test]
fn get_mut_changes_value_in_place() {
    let mut map = HashMap::new();
    map.insert("x", 1);
    if let Some(v) = map.get_mut(&"x") {
        *v = 7;
    }
    assert_eq!(map.get(&"x"), Some(&7));
    assert_eq!(map.len(), 1);
}

#[test]
fn entry_or_insert_keeps_existing_value() {
    let mut map = HashMap::new();
    assert_eq!(*map.entry("k").or_insert(5), 5);
    assert_eq!(*map.entry("k").or_insert(9), 5);
    *map.entry("k").or_insert(0) += 1;
    assert_eq!(map.get(&"k"), Some(&6));
    assert_eq!(map.len(), 1);
}

#[test]
fn entry_or_insert_with_skips_producer_when_present() {
    let mut map = HashMap::new();
    map.insert("k", 1);
    let v = map.entry("k").or_insert_with(|| -> i32 { panic!("producer called") });
    assert_eq!(*v, 1);
    let w = map.entry("m").or_insert_with(|| 4);
    assert_eq!(*w, 4);
    assert_eq!(map.len(), 2);
}

#[test]
fn entry_or_default_inserts_default() {
    let mut map: HashMap<&str, u32> = HashMap::new();
    *map.entry("count").or_default() += 3;
    *map.entry("count").or_default() += 3;
    assert_eq!(map.get(&"count"), Some(&6));
}

#[test]
fn entry_variants() {
    let mut map = HashMap::new();
    map.insert("here", 1);
    match map.entry("here") {
        Entry::Occupied(e) => assert_eq!(*e.value, 1),
        Entry::Vacant(_) => panic!("expected an occupied entry"),
    }
    match map.entry("gone") {
        Entry::Occupied(_) => panic!("expected a vacant entry"),
        Entry::Vacant(e) => {
            assert_eq!(e.key, "gone");
            assert_eq!(*e.insert(2), 2);
        }
    }
    assert_eq!(map.get(&"gone"), Some(&2));
}

#[test]
fn concrete_scenario() {
    let mut map = HashMap::new();
    map.insert("key", "value");
    map.insert("key", "value1");
    map.insert("key2", "value1");
    assert_eq!(map.len(), 2);
    assert_eq!(map.get(&"key"), Some(&"value1"));
    assert_eq!(map.remove(&"key"), Some("value1"));
    assert_eq!(map.get(&"key"), None);
    assert_eq!(map.len(), 1);
}

#[test]
fn iteration_meets_each_key_once() {
    let mut map = HashMap::new();
    map.insert("a", 1);
    map.insert("b", 2);
    map.insert("a", 3);
    map.insert("c", 4);
    let mut seen: Vec<(String, i32)> = Vec::new();
    let mut it = map.iter();
    while let Some((k, v)) = it.next() {
        seen.push((k.to_string(), *v));
    }
    seen.sort();
    assert_eq!(
        seen,
        vec![("a".to_string(), 3), ("b".to_string(), 2), ("c".to_string(), 4)]
    );
    assert!(it.next().is_none());
}

#[test]
fn iteration_of_empty_map() {
    let map: HashMap<&str, i32> = HashMap::new();
    let mut it = map.iter();
    assert!(it.next().is_none());
}

#[test]
fn build_from_pairs() {
    let map = HashMap::from_iter(vec![("a", 1), ("b", 2), ("c", 3)]);
    assert_eq!(map.get(&"a"), Some(&1));
    assert_eq!(map.get(&"b"), Some(&2));
    assert_eq!(map.get(&"c"), Some(&3));
    assert_eq!(map.len(), 3);
}

#[test]
fn build_from_pairs_later_duplicate_wins() {
    let map = HashMap::from_iter(vec![("a", 1), ("b", 2), ("a", 5)]);
    assert_eq!(map.get(&"a"), Some(&5));
    assert_eq!(map.len(), 2);
}

#[test]
fn hash_depends_on_characters_only() {
    let owned = "hello".to_string();
    assert_eq!(hash_key("hello"), hash_key(&owned));
    assert_eq!(hash_key("hello"), hash_key(&"hello"));
    assert_ne!(hash_key("hello"), hash_key("world"));
}

#[test]
fn bucket_index_in_range() {
    let mut map = HashMap::new();
    for i in 0..10 {
        map.insert(format!("k{}", i), i);
    }
    for i in 0..10 {
        let k = format!("k{}", i);
        let b = map.bucket(k.as_str());
        assert_eq!(b, map.bucket(&k));
        assert!(b < 16);
    }
}
