use chained_map::map::HashMap;

#[test]
fn insert() {
    let mut map = HashMap::new();
    assert_eq!(map.is_empty(), true);
    map.insert("key", "value");
    map.insert("key", "value1");
    map.insert("key2", "value1");
    let mut it = map.iter();
    while let Some(i) = it.next() {
        println!("{:?}", i)
    }

    assert_eq!(map.get(&"key"), Some(&"value1"));
    assert_eq!(map.remove(&"key"), Some("value1"));
    assert_eq!(map.get(&"key"), None);
    assert_eq!(map.len(), 1);
    let mut it = map.iter();
    while let Some(i) = it.next() {
        println!("{:?}", i)
    }
}

#[test]
fn iter() {
    let mut map = HashMap::new();
    map.insert("foo", 23);
    map.insert("bar", 46);
    map.insert("baz", 23);
    let mut it = map.iter();
    while let Some((&k, &v)) = it.next() {
        match k {
            "foo" => assert_eq!(v, 23),
            "bar" => assert_eq!(v, 46),
            "baz" => assert_eq!(v, 23),
            _ => unreachable!(),
        }
    }
    let mut count = 0;
    let mut it = map.iter();
    while it.next().is_some() {
        count += 1;
    }
    assert_eq!(count, 3);
}

#[test]
fn index() {
    let mut map = HashMap::new();
    map.insert("foo", 23);
    assert_eq!(*map.index("foo"), 23);
    *map.index_mut("foo") = 3;
    assert_eq!(*map.index("foo"), 3);
}

#[test]
fn borrow() {
    let mut map = HashMap::new();
    map.insert("foo".to_string(), 23);
    assert_eq!(map.get("foo"), Some(&23));
    assert_eq!(map.contains_key("foo"), true);
}
