use bucket_map::HashMap;

#[test]
fn map_works() {
    let mut map = HashMap::mk();

    assert_eq!(map.insert("duck", "quack"), Some("duck"));
    map.insert("foo", "bar");
    map.insert("foo", "lol");

    assert_eq!(map.get(&"foo"), Some(&"lol"));
    assert_eq!(map.get(&"foo"), Some(&"lol"));
    assert_eq!(map.get(&"qux"), None);

    assert_eq!(map.delete(&"foo"), Some("lol"));
    assert_eq!(map.get(&"foo"), None);
}

#[test]
fn insert_twice_keeps_one_entry() {
    let mut map: HashMap<&str, i32> = HashMap::mk();
    assert_eq!(map.insert("key", 1), Some("key"));
    assert_eq!(map.insert("key", 2), Some("key"));
    assert_eq!(map.get("key"), Some(&2));
    // A single entry exists: removing it once empties the table of the key.
    assert_eq!(map.delete("key"), Some(2));
    assert_eq!(map.get("key"), None);
    assert_eq!(map.delete("key"), None);
}

#[test]
fn insert_then_get_round_trip() {
    let mut map: HashMap<&str, u64> = HashMap::mk();
    assert_eq!(map.insert("one", 1), Some("one"));
    assert_eq!(map.get("one"), Some(&1));
    assert_eq!(map.insert("two", 2), Some("two"));
    assert_eq!(map.get("two"), Some(&2));
    assert_eq!(map.insert("", 0), Some(""));
    assert_eq!(map.get(""), Some(&0));
}

#[test]
fn get_of_absent_key() {
    let mut map: HashMap<&str, i32> = HashMap::mk();
    assert_eq!(map.get("never"), None);
    map.insert("present", 5);
    assert_eq!(map.get("never"), None);
    map.delete("present");
    assert_eq!(map.get("present"), None);
}

#[test]
fn delete_then_get_is_absent() {
    let mut map: HashMap<&str, i32> = HashMap::mk();
    map.insert("gone", 9);
    assert_eq!(map.delete("gone"), Some(9));
    assert_eq!(map.get("gone"), None);
}

#[test]
fn delete_of_absent_key_changes_nothing() {
    let mut map: HashMap<&str, i32> = HashMap::mk();
    map.insert("a", 1);
    map.insert("b", 2);
    assert_eq!(map.delete("zebra"), None);
    assert_eq!(map.get("a"), Some(&1));
    assert_eq!(map.get("b"), Some(&2));
    assert_eq!(map.get("zebra"), None);
}

#[test]
fn equal_keys_share_a_bucket() {
    // Two distinct &str values with equal contents must be routed to the
    // same bucket: the second insert overwrites instead of duplicating.
    let owned = String::from("duck");
    let mut map: HashMap<&str, i32> = HashMap::mk();
    map.insert("duck", 1);
    assert_eq!(map.insert(owned.as_str(), 2), Some("duck"));
    assert_eq!(map.get("duck"), Some(&2));
    assert_eq!(map.delete("duck"), Some(2));
    assert_eq!(map.get(owned.as_str()), None);
}

#[test]
fn integer_keys_with_collisions() {
    // 64 keys over 16 buckets force collisions; chaining must keep every
    // entry reachable.
    let mut map: HashMap<u64, u64> = HashMap::mk();
    for k in 0..64u64 {
        assert_eq!(map.insert(k, k * 3), Some(k));
    }
    for k in 0..64u64 {
        assert_eq!(map.get(k), Some(&(k * 3)));
    }
    for k in 0..32u64 {
        assert_eq!(map.delete(k * 2), Some(k * 6));
    }
    for k in 0..64u64 {
        if k % 2 == 0 {
            assert_eq!(map.get(k), None);
        } else {
            assert_eq!(map.get(k), Some(&(k * 3)));
        }
    }
}
