use open_hashmap::HashMap;

#[test]
fn capacity_doubles_from_one() {
    let mut map = HashMap::new();
    let expected = [1usize, 2, 4, 8, 8, 8, 16, 16];
    for (i, cap) in expected.iter().enumerate() {
        map.insert(i as i32, i as i32);
        assert_eq!(map.capacity(), *cap);
    }
    assert_eq!(map.len(), 8);
}

#[test]
fn growth_waits_for_three_quarters() {
    let mut map = HashMap::new();
    for i in 0..4 {
        map.insert(i, i);
    }
    assert_eq!(map.capacity(), 8);
    map.insert(4, 4);
    map.insert(5, 5);
    assert_eq!(map.capacity(), 8);
    map.insert(6, 6);
    assert_eq!(map.capacity(), 16);
}

#[test]
fn round_trip_latest_value() {
    let mut map = HashMap::new();
    for i in 0..20 {
        assert_eq!(map.insert(i, i * 10), None);
    }
    assert_eq!(map.insert(7, 700), Some(70));
    assert_eq!(map.insert(7, 7000), Some(700));
    for i in 0..20 {
        let want = if i == 7 { 7000 } else { i * 10 };
        assert_eq!(map.get(&i), Some(&want));
    }
    assert_eq!(map.remove(&7), Some(7000));
    assert_eq!(map.get(&7), None);
    assert!(!map.contains_key(&7));
    assert_eq!(map.remove(&7), None);
    assert_eq!(map.len(), 19);
    assert_eq!(map.get(&8), Some(&80));
}

#[test]
fn update_keeps_len() {
    let mut map = HashMap::new();
    map.insert("a", 1);
    map.insert("b", 2);
    assert_eq!(map.len(), 2);
    assert_eq!(map.insert("a", 3), Some(1));
    assert_eq!(map.len(), 2);
    assert_eq!(map.get(&"a"), Some(&3));
}

#[test]
fn declutter_resets_tombstones() {
    let mut map = HashMap::new();
    map.insert(1, 1);
    map.insert(2, 2);
    map.insert(3, 3);
    assert_eq!(map.capacity(), 4);
    assert_eq!(map.remove(&1), Some(1));
    assert_eq!(map.tombstones(), 1);
    assert_eq!(map.len(), 2);
    map.insert(4, 4);
    assert_eq!(map.len(), 3);
    assert_eq!(map.tombstones(), 1);
    assert_eq!(map.get(&5), None);
    assert_eq!(map.tombstones(), 0);
    assert_eq!(map.capacity(), 4);
    assert_eq!(map.get(&4), Some(&4));
    assert_eq!(map.get(&2), Some(&2));
}

#[test]
fn empty_table_reports_absence() {
    let mut map = HashMap::<i32, i32>::new();
    assert_eq!(map.get(&1), None);
    assert!(!map.contains_key(&1));
    assert_eq!(map.remove(&1), None);
    assert_eq!(map.capacity(), 0);
    assert_eq!(map.len(), 0);
    assert_eq!(map.tombstones(), 0);
}

#[test]
fn default_is_empty() {
    let map: HashMap<i32, i32> = Default::default();
    assert!(map.is_empty());
    assert_eq!(map.capacity(), 0);
}

#[test]
fn full_table_lookup_of_absent_key() {
    let mut map = HashMap::new();
    map.insert(1, 1);
    assert_eq!(map.capacity(), 1);
    assert_eq!(map.get(&2), None);
    map.insert(2, 2);
    assert_eq!(map.capacity(), 2);
    assert_eq!(map.get(&3), None);
    assert_eq!(map.get(&1), Some(&1));
}

#[test]
fn insert_into_table_without_empty_slot() {
    let mut map = HashMap::new();
    for i in 0..6 {
        map.insert(i, i);
    }
    assert_eq!(map.capacity(), 8);
    for i in 0..3 {
        assert_eq!(map.remove(&i), Some(i));
    }
    assert_eq!(map.tombstones(), 3);
    map.insert(10, 10);
    map.insert(11, 11);
    assert_eq!(map.len(), 5);
    assert_eq!(map.tombstones(), 3);
    // Five pairs and three tombstones fill all eight slots.
    assert_eq!(map.insert(12, 12), None);
    assert_eq!(map.capacity(), 8);
    assert_eq!(map.tombstones(), 0);
    assert_eq!(map.len(), 6);
    for k in [3, 4, 5, 10, 11, 12] {
        assert_eq!(map.get(&k), Some(&k));
    }
    assert_eq!(map.get(&0), None);
}

#[test]
fn string_keys_compare_by_content() {
    let mut map = HashMap::new();
    let owned = String::from("abc");
    map.insert("ab", 1);
    map.insert("abc", 2);
    map.insert("", 3);
    assert_eq!(map.get(&owned.as_str()), Some(&2));
    assert_eq!(map.get(&"ab"), Some(&1));
    assert_eq!(map.get(&""), Some(&3));
    assert_eq!(map.get(&"abcd"), None);
    assert_eq!(map.get(&"a"), None);
}

#[test]
fn remove_every_key_empties() {
    let mut map = HashMap::new();
    for i in 0..10 {
        map.insert(i, -i);
    }
    for i in 0..10 {
        assert_eq!(map.remove(&i), Some(-i));
    }
    assert!(map.is_empty());
    for i in 0..10 {
        assert!(!map.contains_key(&i));
    }
}

#[test]
fn owned_string_keys() {
    let mut map = HashMap::new();
    assert_eq!(map.insert(String::from("alpha"), 1), None);
    assert_eq!(map.insert(String::from("beta"), 2), None);
    assert_eq!(map.insert(String::from("alpha"), 3), Some(1));
    assert_eq!(map.get(&String::from("alpha")), Some(&3));
    assert_eq!(map.remove(&String::from("beta")), Some(2));
    assert!(!map.contains_key(&String::from("beta")));
    assert_eq!(map.len(), 1);
}

#[test]
fn owned_keys_queried_by_str() {
    let mut map = HashMap::new();
    map.insert(String::from("abc"), 1);
    map.insert(String::from("abd"), 2);
    assert!(map.contains_key("abc"));
    assert_eq!(map.get("abd"), Some(&2));
    assert_eq!(map.get("ab"), None);
    assert_eq!(map.remove("abc"), Some(1));
    assert!(!map.contains_key("abc"));
    assert_eq!(map.len(), 1);
}
