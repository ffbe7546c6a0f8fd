use open_hashmap::{HashMap, INITIAL_SIZE};

#[test]
fn resize() {
    let mut map = HashMap::<&str, &str>::new();
    assert!(map.capacity() == 0);
    map.resize(false);
    map.resize(false);
    map.resize(false);
    assert_eq!(map.capacity(), INITIAL_SIZE * 4)
}

#[test]
fn insert() {
    let mut map = HashMap::new();
    assert_eq!(map.len(), 0);
    assert!(map.is_empty());
    map.insert("bar", 43);
    assert!(map.contains_key("bar"));
    map.insert("foo", 42);
    assert!(map.contains_key("bar"));
    assert_eq!(map.len(), 2);
    map.insert("bazz", 123);
    assert!(map.contains_key("foo"));
    assert_eq!(map.get("bar"), Some(&43));
    assert_eq!(map.get("barBazz"), None);
    assert!(!map.is_empty());
    assert!(map.contains_key("bazz"));
    assert!(map.contains_key("foo"));
    assert_eq!(map.get("foo"), Some(&42));
    assert_eq!(map.remove("foo"), Some(42));
    assert_eq!(map.get("foo"), None);
    map.insert("foo", 42);
    assert_eq!(map.capacity(), 4)
}

#[test]
fn contaminate() {
    let mut map = HashMap::new();
    map.insert(12, 21); // capacity 1, one pair
    map.insert(11, 11); // capacity 2, two pairs
    map.insert(99, 99); // capacity 4, three pairs
    map.remove(&12); // capacity 4, two pairs, one tombstone
    map.insert(10, 10); // capacity 4, three pairs, one tombstone
    // No growth is due, but no slot is empty: the lookup rehashes first.
    assert_eq!(map.get(&12), None);
}

#[test]
fn empty_hashmap() {
    let mut map = HashMap::<&str, &str>::new();
    assert_eq!(map.contains_key("key"), false);
    assert_eq!(map.get("key"), None);
    assert_eq!(map.remove("key"), None);
}
