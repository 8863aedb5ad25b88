use chained_hashmap::HashMap;

#[test]
fn insert() {
    let mut map = HashMap::new();
    map.insert("abc", 1);
}

#[test]
fn get() {
    let mut map = HashMap::new();
    map.insert("abc", "def");
    assert_eq!(map.get(&"abc"), Some(&"def"));
}

#[test]
fn get_empty() {
    let map: HashMap<&'static str, u32> = HashMap::new();

    assert_eq!(map.get(&"abc"), None);
}

#[test]
fn get_capacity() {
    let mut map = HashMap::new();
    map.insert(String::from("a"), 1);

    assert_eq!(map.capacity(), 10);
}

#[test]
fn remove_pair() {
    let mut map = HashMap::new();
    map.insert(10, 100);
    let remove_value_key = map.remove(&10);

    assert_eq!(remove_value_key, Some(100));
}

#[test]
fn len() {
    let mut map = HashMap::new();
    assert_eq!(map.len(), 0);

    map.insert("key1", 1);
    assert_eq!(map.len(), 1);

    map.insert("key2", 2);
    assert_eq!(map.len(), 2);

    map.remove(&"key1");
    assert_eq!(map.len(), 1);

    map.clear();
    assert_eq!(map.len(), 0);
}

#[test]
fn is_empty() {
    let mut map = HashMap::new();
    assert!(map.is_empty());

    map.insert("key", "value");
    assert!(!map.is_empty());

    map.remove(&"key");
    assert!(map.is_empty());
}

#[test]
fn clear() {
    let mut map = HashMap::new();
    map.insert("key1", 1);
    map.insert("key2", 2);
    map.insert("key3", 3);

    assert_eq!(map.len(), 3);
    assert!(!map.is_empty());

    map.clear();

    assert_eq!(map.len(), 0);
    assert!(map.is_empty());
    assert_eq!(map.get(&"key1"), None);
    assert_eq!(map.get(&"key2"), None);
    assert_eq!(map.get(&"key3"), None);
}

#[test]
fn contains_key() {
    let mut map = HashMap::new();
    assert!(!map.contains_key(&"key"));

    map.insert("key", "value");
    assert!(map.contains_key(&"key"));
    assert!(!map.contains_key(&"nonexistent"));

    map.remove(&"key");
    assert!(!map.contains_key(&"key"));
}

#[test]
fn get_mut() {
    let mut map = HashMap::new();
    map.insert("key", 42);

    if let Some(value) = map.get_mut(&"key") {
        *value = 100;
    }

    assert_eq!(map.get(&"key"), Some(&100));
    assert_eq!(map.get_mut(&"nonexistent"), None);
}
