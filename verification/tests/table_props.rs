use chained_hashmap::HashMap;

#[test]
fn overwrite_returns_old_value() {
    let mut map = HashMap::new();
    assert_eq!(map.insert("k", 1), None);
    assert_eq!(map.insert("k", 2), Some(1));
    assert_eq!(map.get(&"k"), Some(&2));
    assert_eq!(map.len(), 1);
}

#[test]
fn resize_keeps_every_entry() {
    let mut map = HashMap::new();
    let mut k: u64 = 0;
    while k < 100 {
        map.insert(k, k * 3);
        k += 1;
    }
    assert_eq!(map.len(), 100);
    let mut q: u64 = 0;
    while q < 100 {
        assert_eq!(map.get(&q), Some(&(q * 3)));
        q += 1;
    }
}

#[test]
fn concrete_scenario() {
    let mut map = HashMap::new();
    map.insert("a", 1);
    map.insert("b", 2);
    map.insert("c", 3);
    assert_eq!(map.len(), 3);
    assert_eq!(map.remove(&"a"), Some(1));
    assert_eq!(map.get(&"a"), None);
    assert_eq!(map.len(), 2);
    map.clear();
    assert_eq!(map.len(), 0);
    assert_eq!(map.get(&"b"), None);
}

#[test]
fn capacity_vs_occupancy() {
    let mut map = HashMap::new();
    map.insert("only", 7);
    assert_eq!(map.len(), 1);
    assert_eq!(map.capacity(), 10);
}

#[test]
fn remove_missing_key_changes_nothing() {
    let mut map = HashMap::new();
    map.insert("present", 5);
    assert_eq!(map.remove(&"absent"), None);
    assert_eq!(map.len(), 1);
    assert_eq!(map.get(&"present"), Some(&5));

    let mut empty: HashMap<u64, u64> = HashMap::new();
    assert_eq!(empty.remove(&3), None);
    assert_eq!(empty.len(), 0);
}

#[test]
fn colliding_keys_share_a_bucket() {
    // Small u64 keys hash to themselves, so these all land in one bucket of
    // the freshly grown ten-bucket array.
    let mut map = HashMap::new();
    map.insert(1u64, "one");
    map.insert(11u64, "eleven");
    map.insert(21u64, "twenty-one");
    map.insert(31u64, "thirty-one");
    assert_eq!(map.len(), 4);
    assert_eq!(map.get(&11), Some(&"eleven"));
    assert_eq!(map.remove(&21), Some("twenty-one"));
    assert_eq!(map.get(&21), None);
    assert_eq!(map.get(&1), Some(&"one"));
    assert_eq!(map.get(&31), Some(&"thirty-one"));
    assert_eq!(map.len(), 3);
}

#[test]
fn negative_and_unsigned_keys() {
    let mut neg = HashMap::new();
    neg.insert(-5i32, "minus five");
    neg.insert(5i32, "five");
    assert_eq!(neg.get(&-5), Some(&"minus five"));
    assert_eq!(neg.get(&5), Some(&"five"));
    assert_eq!(neg.remove(&-5), Some("minus five"));
    assert_eq!(neg.get(&-5), None);

    let mut us = HashMap::new();
    us.insert(7usize, 70usize);
    assert_eq!(us.get(&7), Some(&70));
}

#[test]
fn string_keys_compare_by_contents() {
    let mut map = HashMap::new();
    map.insert(String::from("héllo"), 1);
    map.insert(String::from("wörld"), 2);
    // A freshly built string with the same characters finds the entry.
    assert_eq!(map.get(&String::from("héllo")), Some(&1));
    assert_eq!(map.remove(&String::from("wörld")), Some(2));
    assert_eq!(map.get(&String::from("wörld")), None);
}

#[test]
fn get_mut_updates_in_place() {
    let mut map = HashMap::new();
    let mut k: u64 = 0;
    while k < 20 {
        map.insert(k, 0u64);
        k += 1;
    }
    if let Some(v) = map.get_mut(&13) {
        *v = 99;
    }
    assert_eq!(map.get(&13), Some(&99));
    assert_eq!(map.get(&12), Some(&0));
    assert_eq!(map.len(), 20);
}
