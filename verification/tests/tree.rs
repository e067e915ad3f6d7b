use kvstore::tree::TreeMap;

#[test]
fn treemap_insert_and_get() {
    let mut t: TreeMap<u64, u64> = TreeMap::new();
    assert_eq!(t.insert(5, 50), None);
    assert_eq!(t.insert(5, 51), Some(50));
    assert_eq!(t.get(&5), Some(51));
    assert_eq!(t.get(&6), None);
}

#[test]
fn treemap_remove_leaf_and_one_child() {
    let mut t: TreeMap<u64, u64> = TreeMap::new();
    t.insert(5, 50);
    t.insert(3, 30);
    t.insert(8, 80);
    t.insert(9, 90);
    assert!(t.removable(&3));
    assert_eq!(t.remove(&3), Some(30));
    assert_eq!(t.get(&3), None);
    assert!(t.removable(&8));
    assert_eq!(t.remove(&8), Some(80));
    assert_eq!(t.get(&9), Some(90));
    assert_eq!(t.remove(&42), None);
}

#[test]
fn treemap_remove_with_two_children() {
    let mut t: TreeMap<u64, u64> = TreeMap::new();
    for k in [5u64, 3, 8, 9] {
        t.insert(k, k * 10);
    }
    // the successor of 5 is 8, which has a right child
    assert!(t.removable(&5));
    assert_eq!(t.remove(&5), Some(50));
    assert_eq!(t.get(&5), None);
    assert_eq!(t.get(&8), Some(80));
    assert_eq!(t.get(&9), Some(90));
    assert_eq!(t.get(&3), Some(30));
}

#[test]
fn treemap_remove_refused_where_successor_is_a_leaf() {
    let mut t: TreeMap<u64, u64> = TreeMap::new();
    for k in [5u64, 3, 8] {
        t.insert(k, k);
    }
    assert!(!t.removable(&5));
    assert!(t.removable(&3));
    assert!(t.removable(&7));
}

#[test]
fn treemap_seek_ge() {
    let mut t: TreeMap<u64, u64> = TreeMap::new();
    for k in [10u64, 20, 30] {
        t.insert(k, k + 1);
    }
    assert_eq!(t.seek_ge(&5), Some((10, 11)));
    assert_eq!(t.seek_ge(&10), Some((10, 11)));
    assert_eq!(t.seek_ge(&11), Some((20, 21)));
    assert_eq!(t.seek_ge(&30), Some((30, 31)));
    assert_eq!(t.seek_ge(&31), None);
}

#[test]
fn treemap_string_keys() {
    let mut t: TreeMap<String, String> = TreeMap::new();
    t.insert("b".to_string(), "2".to_string());
    t.insert("a".to_string(), "1".to_string());
    t.insert("ab".to_string(), "3".to_string());
    assert_eq!(t.seek_ge(&"aa".to_string()), Some(("ab".to_string(), "3".to_string())));
    assert_eq!(t.get(&"a".to_string()), Some("1".to_string()));
}

#[test]
fn treemap_insert_shapes() {
    let mut t: TreeMap<u64, u64> = TreeMap::new();
    t.insert(5, 50);
    t.insert(3, 30);
    t.insert(8, 80);
    let root = t.root_node().as_ref().unwrap();
    assert_eq!(root.key, 5);
    assert_eq!(root.left.as_ref().unwrap().key, 3);
    assert_eq!(root.right.as_ref().unwrap().key, 8);
    assert!(root.left.as_ref().unwrap().left.is_none());
    // an existing key changes only its value
    t.insert(3, 31);
    let root = t.root_node().as_ref().unwrap();
    assert_eq!(root.left.as_ref().unwrap().key, 3);
    assert_eq!(root.left.as_ref().unwrap().value, 31);
    assert!(root.left.as_ref().unwrap().left.is_none());
    // a new key hangs a new leaf
    t.insert(4, 40);
    let root = t.root_node().as_ref().unwrap();
    let three = root.left.as_ref().unwrap();
    let four = three.right.as_ref().unwrap();
    assert_eq!((four.key, four.value), (4, 40));
    assert!(four.left.is_none() && four.right.is_none());
}
