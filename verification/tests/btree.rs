use kvstore::btree::{BTree, Bound};
use kvstore::key::{FixedSize, KeyOrder, OrderedKey};

fn collect(t: &BTree<u64, u64, 4>, start: Bound<u64>, end: Bound<u64>) -> Vec<(u64, u64)> {
    let mut it = t.range(start, end);
    let mut out = Vec::new();
    while let Some((k, v)) = it.next() {
        out.push((*k, *v));
        assert!(out.len() <= 1000);
    }
    out
}

#[test]
fn btree_empty() {
    let t: BTree<u64, u64, 4> = BTree::new();
    assert!(t.is_empty());
    assert_eq!(t.get(&1), None);
    assert_eq!(t.depth(), 0);
    assert!(t.check());
}

#[test]
fn btree_insert_and_get() {
    let mut t: BTree<u64, u64, 4> = BTree::new();
    for i in 0..100u64 {
        t.insert(i * 7 % 101, i);
    }
    for i in 0..100u64 {
        assert_eq!(t.get(&(i * 7 % 101)), Some(&i));
    }
    assert_eq!(t.get(&1000), None);
    assert!(!t.is_empty());
    assert!(t.check());
}

#[test]
fn btree_insert_overwrites() {
    let mut t: BTree<u64, u64, 5> = BTree::new();
    t.insert(3, 30);
    t.insert(3, 31);
    assert_eq!(t.get(&3), Some(&31));
    assert_eq!(t.stats().size, 1);
}

#[test]
fn btree_smallest_fanout() {
    let mut t: BTree<u64, u64, 3> = BTree::new();
    t.insert(2, 20);
    t.insert(1, 10);
    assert_eq!(t.get(&1), Some(&10));
    assert_eq!(t.get(&2), Some(&20));
    assert_eq!(t.depth(), 1);
}

#[test]
fn btree_stats_count_entries_and_levels() {
    let mut t: BTree<u64, u64, 4> = BTree::new();
    t.insert(1, 1);
    t.insert(2, 2);
    t.insert(3, 3);
    let s = t.stats();
    assert_eq!(s.size, 3);
    assert_eq!(s.depth, 1);
    t.insert(4, 4);
    let s = t.stats();
    assert_eq!(s.size, 4);
    assert_eq!(s.depth, 2);
    assert_eq!(t.depth(), 2);
    for i in 5..200u64 {
        t.insert(i, i);
    }
    assert_eq!(t.stats().size, 199);
    assert!(t.depth() >= 3);
    assert!(t.check());
}

#[test]
fn btree_string_keys() {
    let mut t: BTree<String, String, 16> = BTree::new();
    for i in 0..50 {
        t.insert(format!("key{}", i), format!("value{}", i));
    }
    assert_eq!(t.get(&"key7".to_string()), Some(&"value7".to_string()));
    assert_eq!(t.get(&"key70".to_string()), None);
    assert_eq!(t.stats().size, 50);
}

#[test]
fn range_on_leaf_root() {
    let mut t: BTree<u64, u64, 4> = BTree::new();
    t.insert(5, 50);
    t.insert(1, 10);
    t.insert(3, 30);
    assert_eq!(collect(&t, Bound::Unbounded, Bound::Unbounded), vec![(1, 10), (3, 30), (5, 50)]);
    assert_eq!(collect(&t, Bound::Included(3), Bound::Unbounded), vec![(3, 30), (5, 50)]);
    assert_eq!(collect(&t, Bound::Excluded(3), Bound::Unbounded), vec![(5, 50)]);
    assert_eq!(collect(&t, Bound::Unbounded, Bound::Excluded(3)), vec![(1, 10)]);
    assert_eq!(collect(&t, Bound::Unbounded, Bound::Included(3)), vec![(1, 10), (3, 30)]);
    assert_eq!(collect(&t, Bound::Included(6), Bound::Unbounded), vec![]);
}

#[test]
fn range_on_two_levels() {
    let mut t: BTree<u64, u64, 4> = BTree::new();
    for k in [8u64, 2, 6, 4, 10, 1, 9] {
        t.insert(k, k * 10);
    }
    assert_eq!(t.depth(), 2);
    assert_eq!(
        collect(&t, Bound::Unbounded, Bound::Unbounded),
        vec![(1, 10), (2, 20), (4, 40), (6, 60), (8, 80), (9, 90), (10, 100)]
    );
    assert_eq!(collect(&t, Bound::Included(2), Bound::Excluded(9)), vec![(2, 20), (4, 40), (6, 60), (8, 80)]);
    assert_eq!(collect(&t, Bound::Excluded(8), Bound::Included(100)), vec![(9, 90), (10, 100)]);
}

#[test]
fn range_starts_again_after_the_end() {
    let mut t: BTree<u64, u64, 4> = BTree::new();
    t.insert(1, 10);
    t.insert(2, 20);
    let mut it = t.range(Bound::Unbounded, Bound::Unbounded);
    assert_eq!(it.next(), Some((&1, &10)));
    assert_eq!(it.next(), Some((&2, &20)));
    assert_eq!(it.next(), None);
    assert_eq!(it.next(), Some((&1, &10)));
}

#[test]
fn range_on_empty_tree() {
    let t: BTree<u64, u64, 4> = BTree::new();
    let mut it = t.range(Bound::Unbounded, Bound::Unbounded);
    assert_eq!(it.next(), None);
    assert_eq!(it.next(), None);
}

#[test]
fn range_on_deep_tree_yields_only_entries_in_range() {
    let mut t: BTree<u64, u64, 4> = BTree::new();
    for i in 0..60u64 {
        t.insert(i, i + 1000);
    }
    assert!(t.depth() >= 3);
    let mut it = t.range(Bound::Included(10), Bound::Excluded(50));
    let mut n = 0;
    while let Some((k, v)) = it.next() {
        assert!(10 <= *k && *k < 50);
        assert_eq!(*v, *k + 1000);
        n += 1;
        assert!(n < 100000);
    }
}

#[test]
fn fixed_size_keys() {
    let k = FixedSize::new("abc");
    assert_eq!(&k.0[..3], b"abc");
    assert!(k.0[3..].iter().all(|b| *b == 0));
    assert_eq!(FixedSize::new("a").compare(&FixedSize::new("b")), KeyOrder::Less);
    assert_eq!(FixedSize::new("ab").compare(&FixedSize::new("a")), KeyOrder::Greater);
    assert_eq!(FixedSize::new("ab").compare(&FixedSize::new("ab")), KeyOrder::Equal);
    let mut t: BTree<FixedSize, String, 16> = BTree::new();
    t.insert(FixedSize::new("key1"), "v1".to_string());
    t.insert(FixedSize::new("key2"), "v2".to_string());
    assert_eq!(t.get(&FixedSize::new("key2")), Some(&"v2".to_string()));
    assert_eq!(t.get(&FixedSize::new("key3")), None);
}

#[test]
fn range_over_five_string_keys() {
    let mut t: BTree<String, String, 4> = BTree::new();
    for (k, v) in [("a", "1"), ("b", "2"), ("c", "3"), ("d", "4"), ("e", "5")] {
        t.insert(k.to_string(), v.to_string());
    }
    assert_eq!(t.depth(), 2);
    let mut it = t.range(Bound::Included("b".to_string()), Bound::Excluded("d".to_string()));
    let mut got = Vec::new();
    while let Some((k, v)) = it.next() {
        got.push((k.clone(), v.clone()));
    }
    assert_eq!(got, vec![("b".to_string(), "2".to_string()), ("c".to_string(), "3".to_string())]);
}

#[test]
fn depth_counts_levels_after_root_splits() {
    for n in 1..400u64 {
        let mut t: BTree<u64, u64, 4> = BTree::new();
        for i in 0..n {
            t.insert(i, i);
        }
        let d = t.depth();
        assert_eq!(t.stats().depth, d);
        // a tree of fan-out 4 with n entries has at least log4(n) levels
        let mut cap: u64 = 3;
        let mut levels = 1;
        while cap < n {
            cap = cap * 4 + 3;
            levels += 1;
        }
        assert!(d >= levels);
    }
}
