use kvstore::btree::{BTree, Bound};
use kvstore::tree::TreeMap;
use std::collections::BTreeMap;

/// A small deterministic sequence of keys with repeats.
fn keys(n: u64, modulus: u64) -> Vec<u64> {
    let mut x: u64 = 12345;
    (0..n)
        .map(|_| {
            x = x.wrapping_mul(6364136223846793005).wrapping_add(1442695040888963407);
            (x >> 33) % modulus
        })
        .collect()
}

fn btree_agrees<const M: usize>(n: u64, modulus: u64) {
    let mut t: BTree<u64, u64, M> = BTree::new();
    let mut model = BTreeMap::new();
    for (i, k) in keys(n, modulus).into_iter().enumerate() {
        t.insert(k, i as u64);
        model.insert(k, i as u64);
        assert_eq!(t.stats().size, model.len());
    }
    for k in 0..modulus + 5 {
        assert_eq!(t.get(&k), model.get(&k));
    }
    assert!(t.check());
}

#[test]
fn btree_agrees_with_a_map_for_several_fanouts() {
    btree_agrees::<4>(300, 120);
    btree_agrees::<5>(300, 120);
    btree_agrees::<6>(300, 500);
    btree_agrees::<16>(2000, 700);
}

#[test]
fn two_level_range_agrees_with_a_map() {
    let mut t: BTree<u64, u64, 16> = BTree::new();
    let mut model = BTreeMap::new();
    for (i, k) in keys(60, 1000).into_iter().enumerate() {
        t.insert(k, i as u64);
        model.insert(k, i as u64);
    }
    assert!(t.depth() <= 2);
    for (lo, hi) in [(0u64, 1000u64), (100, 400), (250, 251), (999, 1000)] {
        let mut it = t.range(Bound::Included(lo), Bound::Excluded(hi));
        let mut got = Vec::new();
        while let Some((k, v)) = it.next() {
            got.push((*k, *v));
        }
        let want: Vec<(u64, u64)> = model.range(lo..hi).map(|(k, v)| (*k, *v)).collect();
        assert_eq!(got, want);
    }
}

#[test]
fn treemap_agrees_with_a_map() {
    let mut t: TreeMap<u64, u64> = TreeMap::new();
    let mut model = BTreeMap::new();
    for (i, k) in keys(400, 150).into_iter().enumerate() {
        assert_eq!(t.insert(k, i as u64), model.insert(k, i as u64));
    }
    for k in 0..160u64 {
        assert_eq!(t.get(&k), model.get(&k).copied());
        let want = model.range(k..).next().map(|(a, b)| (*a, *b));
        assert_eq!(t.seek_ge(&k), want);
    }
    for k in keys(200, 160) {
        if t.removable(&k) {
            assert_eq!(t.remove(&k), model.remove(&k));
        }
    }
    for k in 0..160u64 {
        assert_eq!(t.get(&k), model.get(&k).copied());
    }
}
