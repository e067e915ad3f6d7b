//! An ordered map on an unbalanced binary search tree.

use vstd::prelude::*;
use crate::key::{OrderedKey, KeyOrder, key_le};

verus! {

#[derive(Debug)]
pub struct Node<K, V> {
    pub key: K,
    pub value: V,
    pub left: Option<Box<Node<K, V>>>,
    pub right: Option<Box<Node<K, V>>>,
}

/// The map held by a subtree.
pub open spec fn subtree_map<K: OrderedKey, V>(t: Option<Box<Node<K, V>>>) -> Map<K::V, V>
    decreases t,
{
    match t {
        None => Map::empty(),
        Some(n) => subtree_map(n.left).union_prefer_right(subtree_map(n.right)).insert(n.key@, n.value),
    }
}

/// Every key of the left subtree sorts before a node's key, and every key of
/// the right subtree after it, at every node.
pub open spec fn ordered<K: OrderedKey, V>(t: Option<Box<Node<K, V>>>) -> bool
    decreases t,
{
    match t {
        None => true,
        Some(n) => {
            &&& forall|x: K::V| #[trigger] subtree_map(n.left).contains_key(x) ==> K::spec_less(x, n.key@)
            &&& forall|x: K::V| #[trigger] subtree_map(n.right).contains_key(x) ==> K::spec_less(n.key@, x)
            &&& ordered(n.left)
            &&& ordered(n.right)
        },
    }
}

/// The subtree reached from `t` along the path `p`, where `true` goes to the
/// left child and `false` to the right one.
pub open spec fn subtree_at<K, V>(t: Option<Box<Node<K, V>>>, p: Seq<bool>) -> Option<Box<Node<K, V>>>
    decreases p.len(),
{
    if p.len() == 0 {
        t
    } else {
        match t {
            None => None,
            Some(n) => subtree_at(if p[0] { n.left } else { n.right }, p.drop_first()),
        }
    }
}

/// `t` with the subtree at the path `p` replaced by `s`.
pub open spec fn replace_at<K, V>(t: Option<Box<Node<K, V>>>, p: Seq<bool>, s: Option<Box<Node<K, V>>>) -> Option<Box<Node<K, V>>>
    decreases p.len(),
{
    if p.len() == 0 {
        s
    } else {
        match t {
            None => None,
            Some(n) => if p[0] {
                Some(Box::new(Node { key: n.key, value: n.value, left: replace_at(n.left, p.drop_first(), s), right: n.right }))
            } else {
                Some(Box::new(Node { key: n.key, value: n.value, left: n.left, right: replace_at(n.right, p.drop_first(), s) }))
            },
        }
    }
}

/// Inserting `key` with `value` into the tree `t` reshaped it into `u` as a
/// binary search tree does: a key that was there keeps its node, which takes
/// the new value; a new key hangs a new leaf where an empty subtree was.
pub open spec fn inserted_shape<K: OrderedKey, V>(t: Option<Box<Node<K, V>>>, u: Option<Box<Node<K, V>>>, key: K, value: V) -> bool {
    if subtree_map(t).contains_key(key@) {
        exists|p: Seq<bool>| #[trigger] subtree_at(t, p) matches Some(n) && n.key@ == key@
            && u == replace_at(t, p, Some(Box::new(Node { key: n.key, value: value, left: n.left, right: n.right })))
    } else {
        exists|p: Seq<bool>| #[trigger] subtree_at(t, p) is None
            && u == replace_at(t, p, Some(Box::new(Node { key: key, value: value, left: None, right: None })))
    }
}

/// At a node, a key is in the left subtree's map, is the node's key, or is in
/// the right subtree's map, and then in no other place.
proof fn lemma_node_parts<K: OrderedKey, V>(n: Box<Node<K, V>>, x: K::V)
    requires
        ordered(Some(n)),
    ensures
        subtree_map(Some(n)).contains_key(x) <==> (subtree_map(n.left).contains_key(x) || x == n.key@
            || subtree_map(n.right).contains_key(x)),
        subtree_map(n.left).contains_key(x) ==> K::spec_less(x, n.key@) && !subtree_map(n.right).contains_key(x)
            && subtree_map(Some(n))[x] == subtree_map(n.left)[x],
        subtree_map(n.right).contains_key(x) ==> K::spec_less(n.key@, x)
            && subtree_map(Some(n))[x] == subtree_map(n.right)[x],
        x == n.key@ ==> !subtree_map(n.left).contains_key(x) && !subtree_map(n.right).contains_key(x)
            && subtree_map(Some(n))[x] == n.value,
{
    K::lemma_less_irreflexive(x);
    if subtree_map(n.left).contains_key(x) && subtree_map(n.right).contains_key(x) {
        K::lemma_less_transitive(x, n.key@, x);
    }
}

/// An ordered map from keys to values.
#[derive(Debug)]
pub struct TreeMap<K: OrderedKey, V> {
    root: Option<Box<Node<K, V>>>,
}

impl<K: OrderedKey, V> TreeMap<K, V> {
    #[verifier::type_invariant]
    spec fn inv(self) -> bool {
        ordered(self.root)
    }

    /// The map that the tree holds.
    pub closed spec fn map_view(&self) -> Map<K::V, V> {
        subtree_map(self.root)
    }
}

impl<K: OrderedKey, V> View for TreeMap<K, V> {
    type V = Map<K::V, V>;

    open spec fn view(&self) -> Map<K::V, V> {
        self.map_view()
    }
}

/// A node whose left (or right) subtree took a key that sorts on that side
/// holds the key in its map, and stays ordered.
proof fn lemma_insert_child<K: OrderedKey, V>(old_n: Box<Node<K, V>>, n: Box<Node<K, V>>, k: K::V, v: V, left: bool)
    requires
        ordered(Some(old_n)),
        n.key == old_n.key,
        n.value == old_n.value,
        left ==> K::spec_less(k, n.key@) && n.right == old_n.right && ordered(n.left)
            && subtree_map(n.left) == subtree_map(old_n.left).insert(k, v),
        !left ==> K::spec_less(n.key@, k) && n.left == old_n.left && ordered(n.right)
            && subtree_map(n.right) == subtree_map(old_n.right).insert(k, v),
    ensures
        ordered(Some(n)),
        subtree_map(Some(n)) == subtree_map(Some(old_n)).insert(k, v),
{
    K::lemma_less_irreflexive(k);
    K::lemma_less_irreflexive(n.key@);
    let m1 = subtree_map(Some(n));
    let m2 = subtree_map(Some(old_n)).insert(k, v);
    assert forall|x: K::V| #[trigger] m1.contains_key(x) <==> m2.contains_key(x) by {
        lemma_node_parts(old_n, x);
    }
    assert forall|x: K::V| #[trigger] m1.contains_key(x) implies m1[x] == m2[x] by {
        lemma_node_parts(old_n, x);
        if subtree_map(n.right).contains_key(x) && subtree_map(n.left).contains_key(x) {
            K::lemma_less_transitive(x, n.key@, x);
        }
    }
    assert(m1 =~= m2);
}

/// Inserting into a child of `old_n` reshapes the node as it reshaped the
/// child, one step further down the path.
proof fn lemma_shape_step<K: OrderedKey, V>(old_n: Box<Node<K, V>>, n: Box<Node<K, V>>, key: K, value: V, left: bool)
    requires
        ordered(Some(old_n)),
        n.key == old_n.key,
        n.value == old_n.value,
        left ==> K::spec_less(key@, old_n.key@) && n.right == old_n.right && inserted_shape(old_n.left, n.left, key, value),
        !left ==> K::spec_less(old_n.key@, key@) && n.left == old_n.left && inserted_shape(old_n.right, n.right, key, value),
    ensures
        inserted_shape(Some(old_n), Some(n), key, value),
{
    lemma_node_parts(old_n, key@);
    K::lemma_less_irreflexive(key@);
    let child = if left { old_n.left } else { old_n.right };
    let nchild = if left { n.left } else { n.right };
    let t = Some(old_n);
    let u = Some(n);
    let other = if left { old_n.right } else { old_n.left };
    if subtree_map(other).contains_key(key@) {
        K::lemma_less_transitive(key@, old_n.key@, key@);
    }
    assert(subtree_map(t).contains_key(key@) == subtree_map(child).contains_key(key@));
    if subtree_map(child).contains_key(key@) {
        let p1 = choose|p: Seq<bool>| #[trigger] subtree_at(child, p) matches Some(m) && m.key@ == key@
            && nchild == replace_at(child, p, Some(Box::new(Node { key: m.key, value: value, left: m.left, right: m.right })));
        let p = seq![left] + p1;
        assert(p.drop_first() =~= p1);
        assert(subtree_at(t, p) == subtree_at(child, p1));
        let m = subtree_at(child, p1).unwrap();
        assert(u == replace_at(t, p, Some(Box::new(Node { key: m.key, value: value, left: m.left, right: m.right }))));
        assert(subtree_at(t, p) matches Some(mm) && mm.key@ == key@
            && u == replace_at(t, p, Some(Box::new(Node { key: mm.key, value: value, left: mm.left, right: mm.right }))));
    } else {
        let p1 = choose|p: Seq<bool>| #[trigger] subtree_at(child, p) is None
            && nchild == replace_at(child, p, Some(Box::new(Node { key: key, value: value, left: None, right: None })));
        let p = seq![left] + p1;
        assert(p.drop_first() =~= p1);
        assert(subtree_at(t, p) == subtree_at(child, p1));
        assert(u == replace_at(t, p, Some(Box::new(Node { key: key, value: value, left: None, right: None }))));
        assert(subtree_at(t, p) is None);
    }
}

impl<K: OrderedKey, V> TreeMap<K, V> {
    /// The tree's nodes, as `root_node` hands them out.
    pub closed spec fn shape(&self) -> Option<Box<Node<K, V>>> {
        self.root
    }

    /// An empty map.
    pub fn new() -> (t: Self)
        ensures
            t@ == Map::<K::V, V>::empty(),
    {
        TreeMap { root: None }
    }

    /// The root node of the tree, for walking its nodes in order or in shape.
    pub fn root_node(&self) -> (r: &Option<Box<Node<K, V>>>)
        ensures
            ordered(*r),
            subtree_map(*r) == self@,
            *r == self.shape(),
    {
        proof {
            use_type_invariant(self);
        }
        &self.root
    }

    /// Inserts `key` with `value`; returns the value that `key` had before, if any.
    pub fn insert(&mut self, key: K, value: V) -> (r: Option<V>)
        ensures
            final(self)@ == old(self)@.insert(key@, value),
            inserted_shape(old(self).shape(), final(self).shape(), key, value),
            r == if old(self)@.contains_key(key@) {
                Some(old(self)@[key@])
            } else {
                None
            },
    {
        proof {
            use_type_invariant(&*self);
        }
        let mut root = None;
        std::mem::swap(&mut root, &mut self.root);
        let r = Self::insert_node(&mut root, key, value);
        self.root = root;
        r
    }

    /// Inserts into a subtree; returns the value that the key had before.
    fn insert_node(node: &mut Option<Box<Node<K, V>>>, key: K, value: V) -> (r: Option<V>)
        requires
            ordered(*old(node)),
        ensures
            ordered(*final(node)),
            subtree_map(*final(node)) == subtree_map(*old(node)).insert(key@, value),
            r == if subtree_map(*old(node)).contains_key(key@) {
                Some(subtree_map(*old(node))[key@])
            } else {
                None
            },
            inserted_shape(*old(node), *final(node), key, value),
        decreases *old(node),
    {
        match node {
            Some(n) => {
                let ghost old_n = *n;
                proof {
                    lemma_node_parts(old_n, key@);
                }
                match key.compare(&n.key) {
                    KeyOrder::Less => {
                        let ghost k = key;
                        let ghost v = value;
                        let r = Self::insert_node(&mut n.left, key, value);
                        proof {
                            lemma_insert_child(old_n, *n, k@, v, true);
                            lemma_shape_step(old_n, *n, k, v, true);
                        }
                        r
                    },
                    KeyOrder::Greater => {
                        let ghost k = key;
                        let ghost v = value;
                        let r = Self::insert_node(&mut n.right, key, value);
                        proof {
                            lemma_insert_child(old_n, *n, k@, v, false);
                            lemma_shape_step(old_n, *n, k, v, false);
                        }
                        r
                    },
                    KeyOrder::Equal => {
                        let mut old_value = value;
                        std::mem::swap(&mut n.value, &mut old_value);
                        proof {
                            assert(subtree_map(Some(*n)) =~= subtree_map(Some(old_n)).insert(key@, n.value));
                            assert(subtree_at(Some(old_n), Seq::<bool>::empty()) == Some(old_n));
                        }
                        Some(old_value)
                    },
                }
            },
            None => {
                *node = Some(Box::new(Node { key: key, value: value, left: None, right: None }));
                proof {
                    assert(subtree_map::<K, V>(None) == Map::<K::V, V>::empty());
                    assert(Map::<K::V, V>::empty().union_prefer_right(Map::empty()) =~= Map::empty());
                    assert(subtree_map(*node) =~= Map::<K::V, V>::empty().insert(key@, value));
                    assert(subtree_at::<K, V>(None, Seq::<bool>::empty()) is None);
                }
                None
            },
        }
    }
}

impl<K: OrderedKey, V: Clone> TreeMap<K, V> {
    /// A copy of the value of `key`, if the map holds it.
    pub fn get(&self, key: &K) -> (r: Option<V>)
        ensures
            match r {
                Some(v) => self@.contains_key(key@) && cloned(self@[key@], v),
                None => !self@.contains_key(key@),
            },
    {
        proof {
            use_type_invariant(self);
        }
        Self::get_node(&self.root, key)
    }

    fn get_node(node: &Option<Box<Node<K, V>>>, key: &K) -> (r: Option<V>)
        requires
            ordered(*node),
        ensures
            match r {
                Some(v) => subtree_map(*node).contains_key(key@) && cloned(subtree_map(*node)[key@], v),
                None => !subtree_map(*node).contains_key(key@),
            },
        decreases *node,
    {
        match node {
            Some(n) => {
                proof {
                    lemma_node_parts(*n, key@);
                }
                match key.compare(&n.key) {
                    KeyOrder::Less => Self::get_node(&n.left, key),
                    KeyOrder::Greater => Self::get_node(&n.right, key),
                    KeyOrder::Equal => Some(n.value.clone()),
                }
            },
            None => None,
        }
    }

    /// The entry with the least key not less than `key`, copied, if there is one.
    pub fn seek_ge(&self, key: &K) -> (r: Option<(K, V)>)
        ensures
            match r {
                Some((k, v)) => {
                    &&& self@.contains_key(k@)
                    &&& key_le::<K>(key@, k@)
                    &&& forall|x: K::V| #[trigger] self@.contains_key(x) && key_le::<K>(key@, x) ==> key_le::<K>(k@, x)
                    &&& cloned(self@[k@], v)
                },
                None => forall|x: K::V| #[trigger] self@.contains_key(x) ==> !key_le::<K>(key@, x),
            },
    {
        proof {
            use_type_invariant(self);
        }
        let ghost whole = self@;
        let mut res: Option<(K, V)> = None;
        let mut cur = &self.root;
        loop
            invariant
                ordered(*cur),
                forall|x: K::V| #[trigger] subtree_map(*cur).contains_key(x)
                    ==> whole.contains_key(x) && whole[x] == subtree_map(*cur)[x],
                res matches Some((rk, rv)) ==> {
                    &&& whole.contains_key(rk@)
                    &&& key_le::<K>(key@, rk@)
                    &&& cloned(whole[rk@], rv)
                    &&& forall|x: K::V| #[trigger] subtree_map(*cur).contains_key(x) ==> K::spec_less(x, rk@)
                },
                forall|x: K::V| #[trigger] whole.contains_key(x) && key_le::<K>(key@, x)
                    ==> subtree_map(*cur).contains_key(x) || (res matches Some((rk, rv)) && key_le::<K>(rk@, x)),
            ensures
                cur is None,
                ordered(*cur),
                forall|x: K::V| #[trigger] subtree_map(*cur).contains_key(x)
                    ==> whole.contains_key(x) && whole[x] == subtree_map(*cur)[x],
                res matches Some((rk, rv)) ==> {
                    &&& whole.contains_key(rk@)
                    &&& key_le::<K>(key@, rk@)
                    &&& cloned(whole[rk@], rv)
                },
                forall|x: K::V| #[trigger] whole.contains_key(x) && key_le::<K>(key@, x)
                    ==> subtree_map(*cur).contains_key(x) || (res matches Some((rk, rv)) && key_le::<K>(rk@, x)),
            decreases *cur,
        {
            let n = match cur {
                Some(n) => n,
                None => break,
            };
            let ghost old_res = res;
            proof {
                assert forall|x: K::V| #[trigger] subtree_map(*cur).contains_key(x) implies
                    (subtree_map(n.left).contains_key(x) || x == n.key@ || subtree_map(n.right).contains_key(x)) by {
                    lemma_node_parts(*n, x);
                }
            }
            if n.key.compare(key) == KeyOrder::Less {
                proof {
                    assert forall|x: K::V| #[trigger] subtree_map(n.right).contains_key(x)
                        implies subtree_map(*cur).contains_key(x) && subtree_map(*cur)[x] == subtree_map(n.right)[x] by {
                        lemma_node_parts(*n, x);
                    }
                    assert forall|x: K::V| #[trigger] whole.contains_key(x) && key_le::<K>(key@, x)
                        implies subtree_map(n.right).contains_key(x) || (res matches Some((rk, rv)) && key_le::<K>(rk@, x)) by {
                        lemma_node_parts(*n, x);
                        K::lemma_less_irreflexive(x);
                        if subtree_map(*cur).contains_key(x) && !subtree_map(n.right).contains_key(x) {
                            if subtree_map(n.left).contains_key(x) {
                                K::lemma_less_transitive(x, n.key@, key@);
                            }
                            if x != key@ {
                                K::lemma_less_transitive(x, key@, x);
                            }
                        }
                    }
                }
                cur = &n.right;
            } else {
                proof {
                    lemma_node_parts(*n, n.key@);
                    K::lemma_less_total(n.key@, key@);
                    assert forall|x: K::V| #[trigger] subtree_map(n.left).contains_key(x)
                        implies subtree_map(*cur).contains_key(x) && subtree_map(*cur)[x] == subtree_map(n.left)[x] by {
                        lemma_node_parts(*n, x);
                    }
                    assert forall|x: K::V| #[trigger] whole.contains_key(x) && key_le::<K>(key@, x)
                        implies subtree_map(n.left).contains_key(x) || key_le::<K>(n.key@, x) by {
                        lemma_node_parts(*n, x);
                        if !subtree_map(*cur).contains_key(x) {
                            if let Some((rk, rv)) = old_res {
                                if rk@ != x {
                                    K::lemma_less_transitive(n.key@, rk@, x);
                                }
                            }
                        }
                    }
                }
                res = Some((n.key.clone_key(), n.value.clone()));
                cur = &n.left;
            }
        }
        proof {
            assert(subtree_map::<K, V>(None) == Map::<K::V, V>::empty());
        }
        res
    }
}

/// The node holding the least key of a subtree has a right child.
pub open spec fn min_has_right<K, V>(n: Box<Node<K, V>>) -> bool
    decreases n,
{
    match n.left {
        None => n.right is Some,
        Some(l) => min_has_right(l),
    }
}

/// Removing `k` from the subtree does not fail: where the node of `k` has two
/// children, the node with the least key of its right subtree has a right child
/// of its own, which then takes that node's place.
pub open spec fn remove_defined<K: OrderedKey, V>(t: Option<Box<Node<K, V>>>, k: K::V) -> bool
    decreases t,
{
    match t {
        None => true,
        Some(n) => if K::spec_less(k, n.key@) {
            remove_defined(n.left, k)
        } else if K::spec_less(n.key@, k) {
            remove_defined(n.right, k)
        } else {
            match (n.left, n.right) {
                (Some(_), Some(r)) => min_has_right(r),
                _ => true,
            }
        },
    }
}

/// A node whose left (or right) subtree lost a key that sorts on that side
/// loses the key from its map, and stays ordered.
proof fn lemma_remove_child<K: OrderedKey, V>(old_n: Box<Node<K, V>>, n: Box<Node<K, V>>, k: K::V, left: bool)
    requires
        ordered(Some(old_n)),
        n.key == old_n.key,
        n.value == old_n.value,
        left ==> K::spec_less(k, n.key@) && n.right == old_n.right && ordered(n.left)
            && subtree_map(n.left) == subtree_map(old_n.left).remove(k),
        !left ==> K::spec_less(n.key@, k) && n.left == old_n.left && ordered(n.right)
            && subtree_map(n.right) == subtree_map(old_n.right).remove(k),
    ensures
        ordered(Some(n)),
        subtree_map(Some(n)) == subtree_map(Some(old_n)).remove(k),
{
    K::lemma_less_irreflexive(k);
    let m1 = subtree_map(Some(n));
    let m2 = subtree_map(Some(old_n)).remove(k);
    lemma_node_parts(old_n, k);
    if subtree_map(old_n.left).contains_key(k) && subtree_map(old_n.right).contains_key(k) {
        K::lemma_less_transitive(k, n.key@, k);
    }
    if left && subtree_map(old_n.right).contains_key(k) {
        K::lemma_less_transitive(k, n.key@, k);
    }
    if !left && subtree_map(old_n.left).contains_key(k) {
        K::lemma_less_transitive(k, n.key@, k);
    }
    assert forall|x: K::V| #[trigger] m1.contains_key(x) <==> m2.contains_key(x) by {
        lemma_node_parts(old_n, x);
    }
    assert forall|x: K::V| #[trigger] m1.contains_key(x) implies m1[x] == m2[x] by {
        lemma_node_parts(old_n, x);
        if subtree_map(n.right).contains_key(x) && subtree_map(n.left).contains_key(x) {
            K::lemma_less_transitive(x, n.key@, x);
        }
    }
    assert(m1 =~= m2);
}

impl<K: OrderedKey, V> TreeMap<K, V> {
    /// Whether `remove(key)` is defined on this map: see `remove_defined`.
    pub closed spec fn can_remove(&self, key: K::V) -> bool {
        remove_defined(self.root, key)
    }

    /// Whether `remove(key)` is defined on this map: the node of `key`, where
    /// it has two children, has a successor with a right child.
    pub fn removable(&self, key: &K) -> (r: bool)
        ensures
            r == self.can_remove(key@),
    {
        let mut cur = &self.root;
        loop
            invariant
                remove_defined(self.root, key@) == remove_defined(*cur, key@),
            decreases *cur,
        {
            match cur {
                None => {
                    return true;
                },
                Some(n) => {
                    match key.compare(&n.key) {
                        KeyOrder::Less => {
                            cur = &n.left;
                        },
                        KeyOrder::Greater => {
                            cur = &n.right;
                        },
                        KeyOrder::Equal => {
                            return match (&n.left, &n.right) {
                                (Some(_), Some(r)) => Self::min_has_right_child(r),
                                _ => true,
                            };
                        },
                    }
                },
            }
        }
    }

    /// Whether the node with the least key below `n` has a right child.
    fn min_has_right_child(n: &Box<Node<K, V>>) -> (r: bool)
        ensures
            r == min_has_right(*n),
        decreases *n,
    {
        match &n.left {
            None => n.right.is_some(),
            Some(l) => Self::min_has_right_child(l),
        }
    }

    /// Removes `key`; returns the value that it had, if the map held it.
    pub fn remove(&mut self, key: &K) -> (r: Option<V>)
        requires
            old(self).can_remove(key@),
        ensures
            final(self)@ == old(self)@.remove(key@),
            !old(self)@.contains_key(key@) ==> *final(self) == *old(self),
            r == if old(self)@.contains_key(key@) {
                Some(old(self)@[key@])
            } else {
                None
            },
    {
        proof {
            use_type_invariant(&*self);
        }
        let mut root = None;
        std::mem::swap(&mut root, &mut self.root);
        let r = Self::remove_node(&mut root, key);
        self.root = root;
        r
    }

    fn remove_node(node: &mut Option<Box<Node<K, V>>>, key: &K) -> (r: Option<V>)
        requires
            ordered(*old(node)),
            remove_defined(*old(node), key@),
        ensures
            ordered(*final(node)),
            subtree_map(*final(node)) == subtree_map(*old(node)).remove(key@),
            !subtree_map(*old(node)).contains_key(key@) ==> *final(node) == *old(node),
            r == if subtree_map(*old(node)).contains_key(key@) {
                Some(subtree_map(*old(node))[key@])
            } else {
                None
            },
        decreases *old(node),
    {
        let c = match node {
            Some(n) => key.compare(&n.key),
            None => {
                proof {
                    assert(subtree_map::<K, V>(None) =~= subtree_map::<K, V>(None).remove(key@));
                }
                return None;
            },
        };
        let ghost old_n = node.unwrap();
        proof {
            lemma_node_parts(old_n, key@);
        }
        match c {
            KeyOrder::Less => {
                let r = match node {
                    Some(n) => Self::remove_node(&mut n.left, key),
                    None => vstd::pervasive::unreached(),
                };
                proof {
                    lemma_remove_child(old_n, node.unwrap(), key@, true);
                }
                r
            },
            KeyOrder::Greater => {
                let r = match node {
                    Some(n) => Self::remove_node(&mut n.right, key),
                    None => vstd::pervasive::unreached(),
                };
                proof {
                    lemma_remove_child(old_n, node.unwrap(), key@, false);
                }
                r
            },
            KeyOrder::Equal => {
                let mut n = node.take().unwrap();
                let left = n.left.take();
                let right = n.right.take();
                proof {
                    assert(subtree_map::<K, V>(None) == Map::<K::V, V>::empty());
                }
                match (left, right) {
                    (None, None) => {
                        *node = None;
                        proof {
                            assert(subtree_map(Some(old_n)).remove(key@) =~= Map::empty());
                        }
                        Some(n.value)
                    },
                    (Some(l), None) => {
                        *node = Some(l);
                        proof {
                            assert(subtree_map(Some(old_n)).remove(key@) =~= subtree_map(old_n.left)) by {
                                assert forall|x: K::V| #[trigger] subtree_map(old_n.left).contains_key(x)
                                    implies x != key@ by {
                                    lemma_node_parts(old_n, x);
                                }
                                assert(subtree_map(old_n.left).union_prefer_right(Map::empty()) =~= subtree_map(old_n.left));
                            }
                        }
                        Some(n.value)
                    },
                    (None, Some(r)) => {
                        *node = Some(r);
                        proof {
                            assert(subtree_map(Some(old_n)).remove(key@) =~= subtree_map(old_n.right)) by {
                                assert forall|x: K::V| #[trigger] subtree_map(old_n.right).contains_key(x)
                                    implies x != key@ by {
                                    lemma_node_parts(old_n, x);
                                }
                                assert(Map::empty().union_prefer_right(subtree_map(old_n.right)) =~= subtree_map(old_n.right));
                            }
                        }
                        Some(n.value)
                    },
                    (Some(l), Some(r)) => {
                        let ghost old_r = r;
                        let (rest, min_k, min_v) = Self::remove_min(r);
                        let mut removed = min_v;
                        std::mem::swap(&mut n.value, &mut removed);
                        n.key = min_k;
                        n.left = Some(l);
                        n.right = Some(rest);
                        proof {
                            lemma_remove_with_successor(old_n, old_r, n);
                        }
                        *node = Some(n);
                        Some(removed)
                    },
                }
            },
        }
    }

    /// Removes the node with the least key of a subtree, whose right child
    /// takes its place; returns what is left and the removed key and value.
    fn remove_min(node: Box<Node<K, V>>) -> (r: (Box<Node<K, V>>, K, V))
        requires
            ordered(Some(node)),
            min_has_right(node),
        ensures
            ordered(Some(r.0)),
            subtree_map(Some(node)).contains_key(r.1@),
            subtree_map(Some(node))[r.1@] == r.2,
            forall|x: K::V| #[trigger] subtree_map(Some(node)).contains_key(x) ==> key_le::<K>(r.1@, x),
            subtree_map(Some(r.0)) == subtree_map(Some(node)).remove(r.1@),
        decreases node,
    {
        let ghost old_n = node;
        let mut node = node;
        proof {
            lemma_node_parts(old_n, old_n.key@);
        }
        if node.left.is_none() {
            let n = *node;
            proof {
                assert(subtree_map::<K, V>(None) == Map::<K::V, V>::empty());
                assert forall|x: K::V| #[trigger] subtree_map(Some(old_n)).contains_key(x) implies key_le::<K>(n.key@, x) by {
                    lemma_node_parts(old_n, x);
                }
                let rm = subtree_map(n.right);
                assert(Map::empty().union_prefer_right(rm) =~= rm);
                assert(subtree_map(Some(old_n)).remove(n.key@) =~= rm) by {
                    assert forall|x: K::V| #[trigger] rm.contains_key(x) implies x != n.key@ by {
                        lemma_node_parts(old_n, x);
                    }
                }
            }
            return (n.right.unwrap(), n.key, n.value);
        }
        let (rest, k, v) = Self::remove_min(node.left.take().unwrap());
        node.left = Some(rest);
        proof {
            let l = old_n.left.unwrap();
            assert forall|x: K::V| #[trigger] subtree_map(Some(old_n)).contains_key(x) implies key_le::<K>(k@, x) by {
                lemma_node_parts(old_n, x);
                if x == old_n.key@ || subtree_map(old_n.right).contains_key(x) {
                    lemma_node_parts(old_n, k@);
                    if x != old_n.key@ {
                        K::lemma_less_transitive(k@, old_n.key@, x);
                    }
                }
            }
            lemma_node_parts(old_n, k@);
            lemma_remove_child(old_n, node, k@, true);
        }
        (node, k, v)
    }
}

/// A node with two children that takes the least entry of its right
/// subtree in place of its own loses exactly its own key.
proof fn lemma_remove_with_successor<K: OrderedKey, V>(old_n: Box<Node<K, V>>, old_r: Box<Node<K, V>>, n: Box<Node<K, V>>)
    requires
        ordered(Some(old_n)),
        old_n.right == Some(old_r),
        old_n.left is Some,
        n.left == old_n.left,
        n.right matches Some(rest) && ordered(Some(rest))
            && subtree_map(Some(rest)) == subtree_map(Some(old_r)).remove(n.key@),
        subtree_map(Some(old_r)).contains_key(n.key@),
        subtree_map(Some(old_r))[n.key@] == n.value,
        forall|x: K::V| #[trigger] subtree_map(Some(old_r)).contains_key(x) ==> key_le::<K>(n.key@, x),
    ensures
        ordered(Some(n)),
        subtree_map(Some(n)) == subtree_map(Some(old_n)).remove(old_n.key@),
{
    let k = old_n.key@;
    let mk = n.key@;
    let lm = subtree_map(old_n.left);
    let rm = subtree_map(old_n.right);
    lemma_node_parts(old_n, mk);
    assert(K::spec_less(k, mk));
    assert forall|x: K::V| #[trigger] lm.contains_key(x) implies K::spec_less(x, mk) by {
        lemma_node_parts(old_n, x);
        K::lemma_less_transitive(x, k, mk);
    }
    assert forall|x: K::V| #[trigger] subtree_map(n.right).contains_key(x) implies K::spec_less(mk, x) by {
        assert(rm.contains_key(x));
    }
    let m1 = subtree_map(Some(n));
    let m2 = subtree_map(Some(old_n)).remove(k);
    K::lemma_less_irreflexive(k);
    K::lemma_less_irreflexive(mk);
    assert forall|x: K::V| #[trigger] m1.contains_key(x) <==> m2.contains_key(x) by {
        lemma_node_parts(old_n, x);
        lemma_node_parts(n, x);
    }
    assert forall|x: K::V| #[trigger] m1.contains_key(x) implies m1[x] == m2[x] by {
        lemma_node_parts(old_n, x);
        lemma_node_parts(n, x);
    }
    assert(m1 =~= m2);
}

/// Removing a key just inserted gives back the inserted value, and leaves
/// the map as it was without that key.
pub proof fn lemma_remove_after_insert<K: OrderedKey, V>(before: Map<K::V, V>, key: K::V, value: V)
    ensures
        before.insert(key, value).contains_key(key),
        before.insert(key, value)[key] == value,
        before.insert(key, value).remove(key) == before.remove(key),
{
    assert(before.insert(key, value).remove(key) =~= before.remove(key));
}

} // verus!
