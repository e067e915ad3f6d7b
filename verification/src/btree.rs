//! A B-tree map of fan-out `M`. Leaves hold keys and values; internal nodes
//! hold separator keys, where child `i` holds the keys `k` with
//! `keys[i - 1] <= k < keys[i]`.

use vstd::prelude::*;
use crate::key::{OrderedKey, KeyOrder, key_le};

verus! {

// ---------------------------------------------------------------------------
// Orders on sequences of key views
// ---------------------------------------------------------------------------

/// The views of a sequence of keys.
pub open spec fn key_views<K: OrderedKey>(keys: Seq<K>) -> Seq<K::V> {
    keys.map_values(|k: K| k@)
}

/// The key views are strictly increasing.
pub open spec fn sorted<K: OrderedKey>(ks: Seq<K::V>) -> bool {
    forall|i: int, j: int| 0 <= i < j < ks.len() ==> K::spec_less(ks[i], ks[j])
}

/// `k` is at or above the lower bound `lo`, if there is one.
pub open spec fn above<K: OrderedKey>(lo: Option<K::V>, k: K::V) -> bool {
    match lo {
        Some(l) => key_le::<K>(l, k),
        None => true,
    }
}

/// `k` is strictly above the lower bound `lo`, if there is one.
pub open spec fn strictly_above<K: OrderedKey>(lo: Option<K::V>, k: K::V) -> bool {
    match lo {
        Some(l) => K::spec_less(l, k),
        None => true,
    }
}

/// `k` is strictly below the upper bound `hi`, if there is one.
pub open spec fn below<K: OrderedKey>(hi: Option<K::V>, k: K::V) -> bool {
    match hi {
        Some(h) => K::spec_less(k, h),
        None => true,
    }
}

/// The number of keys in `ks` ordered strictly before `k`, for a sorted `ks`:
/// the position of the first key that is not less than `k`.
pub open spec fn lower_bound<K: OrderedKey>(ks: Seq<K::V>, k: K::V) -> nat
    decreases ks.len(),
{
    if ks.len() == 0 {
        0
    } else if K::spec_less(ks.last(), k) {
        ks.len()
    } else {
        lower_bound::<K>(ks.drop_last(), k)
    }
}

/// The number of keys in `ks` ordered before or equal to `k`, for a sorted `ks`:
/// the child of an internal node whose range holds `k`.
pub open spec fn route<K: OrderedKey>(ks: Seq<K::V>, k: K::V) -> nat
    decreases ks.len(),
{
    if ks.len() == 0 {
        0
    } else if key_le::<K>(ks.last(), k) {
        ks.len()
    } else {
        route::<K>(ks.drop_last(), k)
    }
}

/// The lower bound of child `i` of a node with bounds `lo` and separators `ks`.
pub open spec fn child_lo<KV>(lo: Option<KV>, ks: Seq<KV>, i: int) -> Option<KV> {
    if i <= 0 {
        lo
    } else {
        Some(ks[i - 1])
    }
}

/// The upper bound of child `i` of a node with bounds `hi` and separators `ks`.
pub open spec fn child_hi<KV>(hi: Option<KV>, ks: Seq<KV>, i: int) -> Option<KV> {
    if i >= ks.len() {
        hi
    } else {
        Some(ks[i])
    }
}

/// The map held by a leaf with key views `ks` and values `vs`.
pub open spec fn leaf_map<KV, V>(ks: Seq<KV>, vs: Seq<V>) -> Map<KV, V> {
    Map::new(
        |k: KV| exists|i: int| 0 <= i < ks.len() && ks[i] == k,
        |k: KV| vs[choose|i: int| 0 <= i < ks.len() && ks[i] == k],
    )
}

/// Sorted key views are distinct.
proof fn lemma_sorted_distinct<K: OrderedKey>(ks: Seq<K::V>, i: int, j: int)
    requires
        sorted::<K>(ks),
        0 <= i < ks.len(),
        0 <= j < ks.len(),
        ks[i] == ks[j],
    ensures
        i == j,
{
    if i < j {
        K::lemma_less_irreflexive(ks[i]);
    } else if j < i {
        K::lemma_less_irreflexive(ks[i]);
    }
}

proof fn lemma_leaf_map_at<K: OrderedKey, V>(ks: Seq<K::V>, vs: Seq<V>, i: int)
    requires
        sorted::<K>(ks),
        0 <= i < ks.len(),
    ensures
        leaf_map(ks, vs).contains_key(ks[i]),
        leaf_map(ks, vs)[ks[i]] == vs[i],
{
    let m = leaf_map(ks, vs);
    assert(m.contains_key(ks[i]));
    let j = choose|j: int| 0 <= j < ks.len() && ks[j] == ks[i];
    lemma_sorted_distinct::<K>(ks, i, j);
}

proof fn lemma_lower_bound<K: OrderedKey>(ks: Seq<K::V>, k: K::V, p: int)
    requires
        sorted::<K>(ks),
        0 <= p <= ks.len(),
        forall|j: int| 0 <= j < p ==> K::spec_less(ks[j], k),
        p == ks.len() || !K::spec_less(ks[p], k),
    ensures
        lower_bound::<K>(ks, k) == p,
    decreases ks.len(),
{
    if ks.len() > 0 {
        let n = ks.len() - 1;
        if K::spec_less(ks.last(), k) {
            if p < ks.len() {
                if p < n {
                    K::lemma_less_transitive(ks[p], ks[n], k);
                }
            }
        } else {
            lemma_lower_bound::<K>(ks.drop_last(), k, p);
        }
    }
}

proof fn lemma_route<K: OrderedKey>(ks: Seq<K::V>, k: K::V, c: int)
    requires
        sorted::<K>(ks),
        0 <= c <= ks.len(),
        forall|j: int| 0 <= j < c ==> key_le::<K>(ks[j], k),
        c == ks.len() || K::spec_less(k, ks[c]),
    ensures
        route::<K>(ks, k) == c,
    decreases ks.len(),
{
    if ks.len() > 0 {
        let n = ks.len() - 1;
        if key_le::<K>(ks.last(), k) {
            if c < ks.len() {
                if c < n {
                    K::lemma_less_transitive(k, ks[c], ks[n]);
                    if ks[n] == k {
                        K::lemma_less_irreflexive(k);
                    } else {
                        K::lemma_less_transitive(k, ks[n], k);
                        K::lemma_less_irreflexive(k);
                    }
                } else {
                    if ks[n] == k {
                        K::lemma_less_irreflexive(k);
                    } else {
                        K::lemma_less_transitive(k, ks[n], k);
                        K::lemma_less_irreflexive(k);
                    }
                }
            }
        } else {
            lemma_route::<K>(ks.drop_last(), k, c);
        }
    }
}

/// What `route` is, for a sorted sequence.
proof fn lemma_route_props<K: OrderedKey>(ks: Seq<K::V>, k: K::V)
    requires
        sorted::<K>(ks),
    ensures
        route::<K>(ks, k) <= ks.len(),
        forall|j: int| 0 <= j < route::<K>(ks, k) ==> key_le::<K>(ks[j], k),
        route::<K>(ks, k) < ks.len() ==> K::spec_less(k, ks[route::<K>(ks, k) as int]),
    decreases ks.len(),
{
    if ks.len() > 0 {
        let n = ks.len() - 1;
        if key_le::<K>(ks.last(), k) {
            assert forall|j: int| 0 <= j < ks.len() implies key_le::<K>(ks[j], k) by {
                if j < n && ks[n] != k {
                    K::lemma_less_transitive(ks[j], ks[n], k);
                }
            }
        } else {
            lemma_route_props::<K>(ks.drop_last(), k);
            assert(forall|j: int| 0 <= j < n ==> ks.drop_last()[j] == ks[j]);
            K::lemma_less_total(ks[n], k);
            let r = route::<K>(ks.drop_last(), k);
            if r == n {
            }
        }
    }
}

/// What `lower_bound` is, for a sorted sequence.
proof fn lemma_lower_bound_props<K: OrderedKey>(ks: Seq<K::V>, k: K::V)
    requires
        sorted::<K>(ks),
    ensures
        lower_bound::<K>(ks, k) <= ks.len(),
        forall|j: int| 0 <= j < lower_bound::<K>(ks, k) ==> K::spec_less(ks[j], k),
        lower_bound::<K>(ks, k) < ks.len() ==> key_le::<K>(k, ks[lower_bound::<K>(ks, k) as int]),
    decreases ks.len(),
{
    if ks.len() > 0 {
        let n = ks.len() - 1;
        if K::spec_less(ks.last(), k) {
            assert forall|j: int| 0 <= j < ks.len() implies K::spec_less(ks[j], k) by {
                if j < n {
                    K::lemma_less_transitive(ks[j], ks[n], k);
                }
            }
        } else {
            lemma_lower_bound_props::<K>(ks.drop_last(), k);
            assert(forall|j: int| 0 <= j < n ==> ks.drop_last()[j] == ks[j]);
            K::lemma_less_total(ks[n], k);
        }
    }
}

/// Inserting a key at its sorted position into a leaf adds it to the leaf's map.
proof fn lemma_leaf_insert<K: OrderedKey, V>(ks: Seq<K::V>, vs: Seq<V>, p: int, k: K::V, v: V)
    requires
        sorted::<K>(ks),
        ks.len() == vs.len(),
        0 <= p <= ks.len(),
        forall|j: int| 0 <= j < p ==> K::spec_less(ks[j], k),
        p < ks.len() ==> K::spec_less(k, ks[p]),
    ensures
        sorted::<K>(ks.insert(p, k)),
        leaf_map(ks.insert(p, k), vs.insert(p, v)) == leaf_map(ks, vs).insert(k, v),
{
    let ks2 = ks.insert(p, k);
    let vs2 = vs.insert(p, v);
    assert forall|i: int, j: int| 0 <= i < j < ks2.len() implies K::spec_less(ks2[i], ks2[j]) by {
        if i < p && j > p {
            if j - 1 > p {
                K::lemma_less_transitive(k, ks[p], ks[j - 1]);
            }
            K::lemma_less_transitive(ks2[i], k, ks2[j]);
        } else if i == p && j > p {
            if j - 1 > p {
                K::lemma_less_transitive(k, ks[p], ks[j - 1]);
            }
        }
    }
    let m1 = leaf_map(ks2, vs2);
    let m2 = leaf_map(ks, vs).insert(k, v);
    assert forall|x: K::V| #[trigger] m1.contains_key(x) <==> m2.contains_key(x) by {
        if m1.contains_key(x) {
            let i = choose|i: int| 0 <= i < ks2.len() && ks2[i] == x;
            if i < p {
                assert(ks[i] == x);
            } else if i > p {
                assert(ks[i - 1] == x);
            }
        }
        if leaf_map(ks, vs).contains_key(x) {
            let i = choose|i: int| 0 <= i < ks.len() && ks[i] == x;
            if i < p {
                assert(ks2[i] == x);
            } else {
                assert(ks2[i + 1] == x);
            }
        }
        if x == k {
            assert(ks2[p] == x);
        }
    }
    assert forall|x: K::V| #[trigger] m1.contains_key(x) implies m1[x] == m2[x] by {
        if x == k {
            lemma_leaf_map_at::<K, V>(ks2, vs2, p);
        } else {
            let i = choose|i: int| 0 <= i < ks.len() && ks[i] == x;
            lemma_leaf_map_at::<K, V>(ks, vs, i);
            if i < p {
                lemma_leaf_map_at::<K, V>(ks2, vs2, i);
            } else {
                lemma_leaf_map_at::<K, V>(ks2, vs2, i + 1);
            }
        }
    }
    assert(m1 =~= m2);
}

/// Replacing a value in a leaf replaces it in the leaf's map.
proof fn lemma_leaf_update<K: OrderedKey, V>(ks: Seq<K::V>, vs: Seq<V>, p: int, v: V)
    requires
        sorted::<K>(ks),
        ks.len() == vs.len(),
        0 <= p < ks.len(),
    ensures
        leaf_map(ks, vs.update(p, v)) == leaf_map(ks, vs).insert(ks[p], v),
{
    let vs2 = vs.update(p, v);
    let m1 = leaf_map(ks, vs2);
    let m2 = leaf_map(ks, vs).insert(ks[p], v);
    assert forall|x: K::V| #[trigger] m1.contains_key(x) implies m1[x] == m2[x] by {
        let i = choose|i: int| 0 <= i < ks.len() && ks[i] == x;
        lemma_leaf_map_at::<K, V>(ks, vs, i);
        lemma_leaf_map_at::<K, V>(ks, vs2, i);
        if x == ks[p] {
            lemma_sorted_distinct::<K>(ks, i, p);
        }
    }
    assert forall|x: K::V| #[trigger] m1.contains_key(x) <==> m2.contains_key(x) by {
        assert(ks[p] == ks[p]);
    }
    assert(m1 =~= m2);
}

/// The two halves of a split leaf hold the leaf's map between them.
proof fn lemma_leaf_split<K: OrderedKey, V>(ks: Seq<K::V>, vs: Seq<V>, s: int)
    requires
        sorted::<K>(ks),
        ks.len() == vs.len(),
        0 <= s <= ks.len(),
    ensures
        leaf_map(ks.subrange(0, s), vs.subrange(0, s)).union_prefer_right(
            leaf_map(ks.subrange(s, ks.len() as int), vs.subrange(s, vs.len() as int)),
        ) == leaf_map(ks, vs),
        sorted::<K>(ks.subrange(0, s)),
        sorted::<K>(ks.subrange(s, ks.len() as int)),
{
    let n = ks.len() as int;
    let kl = ks.subrange(0, s);
    let vl = vs.subrange(0, s);
    let kr = ks.subrange(s, n);
    let vr = vs.subrange(s, n);
    let ml = leaf_map(kl, vl);
    let mr = leaf_map(kr, vr);
    let m = leaf_map(ks, vs);
    let u = ml.union_prefer_right(mr);
    assert(sorted::<K>(kl));
    assert forall|i: int, j: int| 0 <= i < j < kr.len() implies K::spec_less(kr[i], kr[j]) by {
        assert(kr[i] == ks[i + s]);
        assert(kr[j] == ks[j + s]);
    }
    assert forall|x: K::V| #[trigger] u.contains_key(x) <==> m.contains_key(x) by {
        if ml.contains_key(x) {
            let i = choose|i: int| 0 <= i < kl.len() && kl[i] == x;
            assert(ks[i] == x);
        }
        if mr.contains_key(x) {
            let i = choose|i: int| 0 <= i < kr.len() && kr[i] == x;
            assert(ks[i + s] == x);
        }
        if m.contains_key(x) {
            let i = choose|i: int| 0 <= i < ks.len() && ks[i] == x;
            if i < s {
                assert(kl[i] == x);
            } else {
                assert(kr[i - s] == x);
            }
        }
    }
    assert forall|x: K::V| #[trigger] u.contains_key(x) implies u[x] == m[x] by {
        let i = choose|i: int| 0 <= i < ks.len() && ks[i] == x;
        lemma_leaf_map_at::<K, V>(ks, vs, i);
        if i < s {
            lemma_leaf_map_at::<K, V>(kl, vl, i);
            if mr.contains_key(x) {
                let j = choose|j: int| 0 <= j < kr.len() && kr[j] == x;
                lemma_sorted_distinct::<K>(ks, i, j + s);
            }
        } else {
            lemma_leaf_map_at::<K, V>(kr, vr, i - s);
        }
    }
    assert(u =~= m);
}

/// Whether `k` sorts at or before position `t` of a sorted sequence.
proof fn lemma_lower_bound_vs<K: OrderedKey>(ks: Seq<K::V>, k: K::V, t: int)
    requires
        sorted::<K>(ks),
        0 <= t < ks.len(),
    ensures
        (lower_bound::<K>(ks, k) <= t) == key_le::<K>(k, ks[t]),
{
    lemma_lower_bound_props::<K>(ks, k);
    let p = lower_bound::<K>(ks, k) as int;
    K::lemma_less_irreflexive(k);
    if p <= t {
        if p < t && k != ks[p] {
            K::lemma_less_transitive(k, ks[p], ks[t]);
        }
    } else {
        if key_le::<K>(k, ks[t]) && k != ks[t] {
            K::lemma_less_transitive(k, ks[t], k);
        }
    }
}

/// The lower bound of `k` among the keys from position `t` on.
proof fn lemma_lower_bound_suffix<K: OrderedKey>(ks: Seq<K::V>, k: K::V, t: int)
    requires
        sorted::<K>(ks),
        0 <= t <= lower_bound::<K>(ks, k),
    ensures
        lower_bound::<K>(ks.subrange(t, ks.len() as int), k) == lower_bound::<K>(ks, k) - t,
        sorted::<K>(ks.subrange(t, ks.len() as int)),
{
    lemma_lower_bound_props::<K>(ks, k);
    let p = lower_bound::<K>(ks, k) as int;
    let kr = ks.subrange(t, ks.len() as int);
    assert forall|i: int, j: int| 0 <= i < j < kr.len() implies K::spec_less(kr[i], kr[j]) by {
        assert(kr[i] == ks[i + t]);
        assert(kr[j] == ks[j + t]);
    }
    assert forall|j: int| 0 <= j < p - t implies K::spec_less(kr[j], k) by {
        assert(kr[j] == ks[j + t]);
    }
    if p < ks.len() {
        assert(kr[p - t] == ks[p]);
        K::lemma_less_irreflexive(k);
        if K::spec_less(ks[p], k) && ks[p] != k {
            K::lemma_less_transitive(k, ks[p], k);
        }
    }
    lemma_lower_bound::<K>(kr, k, p - t);
}

/// The lower bound of `k` among the first `t` keys.
proof fn lemma_lower_bound_prefix<K: OrderedKey>(ks: Seq<K::V>, k: K::V, t: int)
    requires
        sorted::<K>(ks),
        lower_bound::<K>(ks, k) <= t <= ks.len(),
    ensures
        lower_bound::<K>(ks.subrange(0, t), k) == lower_bound::<K>(ks, k),
        sorted::<K>(ks.subrange(0, t)),
{
    lemma_lower_bound_props::<K>(ks, k);
    let p = lower_bound::<K>(ks, k) as int;
    let kl = ks.subrange(0, t);
    if p < t {
        K::lemma_less_irreflexive(k);
        if K::spec_less(ks[p], k) && ks[p] != k {
            K::lemma_less_transitive(k, ks[p], k);
        }
    }
    lemma_lower_bound::<K>(kl, k, p);
}

// ---------------------------------------------------------------------------
// Nodes
// ---------------------------------------------------------------------------

#[derive(Debug)]
pub enum Node<K, V, const M: usize> {
    Leaf { keys: Vec<K>, values: Vec<V> },
    Internal { keys: Vec<K>, children: Vec<Box<Node<K, V, M>>> },
}

/// The kinds of key lookup within one node.
pub enum QueryKind {
    /// The index of the key itself, if it is there.
    Point,
    /// The index of the first key that is not less than the query key.
    Seek,
    /// The index at which the key belongs in sorted order, where there is room.
    Insert,
    /// The index of the child whose range holds the key.
    Child,
}

impl<K: OrderedKey, V, const M: usize> Node<K, V, M> {
    /// The views of this node's keys.
    pub open spec fn key_seq(self) -> Seq<K::V> {
        match self {
            Node::Leaf { keys, .. } => key_views(keys@),
            Node::Internal { keys, .. } => key_views(keys@),
        }
    }

    pub open spec fn is_leaf_node(self) -> bool {
        self is Leaf
    }

    /// The map held by an internal node with separators `ks` and `children`:
    /// each key is looked up in the child whose range holds it.
    pub open spec fn internal_map(ks: Seq<K::V>, children: Seq<Box<Node<K, V, M>>>) -> Map<K::V, V>
        decreases children,
    {
        Map::new(
            |k: K::V|
                {
                    let c = route::<K>(ks, k) as int;
                    0 <= c < children.len() && children[c].map().contains_key(k)
                },
            |k: K::V|
                {
                    let c = route::<K>(ks, k) as int;
                    if 0 <= c < children.len() {
                        children[c].map()[k]
                    } else {
                        arbitrary()
                    }
                },
        )
    }

    /// The map that this node holds.
    pub open spec fn map(self) -> Map<K::V, V>
        decreases self,
    {
        match self {
            Node::Leaf { keys, values } => leaf_map(key_views(keys@), values@),
            Node::Internal { keys, children } => Self::internal_map(key_views(keys@), children@),
        }
    }

    /// Separators and children are ordered, and each child is well formed
    /// within the bounds its separators give it.
    pub open spec fn internal_ordered(
        ks: Seq<K::V>,
        children: Seq<Box<Node<K, V, M>>>,
        lo: Option<K::V>,
        hi: Option<K::V>,
    ) -> bool
        decreases children,
    {
        &&& children.len() == ks.len() + 1
        &&& sorted::<K>(ks)
        &&& forall|i: int| 0 <= i < ks.len() ==> strictly_above::<K>(lo, #[trigger] ks[i]) && below::<K>(hi, ks[i])
        &&& forall|i: int|
            0 <= i < children.len() ==> (#[trigger] children[i]).wf(child_lo(lo, ks, i), child_hi(hi, ks, i))
    }

    /// Each child of an ordered internal node is well formed within its range.
    proof fn lemma_child_wf(ks: Seq<K::V>, ch: Seq<Box<Node<K, V, M>>>, lo: Option<K::V>, hi: Option<K::V>, i: int)
        requires
            Self::internal_ordered(ks, ch, lo, hi),
            0 <= i < ch.len(),
        ensures
            ch[i].wf(child_lo(lo, ks, i), child_hi(hi, ks, i)),
            ch.len() == ks.len() + 1,
            sorted::<K>(ks),
    {
    }

    /// What a well-formed internal node is made of.
    proof fn lemma_wf_internal(self, lo: Option<K::V>, hi: Option<K::V>)
        requires
            self.wf(lo, hi),
            !self.is_leaf_node(),
        ensures
            Self::internal_ordered(self.key_seq(), self.children_of(), lo, hi),
            self.key_seq().len() < M,
            self.children_of().len() == self.key_seq().len() + 1,
            sorted::<K>(self.key_seq()),
    {
        match self {
            Node::Internal { keys, children } => {
                assert(Self::internal_ordered(key_views(keys@), children@, lo, hi));
                Self::lemma_child_wf(key_views(keys@), children@, lo, hi, 0);
            },
            Node::Leaf { .. } => {},
        }
    }

    /// Leaf keys are sorted and lie within the bounds; a leaf with a lower
    /// bound starts with it.
    pub open spec fn leaf_ordered(ks: Seq<K::V>, lo: Option<K::V>, hi: Option<K::V>) -> bool {
        &&& sorted::<K>(ks)
        &&& forall|i: int| 0 <= i < ks.len() ==> above::<K>(lo, #[trigger] ks[i]) && below::<K>(hi, ks[i])
        &&& (lo matches Some(l) ==> ks.len() > 0 && ks[0] == l)
    }

    /// The node is well formed within the key range `[lo, hi)`. Leaves hold
    /// at least one key; an internal node may hold no key and one child.
    pub open spec fn wf(self, lo: Option<K::V>, hi: Option<K::V>) -> bool
        decreases self,
    {
        match self {
            Node::Leaf { keys, values } => {
                &&& keys.len() == values.len()
                &&& 1 <= keys.len() < M
                &&& Self::leaf_ordered(key_views(keys@), lo, hi)
            },
            Node::Internal { keys, children } => {
                &&& keys.len() < M
                &&& Self::internal_ordered(key_views(keys@), children@, lo, hi)
            },
        }
    }
}


impl<K: OrderedKey, V, const M: usize> Node<K, V, M> {
    /// Every leaf below the node lies `h` levels down: a leaf for `h == 0`,
    /// else an internal node whose children are all balanced at `h - 1`.
    pub open spec fn balanced(self, h: nat) -> bool
        decreases self,
    {
        match self {
            Node::Leaf { .. } => h == 0,
            Node::Internal { children, .. } => {
                &&& h > 0
                &&& forall|i: int| 0 <= i < children.len() ==> (#[trigger] children@[i]).balanced((h - 1) as nat)
            },
        }
    }

    /// Each of a run of children is balanced at `h`.
    pub open spec fn children_balanced(ch: Seq<Box<Node<K, V, M>>>, h: nat) -> bool {
        forall|i: int| 0 <= i < ch.len() ==> (#[trigger] ch[i]).balanced(h)
    }

    proof fn lemma_children_balanced_subrange(ch: Seq<Box<Node<K, V, M>>>, h: nat, a: int, b: int)
        requires
            Self::children_balanced(ch, h),
            0 <= a <= b <= ch.len(),
        ensures
            Self::children_balanced(ch.subrange(a, b), h),
    {
        assert forall|i: int| 0 <= i < b - a implies (#[trigger] ch.subrange(a, b)[i]).balanced(h) by {
            assert(ch.subrange(a, b)[i] == ch[a + i]);
        }
    }

    proof fn lemma_children_balanced_insert(ch: Seq<Box<Node<K, V, M>>>, h: nat, j: int, x: Box<Node<K, V, M>>)
        requires
            Self::children_balanced(ch, h),
            x.balanced(h),
            0 <= j <= ch.len(),
        ensures
            Self::children_balanced(ch.insert(j, x), h),
    {
        assert forall|i: int| 0 <= i < ch.len() + 1 implies (#[trigger] ch.insert(j, x)[i]).balanced(h) by {
            if i < j {
                assert(ch.insert(j, x)[i] == ch[i]);
            } else if i > j {
                assert(ch.insert(j, x)[i] == ch[i - 1]);
            }
        }
    }

    /// An internal node whose children are balanced at `h - 1` is balanced at `h`.
    proof fn lemma_balanced_internal(self, h: nat)
        requires
            !self.is_leaf_node(),
            h > 0,
            Self::children_balanced(self.children_of(), (h - 1) as nat),
        ensures
            self.balanced(h),
    {
    }

    /// Every internal node below has a child.
    pub open spec fn has_children(self) -> bool
        decreases self,
    {
        match self {
            Node::Leaf { .. } => true,
            Node::Internal { children, .. } => {
                &&& children.len() >= 1
                &&& forall|i: int| 0 <= i < children.len() ==> (#[trigger] children@[i]).has_children()
            },
        }
    }

    /// The nodes down the first children hold a key each, down to a leaf.
    pub open spec fn spine_keyed(self) -> bool
        decreases self,
    {
        match self {
            Node::Leaf { .. } => true,
            Node::Internal { keys, children } => {
                &&& keys.len() >= 1
                &&& children.len() >= 1
                &&& children@[0].spine_keyed()
            },
        }
    }

    proof fn lemma_wf_has_children(self, lo: Option<K::V>, hi: Option<K::V>)
        requires
            self.wf(lo, hi),
        ensures
            self.has_children(),
        decreases self,
    {
        match self {
            Node::Leaf { .. } => {},
            Node::Internal { keys, children } => {
                let ks = key_views(keys@);
                assert forall|i: int| 0 <= i < children.len() implies (#[trigger] children@[i]).has_children() by {
                    Self::lemma_child_wf(ks, children@, lo, hi, i);
                    children@[i].lemma_wf_has_children(child_lo(lo, ks, i), child_hi(hi, ks, i));
                }
            },
        }
    }

    proof fn lemma_max_height_eq(ch: Seq<Box<Node<K, V, M>>>, x: nat)
        requires
            ch.len() >= 1,
            forall|i: int| 0 <= i < ch.len() ==> (#[trigger] ch[i]).height() == x,
        ensures
            Self::max_height(ch) == x,
        decreases ch.len(),
    {
        if ch.len() > 1 {
            let p = ch.drop_last();
            assert forall|i: int| 0 <= i < p.len() implies (#[trigger] p[i]).height() == x by {
                assert(p[i] == ch[i]);
            }
            Self::lemma_max_height_eq(p, x);
        } else {
            assert(ch.drop_last().len() == 0);
            assert(Self::max_height(ch.drop_last()) == 0);
        }
        assert(ch.last() == ch[ch.len() - 1]);
        assert(ch.last().height() == x);
    }

    /// A node balanced at `h`, whose internal nodes all have a child, has
    /// height `h`.
    proof fn lemma_balanced_height(self, h: nat)
        requires
            self.balanced(h),
            self.has_children(),
        ensures
            self.height() == h,
        decreases self,
    {
        match self {
            Node::Leaf { .. } => {},
            Node::Internal { keys, children } => {
                assert forall|i: int| 0 <= i < children.len() implies (#[trigger] children@[i]).height() == h - 1 by {
                    children@[i].lemma_balanced_height((h - 1) as nat);
                }
                Self::lemma_max_height_eq(children@, (h - 1) as nat);
            },
        }
    }

    /// A well-formed balanced node whose first children hold keys holds more
    /// entries than it has levels below it.
    proof fn lemma_spine_size(self, lo: Option<K::V>, hi: Option<K::V>, h: nat)
        requires
            self.wf(lo, hi),
            self.balanced(h),
            self.spine_keyed(),
        ensures
            h + 1 <= self.size_spec(),
        decreases self,
    {
        self.lemma_size_len(lo, hi);
        match self {
            Node::Leaf { .. } => {},
            Node::Internal { keys, children } => {
                let ks = key_views(keys@);
                let ch = children@;
                Self::lemma_child_wf(ks, ch, lo, hi, 0);
                Self::lemma_child_wf(ks, ch, lo, hi, 1);
                ch[0].lemma_spine_size(child_lo(lo, ks, 0), child_hi(hi, ks, 0), (h - 1) as nat);
                ch[1].lemma_size_len(child_lo(lo, ks, 1), child_hi(hi, ks, 1));
                Self::lemma_children_size_part(ch, 0);
                Self::lemma_children_size_part(ch, 1);
                assert(ch.subrange(0, 0) =~= Seq::<Box<Node<K, V, M>>>::empty());
            },
        }
    }
}

impl<K: OrderedKey, V, const M: usize> Node<K, V, M> {
    /// Every key that a well-formed node holds lies within its bounds.
    proof fn lemma_map_bounds(self, lo: Option<K::V>, hi: Option<K::V>)
        requires
            self.wf(lo, hi),
        ensures
            forall|k: K::V| #[trigger] self.map().contains_key(k) ==> above::<K>(lo, k) && below::<K>(hi, k),
        decreases self,
    {
        match self {
            Node::Leaf { keys, values } => {
                let ks = key_views(keys@);
                assert forall|k: K::V| #[trigger] self.map().contains_key(k) implies above::<K>(lo, k) && below::<K>(hi, k) by {
                    let i = choose|i: int| 0 <= i < ks.len() && ks[i] == k;
                    assert(above::<K>(lo, ks[i]));
                }
            },
            Node::Internal { keys, children } => {
                let ks = key_views(keys@);
                assert forall|k: K::V| #[trigger] self.map().contains_key(k) implies above::<K>(lo, k) && below::<K>(hi, k) by {
                    let c = route::<K>(ks, k) as int;
                    lemma_route_props::<K>(ks, k);
                    let child = children@[c];
                    assert(child.wf(child_lo(lo, ks, c), child_hi(hi, ks, c)));
                    child.lemma_map_bounds(child_lo(lo, ks, c), child_hi(hi, ks, c));
                    assert(child.map().contains_key(k));
                    if c > 0 {
                        assert(strictly_above::<K>(lo, ks[c - 1]));
                        if let Some(l) = lo {
                            if ks[c - 1] != k {
                                K::lemma_less_transitive(l, ks[c - 1], k);
                            }
                        }
                    }
                    if c < ks.len() {
                        assert(below::<K>(hi, ks[c]));
                        if let Some(h) = hi {
                            K::lemma_less_transitive(k, ks[c], h);
                        }
                    }
                }
            },
        }
    }

    /// A well-formed node holds at least one key.
    proof fn lemma_map_nonempty(self, lo: Option<K::V>, hi: Option<K::V>)
        requires
            self.wf(lo, hi),
        ensures
            exists|k: K::V| #[trigger] self.map().contains_key(k),
        decreases self,
    {
        match self {
            Node::Leaf { keys, values } => {
                let ks = key_views(keys@);
                assert(self.map().contains_key(ks[0]));
            },
            Node::Internal { keys, children } => {
                let ks = key_views(keys@);
                let child = children@[0];
                assert(child.wf(child_lo(lo, ks, 0), child_hi(hi, ks, 0)));
                child.lemma_map_nonempty(child_lo(lo, ks, 0), child_hi(hi, ks, 0));
                child.lemma_map_bounds(child_lo(lo, ks, 0), child_hi(hi, ks, 0));
                let k = choose|k: K::V| #[trigger] child.map().contains_key(k);
                lemma_route::<K>(ks, k, 0);
                assert(self.map().contains_key(k));
            },
        }
    }
}


impl<K: OrderedKey, V, const M: usize> Node<K, V, M> {
    /// The keys are sorted and fit the node's key array.
    pub open spec fn keys_ok(self) -> bool {
        sorted::<K>(self.key_seq()) && self.key_seq().len() < M
    }

    /// The key array of the node has no free entry.
    pub open spec fn spec_full(self) -> bool {
        self.key_seq().len() >= M - 1
    }

    fn is_leaf(&self) -> (r: bool)
        ensures
            r == self.is_leaf_node(),
    {
        match self {
            Node::Leaf { .. } => true,
            Node::Internal { .. } => false,
        }
    }

    fn num_keys(&self) -> (n: usize)
        ensures
            n == self.key_seq().len(),
    {
        match self {
            Node::Leaf { keys, .. } => keys.len(),
            Node::Internal { keys, .. } => keys.len(),
        }
    }

    fn is_full(&self) -> (r: bool)
        requires
            M >= 2,
        ensures
            r == self.spec_full(),
    {
        self.num_keys() >= M - 1
    }

    /// Looks `key` up among this node's keys, scanning from `from_index`.
    fn find_key_index_linear(&self, key: &K, kind: QueryKind, from_index: usize) -> (r: Option<usize>)
        requires
            self.keys_ok(),
            from_index <= self.key_seq().len(),
            forall|j: int| 0 <= j < from_index ==> K::spec_less(self.key_seq()[j], key@),
        ensures
            ({
                let ks = self.key_seq();
                let p = lower_bound::<K>(ks, key@) as int;
                let found = p < ks.len() && ks[p] == key@;
                match kind {
                    QueryKind::Point => r == if found { Some(p as usize) } else { None },
                    QueryKind::Seek => r == if p < ks.len() { Some(p as usize) } else { None },
                    QueryKind::Insert => r == if p < ks.len() || ks.len() < M - 1 {
                        Some(p as usize)
                    } else {
                        None
                    },
                    QueryKind::Child => r == Some(route::<K>(ks, key@) as usize),
                }
            }),
    {
        let keys = match self {
            Node::Leaf { keys, .. } => keys,
            Node::Internal { keys, .. } => keys,
        };
        let ghost ks = self.key_seq();
        assert(ks == key_views(keys@));
        let keycount = keys.len();
        let mut k = from_index;
        while k < keycount
            invariant
                from_index <= k <= keycount,
                keycount == ks.len(),
                ks == key_views(keys@),
                ks == self.key_seq(),
                sorted::<K>(ks),
                forall|j: int| 0 <= j < k ==> K::spec_less(ks[j], key@),
            decreases keycount - k,
        {
            match keys[k].compare(key) {
                KeyOrder::Greater => {
                    proof {
                        assert(ks[k as int] == keys@[k as int]@);
                        K::lemma_less_irreflexive(key@);
                        if K::spec_less(ks[k as int], key@) {
                            K::lemma_less_transitive(key@, ks[k as int], key@);
                        }
                        lemma_lower_bound::<K>(ks, key@, k as int);
                        lemma_route::<K>(ks, key@, k as int);
                    }
                    return match kind {
                        QueryKind::Point => None,
                        QueryKind::Seek => Some(k),
                        QueryKind::Insert | QueryKind::Child => Some(k),
                    };
                },
                KeyOrder::Equal => {
                    proof {
                        assert(ks[k as int] == keys@[k as int]@);
                        K::lemma_less_irreflexive(key@);
                        lemma_lower_bound::<K>(ks, key@, k as int);
                        if k + 1 < ks.len() {
                            assert(K::spec_less(ks[k as int], ks[k + 1]));
                        }
                        lemma_route::<K>(ks, key@, k + 1);
                    }
                    return match kind {
                        QueryKind::Point | QueryKind::Seek | QueryKind::Insert => Some(k),
                        QueryKind::Child => Some(k + 1),
                    };
                },
                KeyOrder::Less => {
                    assert(ks[k as int] == keys@[k as int]@);
                },
            }
            k = k + 1;
        }
        proof {
            lemma_lower_bound::<K>(ks, key@, keycount as int);
            lemma_route::<K>(ks, key@, keycount as int);
        }
        if keycount < M - 1 {
            // the next entry of the key array is free
            match kind {
                QueryKind::Point | QueryKind::Seek => None,
                QueryKind::Insert | QueryKind::Child => Some(keycount),
            }
        } else {
            match kind {
                QueryKind::Point => None,
                QueryKind::Seek | QueryKind::Insert => None,
                QueryKind::Child => Some(keycount),
            }
        }
    }

    /// Looks `key` up among this node's keys.
    fn find_key_index(&self, key: &K, kind: QueryKind) -> (r: Option<usize>)
        requires
            self.keys_ok(),
        ensures
            ({
                let ks = self.key_seq();
                let p = lower_bound::<K>(ks, key@) as int;
                let found = p < ks.len() && ks[p] == key@;
                match kind {
                    QueryKind::Point => r == if found { Some(p as usize) } else { None },
                    QueryKind::Seek => r == if p < ks.len() { Some(p as usize) } else { None },
                    QueryKind::Insert => r == if p < ks.len() || ks.len() < M - 1 {
                        Some(p as usize)
                    } else {
                        None
                    },
                    QueryKind::Child => r == Some(route::<K>(ks, key@) as usize),
                }
            }),
    {
        self.find_key_index_linear(key, kind, 0)
    }

    /// The child of an internal node whose range holds `key`.
    fn get_child_for_key(&self, key: &K) -> (r: &Box<Node<K, V, M>>)
        requires
            self.keys_ok(),
            self is Internal,
            self->children@.len() == self.key_seq().len() + 1,
        ensures
            route::<K>(self.key_seq(), key@) < self->children@.len(),
            *r == self->children@[route::<K>(self.key_seq(), key@) as int],
    {
        proof {
            lemma_route_props::<K>(self.key_seq(), key@);
        }
        let index = self.find_key_index(key, QueryKind::Child);
        let index = index.unwrap();
        match self {
            Node::Internal { children, .. } => &children[index],
            Node::Leaf { .. } => vstd::pervasive::unreached(),
        }
    }

    /// The value of `key` in a leaf; a lookup in an internal node finds nothing.
    fn get_value(&self, key: &K) -> (r: Option<&V>)
        requires
            self.keys_ok(),
            self matches Node::Leaf { keys, values } ==> keys@.len() == values@.len(),
        ensures
            self is Internal ==> r is None,
            self is Leaf ==> match r {
                Some(v) => self.map().contains_key(key@) && *v == self.map()[key@],
                None => !self.map().contains_key(key@),
            },
    {
        if !self.is_leaf() {
            return None;
        }
        let ghost ks = self.key_seq();
        proof {
            lemma_lower_bound_props::<K>(ks, key@);
        }
        if let Some(index) = self.find_key_index(key, QueryKind::Point) {
            match self {
                Node::Leaf { keys: _, values } => {
                    proof {
                        lemma_leaf_map_at::<K, V>(ks, values@, index as int);
                    }
                    Some(&values[index])
                },
                Node::Internal { .. } => vstd::pervasive::unreached(),
            }
        } else {
            proof {
                let p = lower_bound::<K>(ks, key@) as int;
                assert forall|i: int| 0 <= i < ks.len() implies ks[i] != key@ by {
                    K::lemma_less_irreflexive(key@);
                    if i >= p {
                        if i > p {
                            K::lemma_less_transitive(key@, ks[p], ks[i]);
                            assert(K::spec_less(ks[p], ks[i]));
                        }
                    }
                    if i > p && ks[p] != key@ {
                        K::lemma_less_transitive(key@, ks[p], ks[i]);
                    }
                }
            }
            None
        }
    }
}


// ---------------------------------------------------------------------------
// The tree
// ---------------------------------------------------------------------------

/// Summary figures of a tree: its number of entries and its number of levels.
#[derive(Debug)]
pub struct Stats {
    pub size: usize,
    pub depth: usize,
}

/// A B-tree map of fan-out `M`: every node holds at most `M - 1` keys.
#[derive(Debug)]
pub struct BTree<K: OrderedKey, V, const M: usize> {
    root: Option<Box<Node<K, V, M>>>,
}

impl<K: OrderedKey, V, const M: usize> BTree<K, V, M> {
    #[verifier::type_invariant]
    spec fn inv(self) -> bool {
        &&& M >= 3
        &&& match self.root {
            None => true,
            Some(r) => r.wf(None, None) && (M < 4 ==> r.is_leaf_node()) && r.spine_keyed() && exists|h: nat| r.balanced(h),
        }
    }

    /// The number of levels of the tree: nodes on a path from the root down to
    /// a leaf, 0 for an empty tree.
    pub closed spec fn levels(&self) -> nat {
        match self.root {
            None => 0,
            Some(r) => r.height() + 1,
        }
    }

    /// The number of keys in the root, 0 for an empty tree.
    pub closed spec fn root_key_count(&self) -> nat {
        match self.root {
            None => 0,
            Some(r) => r.key_seq().len(),
        }
    }

    /// Every leaf of the tree lies at the same depth.
    pub closed spec fn is_balanced(&self) -> bool {
        match self.root {
            None => true,
            Some(r) => exists|h: nat| r.balanced(h),
        }
    }

    /// The map that the tree holds.
    pub closed spec fn map_view(&self) -> Map<K::V, V> {
        match self.root {
            None => Map::empty(),
            Some(r) => r.map(),
        }
    }
}

impl<K: OrderedKey, V, const M: usize> View for BTree<K, V, M> {
    type V = Map<K::V, V>;

    open spec fn view(&self) -> Map<K::V, V> {
        self.map_view()
    }
}

impl<K: OrderedKey, V, const M: usize> BTree<K, V, M> {
    /// An empty tree; the fan-out must be at least 3.
    pub fn new() -> (t: Self)
        requires
            M >= 3,
        ensures
            t@ == Map::<K::V, V>::empty(),
            t.is_balanced(),
            t.levels() == 0,
            t.root_key_count() == 0,
    {
        BTree { root: None }
    }

    /// Whether the tree holds no entry.
    pub fn is_empty(&self) -> (r: bool)
        ensures
            r <==> self@ == Map::<K::V, V>::empty(),
    {
        proof {
            use_type_invariant(self);
            if self.root is Some {
                let root = self.root.unwrap();
                root.lemma_map_nonempty(None, None);
                let k = choose|k: K::V| #[trigger] root.map().contains_key(k);
                assert(!Map::<K::V, V>::empty().contains_key(k));
            }
        }
        self.root.is_none()
    }

    /// The value of `key`, if the tree holds it.
    pub fn get(&self, key: &K) -> (r: Option<&V>)
        ensures
            match r {
                Some(v) => self@.contains_key(key@) && *v == self@[key@],
                None => !self@.contains_key(key@),
            },
    {
        proof {
            use_type_invariant(self);
        }
        let mut current = match self.root.as_ref() {
            Some(root) => root,
            None => return None,
        };
        let ghost mut lo: Option<K::V> = None;
        let ghost mut hi: Option<K::V> = None;
        loop
            invariant
                current.wf(lo, hi),
                current.map().contains_key(key@) == self@.contains_key(key@),
                current.map().contains_key(key@) ==> current.map()[key@] == self@[key@],
            decreases current,
        {
            match &**current {
                Node::Internal { keys, children } => {
                    let ghost ks = key_views(keys@);
                    let next = current.get_child_for_key(key);
                    proof {
                        let c = route::<K>(ks, key@) as int;
                        current.lemma_wf_internal(lo, hi);
                        Node::<K, V, M>::lemma_child_wf(ks, children@, lo, hi, c);
                        lo = child_lo(lo, ks, c);
                        hi = child_hi(hi, ks, c);
                    }
                    current = next;
                },
                Node::Leaf { .. } => {
                    return current.get_value(key);
                },
            }
        }
    }
}


/// Where a key routes once a separator is inserted at position `c`.
proof fn lemma_route_insert<K: OrderedKey>(ks: Seq<K::V>, c: int, mk: K::V, x: K::V)
    requires
        sorted::<K>(ks),
        sorted::<K>(ks.insert(c, mk)),
        0 <= c <= ks.len(),
    ensures
        route::<K>(ks.insert(c, mk), x) == ({
            let r = route::<K>(ks, x) as int;
            if r < c {
                r
            } else if r > c {
                r + 1
            } else if key_le::<K>(mk, x) {
                c + 1
            } else {
                c
            }
        }),
{
    let ks2 = ks.insert(c, mk);
    lemma_route_props::<K>(ks, x);
    let r = route::<K>(ks, x) as int;
    if r < c {
        lemma_route::<K>(ks2, x, r);
    } else if r > c {
        assert(K::spec_less(ks2[c], ks2[c + 1]));
        if ks[c] != x {
            K::lemma_less_transitive(mk, ks[c], x);
        }
        assert forall|j: int| 0 <= j < r + 1 implies key_le::<K>(ks2[j], x) by {
            if j > c {
                assert(ks2[j] == ks[j - 1]);
            }
        }
        lemma_route::<K>(ks2, x, r + 1);
    } else if key_le::<K>(mk, x) {
        lemma_route::<K>(ks2, x, c + 1);
    } else {
        K::lemma_less_total(mk, x);
        lemma_route::<K>(ks2, x, c);
    }
}

/// Where a key routes among the first `s` separators.
proof fn lemma_route_prefix<K: OrderedKey>(ks: Seq<K::V>, s: int, x: K::V)
    requires
        sorted::<K>(ks),
        0 <= s <= ks.len(),
    ensures
        route::<K>(ks.subrange(0, s), x) == if route::<K>(ks, x) < s { route::<K>(ks, x) as int } else { s },
{
    lemma_route_props::<K>(ks, x);
    let r = route::<K>(ks, x) as int;
    let kl = ks.subrange(0, s);
    if r < s {
        lemma_route::<K>(kl, x, r);
    } else {
        lemma_route::<K>(kl, x, s);
    }
}

/// Where a key routes among the separators from position `s` on.
proof fn lemma_route_suffix<K: OrderedKey>(ks: Seq<K::V>, s: int, x: K::V)
    requires
        sorted::<K>(ks),
        0 <= s <= ks.len(),
    ensures
        route::<K>(ks.subrange(s, ks.len() as int), x) == if route::<K>(ks, x) >= s {
            route::<K>(ks, x) - s
        } else {
            0
        },
{
    lemma_route_props::<K>(ks, x);
    let r = route::<K>(ks, x) as int;
    let kr = ks.subrange(s, ks.len() as int);
    assert(sorted::<K>(kr)) by {
        assert forall|i: int, j: int| 0 <= i < j < kr.len() implies K::spec_less(kr[i], kr[j]) by {
            assert(kr[i] == ks[i + s]);
            assert(kr[j] == ks[j + s]);
        }
    }
    if r >= s {
        assert forall|j: int| 0 <= j < r - s implies key_le::<K>(kr[j], x) by {
            assert(kr[j] == ks[j + s]);
        }
        lemma_route::<K>(kr, x, r - s);
    } else {
        if s < ks.len() {
            if r < s {
                K::lemma_less_transitive(x, ks[r], ks[s]);
            }
        }
        lemma_route::<K>(kr, x, 0);
    }
}

impl<K: OrderedKey, V, const M: usize> Node<K, V, M> {
    /// Replacing the child that a key routes to by one that adds the key
    /// adds the key to the node's map.
    proof fn lemma_internal_update_child(
        ks: Seq<K::V>,
        ch: Seq<Box<Node<K, V, M>>>,
        lo: Option<K::V>,
        hi: Option<K::V>,
        c: int,
        new_child: Box<Node<K, V, M>>,
        k: K::V,
        v: V,
    )
        requires
            Self::internal_ordered(ks, ch, lo, hi),
            0 <= c < ch.len(),
            route::<K>(ks, k) == c,
            new_child.wf(child_lo(lo, ks, c), child_hi(hi, ks, c)),
            new_child.map() == ch[c].map().insert(k, v),
        ensures
            Self::internal_ordered(ks, ch.update(c, new_child), lo, hi),
            Self::internal_map(ks, ch.update(c, new_child)) == Self::internal_map(ks, ch).insert(k, v),
    {
        let ch2 = ch.update(c, new_child);
        assert forall|i: int| 0 <= i < ch2.len() implies (#[trigger] ch2[i]).wf(child_lo(lo, ks, i), child_hi(hi, ks, i)) by {
            if i != c {
                assert(ch[i].wf(child_lo(lo, ks, i), child_hi(hi, ks, i)));
            }
        }
        let m1 = Self::internal_map(ks, ch2);
        let m2 = Self::internal_map(ks, ch).insert(k, v);
        assert forall|x: K::V| #[trigger] m1.contains_key(x) <==> m2.contains_key(x) by {
            lemma_route_props::<K>(ks, x);
        }
        assert forall|x: K::V| #[trigger] m1.contains_key(x) implies m1[x] == m2[x] by {
            lemma_route_props::<K>(ks, x);
        }
        assert(m1 =~= m2);
    }
}

impl<K: OrderedKey, V, const M: usize> Node<K, V, M> {
    proof fn lemma_insert_child_at(
        ks: Seq<K::V>,
        ch: Seq<Box<Node<K, V, M>>>,
        lo: Option<K::V>,
        hi: Option<K::V>,
        c: int,
        left: Box<Node<K, V, M>>,
        mk: K::V,
        sib: Box<Node<K, V, M>>,
        k: K::V,
        v: V,
        x: K::V,
    )
        requires
            Self::internal_ordered(ks, ch, lo, hi),
            sorted::<K>(ks.insert(c, mk)),
            0 <= c < ch.len(),
            route::<K>(ks, k) == c,
            left.wf(child_lo(lo, ks, c), Some(mk)),
            sib.wf(Some(mk), child_hi(hi, ks, c)),
            left.map().union_prefer_right(sib.map()) == ch[c].map().insert(k, v),
        ensures
            ({
                let m1 = Self::internal_map(ks.insert(c, mk), ch.update(c, left).insert(c + 1, sib));
                let m2 = Self::internal_map(ks, ch).insert(k, v);
                &&& m1.contains_key(x) == m2.contains_key(x)
                &&& m1.contains_key(x) ==> m1[x] == m2[x]
            }),
    {
        let ks2 = ks.insert(c, mk);
        let ch2 = ch.update(c, left).insert(c + 1, sib);
        let m0 = Self::internal_map(ks, ch);
        let m1 = Self::internal_map(ks2, ch2);
        let m2 = m0.insert(k, v);
        let u = left.map().union_prefer_right(sib.map());
        left.lemma_map_bounds(child_lo(lo, ks, c), Some(mk));
        sib.lemma_map_bounds(Some(mk), child_hi(hi, ks, c));
        lemma_route_props::<K>(ks, x);
        lemma_route_insert::<K>(ks, c, mk, x);
        K::lemma_less_irreflexive(x);
        let r = route::<K>(ks, x) as int;
        let r2 = route::<K>(ks2, x) as int;
        assert(ch2.len() == ch.len() + 1);
        assert(m0.contains_key(x) == ch[r].map().contains_key(x));
        assert(m0.contains_key(x) ==> m0[x] == ch[r].map()[x]);
        assert(m1.contains_key(x) == ch2[r2].map().contains_key(x));
        assert(m1.contains_key(x) ==> m1[x] == ch2[r2].map()[x]);
        if r < c {
            assert(ch2[r] == ch[r]);
            assert(x != k);
        } else if r > c {
            assert(ch2[r + 1] == ch[r]);
            assert(x != k);
        } else {
            assert(u.contains_key(x) == m2.contains_key(x));
            assert(u.contains_key(x) ==> u[x] == m2[x]);
            if key_le::<K>(mk, x) {
                assert(ch2[c + 1] == sib);
                if left.map().contains_key(x) {
                    assert(K::spec_less(x, mk));
                    if mk != x {
                        K::lemma_less_transitive(x, mk, x);
                    }
                }
                assert(!left.map().contains_key(x));
                assert(u.contains_key(x) == sib.map().contains_key(x));
            } else {
                assert(ch2[c] == left);
                assert(!sib.map().contains_key(x));
                assert(u.contains_key(x) == left.map().contains_key(x));
            }
        }
    }

    /// A child that a key routes to, once split in two around `mk`, takes the
    /// separator `mk` and the new sibling next to it; the node's map gains the key.
    proof fn lemma_internal_insert_child(
        ks: Seq<K::V>,
        ch: Seq<Box<Node<K, V, M>>>,
        lo: Option<K::V>,
        hi: Option<K::V>,
        c: int,
        left: Box<Node<K, V, M>>,
        mk: K::V,
        sib: Box<Node<K, V, M>>,
        k: K::V,
        v: V,
    )
        requires
            Self::internal_ordered(ks, ch, lo, hi),
            0 <= c < ch.len(),
            route::<K>(ks, k) == c,
            strictly_above::<K>(child_lo(lo, ks, c), mk),
            below::<K>(child_hi(hi, ks, c), mk),
            left.wf(child_lo(lo, ks, c), Some(mk)),
            sib.wf(Some(mk), child_hi(hi, ks, c)),
            left.map().union_prefer_right(sib.map()) == ch[c].map().insert(k, v),
        ensures
            Self::internal_ordered(ks.insert(c, mk), ch.update(c, left).insert(c + 1, sib), lo, hi),
            Self::internal_map(ks.insert(c, mk), ch.update(c, left).insert(c + 1, sib))
                == Self::internal_map(ks, ch).insert(k, v),
            lower_bound::<K>(ks, mk) == c,
            route::<K>(ks, mk) == c,
    {
        let ks2 = ks.insert(c, mk);
        let ch2 = ch.update(c, left).insert(c + 1, sib);
        // the separator falls strictly between its neighbours
        assert forall|i: int, j: int| 0 <= i < j < ks2.len() implies K::spec_less(ks2[i], ks2[j]) by {
            if i < c && j == c {
                if i < c - 1 {
                    K::lemma_less_transitive(ks[i], ks[c - 1], mk);
                }
            } else if i < c && j > c {
                if j - 1 > c {
                    K::lemma_less_transitive(mk, ks[c], ks[j - 1]);
                }
                if i < c - 1 {
                    K::lemma_less_transitive(ks[i], ks[c - 1], mk);
                }
                K::lemma_less_transitive(ks[i], mk, ks[j - 1]);
            } else if i == c && j > c {
                if j - 1 > c {
                    K::lemma_less_transitive(mk, ks[c], ks[j - 1]);
                }
            }
        }
        assert forall|i: int| 0 <= i < ks2.len() implies strictly_above::<K>(lo, #[trigger] ks2[i]) && below::<K>(hi, ks2[i]) by {
            if i == c {
                if c > 0 {
                    if let Some(l) = lo {
                        K::lemma_less_transitive(l, ks[c - 1], mk);
                    }
                }
                if c < ks.len() {
                    if let Some(h) = hi {
                        K::lemma_less_transitive(mk, ks[c], h);
                    }
                }
            } else if i > c {
                assert(ks2[i] == ks[i - 1]);
            }
        }
        assert forall|i: int| 0 <= i < ch2.len() implies (#[trigger] ch2[i]).wf(child_lo(lo, ks2, i), child_hi(hi, ks2, i)) by {
            if i < c {
                assert(ch[i].wf(child_lo(lo, ks, i), child_hi(hi, ks, i)));
            } else if i > c + 1 {
                assert(ch2[i] == ch[i - 1]);
                assert(ch[i - 1].wf(child_lo(lo, ks, i - 1), child_hi(hi, ks, i - 1)));
                assert(child_lo(lo, ks2, i) == child_lo(lo, ks, i - 1));
                assert(child_hi(hi, ks2, i) == child_hi(hi, ks, i - 1));
            } else if i == c + 1 {
                assert(child_hi(hi, ks2, i) == child_hi(hi, ks, c));
            }
        }
        let m1 = Self::internal_map(ks2, ch2);
        let m0 = Self::internal_map(ks, ch);
        let m2 = m0.insert(k, v);
        left.lemma_map_bounds(child_lo(lo, ks, c), Some(mk));
        sib.lemma_map_bounds(Some(mk), child_hi(hi, ks, c));
        assert forall|x: K::V| #[trigger] m1.contains_key(x) <==> m2.contains_key(x) by {
            Self::lemma_insert_child_at(ks, ch, lo, hi, c, left, mk, sib, k, v, x);
        }
        assert forall|x: K::V| #[trigger] m1.contains_key(x) implies m1[x] == m2[x] by {
            Self::lemma_insert_child_at(ks, ch, lo, hi, c, left, mk, sib, k, v, x);
        }
        assert(m1 =~= m2);
        // where the separator lands
        assert forall|j: int| 0 <= j < c implies K::spec_less(ks[j], mk) by {
            if j < c - 1 {
                K::lemma_less_transitive(ks[j], ks[c - 1], mk);
            }
        }
        if c < ks.len() && K::spec_less(ks[c], mk) {
            K::lemma_less_transitive(mk, ks[c], mk);
            K::lemma_less_irreflexive(mk);
        }
        lemma_lower_bound::<K>(ks, mk, c);
        lemma_route::<K>(ks, mk, c);
    }

    /// Splitting an internal node around separator `s` leaves two ordered
    /// nodes that hold its map between them.
    proof fn lemma_internal_split(
        ks: Seq<K::V>,
        ch: Seq<Box<Node<K, V, M>>>,
        lo: Option<K::V>,
        hi: Option<K::V>,
        s: int,
    )
        requires
            Self::internal_ordered(ks, ch, lo, hi),
            0 <= s < ks.len(),
        ensures
            Self::internal_ordered(ks.subrange(0, s), ch.subrange(0, s + 1), lo, Some(ks[s])),
            Self::internal_ordered(
                ks.subrange(s + 1, ks.len() as int),
                ch.subrange(s + 1, ch.len() as int),
                Some(ks[s]),
                hi,
            ),
            Self::internal_map(ks.subrange(0, s), ch.subrange(0, s + 1)).union_prefer_right(
                Self::internal_map(ks.subrange(s + 1, ks.len() as int), ch.subrange(s + 1, ch.len() as int)),
            ) == Self::internal_map(ks, ch),
    {
        let n = ks.len() as int;
        let kl = ks.subrange(0, s);
        let cl = ch.subrange(0, s + 1);
        let kr = ks.subrange(s + 1, n);
        let cr = ch.subrange(s + 1, n + 1);
        let ml = Self::internal_map(kl, cl);
        let mr = Self::internal_map(kr, cr);
        let m = Self::internal_map(ks, ch);
        assert forall|i: int, j: int| 0 <= i < j < kr.len() implies K::spec_less(kr[i], kr[j]) by {
            assert(kr[i] == ks[i + s + 1]);
            assert(kr[j] == ks[j + s + 1]);
        }
        assert forall|i: int| 0 <= i < kl.len() implies strictly_above::<K>(lo, #[trigger] kl[i]) && below::<K>(Some(ks[s]), kl[i]) by {
            assert(kl[i] == ks[i]);
        }
        assert forall|i: int| 0 <= i < kr.len() implies strictly_above::<K>(Some(ks[s]), #[trigger] kr[i]) && below::<K>(hi, kr[i]) by {
            assert(kr[i] == ks[i + s + 1]);
        }
        assert forall|i: int| 0 <= i < cl.len() implies (#[trigger] cl[i]).wf(child_lo(lo, kl, i), child_hi(Some(ks[s]), kl, i)) by {
            assert(cl[i] == ch[i]);
            assert(ch[i].wf(child_lo(lo, ks, i), child_hi(hi, ks, i)));
            assert(child_lo(lo, kl, i) == child_lo(lo, ks, i));
            assert(child_hi(Some(ks[s]), kl, i) == child_hi(hi, ks, i));
        }
        assert forall|i: int| 0 <= i < cr.len() implies (#[trigger] cr[i]).wf(child_lo(Some(ks[s]), kr, i), child_hi(hi, kr, i)) by {
            assert(cr[i] == ch[i + s + 1]);
            assert(ch[i + s + 1].wf(child_lo(lo, ks, i + s + 1), child_hi(hi, ks, i + s + 1)));
            assert(child_lo(Some(ks[s]), kr, i) == child_lo(lo, ks, i + s + 1));
            assert(child_hi(hi, kr, i) == child_hi(hi, ks, i + s + 1));
        }
        let u = ml.union_prefer_right(mr);
        ch[s].lemma_map_bounds(child_lo(lo, ks, s), child_hi(hi, ks, s));
        ch[s + 1].lemma_map_bounds(child_lo(lo, ks, s + 1), child_hi(hi, ks, s + 1));
        assert forall|x: K::V| #[trigger] u.contains_key(x) <==> m.contains_key(x) by {
            lemma_route_props::<K>(ks, x);
            lemma_route_prefix::<K>(ks, s, x);
            lemma_route_suffix::<K>(ks, s + 1, x);
            K::lemma_less_irreflexive(x);
            let r = route::<K>(ks, x) as int;
            if r <= s {
                if ch[s + 1].map().contains_key(x) {
                    assert(key_le::<K>(ks[s], x));
                    if r < s {
                        K::lemma_less_transitive(x, ks[r], ks[s]);
                    }
                    if ks[s] != x {
                        K::lemma_less_transitive(x, ks[s], x);
                    }
                }
            } else {
                if ch[s].map().contains_key(x) {
                    if ks[s] != x {
                        K::lemma_less_transitive(x, ks[s], x);
                    }
                }
            }
        }
        assert forall|x: K::V| #[trigger] u.contains_key(x) implies u[x] == m[x] by {
            lemma_route_props::<K>(ks, x);
            lemma_route_prefix::<K>(ks, s, x);
            lemma_route_suffix::<K>(ks, s + 1, x);
            K::lemma_less_irreflexive(x);
            let r = route::<K>(ks, x) as int;
            if r <= s {
                if ch[s + 1].map().contains_key(x) {
                    assert(key_le::<K>(ks[s], x));
                    if r < s {
                        K::lemma_less_transitive(x, ks[r], ks[s]);
                    }
                    if ks[s] != x {
                        K::lemma_less_transitive(x, ks[s], x);
                    }
                }
            }
        }
        assert(u =~= m);
    }
}

impl<K: OrderedKey, V, const M: usize> Node<K, V, M> {
    /// The node's keys.
    pub open spec fn keys_of(self) -> Seq<K> {
        match self {
            Node::Leaf { keys, .. } => keys@,
            Node::Internal { keys, .. } => keys@,
        }
    }

    /// The values of a leaf; an internal node has none.
    pub open spec fn values_of(self) -> Seq<V> {
        match self {
            Node::Leaf { values, .. } => values@,
            Node::Internal { .. } => Seq::empty(),
        }
    }

    /// The children of an internal node; a leaf has none.
    pub open spec fn children_of(self) -> Seq<Box<Node<K, V, M>>> {
        match self {
            Node::Leaf { .. } => Seq::empty(),
            Node::Internal { children, .. } => children@,
        }
    }
}

impl<K: OrderedKey, V, const M: usize> Node<K, V, M> {
    fn new_leaf() -> (r: Box<Self>)
        ensures
            *r matches Node::Leaf { keys, values } && keys@.len() == 0 && values@.len() == 0,
    {
        Self::new_leaf_with(Vec::new(), Vec::new())
    }

    fn new_leaf_with(keys: Vec<K>, vals: Vec<V>) -> (r: Box<Self>)
        ensures
            *r == (Node::<K, V, M>::Leaf { keys, values: vals }),
    {
        Box::new(Node::Leaf { keys, values: vals })
    }

    fn new_internal() -> (r: Box<Self>)
        ensures
            *r matches Node::Internal { keys, children } && keys@.len() == 0 && children@.len() == 0,
    {
        Self::new_internal_with(Vec::new(), Vec::new())
    }

    fn new_internal_with(keys: Vec<K>, children: Vec<Box<Node<K, V, M>>>) -> (r: Box<Self>)
        ensures
            *r == (Node::<K, V, M>::Internal { keys, children }),
    {
        Box::new(Node::Internal { keys, children })
    }

    /// Inserts a key and its value into a leaf with room, at its sorted position.
    fn insert_key_value(&mut self, key: K, value: V)
        requires
            old(self).is_leaf_node(),
            old(self).keys_ok(),
            !old(self).spec_full(),
            old(self).keys_of().len() == old(self).values_of().len(),
        ensures
            ({
                let p = lower_bound::<K>(old(self).key_seq(), key@) as int;
                &&& final(self).is_leaf_node()
                &&& final(self).keys_of() == old(self).keys_of().insert(p, key)
                &&& final(self).values_of() == old(self).values_of().insert(p, value)
            }),
    {
        let ghost ks = self.key_seq();
        proof {
            lemma_lower_bound_props::<K>(ks, key@);
            let p = lower_bound::<K>(ks, key@) as int;
            if p < ks.len() && K::spec_less(ks[p], key@) {
                K::lemma_less_irreflexive(key@);
                if ks[p] != key@ {
                    K::lemma_less_transitive(key@, ks[p], key@);
                }
            }
            assert(p < ks.len() ==> ks[p] == old(self).keys_of()[p]@);
        }
        let index = match self.find_key_index(&key, QueryKind::Insert) {
            Some(i) => i,
            None => 0,
        };
        self.insert_key_value_atindex(key, value, index);
    }

    /// Inserts a key and its value into a leaf with room, at `index`, or just
    /// after it where the key there is smaller.
    fn insert_key_value_atindex(&mut self, key: K, value: V, index: usize)
        requires
            old(self).is_leaf_node(),
            old(self).keys_of().len() == old(self).values_of().len(),
            index <= old(self).keys_of().len(),
            old(self).keys_of().len() < M - 1,
        ensures
            ({
                let ks = old(self).keys_of();
                let j = if index < ks.len() && K::spec_less(ks[index as int]@, key@) {
                    index + 1
                } else {
                    index as int
                };
                &&& final(self).is_leaf_node()
                &&& final(self).keys_of() == ks.insert(j, key)
                &&& final(self).values_of() == old(self).values_of().insert(j, value)
            }),
    {
        match self {
            Node::Leaf { keys, values } => {
                let mut index = index;
                if index < keys.len() && keys[index].compare(&key) == KeyOrder::Less {
                    index += 1;
                }
                // the entries from `index` on move up by one
                keys.insert(index, key);
                values.insert(index, value);
            },
            Node::Internal { .. } => {
                proof {
                    assert(false);
                }
            },
        }
    }

    /// Inserts a key into the key array at `index`, moving later keys up.
    fn insert_key(&mut self, index: usize, key: K) -> (r: Result<(), &'static str>)
        requires
            M >= 2,
            !old(self).spec_full(),
            index <= old(self).key_seq().len(),
        ensures
            r is Ok,
            old(self).is_leaf_node() ==> final(self).is_leaf_node()
                && final(self).keys_of() == old(self).keys_of().insert(index as int, key)
                && final(self).values_of() == old(self).values_of(),
            !old(self).is_leaf_node() ==> !final(self).is_leaf_node()
                && final(self).keys_of() == old(self).keys_of().insert(index as int, key)
                && final(self).children_of() == old(self).children_of(),
    {
        if self.is_full() {
            proof {
                assert(false);
            }
        }
        match self {
            Node::Leaf { keys, .. } => {
                keys.insert(index, key);
                Ok(())
            },
            Node::Internal { keys, .. } => {
                keys.insert(index, key);
                Ok(())
            },
        }
    }

    /// Inserts a child into an internal node at `index`, moving later children up.
    fn insert_child(&mut self, index: usize, child: Box<Node<K, V, M>>) -> (r: Result<(), &'static str>)
        requires
            !old(self).is_leaf_node() ==> old(self).keys_of().len() + 1 < M
                && old(self).children_of().len() < M
                && index <= old(self).children_of().len(),
        ensures
            old(self).is_leaf_node() ==> r == Err::<(), &'static str>("Cannot insert child into Leaf node")
                && *final(self) == *old(self),
            !old(self).is_leaf_node() ==> r is Ok && !final(self).is_leaf_node()
                && final(self).keys_of() == old(self).keys_of()
                && final(self).children_of() == old(self).children_of().insert(index as int, child),
    {
        if self.is_leaf() {
            return Err("Cannot insert child into Leaf node");
        }
        match self {
            Node::Internal { children, .. } => {
                children.insert(index, child);
                Ok(())
            },
            Node::Leaf { .. } => Err("Cannot insert child into Leaf node"),
        }
    }

    /// Splits a full node at `median_index`: the node keeps what lies before
    /// the median key, and the new sibling receives the rest. A leaf copies
    /// its median key up; an internal node hands it up.
    fn split(&mut self, median_index: usize) -> (r: Result<(K, Box<Node<K, V, M>>), &'static str>)
        requires
            M >= 2,
            old(self).spec_full() ==> median_index < old(self).key_seq().len(),
            old(self).is_leaf_node() ==> old(self).keys_of().len() == old(self).values_of().len(),
            !old(self).is_leaf_node() ==> old(self).children_of().len() == old(self).keys_of().len() + 1,
        ensures
            !old(self).spec_full() ==> r == Err::<(K, Box<Node<K, V, M>>), &'static str>("Node is not full")
                && *final(self) == *old(self),
            old(self).spec_full() ==> r is Ok,
            old(self).spec_full() && old(self).is_leaf_node() ==> ({
                let k0 = old(self).keys_of();
                let v0 = old(self).values_of();
                let (mk, sib) = r->Ok_0;
                &&& mk@ == k0[median_index as int]@
                &&& final(self).is_leaf_node()
                &&& final(self).keys_of() == k0.subrange(0, median_index as int)
                &&& final(self).values_of() == v0.subrange(0, median_index as int)
                &&& sib.is_leaf_node()
                &&& sib.keys_of() == k0.subrange(median_index as int, k0.len() as int)
                &&& sib.values_of() == v0.subrange(median_index as int, v0.len() as int)
            }),
            old(self).spec_full() && !old(self).is_leaf_node() ==> ({
                let k0 = old(self).keys_of();
                let c0 = old(self).children_of();
                let (mk, sib) = r->Ok_0;
                &&& mk == k0[median_index as int]
                &&& !final(self).is_leaf_node()
                &&& final(self).keys_of() == k0.subrange(0, median_index as int)
                &&& final(self).children_of() == c0.subrange(0, median_index + 1)
                &&& !sib.is_leaf_node()
                &&& sib.keys_of() == k0.subrange(median_index + 1, k0.len() as int)
                &&& sib.children_of() == c0.subrange(median_index + 1, c0.len() as int)
            }),
    {
        if !self.is_full() {
            return Err("Node is not full");
        }
        match self {
            Node::Leaf { keys, values } => {
                let median_key = keys[median_index].clone_key();
                let new_keys = keys.split_off(median_index);
                let new_vals = values.split_off(median_index);
                Ok((median_key, Node::new_leaf_with(new_keys, new_vals)))
            },
            Node::Internal { keys, children } => {
                let n = keys.len();
                assert(median_index < n);
                let new_keys = keys.split_off(median_index + 1);
                let median_key = keys.pop().unwrap();
                let new_children = children.split_off(median_index + 1);
                Ok((median_key, Node::new_internal_with(new_keys, new_children)))
            },
        }
    }

    /// The child at `index` of an internal node, if there is one.
    fn get_child(&self, index: usize) -> (r: Option<&Node<K, V, M>>)
        ensures
            self.is_leaf_node() ==> r is None,
            !self.is_leaf_node() ==> r == if index < self.children_of().len() {
                Some(&*self.children_of()[index as int])
            } else {
                None
            },
    {
        match self {
            Node::Internal { children, .. } => {
                if index < children.len() {
                    Some(&*children[index])
                } else {
                    None
                }
            },
            Node::Leaf { .. } => None,
        }
    }
}

proof fn lemma_key_views_insert<K: OrderedKey>(keys: Seq<K>, p: int, key: K)
    requires
        0 <= p <= keys.len(),
    ensures
        key_views(keys.insert(p, key)) == key_views(keys).insert(p, key@),
{
    assert(key_views(keys.insert(p, key)) =~= key_views(keys).insert(p, key@));
}

proof fn lemma_key_views_subrange<K: OrderedKey>(keys: Seq<K>, a: int, b: int)
    requires
        0 <= a <= b <= keys.len(),
    ensures
        key_views(keys.subrange(a, b)) == key_views(keys).subrange(a, b),
{
    assert(key_views(keys.subrange(a, b)) =~= key_views(keys).subrange(a, b));
}

impl<K: OrderedKey, V, const M: usize> Node<K, V, M> {
    /// A key inserted at its sorted position keeps a leaf ordered.
    proof fn lemma_leaf_insert_ordered(ks: Seq<K::V>, lo: Option<K::V>, hi: Option<K::V>, p: int, k: K::V)
        requires
            Self::leaf_ordered(ks, lo, hi),
            ks.len() > 0,
            above::<K>(lo, k),
            below::<K>(hi, k),
            0 <= p <= ks.len(),
            forall|j: int| 0 <= j < p ==> K::spec_less(ks[j], k),
            p < ks.len() ==> K::spec_less(k, ks[p]),
            sorted::<K>(ks.insert(p, k)),
        ensures
            Self::leaf_ordered(ks.insert(p, k), lo, hi),
            lo is Some ==> p >= 1,
    {
        let ks2 = ks.insert(p, k);
        if let Some(l) = lo {
            if p == 0 {
                K::lemma_less_irreflexive(k);
                if l != k {
                    K::lemma_less_transitive(k, l, k);
                }
            }
        }
        assert forall|i: int| 0 <= i < ks2.len() implies above::<K>(lo, #[trigger] ks2[i]) && below::<K>(hi, ks2[i]) by {
            if i < p {
                assert(ks2[i] == ks[i]);
            } else if i > p {
                assert(ks2[i] == ks[i - 1]);
            }
        }
    }

    /// A sorted run of leaf keys splits into two ordered leaves around `ks[s]`.
    proof fn lemma_leaf_split_ordered(ks: Seq<K::V>, lo: Option<K::V>, hi: Option<K::V>, s: int)
        requires
            Self::leaf_ordered(ks, lo, hi),
            1 <= s < ks.len(),
        ensures
            Self::leaf_ordered(ks.subrange(0, s), lo, Some(ks[s])),
            Self::leaf_ordered(ks.subrange(s, ks.len() as int), Some(ks[s]), hi),
            strictly_above::<K>(lo, ks[s]),
            below::<K>(hi, ks[s]),
    {
        let kl = ks.subrange(0, s);
        let kr = ks.subrange(s, ks.len() as int);
        assert(K::spec_less(ks[0], ks[s]));
        if let Some(l) = lo {
            assert(ks[0] == l);
        }
        assert forall|i: int| 0 <= i < kl.len() implies above::<K>(lo, #[trigger] kl[i]) && below::<K>(Some(ks[s]), kl[i]) by {
            assert(kl[i] == ks[i]);
        }
        assert forall|i: int, j: int| 0 <= i < j < kr.len() implies K::spec_less(kr[i], kr[j]) by {
            assert(kr[i] == ks[i + s]);
            assert(kr[j] == ks[j + s]);
        }
        assert forall|i: int| 0 <= i < kr.len() implies above::<K>(Some(ks[s]), #[trigger] kr[i]) && below::<K>(hi, kr[i]) by {
            assert(kr[i] == ks[i + s]);
        }
    }
}

impl<K: OrderedKey, V, const M: usize> Node<K, V, M> {
    /// A full leaf that takes a new key and is split in two around the key at
    /// position `s` of the grown key sequence yields two well-formed leaves
    /// that hold the grown map between them.
    proof fn lemma_leaf_split_insert(
        old_node: Self,
        lo: Option<K::V>,
        hi: Option<K::V>,
        key: K,
        value: V,
        s: int,
        left: Self,
        right: Self,
        median: K::V,
    )
        requires
            old_node.wf(lo, hi),
            old_node.is_leaf_node(),
            above::<K>(lo, key@),
            below::<K>(hi, key@),
            !old_node.map().contains_key(key@),
            ({
                let ks = old_node.key_seq();
                let p = lower_bound::<K>(ks, key@) as int;
                let kk = old_node.keys_of().insert(p, key);
                let vv = old_node.values_of().insert(p, value);
                &&& 1 <= s < kk.len()
                &&& s < M
                &&& kk.len() - s < M
                &&& left.is_leaf_node()
                &&& right.is_leaf_node()
                &&& left.keys_of() == kk.subrange(0, s)
                &&& left.values_of() == vv.subrange(0, s)
                &&& right.keys_of() == kk.subrange(s, kk.len() as int)
                &&& right.values_of() == vv.subrange(s, vv.len() as int)
                &&& median == kk[s]@
            }),
        ensures
            left.wf(lo, Some(median)),
            right.wf(Some(median), hi),
            strictly_above::<K>(lo, median),
            below::<K>(hi, median),
            left.map().union_prefer_right(right.map()) == old_node.map().insert(key@, value),
    {
        let ks = old_node.key_seq();
        let k0 = old_node.keys_of();
        let vs = old_node.values_of();
        let p = lower_bound::<K>(ks, key@) as int;
        lemma_lower_bound_props::<K>(ks, key@);
        K::lemma_less_irreflexive(key@);
        if p < ks.len() {
            lemma_leaf_map_at::<K, V>(ks, vs, p);
            assert(ks[p] != key@);
        }
        lemma_leaf_insert::<K, V>(ks, vs, p, key@, value);
        Self::lemma_leaf_insert_ordered(ks, lo, hi, p, key@);
        lemma_key_views_insert::<K>(k0, p, key);
        let kk = k0.insert(p, key);
        let ks2 = ks.insert(p, key@);
        let vs2 = vs.insert(p, value);
        lemma_key_views_subrange::<K>(kk, 0, s);
        lemma_key_views_subrange::<K>(kk, s, kk.len() as int);
        lemma_leaf_split::<K, V>(ks2, vs2, s);
        Self::lemma_leaf_split_ordered(ks2, lo, hi, s);
        assert(left.key_seq() == ks2.subrange(0, s));
        assert(right.key_seq() == ks2.subrange(s, ks2.len() as int));
    }

    /// A full internal node whose child `c` split around `mck` into the
    /// current child and `nc`, split in turn around the separator at position
    /// `s` of the grown separator sequence, yields two well-formed nodes that
    /// hold the grown map between them.
    proof fn lemma_internal_split_insert(
        old_node: Self,
        lo: Option<K::V>,
        hi: Option<K::V>,
        c: int,
        ch1: Seq<Box<Node<K, V, M>>>,
        mck: K,
        nc: Box<Node<K, V, M>>,
        key: K,
        value: V,
        s: int,
        left: Self,
        right: Self,
        median: K,
    )
        requires
            old_node.wf(lo, hi),
            !old_node.is_leaf_node(),
            route::<K>(old_node.key_seq(), key@) == c,
            0 <= c < old_node.children_of().len(),
            ch1.len() == old_node.children_of().len(),
            ch1 == old_node.children_of().update(c, ch1[c]),
            ({
                let ks = old_node.key_seq();
                let clo = child_lo(lo, ks, c);
                let chi = child_hi(hi, ks, c);
                &&& strictly_above::<K>(clo, mck@)
                &&& below::<K>(chi, mck@)
                &&& ch1[c].wf(clo, Some(mck@))
                &&& nc.wf(Some(mck@), chi)
                &&& ch1[c].map().union_prefer_right(nc.map()) == old_node.children_of()[c].map().insert(key@, value)
            }),
            ({
                let kk = old_node.keys_of().insert(c, mck);
                let cc = ch1.insert(c + 1, nc);
                &&& 1 <= s < kk.len() - 1
                &&& s < M
                &&& kk.len() - s - 1 < M
                &&& !left.is_leaf_node()
                &&& !right.is_leaf_node()
                &&& left.keys_of() == kk.subrange(0, s)
                &&& left.children_of() == cc.subrange(0, s + 1)
                &&& right.keys_of() == kk.subrange(s + 1, kk.len() as int)
                &&& right.children_of() == cc.subrange(s + 1, cc.len() as int)
                &&& median == kk[s]
            }),
        ensures
            left.wf(lo, Some(median@)),
            right.wf(Some(median@), hi),
            strictly_above::<K>(lo, median@),
            below::<K>(hi, median@),
            left.map().union_prefer_right(right.map()) == old_node.map().insert(key@, value),
    {
        let ks = old_node.key_seq();
        let k0 = old_node.keys_of();
        let ch = old_node.children_of();
        Self::lemma_internal_insert_child(ks, ch, lo, hi, c, ch1[c], mck@, nc, key@, value);
        lemma_key_views_insert::<K>(k0, c, mck);
        let kk = k0.insert(c, mck);
        let ks2 = ks.insert(c, mck@);
        let cc = ch1.insert(c + 1, nc);
        assert(cc == ch.update(c, ch1[c]).insert(c + 1, nc));
        lemma_key_views_subrange::<K>(kk, 0, s);
        lemma_key_views_subrange::<K>(kk, s + 1, kk.len() as int);
        Self::lemma_internal_split(ks2, cc, lo, hi, s);
        assert(left.key_seq() == ks2.subrange(0, s));
        assert(right.key_seq() == ks2.subrange(s + 1, ks2.len() as int));
        assert(median@ == ks2[s]);
    }
}

impl<K: OrderedKey, V, const M: usize> Node<K, V, M> {
    /// The leaf halves that `split_leaf_insert` builds, in either of its two
    /// cases, are a split of the grown leaf.
    proof fn lemma_leaf_split_cases(
        old_node: Self,
        lo: Option<K::V>,
        hi: Option<K::V>,
        key: K,
        value: V,
        t: int,
        left: Self,
        right: Self,
        median: K::V,
    )
        requires
            old_node.wf(lo, hi),
            old_node.is_leaf_node(),
            old_node.spec_full(),
            M >= 4,
            t == (M - 1) / 2 + 1,
            above::<K>(lo, key@),
            below::<K>(hi, key@),
            !old_node.map().contains_key(key@),
            left.is_leaf_node(),
            right.is_leaf_node(),
            median == old_node.keys_of()[t]@,
            ({
                let k0 = old_node.keys_of();
                let vs = old_node.values_of();
                let p = lower_bound::<K>(old_node.key_seq(), key@) as int;
                ||| (p > t && left.keys_of() == k0.subrange(0, t) && left.values_of() == vs.subrange(0, t)
                    && right.keys_of() == k0.subrange(t, k0.len() as int).insert(p - t, key)
                    && right.values_of() == vs.subrange(t, vs.len() as int).insert(p - t, value))
                ||| (p <= t && left.keys_of() == k0.subrange(0, t).insert(p, key)
                    && left.values_of() == vs.subrange(0, t).insert(p, value)
                    && right.keys_of() == k0.subrange(t, k0.len() as int)
                    && right.values_of() == vs.subrange(t, vs.len() as int))
            }),
        ensures
            left.wf(lo, Some(median)),
            right.wf(Some(median), hi),
            strictly_above::<K>(lo, median),
            below::<K>(hi, median),
            left.map().union_prefer_right(right.map()) == old_node.map().insert(key@, value),
    {
        let k0 = old_node.keys_of();
        let vs = old_node.values_of();
        let p = lower_bound::<K>(old_node.key_seq(), key@) as int;
        let kk = k0.insert(p, key);
        let vv = vs.insert(p, value);
        let s = if p > t { t } else { t + 1 };
        lemma_lower_bound_props::<K>(old_node.key_seq(), key@);
        if p > t {
            assert(right.keys_of() =~= kk.subrange(s, kk.len() as int));
            assert(right.values_of() =~= vv.subrange(s, vv.len() as int));
            assert(left.keys_of() =~= kk.subrange(0, s));
            assert(left.values_of() =~= vv.subrange(0, s));
        } else {
            assert(left.keys_of() =~= kk.subrange(0, s));
            assert(left.values_of() =~= vv.subrange(0, s));
            assert(right.keys_of() =~= kk.subrange(s, kk.len() as int));
            assert(right.values_of() =~= vv.subrange(s, vv.len() as int));
        }
        Self::lemma_leaf_split_insert(old_node, lo, hi, key, value, s, left, right, median);
    }

    /// The internal halves that `split_internal_absorb` builds, in either of
    /// its two cases, are a split of the grown node.
    proof fn lemma_internal_split_cases(
        old_node: Self,
        lo: Option<K::V>,
        hi: Option<K::V>,
        c: int,
        ch1: Seq<Box<Node<K, V, M>>>,
        mck: K,
        nc: Box<Node<K, V, M>>,
        key: K,
        value: V,
        t: int,
        left: Self,
        right: Self,
        median: K,
    )
        requires
            old_node.wf(lo, hi),
            !old_node.is_leaf_node(),
            old_node.spec_full(),
            M >= 4,
            t == (M - 1) / 2 + 1,
            route::<K>(old_node.key_seq(), key@) == c,
            0 <= c < old_node.children_of().len(),
            ch1.len() == old_node.children_of().len(),
            ch1 == old_node.children_of().update(c, ch1[c]),
            ({
                let ks = old_node.key_seq();
                let clo = child_lo(lo, ks, c);
                let chi = child_hi(hi, ks, c);
                &&& strictly_above::<K>(clo, mck@)
                &&& below::<K>(chi, mck@)
                &&& ch1[c].wf(clo, Some(mck@))
                &&& nc.wf(Some(mck@), chi)
                &&& ch1[c].map().union_prefer_right(nc.map()) == old_node.children_of()[c].map().insert(key@, value)
            }),
            !left.is_leaf_node(),
            !right.is_leaf_node(),
            median == old_node.keys_of()[t - 1],
            ({
                let k0 = old_node.keys_of();
                ||| (c >= t && left.keys_of() == k0.subrange(0, t - 1) && left.children_of() == ch1.subrange(0, t)
                    && right.keys_of() == k0.subrange(t, k0.len() as int).insert(c - t, mck)
                    && right.children_of() == ch1.subrange(t, ch1.len() as int).insert(c - t + 1, nc))
                ||| (c < t && left.keys_of() == k0.subrange(0, t - 1).insert(c, mck)
                    && left.children_of() == ch1.subrange(0, t).insert(c + 1, nc)
                    && right.keys_of() == k0.subrange(t, k0.len() as int)
                    && right.children_of() == ch1.subrange(t, ch1.len() as int))
            }),
        ensures
            left.wf(lo, Some(median@)),
            right.wf(Some(median@), hi),
            strictly_above::<K>(lo, median@),
            below::<K>(hi, median@),
            left.map().union_prefer_right(right.map()) == old_node.map().insert(key@, value),
    {
        let k0 = old_node.keys_of();
        let kk = k0.insert(c, mck);
        let cc = ch1.insert(c + 1, nc);
        old_node.lemma_wf_internal(lo, hi);
        let s = if c >= t { t - 1 } else { t };
        if c >= t {
            assert(left.keys_of() =~= kk.subrange(0, s));
            assert(left.children_of() =~= cc.subrange(0, s + 1));
            assert(right.keys_of() =~= kk.subrange(s + 1, kk.len() as int));
            assert(right.children_of() =~= cc.subrange(s + 1, cc.len() as int));
        } else {
            assert(left.keys_of() =~= kk.subrange(0, s));
            assert(left.children_of() =~= cc.subrange(0, s + 1));
            assert(right.keys_of() =~= kk.subrange(s + 1, kk.len() as int));
            assert(right.children_of() =~= cc.subrange(s + 1, cc.len() as int));
        }
        Self::lemma_internal_split_insert(old_node, lo, hi, c, ch1, mck, nc, key, value, s, left, right, median);
    }
}

impl<K: OrderedKey, V, const M: usize> Node<K, V, M> {
    /// Inserts a new key into a full leaf: the leaf splits at `(M + 1) / 2`,
    /// copies its median key up, and the key goes into the half that it
    /// belongs to.
    fn split_leaf_insert(
        &mut self,
        key: K,
        value: V,
        index: Option<usize>,
        Ghost(lo): Ghost<Option<K::V>>,
        Ghost(hi): Ghost<Option<K::V>>,
    ) -> (r: (K, Box<Node<K, V, M>>))
        requires
            old(self).wf(lo, hi),
            old(self).is_leaf_node(),
            old(self).spec_full(),
            M >= 4,
            above::<K>(lo, key@),
            below::<K>(hi, key@),
            !old(self).map().contains_key(key@),
            index == if lower_bound::<K>(old(self).key_seq(), key@) < old(self).key_seq().len() {
                Some(lower_bound::<K>(old(self).key_seq(), key@) as usize)
            } else {
                None
            },
        ensures
            final(self).is_leaf_node(),
            r.1.is_leaf_node(),
            strictly_above::<K>(lo, r.0@),
            below::<K>(hi, r.0@),
            final(self).wf(lo, Some(r.0@)),
            r.1.wf(Some(r.0@), hi),
            final(self).map().union_prefer_right(r.1.map()) == old(self).map().insert(key@, value),
            r.0@ == old(self).key_seq()[(M - 1) / 2 + 1],
    {
        let ghost old_node = *self;
        let ghost ks = self.key_seq();
        let ghost k0 = self.keys_of();
        let ghost vs = self.values_of();
        let ghost p = lower_bound::<K>(ks, key@) as int;
        // (M + 1) / 2, written so that it cannot overflow
        let t = (M - 1) / 2 + 1;
        let (median_key, mut new_sibling) = self.split(t).unwrap();
        proof {
            lemma_lower_bound_props::<K>(ks, key@);
            assert(forall|i: int| 0 <= i < ks.len() ==> ks[i] == #[trigger] k0[i]@);
            if p < ks.len() {
                lemma_leaf_map_at::<K, V>(ks, vs, p);
            }
            lemma_lower_bound_vs::<K>(ks, key@, t as int);
            lemma_key_views_subrange::<K>(k0, t as int, k0.len() as int);
            lemma_key_views_subrange::<K>(k0, 0, t as int);
        }
        if key.compare(&median_key) != KeyOrder::Less {
            proof {
                lemma_lower_bound_suffix::<K>(ks, key@, t as int);
            }
            (&mut *new_sibling).insert_key_value(key, value);
        } else {
            proof {
                assert(p < t ==> self.keys_of()[p]@ == ks[p]);
                if p < ks.len() {
                    K::lemma_less_irreflexive(key@);
                    if K::spec_less(ks[p], key@) {
                        K::lemma_less_transitive(key@, ks[p], key@);
                    }
                }
            }
            self.insert_key_value_atindex(key, value, index.unwrap());
        }
        proof {
            Self::lemma_leaf_split_cases(old_node, lo, hi, key, value, t as int, *self, *new_sibling, median_key@);
        }
        (median_key, new_sibling)
    }

    /// Takes in the separator `mck` and the new right sibling `nc` of child `c`,
    /// which just split, into a full internal node: the node first splits
    /// around its key at `(M + 1) / 2 - 1`, handing that key up, and the
    /// separator and child go into the half that they belong to.
    #[verifier::rlimit(30)]
    fn split_internal_absorb(
        &mut self,
        mck: K,
        nc: Box<Node<K, V, M>>,
        Ghost(old_node): Ghost<Self>,
        Ghost(lo): Ghost<Option<K::V>>,
        Ghost(hi): Ghost<Option<K::V>>,
        Ghost(c): Ghost<int>,
        Ghost(key): Ghost<K>,
        Ghost(value): Ghost<V>,
        Ghost(h): Ghost<nat>,
    ) -> (r: (K, Box<Node<K, V, M>>))
        requires
            old_node.wf(lo, hi),
            h > 0,
            Self::children_balanced(old(self).children_of(), (h - 1) as nat),
            nc.balanced((h - 1) as nat),
            !old_node.is_leaf_node(),
            old_node.spec_full(),
            M >= 4,
            route::<K>(old_node.key_seq(), key@) == c,
            0 <= c < old_node.children_of().len(),
            !old(self).is_leaf_node(),
            old(self).keys_of() == old_node.keys_of(),
            old(self).children_of() == old_node.children_of().update(c, old(self).children_of()[c]),
            ({
                let ks = old_node.key_seq();
                let clo = child_lo(lo, ks, c);
                let chi = child_hi(hi, ks, c);
                &&& strictly_above::<K>(clo, mck@)
                &&& below::<K>(chi, mck@)
                &&& old(self).children_of()[c].wf(clo, Some(mck@))
                &&& nc.wf(Some(mck@), chi)
                &&& old(self).children_of()[c].map().union_prefer_right(nc.map())
                    == old_node.children_of()[c].map().insert(key@, value)
            }),
        ensures
            !final(self).is_leaf_node(),
            !r.1.is_leaf_node(),
            final(self).balanced(h),
            r.1.balanced(h),
            r.0@ == old_node.key_seq()[(M - 1) / 2],
            old(self).children_of()[0].spine_keyed() ==> final(self).spine_keyed(),
            strictly_above::<K>(lo, r.0@),
            below::<K>(hi, r.0@),
            final(self).wf(lo, Some(r.0@)),
            r.1.wf(Some(r.0@), hi),
            final(self).map().union_prefer_right(r.1.map()) == old_node.map().insert(key@, value),
    {
        let ghost ks = old_node.key_seq();
        let ghost k0 = old_node.keys_of();
        let ghost ch = old_node.children_of();
        let ghost ch1 = self.children_of();
        proof {
            old_node.lemma_wf_internal(lo, hi);
            Self::lemma_child_wf(ks, ch, lo, hi, c);
            Self::lemma_internal_insert_child(ks, ch, lo, hi, c, ch1[c], mck@, nc, key@, value);
            assert(forall|i: int| 0 <= i < ks.len() ==> ks[i] == #[trigger] k0[i]@);
        }
        // (M + 1) / 2, written so that it cannot overflow
        let t = (M - 1) / 2 + 1;
        let (median_key, mut new_sibling) = self.split(t - 1).unwrap();
        let ghost left_ch = self.children_of();
        let ghost right_ch = new_sibling.children_of();
        proof {
            Self::lemma_children_balanced_subrange(ch1, (h - 1) as nat, 0, t as int);
            Self::lemma_children_balanced_subrange(ch1, (h - 1) as nat, t as int, ch1.len() as int);
            lemma_lower_bound_vs::<K>(ks, mck@, t - 1);
            lemma_key_views_subrange::<K>(k0, t as int, k0.len() as int);
            lemma_key_views_subrange::<K>(k0, 0, t - 1);
            if mck@ == ks[t - 1] {
                lemma_route::<K>(ks, mck@, t as int);
                lemma_lower_bound::<K>(ks, mck@, t - 1);
            }
        }
        if mck.compare(&median_key) != KeyOrder::Less {
            proof {
                lemma_lower_bound_suffix::<K>(ks, mck@, t as int);
            }
            let index = new_sibling.find_key_index(&mck, QueryKind::Insert).unwrap();
            new_sibling.insert_key(index, mck).unwrap();
            let ghost nc0 = nc;
            new_sibling.insert_child(index + 1, nc).unwrap();
            proof {
                Self::lemma_children_balanced_insert(right_ch, (h - 1) as nat, index + 1, nc0);
                new_sibling.lemma_balanced_internal(h);
                self.lemma_balanced_internal(h);
            }
        } else {
            proof {
                lemma_lower_bound_prefix::<K>(ks, mck@, t - 1);
            }
            let index = self.find_key_index(&mck, QueryKind::Insert).unwrap();
            let ghost nc0 = nc;
            match self {
                Node::Internal { keys, children } => {
                    // the separator and the new child move in after the split child
                    keys.insert(index, mck);
                    children.insert(index + 1, nc);
                },
                Node::Leaf { .. } => {
                    proof {
                        assert(false);
                    }
                },
            }
            proof {
                Self::lemma_children_balanced_insert(left_ch, (h - 1) as nat, index + 1, nc0);
                assert(self.children_of() == left_ch.insert(index + 1, nc0));
                new_sibling.lemma_balanced_internal(h);
                self.lemma_balanced_internal(h);
            }
        }
        proof {
            Self::lemma_internal_split_cases(old_node, lo, hi, c, ch1, mck, nc, key, value, t as int, *self, *new_sibling, median_key);
        }
        (median_key, new_sibling)
    }

    /// Inserts `key` with `value` into the subtree rooted here, which holds
    /// the keys in `[lo, hi)`. A full leaf splits; a full internal node splits
    /// when a child of it splits. The separator and the new right sibling of
    /// a split node go back up to its parent.
    #[verifier::rlimit(30)]
    fn insert_recursive(
        &mut self,
        key: K,
        value: V,
        Ghost(lo): Ghost<Option<K::V>>,
        Ghost(hi): Ghost<Option<K::V>>,
        Ghost(h): Ghost<nat>,
    ) -> (r: Option<(K, Box<Node<K, V, M>>)>)
        requires
            old(self).wf(lo, hi),
            old(self).balanced(h),
            above::<K>(lo, key@),
            below::<K>(hi, key@),
            M >= 3,
            M >= 4 || (old(self).is_leaf_node() && !old(self).spec_full()),
        ensures
            old(self).is_leaf_node() ==> final(self).is_leaf_node(),
            final(self).balanced(h),
            r matches Some((_, sib)) ==> sib.balanced(h),
            old(self).spine_keyed() ==> final(self).spine_keyed(),
            old(self).map().contains_key(key@) ==> r is None,
            r is None ==> old(self).key_seq().len() <= final(self).key_seq().len() <= old(self).key_seq().len() + 1,
            r matches Some((mk, _)) ==> mk@ == old(self).key_seq()[
                if old(self).is_leaf_node() { (M - 1) / 2 + 1 } else { (M - 1) / 2 }
            ],
            match r {
                None => final(self).wf(lo, hi) && final(self).map() == old(self).map().insert(key@, value),
                Some((mk, sib)) => {
                    &&& old(self).spec_full()
                    &&& old(self).is_leaf_node() ==> sib.is_leaf_node()
                    &&& strictly_above::<K>(lo, mk@)
                    &&& below::<K>(hi, mk@)
                    &&& final(self).wf(lo, Some(mk@))
                    &&& sib.wf(Some(mk@), hi)
                    &&& final(self).map().union_prefer_right(sib.map()) == old(self).map().insert(key@, value)
                },
            },
        decreases *old(self),
    {
        let ghost old_node = *self;
        let ghost ks = self.key_seq();
        let ghost k0 = self.keys_of();
        let ghost vs = self.values_of();
        let ghost ch = self.children_of();
        let is_leaf = self.is_leaf();
        proof {
            if !is_leaf {
                old_node.lemma_wf_internal(lo, hi);
            }
        }
        let index = if is_leaf {
            self.find_key_index(&key, QueryKind::Insert)
        } else {
            self.find_key_index(&key, QueryKind::Child)
        };
        let ghost p = lower_bound::<K>(ks, key@) as int;
        let ghost c = route::<K>(ks, key@) as int;
        proof {
            lemma_lower_bound_props::<K>(ks, key@);
            lemma_route_props::<K>(ks, key@);
            assert(forall|i: int| 0 <= i < ks.len() ==> ks[i] == #[trigger] k0[i]@);
        }
        // a key that is already there takes the new value in place
        if let Node::Leaf { keys, values } = self {
            if let Some(index) = index {
                if index < keys.len() && keys[index].compare(&key) == KeyOrder::Equal {
                    proof {
                        lemma_leaf_update::<K, V>(ks, vs, index as int, value);
                    }
                    values[index] = value;
                    return None;
                }
            }
        }
        if is_leaf {
            proof {
                K::lemma_less_irreflexive(key@);
                if p < ks.len() {
                    assert(ks[p] != key@);
                    assert(K::spec_less(key@, ks[p]));
                }
                lemma_leaf_insert::<K, V>(ks, vs, p, key@, value);
                Self::lemma_leaf_insert_ordered(ks, lo, hi, p, key@);
                lemma_key_views_insert::<K>(k0, p, key);
                assert(!old_node.map().contains_key(key@)) by {
                    if old_node.map().contains_key(key@) {
                        let i = choose|i: int| 0 <= i < ks.len() && ks[i] == key@;
                        if i > p {
                            K::lemma_less_transitive(key@, ks[p], ks[i]);
                        }
                    }
                }
            }
            if self.is_full() {
                let (median_key, new_sibling) = self.split_leaf_insert(key, value, index, Ghost(lo), Ghost(hi));
                Some((median_key, new_sibling))
            } else {
                self.insert_key_value_atindex(key, value, index.unwrap());
                proof {
                    assert(self.key_seq() == ks.insert(p, key@));
                }
                None
            }
        } else {
            let index = index.unwrap();
            let full = self.is_full();
            let ghost clo = child_lo(lo, ks, c);
            let ghost chi = child_hi(hi, ks, c);
            proof {
                Self::lemma_child_wf(ks, ch, lo, hi, c);
                if c > 0 {
                    assert(key_le::<K>(ks[c - 1], key@));
                }
            }
            let child_result = match self {
                Node::Internal { children, .. } => children[index].insert_recursive(
                    key,
                    value,
                    Ghost(clo),
                    Ghost(chi),
                    Ghost((h - 1) as nat),
                ),
                Node::Leaf { .. } => vstd::pervasive::unreached(),
            };
            let ghost ch1 = self.children_of();
            proof {
                assert(ch1 == ch.update(c, ch1[c]));
            }
            match child_result {
                None => {
                    proof {
                        Self::lemma_internal_update_child(ks, ch, lo, hi, c, ch1[c], key@, value);
                    }
                    None
                },
                Some((median_child_key, new_child)) => {
                    if full {
                        let (median_key, new_sibling) = self.split_internal_absorb(
                            median_child_key,
                            new_child,
                            Ghost(old_node),
                            Ghost(lo),
                            Ghost(hi),
                            Ghost(c),
                            Ghost(key),
                            Ghost(value),
                            Ghost(h),
                        );
                        Some((median_key, new_sibling))
                    } else {
                        proof {
                            Self::lemma_internal_insert_child(ks, ch, lo, hi, c, ch1[c], median_child_key@, new_child, key@, value);
                            lemma_route_props::<K>(ks, median_child_key@);
                            lemma_key_views_insert::<K>(k0, c, median_child_key);
                        }
                        match self {
                            Node::Internal { keys, children } => {
                                // the first key above the new separator
                                let mut child_index: usize = 0;
                                while child_index < keys.len()
                                    && keys[child_index].compare(&median_child_key) != KeyOrder::Greater
                                    invariant
                                        child_index <= keys@.len(),
                                        keys@ == k0,
                                        ks.len() == k0.len(),
                                        forall|i: int| 0 <= i < ks.len() ==> ks[i] == #[trigger] k0[i]@,
                                        forall|j: int| 0 <= j < child_index ==> key_le::<K>(ks[j], median_child_key@),
                                    decreases keys@.len() - child_index,
                                {
                                    proof {
                                        K::lemma_less_total(ks[child_index as int], median_child_key@);
                                    }
                                    child_index += 1;
                                }
                                proof {
                                    if child_index < keys@.len() {
                                        assert(K::spec_less(median_child_key@, ks[child_index as int]));
                                    }
                                    lemma_route::<K>(ks, median_child_key@, child_index as int);
                                }
                                keys.insert(child_index, median_child_key);
                                children.insert(child_index + 1, new_child);
                            },
                            Node::Leaf { .. } => {
                                proof {
                                    assert(false);
                                }
                            },
                        }
                        proof {
                            assert(self.key_seq() == ks.insert(c, median_child_key@));
                        }
                        None
                    }
                },
            }
        }
    }
}

/// A sorted leaf holds as many entries as it has keys.
proof fn lemma_leaf_map_len<K: OrderedKey, V>(ks: Seq<K::V>, vs: Seq<V>)
    requires
        sorted::<K>(ks),
    ensures
        leaf_map(ks, vs).dom() == ks.to_set(),
        leaf_map(ks, vs).dom().finite(),
        leaf_map(ks, vs).len() == ks.len(),
{
    assert(leaf_map(ks, vs).dom() =~= ks.to_set());
    assert(ks.no_duplicates()) by {
        assert forall|i: int, j: int| 0 <= i < ks.len() && 0 <= j < ks.len() && i != j implies ks[i] != ks[j] by {
            if ks[i] == ks[j] {
                lemma_sorted_distinct::<K>(ks, i, j);
            }
        }
    }
    ks.unique_seq_to_set();
    vstd::seq_lib::seq_to_set_is_finite::<K::V>(ks);
}

impl<K: OrderedKey, V, const M: usize> Node<K, V, M> {
    /// Splitting a full root at `t` leaves two well-formed halves around the
    /// median key that hold the root's map between them.
    proof fn lemma_root_split(old_root: Self, t: int, left: Self, right: Self, median: K)
        requires
            old_root.wf(None, None),
            old_root.spec_full(),
            M >= 4,
            t == (M - 1) / 2 + 1,
            old_root.is_leaf_node() ==> ({
                let k0 = old_root.keys_of();
                let v0 = old_root.values_of();
                &&& median@ == k0[t]@
                &&& left.is_leaf_node()
                &&& right.is_leaf_node()
                &&& left.keys_of() == k0.subrange(0, t)
                &&& left.values_of() == v0.subrange(0, t)
                &&& right.keys_of() == k0.subrange(t, k0.len() as int)
                &&& right.values_of() == v0.subrange(t, v0.len() as int)
            }),
            !old_root.is_leaf_node() ==> ({
                let k0 = old_root.keys_of();
                let c0 = old_root.children_of();
                &&& median == k0[t]
                &&& !left.is_leaf_node()
                &&& !right.is_leaf_node()
                &&& left.keys_of() == k0.subrange(0, t)
                &&& left.children_of() == c0.subrange(0, t + 1)
                &&& right.keys_of() == k0.subrange(t + 1, k0.len() as int)
                &&& right.children_of() == c0.subrange(t + 1, c0.len() as int)
            }),
        ensures
            left.wf(None, Some(median@)),
            right.wf(Some(median@), None),
            left.map().union_prefer_right(right.map()) == old_root.map(),
    {
        let ks = old_root.key_seq();
        let k0 = old_root.keys_of();
        if old_root.is_leaf_node() {
            let vs = old_root.values_of();
            lemma_key_views_subrange::<K>(k0, 0, t);
            lemma_key_views_subrange::<K>(k0, t, k0.len() as int);
            lemma_leaf_split::<K, V>(ks, vs, t);
            Self::lemma_leaf_split_ordered(ks, None, None, t);
        } else {
            old_root.lemma_wf_internal(None, None);
            lemma_key_views_subrange::<K>(k0, 0, t);
            lemma_key_views_subrange::<K>(k0, t + 1, k0.len() as int);
            Self::lemma_internal_split(ks, old_root.children_of(), None, None, t);
        }
    }

    /// A root with one separator between two well-formed halves is well
    /// formed and holds the halves' maps.
    proof fn lemma_new_root(new_root: Self, median: K, left: Box<Node<K, V, M>>, right: Box<Node<K, V, M>>)
        requires
            M >= 2,
            !new_root.is_leaf_node(),
            new_root.keys_of() == seq![median],
            new_root.children_of() == seq![left, right],
            left.wf(None, Some(median@)),
            right.wf(Some(median@), None),
        ensures
            new_root.wf(None, None),
            new_root.map() == left.map().union_prefer_right(right.map()),
    {
        let ks = new_root.key_seq();
        assert(ks =~= seq![median@]);
        let ch = new_root.children_of();
        assert(ch[0].wf(child_lo(None, ks, 0), child_hi(None, ks, 0)));
        assert(ch[1].wf(child_lo(None, ks, 1), child_hi(None, ks, 1)));
        assert(Self::internal_ordered(ks, ch, None, None));
        left.lemma_map_bounds(None, Some(median@));
        right.lemma_map_bounds(Some(median@), None);
        let m = new_root.map();
        let u = left.map().union_prefer_right(right.map());
        assert forall|x: K::V| #[trigger] m.contains_key(x) <==> u.contains_key(x) by {
            lemma_route_props::<K>(ks, x);
            K::lemma_less_irreflexive(x);
            if route::<K>(ks, x) == 0 && right.map().contains_key(x) {
                if median@ != x {
                    K::lemma_less_transitive(x, median@, x);
                }
            }
            if route::<K>(ks, x) == 1 && left.map().contains_key(x) {
                if median@ != x {
                    K::lemma_less_transitive(x, median@, x);
                }
            }
        }
        assert forall|x: K::V| #[trigger] m.contains_key(x) implies m[x] == u[x] by {
            lemma_route_props::<K>(ks, x);
            K::lemma_less_irreflexive(x);
            if route::<K>(ks, x) == 0 && right.map().contains_key(x) {
                if median@ != x {
                    K::lemma_less_transitive(x, median@, x);
                }
            }
            if route::<K>(ks, x) == 1 && left.map().contains_key(x) {
                if median@ != x {
                    K::lemma_less_transitive(x, median@, x);
                }
            }
        }
        assert(m =~= u);
    }
}

impl<K: OrderedKey, V, const M: usize> BTree<K, V, M> {
    /// Whether the root is full and will split before the next insertion.
    pub closed spec fn pending_split(&self) -> nat {
        match self.root {
            Some(r) => if r.spec_full() { 1 } else { 0 },
            None => 0,
        }
    }

    /// Inserts `key` with `value`, replacing the value of a key that is there.
    /// A tree of fan-out 3 splits its root leaf on the first insertion into a
    /// root with two entries, which fails; so it takes one only below two entries.
    pub fn insert(&mut self, key: K, value: V)
        requires
            M >= 4 || old(self)@.len() < 2,
        ensures
            final(self)@ == old(self)@.insert(key@, value),
            final(self).is_balanced(),
            old(self).levels() == 0 ==> final(self).levels() == 1 && final(self).root_key_count() == 1,
            old(self).levels() > 0 && old(self).root_key_count() + 1 == M ==> final(self).levels() == old(self).levels() + 1
                && 1 <= final(self).root_key_count() <= 2,
            old(self).levels() > 0 && old(self).root_key_count() + 1 != M ==> final(self).levels() == old(self).levels()
                && old(self).root_key_count() <= final(self).root_key_count() <= old(self).root_key_count() + 1,
            final(self).levels() == 1 ==> final(self).root_key_count() == final(self)@.len(),
        decreases old(self).pending_split(),
    {
        proof {
            use_type_invariant(&*self);
        }
        if self.root.is_none() {
            let mut node = Node::new_leaf();
            node.insert_key_value(key, value);
            proof {
                lemma_leaf_insert::<K, V>(Seq::empty(), Seq::empty(), 0, key@, value);
                assert(node.key_seq() =~= Seq::empty().insert(0, key@));
                assert(node.values_of() =~= Seq::<V>::empty().insert(0, value));
                assert(leaf_map(Seq::<K::V>::empty(), Seq::<V>::empty()) =~= Map::empty());
                assert(node.balanced(0));
                node.lemma_size_len(None, None);
            }
            self.root = Some(node);
            proof {
                use_type_invariant(&*self);
            }
            return;
        }
        let mut taken = None;
        std::mem::swap(&mut taken, &mut self.root);
        let mut root = taken.unwrap();
        let ghost h = choose|h: nat| root.balanced(h);
        let ghost r0 = *root;
        proof {
            r0.lemma_wf_has_children(None, None);
            r0.lemma_balanced_height(h);
            if M < 4 {
                lemma_leaf_map_len::<K, V>(root.key_seq(), root.values_of());
            }
        }
        if root.is_full() {
            // (M + 1) / 2, written so that it cannot overflow
            let t = (M - 1) / 2 + 1;
            let ghost old_root = *root;
            let (median_key, new_sibling) = root.split(t).unwrap();
            proof {
                Node::<K, V, M>::lemma_root_split(old_root, t as int, *root, *new_sibling, median_key);
            }
            let mut new_root = Node::new_internal();
            let ghost left = root;
            let ghost mk = median_key;
            let ghost right = new_sibling;
            new_root.insert_child(0, root).unwrap();
            new_root.insert_key(0, median_key).unwrap();
            new_root.insert_child(1, new_sibling).unwrap();
            proof {
                assert(new_root.keys_of() =~= seq![mk]);
                assert(new_root.children_of() =~= seq![left, right]);
                Node::<K, V, M>::lemma_new_root(*new_root, mk, left, right);
                if !old_root.is_leaf_node() {
                    let c0 = old_root.children_of();
                    assert(forall|i: int| 0 <= i < c0.len() ==> (#[trigger] c0[i]).balanced((h - 1) as nat));
                    assert forall|i: int| 0 <= i < left.children_of().len() implies
                        (#[trigger] left.children_of()[i]).balanced((h - 1) as nat) by {
                        assert(left.children_of()[i] == c0[i]);
                    }
                    assert forall|i: int| 0 <= i < right.children_of().len() implies
                        (#[trigger] right.children_of()[i]).balanced((h - 1) as nat) by {
                        assert(right.children_of()[i] == c0[i + t + 1]);
                    }
                }
                assert(left.balanced(h));
                assert(right.balanced(h));
                let ch2 = new_root.children_of();
                assert(ch2[0] == left && ch2[1] == right);
                assert(new_root.balanced(h + 1));
                if !old_root.is_leaf_node() {
                    assert(left.children_of()[0] == old_root.children_of()[0]);
                    assert(left.keys_of().len() >= 1);
                    assert(left.spine_keyed());
                } else {
                    assert(left.is_leaf_node());
                    assert(left.spine_keyed());
                }
                assert(new_root.keys_of().len() == 1);
                assert(new_root.children_of()[0].spine_keyed());
                assert(new_root.spine_keyed());
                new_root.lemma_wf_has_children(None, None);
                new_root.lemma_balanced_height(h + 1);
                assert(new_root.key_seq().len() == 1);
            }
            self.root = Some(new_root);
            self.insert(key, value);
        } else {
            let split = root.insert_recursive(key, value, Ghost(None), Ghost(None), Ghost(h));
            if let Some((median_key, new_child)) = split {
                // a root with room takes the key without splitting, so this is never reached
                let index = root.find_key_index(&median_key, QueryKind::Insert).unwrap();
                root.insert_key(index, median_key).unwrap();
                root.insert_child(index, new_child).unwrap();
            }
            self.root = Some(root);
            proof {
                use_type_invariant(&*self);
                let r = *self.root.unwrap();
                r.lemma_wf_has_children(None, None);
                r.lemma_balanced_height(h);
                if r.height() == 0 {
                    r.lemma_size_len(None, None);
                }
            }
        }
    }
}

// ---------------------------------------------------------------------------
// Size and depth
// ---------------------------------------------------------------------------

impl<K: OrderedKey, V, const M: usize> Node<K, V, M> {
    /// The number of entries in the leaves below this node.
    pub open spec fn size_spec(self) -> nat
        decreases self,
    {
        match self {
            Node::Leaf { keys, .. } => keys@.len(),
            Node::Internal { children, .. } => Self::children_size(children@),
        }
    }

    /// The number of entries below a run of children.
    pub open spec fn children_size(ch: Seq<Box<Node<K, V, M>>>) -> nat
        decreases ch,
    {
        if ch.len() == 0 {
            0
        } else {
            Self::children_size(ch.drop_last()) + ch.last().size_spec()
        }
    }

    /// The entries below the first `i` children of an internal node are
    /// the keys of its map that route to those children.
    proof fn lemma_children_prefix(ks: Seq<K::V>, ch: Seq<Box<Node<K, V, M>>>, lo: Option<K::V>, hi: Option<K::V>, i: int)
        requires
            Self::internal_ordered(ks, ch, lo, hi),
            0 <= i <= ch.len(),
            forall|j: int| 0 <= j < ch.len() ==> (#[trigger] ch[j]).map().dom().finite() && ch[j].map().len() == ch[j].size_spec(),
        ensures
            ({
                let m = Self::internal_map(ks, ch);
                let part = m.dom().filter(|x: K::V| route::<K>(ks, x) < i);
                &&& part.finite()
                &&& part.len() == Self::children_size(ch.subrange(0, i))
            }),
        decreases i,
    {
        let m = Self::internal_map(ks, ch);
        let part = m.dom().filter(|x: K::V| route::<K>(ks, x) < i);
        if i == 0 {
            assert(part =~= Set::empty());
            assert(ch.subrange(0, 0) =~= Seq::<Box<Node<K, V, M>>>::empty());
        } else {
            Self::lemma_children_prefix(ks, ch, lo, hi, i - 1);
            let prev = m.dom().filter(|x: K::V| route::<K>(ks, x) < i - 1);
            let child = ch[i - 1];
            assert(child.wf(child_lo(lo, ks, i - 1), child_hi(hi, ks, i - 1)));
            child.lemma_map_bounds(child_lo(lo, ks, i - 1), child_hi(hi, ks, i - 1));
            let cd = child.map().dom();
            assert forall|x: K::V| #[trigger] cd.contains(x) implies route::<K>(ks, x) == i - 1 by {
                if i - 1 > 0 {
                    assert(key_le::<K>(ks[i - 2], x));
                }
                if i - 1 < ks.len() {
                    assert(K::spec_less(x, ks[i - 1]));
                }
                let c = i - 1;
                assert forall|j: int| 0 <= j < c implies key_le::<K>(ks[j], x) by {
                    if j < c - 1 {
                        assert(K::spec_less(ks[j], ks[c - 1]));
                        if ks[c - 1] != x {
                            K::lemma_less_transitive(ks[j], ks[c - 1], x);
                        }
                    }
                }
                lemma_route::<K>(ks, x, c);
            }
            assert(part =~= prev.union(cd)) by {
                assert forall|x: K::V| #[trigger] part.contains(x) implies prev.contains(x) || cd.contains(x) by {
                    lemma_route_props::<K>(ks, x);
                }
            }
            assert(prev.disjoint(cd));
            vstd::set_lib::lemma_set_disjoint_lens(prev, cd);
            assert(ch.subrange(0, i).drop_last() =~= ch.subrange(0, i - 1));
        }
    }

    /// A well-formed node holds as many entries as its leaves do, at least one.
    proof fn lemma_size_len(self, lo: Option<K::V>, hi: Option<K::V>)
        requires
            self.wf(lo, hi),
        ensures
            self.map().dom().finite(),
            self.map().len() == self.size_spec(),
            self.size_spec() >= 1,
        decreases self,
    {
        match self {
            Node::Leaf { keys, values } => {
                lemma_leaf_map_len::<K, V>(key_views(keys@), values@);
            },
            Node::Internal { keys, children } => {
                let ks = key_views(keys@);
                let ch = children@;
                assert forall|j: int| 0 <= j < ch.len() implies (#[trigger] ch[j]).map().dom().finite()
                    && ch[j].map().len() == ch[j].size_spec() && ch[j].size_spec() >= 1 by {
                    assert(ch[j].wf(child_lo(lo, ks, j), child_hi(hi, ks, j)));
                    ch[j].lemma_size_len(child_lo(lo, ks, j), child_hi(hi, ks, j));
                }
                Self::lemma_children_prefix(ks, ch, lo, hi, ch.len() as int);
                let m = self.map();
                assert(m.dom().filter(|x: K::V| route::<K>(ks, x) < ch.len()) =~= m.dom()) by {
                    assert forall|x: K::V| #[trigger] m.dom().contains(x) implies route::<K>(ks, x) < ch.len() by {
                        lemma_route_props::<K>(ks, x);
                    }
                }
                assert(ch.subrange(0, ch.len() as int) =~= ch);
                Self::lemma_children_size_pos(ch);
            },
        }
    }

    proof fn lemma_children_size_pos(ch: Seq<Box<Node<K, V, M>>>)
        requires
            ch.len() >= 1,
            forall|j: int| 0 <= j < ch.len() ==> (#[trigger] ch[j]).size_spec() >= 1,
        ensures
            Self::children_size(ch) >= 1,
    {
        assert(ch.last().size_spec() >= 1);
    }

    /// A child's entries are among its parent's.
    proof fn lemma_children_size_part(ch: Seq<Box<Node<K, V, M>>>, i: int)
        requires
            0 <= i <= ch.len(),
        ensures
            Self::children_size(ch.subrange(0, i)) <= Self::children_size(ch),
            i < ch.len() ==> Self::children_size(ch.subrange(0, i)) + ch[i].size_spec() <= Self::children_size(ch),
            i < ch.len() ==> Self::children_size(ch.subrange(0, i + 1)) == Self::children_size(ch.subrange(0, i)) + ch[i].size_spec(),
        decreases ch.len(),
    {
        if i < ch.len() {
            assert(ch.subrange(0, i + 1).drop_last() =~= ch.subrange(0, i));
        }
        if ch.len() > 0 {
            if i == ch.len() {
                assert(ch.subrange(0, i) =~= ch);
            } else {
                Self::lemma_children_size_part(ch.drop_last(), i);
                assert(ch.drop_last().subrange(0, i) =~= ch.subrange(0, i));
                if i < ch.len() - 1 {
                    assert(ch.drop_last()[i] == ch[i]);
                } else {
                    assert(ch.drop_last() =~= ch.subrange(0, i));
                }
            }
        }
    }

}

impl<K: OrderedKey, V, const M: usize> Node<K, V, M> {
    /// The number of entries in the leaves below this node.
    fn size(&self) -> (n: usize)
        requires
            self.has_children(),
            self.size_spec() <= usize::MAX,
        ensures
            n == self.size_spec(),
        decreases self,
    {
        match self {
            Node::Leaf { .. } => self.num_keys(),
            Node::Internal { keys, children } => {
                let ghost ch = children@;
                proof {
                    Self::lemma_children_size_part(ch, 0);
                    assert(ch.subrange(0, 0) =~= Seq::<Box<Node<K, V, M>>>::empty());
                    assert(ch.subrange(0, 1).drop_last() =~= Seq::<Box<Node<K, V, M>>>::empty());
                }
                let mut total = children[0].size();
                let mut i: usize = 1;
                while i < children.len()
                    invariant
                        1 <= i <= ch.len(),
                        ch == children@,
                        self matches Node::Internal { children: cs, .. } && cs == children,
                        forall|j: int| 0 <= j < ch.len() ==> (#[trigger] ch[j]).has_children(),
                        Self::children_size(ch) <= usize::MAX,
                        total == Self::children_size(ch.subrange(0, i as int)),
                    decreases ch.len() - i,
                {
                    proof {
                        Self::lemma_children_size_part(ch, i as int);
                    }
                    let one = children[i].size();
                    total = total + one;
                    i = i + 1;
                }
                proof {
                    assert(ch.subrange(0, ch.len() as int) =~= ch);
                }
                total
            },
        }
    }

    /// The number of levels of the subtree: 1 for a leaf, one more than its
    /// deepest child for an internal node.
    fn depth(&self) -> (d: usize)
        requires
            self.has_children(),
            self.height() + 1 <= usize::MAX,
        ensures
            d == self.height() + 1,
        decreases self,
    {
        match self {
            Node::Leaf { .. } => 1,
            Node::Internal { keys, children } => {
                let ghost ch = children@;
                let mut max: usize = 0;
                let mut i: usize = 0;
                while i < children.len()
                    invariant
                        i <= ch.len(),
                        ch.len() >= 1,
                        ch == children@,
                        self matches Node::Internal { children: cs, .. } && cs == children,
                        forall|j: int| 0 <= j < ch.len() ==> (#[trigger] ch[j]).has_children(),
                        Self::max_height(ch) + 2 <= usize::MAX,
                        max == if i == 0 { 0 } else { Self::max_height(ch.subrange(0, i as int)) + 1 },
                    decreases ch.len() - i,
                {
                    proof {
                        Self::lemma_max_height(ch, i as int);
                        assert(ch.subrange(0, i + 1).drop_last() =~= ch.subrange(0, i as int));
                        assert(ch.subrange(0, i + 1).last() == ch[i as int]);
                        if i == 0 {
                            assert(Self::max_height(ch.subrange(0, 0)) == 0);
                        }
                        if i > 0 {
                            Self::lemma_max_height_prefix(ch, i as int);
                        }
                    }
                    let one = children[i].depth();
                    if one > max {
                        max = one;
                    }
                    i = i + 1;
                }
                proof {
                    assert(ch.subrange(0, ch.len() as int) =~= ch);
                }
                max + 1
            },
        }
    }

    /// The largest height of a run's first children is at most the run's.
    proof fn lemma_max_height_prefix(ch: Seq<Box<Node<K, V, M>>>, i: int)
        requires
            0 <= i <= ch.len(),
        ensures
            Self::max_height(ch.subrange(0, i)) <= Self::max_height(ch),
        decreases ch.len(),
    {
        if i < ch.len() {
            Self::lemma_max_height_prefix(ch.drop_last(), i);
            assert(ch.drop_last().subrange(0, i) =~= ch.subrange(0, i));
        } else {
            assert(ch.subrange(0, i) =~= ch);
        }
    }
}

impl<K: OrderedKey, V, const M: usize> BTree<K, V, M> {
    /// The number of entries and the number of levels of a nonempty tree.
    pub fn stats(&self) -> (s: Stats)
        requires
            self@.len() > 0,
            self@.len() <= usize::MAX,
        ensures
            s.size == self@.len(),
            s.depth == self.levels(),
    {
        proof {
            use_type_invariant(self);
            if self.root is Some {
                let r = *self.root.unwrap();
                let h = choose|h: nat| r.balanced(h);
                r.lemma_size_len(None, None);
                r.lemma_wf_has_children(None, None);
                r.lemma_balanced_height(h);
                r.lemma_spine_size(None, None, h);
            }
        }
        let root = self.root.as_ref().unwrap();
        Stats { size: root.size(), depth: root.depth() }
    }

    /// The number of levels of the tree; 0 when it is empty.
    pub fn depth(&self) -> (d: usize)
        requires
            self@.len() <= usize::MAX,
        ensures
            d == self.levels(),
            d == 0 <==> self@ == Map::<K::V, V>::empty(),
    {
        proof {
            use_type_invariant(self);
            if self.root is Some {
                let r = *self.root.unwrap();
                let h = choose|h: nat| r.balanced(h);
                r.lemma_size_len(None, None);
                r.lemma_wf_has_children(None, None);
                r.lemma_balanced_height(h);
                r.lemma_spine_size(None, None, h);
                r.lemma_map_nonempty(None, None);
                let k = choose|k: K::V| #[trigger] r.map().contains_key(k);
                assert(!Map::<K::V, V>::empty().contains_key(k));
            }
        }
        match self.root.as_ref() {
            Some(root) => root.depth(),
            None => 0,
        }
    }
}

// ---------------------------------------------------------------------------
// Self-check
// ---------------------------------------------------------------------------

impl<K: OrderedKey, V, const M: usize> Node<K, V, M> {
    /// How the child after separator `s` stands to it: a leaf child starts
    /// with `s` and holds no smaller key; an internal child holds only larger
    /// keys.
    pub open spec fn follows_separator(s: K::V, c: Node<K, V, M>) -> bool {
        match c {
            Node::Leaf { keys, .. } => {
                &&& keys.len() > 0
                &&& keys@[0]@ == s
                &&& forall|j: int| 0 <= j < keys.len() ==> key_le::<K>(s, #[trigger] keys@[j]@)
            },
            Node::Internal { keys, .. } => forall|j: int| 0 <= j < keys.len() ==> K::spec_less(s, #[trigger] keys@[j]@),
        }
    }

    /// What `check` tests of a node: a leaf has as many values as keys; an
    /// internal node has one child more than keys, increasing keys, and after
    /// each separator a child that follows it; and so on down.
    pub open spec fn check_ok(self) -> bool
        decreases self,
    {
        match self {
            Node::Leaf { keys, values } => keys.len() == values.len(),
            Node::Internal { keys, children } => {
                &&& children.len() == keys.len() + 1
                &&& sorted::<K>(key_views(keys@))
                &&& forall|i: int|
                    #![trigger keys@[i]]
                    0 <= i < keys.len() ==> Self::follows_separator(keys@[i]@, *children@[i + 1])
                &&& forall|i: int| 0 <= i < children.len() ==> (#[trigger] children@[i]).check_ok()
            },
        }
    }

    /// Every node of a well-formed tree passes what `check` tests.
    proof fn lemma_wf_check_ok(self, lo: Option<K::V>, hi: Option<K::V>)
        requires
            self.wf(lo, hi),
        ensures
            self.check_ok(),
        decreases self,
    {
        match self {
            Node::Leaf { .. } => {},
            Node::Internal { keys, children } => {
                let ks = key_views(keys@);
                let ch = children@;
                self.lemma_wf_internal(lo, hi);
                assert forall|i: int| #![trigger keys@[i]] 0 <= i < keys.len() implies Self::follows_separator(
                    keys@[i]@,
                    *ch[i + 1],
                ) by {
                    Self::lemma_child_wf(ks, ch, lo, hi, i + 1);
                    assert(ks[i] == keys@[i]@);
                    let c = *ch[i + 1];
                    match c {
                        Node::Leaf { keys: ck, .. } => {
                            assert(forall|j: int| 0 <= j < ck.len() ==> key_views(ck@)[j] == #[trigger] ck@[j]@);
                        },
                        Node::Internal { keys: ck, .. } => {
                            assert(forall|j: int| 0 <= j < ck.len() ==> key_views(ck@)[j] == #[trigger] ck@[j]@);
                        },
                    }
                }
                assert forall|i: int| 0 <= i < ch.len() implies (#[trigger] ch[i]).check_ok() by {
                    Self::lemma_child_wf(ks, ch, lo, hi, i);
                    ch[i].lemma_wf_check_ok(child_lo(lo, ks, i), child_hi(hi, ks, i));
                }
            },
        }
    }

    /// Checks the node's structure: as many values as keys in a leaf; one
    /// child more than keys in an internal node; increasing keys; a leaf child
    /// that starts with its separator; children's keys not below (a leaf) or
    /// above (an internal node) their separator; and so on down.
    fn check(&self) -> (ok: bool)
        requires
            self.check_ok(),
        ensures
            ok,
        decreases self,
    {
        match self {
            Node::Leaf { keys, values } => keys.len() == values.len(),
            Node::Internal { keys, children } => {
                let ghost ks = key_views(keys@);
                let ghost ch = children@;
                proof {
                    assert(forall|i: int| 0 <= i < ks.len() ==> ks[i] == #[trigger] keys@[i]@);
                }
                let mut ok = keys.len() + 1 == children.len();
                // the keys increase
                let mut i: usize = 0;
                while i < keys.len() && i + 1 < keys.len()
                    invariant
                        ok,
                        i <= keys@.len(),
                        ks == key_views(keys@),
                        sorted::<K>(ks),
                        forall|i: int| 0 <= i < ks.len() ==> ks[i] == #[trigger] keys@[i]@,
                    decreases keys@.len() - i,
                {
                    proof {
                        assert(K::spec_less(ks[i as int], ks[i + 1]));
                    }
                    ok = ok && keys[i].compare(&keys[i + 1]) == KeyOrder::Less;
                    i = i + 1;
                }
                // each child after a separator follows it
                let mut i: usize = 0;
                while i < keys.len()
                    invariant
                        ok,
                        i <= keys@.len(),
                        ch == children@,
                        ch.len() == keys@.len() + 1,
                        forall|i: int|
                            #![trigger keys@[i]]
                            0 <= i < keys@.len() ==> Self::follows_separator(keys@[i]@, *ch[i + 1]),
                    decreases keys@.len() - i,
                {
                    proof {
                        assert(Self::follows_separator(keys@[i as int]@, *ch[i + 1]));
                    }
                    match &*children[i + 1] {
                        Node::Leaf { keys: child_keys, .. } => {
                            ok = ok && keys[i].compare(&child_keys[0]) == KeyOrder::Equal;
                            let mut j: usize = 0;
                            while j < child_keys.len()
                                invariant
                                    ok,
                                    i < keys@.len(),
                                    j <= child_keys@.len(),
                                    forall|j: int| 0 <= j < child_keys@.len() ==> key_le::<K>(keys@[i as int]@, #[trigger] child_keys@[j]@),
                                decreases child_keys@.len() - j,
                            {
                                ok = ok && keys[i].compare(&child_keys[j]) != KeyOrder::Greater;
                                j = j + 1;
                            }
                        },
                        Node::Internal { keys: child_keys, .. } => {
                            let mut j: usize = 0;
                            while j < child_keys.len()
                                invariant
                                    ok,
                                    i < keys@.len(),
                                    j <= child_keys@.len(),
                                    forall|j: int| 0 <= j < child_keys@.len() ==> K::spec_less(keys@[i as int]@, #[trigger] child_keys@[j]@),
                                decreases child_keys@.len() - j,
                            {
                                ok = ok && keys[i].compare(&child_keys[j]) == KeyOrder::Less;
                                j = j + 1;
                            }
                        },
                    }
                    i = i + 1;
                }
                // and so on down
                let mut i: usize = 0;
                while i < children.len()
                    invariant
                        ok,
                        i <= ch.len(),
                        ch == children@,
                        self matches Node::Internal { children: cs, .. } && cs == children,
                        forall|i: int| 0 <= i < ch.len() ==> (#[trigger] ch[i]).check_ok(),
                    decreases ch.len() - i,
                {
                    ok = ok && children[i].check();
                    i = i + 1;
                }
                ok
            },
        }
    }
}

impl<K: OrderedKey, V, const M: usize> BTree<K, V, M> {
    /// Checks the structure of the tree; a tree always passes.
    pub fn check(&self) -> (ok: bool)
        ensures
            ok,
    {
        proof {
            use_type_invariant(self);
            if self.root is Some {
                self.root.unwrap().lemma_wf_check_ok(None, None);
            }
        }
        match self.root.as_ref() {
            Some(root) => root.check(),
            None => true,
        }
    }
}


// ---------------------------------------------------------------------------
// Range iteration
// ---------------------------------------------------------------------------

/// One end of a range of keys.
#[derive(Debug)]
pub enum Bound<K> {
    /// The end includes this key.
    Included(K),
    /// The end excludes this key.
    Excluded(K),
    /// The range is open at this end.
    Unbounded,
}

/// `k` lies at or after the start of a range.
pub open spec fn after_start<K: OrderedKey>(start: Bound<K>, k: K::V) -> bool {
    match start {
        Bound::Included(s) => key_le::<K>(s@, k),
        Bound::Excluded(s) => K::spec_less(s@, k),
        Bound::Unbounded => true,
    }
}

/// `k` lies at or before the end of a range.
pub open spec fn before_end<K: OrderedKey>(end: Bound<K>, k: K::V) -> bool {
    match end {
        Bound::Included(e) => key_le::<K>(k, e@),
        Bound::Excluded(e) => K::spec_less(k, e@),
        Bound::Unbounded => true,
    }
}

/// `k` lies within the range from `start` to `end`.
pub open spec fn in_bounds<K: OrderedKey>(start: Bound<K>, end: Bound<K>, k: K::V) -> bool {
    after_start::<K>(start, k) && before_end::<K>(end, k)
}

impl<K: OrderedKey, V, const M: usize> Node<K, V, M> {
    /// The node is shaped as a node of fan-out `M`, and every entry of every
    /// leaf below it is an entry of `m`.
    pub open spec fn entries_within(self, m: Map<K::V, V>) -> bool
        decreases self,
    {
        match self {
            Node::Leaf { keys, values } => {
                &&& keys.len() == values.len()
                &&& keys.len() < M
                &&& forall|i: int|
                    0 <= i < keys.len() ==> m.contains_key(#[trigger] keys@[i]@) && m[keys@[i]@] == values@[i]
            },
            Node::Internal { keys, children } => {
                &&& children.len() == keys.len() + 1
                &&& keys.len() < M
                &&& forall|i: int| 0 <= i < children.len() ==> (#[trigger] children@[i]).entries_within(m)
            },
        }
    }

    /// The number of levels below the node: a leaf has none.
    pub open spec fn height(self) -> nat
        decreases self,
    {
        match self {
            Node::Leaf { .. } => 0,
            Node::Internal { children, .. } => Self::max_height(children@) + 1,
        }
    }

    /// The largest height in a run of children.
    pub open spec fn max_height(ch: Seq<Box<Node<K, V, M>>>) -> nat
        decreases ch,
    {
        if ch.len() == 0 {
            0
        } else {
            let a = Self::max_height(ch.drop_last());
            let b = ch.last().height();
            if a >= b {
                a
            } else {
                b
            }
        }
    }

    proof fn lemma_max_height(ch: Seq<Box<Node<K, V, M>>>, i: int)
        requires
            0 <= i < ch.len(),
        ensures
            ch[i].height() <= Self::max_height(ch),
        decreases ch.len(),
    {
        if i < ch.len() - 1 {
            Self::lemma_max_height(ch.drop_last(), i);
            assert(ch.drop_last()[i] == ch[i]);
        }
    }

    /// A child lies lower than its parent.
    proof fn lemma_child_height(self, i: int)
        requires
            !self.is_leaf_node(),
            0 <= i < self.children_of().len(),
        ensures
            self.children_of()[i].height() < self.height(),
    {
        Self::lemma_max_height(self.children_of(), i);
    }

    /// Entries of `m1` that `m2` holds too keep a node within `m2`.
    proof fn lemma_entries_within_mono(self, m1: Map<K::V, V>, m2: Map<K::V, V>)
        requires
            self.entries_within(m1),
            forall|k: K::V| #[trigger] m1.contains_key(k) ==> m2.contains_key(k) && m2[k] == m1[k],
        ensures
            self.entries_within(m2),
        decreases self,
    {
        match self {
            Node::Leaf { keys, values } => {
                assert forall|i: int| 0 <= i < keys.len() implies m2.contains_key(#[trigger] keys@[i]@)
                    && m2[keys@[i]@] == values@[i] by {
                    assert(m1.contains_key(keys@[i]@));
                }
            },
            Node::Internal { keys, children } => {
                assert forall|i: int| 0 <= i < children.len() implies (#[trigger] children@[i]).entries_within(m2) by {
                    children@[i].lemma_entries_within_mono(m1, m2);
                }
            },
        }
    }

    /// The keys below child `c` of an ordered internal node route to it, so
    /// that the node's map holds them with the child's values.
    proof fn lemma_child_submap(ks: Seq<K::V>, ch: Seq<Box<Node<K, V, M>>>, lo: Option<K::V>, hi: Option<K::V>, c: int)
        requires
            Self::internal_ordered(ks, ch, lo, hi),
            0 <= c < ch.len(),
        ensures
            forall|x: K::V| #[trigger] ch[c].map().contains_key(x) ==> Self::internal_map(ks, ch).contains_key(x)
                && Self::internal_map(ks, ch)[x] == ch[c].map()[x],
    {
        let child = ch[c];
        assert(child.wf(child_lo(lo, ks, c), child_hi(hi, ks, c)));
        child.lemma_map_bounds(child_lo(lo, ks, c), child_hi(hi, ks, c));
        assert forall|x: K::V| #[trigger] ch[c].map().contains_key(x) implies Self::internal_map(ks, ch).contains_key(x)
            && Self::internal_map(ks, ch)[x] == ch[c].map()[x] by {
            if c > 0 {
                assert(key_le::<K>(ks[c - 1], x));
            }
            if c < ks.len() {
                assert(K::spec_less(x, ks[c]));
            }
            assert forall|j: int| 0 <= j < c implies key_le::<K>(ks[j], x) by {
                if j < c - 1 {
                    assert(K::spec_less(ks[j], ks[c - 1]));
                    if ks[c - 1] != x {
                        K::lemma_less_transitive(ks[j], ks[c - 1], x);
                    }
                }
            }
            lemma_route::<K>(ks, x, c);
        }
    }

    /// A well-formed node lies within its own map.
    proof fn lemma_wf_entries_within(self, lo: Option<K::V>, hi: Option<K::V>)
        requires
            self.wf(lo, hi),
        ensures
            self.entries_within(self.map()),
        decreases self,
    {
        match self {
            Node::Leaf { keys, values } => {
                let ks = key_views(keys@);
                assert forall|i: int| 0 <= i < keys.len() implies self.map().contains_key(#[trigger] keys@[i]@)
                    && self.map()[keys@[i]@] == values@[i] by {
                    lemma_leaf_map_at::<K, V>(ks, values@, i);
                }
            },
            Node::Internal { keys, children } => {
                let ks = key_views(keys@);
                assert forall|i: int| 0 <= i < children.len() implies (#[trigger] children@[i]).entries_within(self.map()) by {
                    Self::lemma_child_wf(ks, children@, lo, hi, i);
                    children@[i].lemma_wf_entries_within(child_lo(lo, ks, i), child_hi(hi, ks, i));
                    Self::lemma_child_submap(ks, children@, lo, hi, i);
                    children@[i].lemma_entries_within_mono(children@[i].map(), self.map());
                }
            },
        }
    }
}


/// The number whose digits in base `b` are `p`, the most significant first.
spec fn digits_value(p: Seq<int>, b: int) -> int
    decreases p.len(),
{
    if p.len() == 0 {
        0
    } else {
        digits_value(p.drop_last(), b) * b + p.last()
    }
}

/// `w` followed by copies of `fill` up to the length `n`.
spec fn padded(w: Seq<int>, n: nat, fill: int) -> Seq<int> {
    w + Seq::new((n - w.len()) as nat, |i: int| fill)
}

proof fn lemma_digits_value_nonneg(p: Seq<int>, b: int)
    requires
        b > 0,
        forall|i: int| 0 <= i < p.len() ==> 0 <= #[trigger] p[i],
    ensures
        digits_value(p, b) >= 0,
    decreases p.len(),
{
    if p.len() > 0 {
        lemma_digits_value_nonneg(p.drop_last(), b);
        let a = digits_value(p.drop_last(), b);
        assert(a * b >= 0) by (nonlinear_arith)
            requires
                a >= 0,
                b > 0,
        ;
    }
}

/// Of two digit strings of one length, the one that is lexicographically
/// smaller has the smaller value.
proof fn lemma_digits_value_lex(p: Seq<int>, q: Seq<int>, b: int, k: int)
    requires
        p.len() == q.len(),
        0 <= k < p.len(),
        b > 0,
        forall|i: int| 0 <= i < p.len() ==> 0 <= #[trigger] p[i] < b,
        forall|i: int| 0 <= i < q.len() ==> 0 <= #[trigger] q[i] < b,
        forall|i: int| 0 <= i < k ==> q[i] == p[i],
        q[k] < p[k],
    ensures
        digits_value(q, b) < digits_value(p, b),
    decreases p.len(),
{
    let n = p.len();
    if k == n - 1 {
        assert(q.drop_last() =~= p.drop_last());
    } else {
        lemma_digits_value_lex(p.drop_last(), q.drop_last(), b, k);
        let vp = digits_value(p.drop_last(), b);
        let vq = digits_value(q.drop_last(), b);
        assert(vq * b <= vp * b - b) by (nonlinear_arith)
            requires
                vq <= vp - 1,
                b > 0,
        ;
    }
}

impl<K: OrderedKey, V, const M: usize> Node<K, V, M> {
    /// How a frame of a walk's stack stands to the one below it: the same
    /// node at a later index; the same node at the same index, where no frame
    /// of that node follows; or the child at the lower frame's index.
    pub open spec fn frame_link(f: Seq<(Node<K, V, M>, usize)>, k: int) -> bool {
        ||| f[k].0 == f[k + 1].0 && f[k].1 < f[k + 1].1
        ||| f[k + 1] == f[k] && (k + 2 == f.len() || f[k + 2].0 != f[k + 1].0)
        ||| !f[k].0.is_leaf_node() && f[k].1 < f[k].0.children_of().len()
            && f[k + 1].0 == *f[k].0.children_of()[f[k].1 as int]
    }

    /// A number that falls from each frame to the next.
    pub open spec fn frame_potential(f: Seq<(Node<K, V, M>, usize)>, k: int) -> int {
        let p = M + 2;
        let twin: int = if k + 1 < f.len() && f[k + 1] == f[k] {
            1
        } else {
            0
        };
        2 * p * f[k].0.height() + 2 * (p - 1 - f[k].1) + twin
    }

    proof fn lemma_frame_potential_falls(f: Seq<(Node<K, V, M>, usize)>, k: int)
        requires
            0 <= k,
            k + 1 < f.len(),
            Self::frame_link(f, k),
            f[k].1 <= M,
            f[k + 1].1 <= M,
        ensures
            Self::frame_potential(f, k + 1) < Self::frame_potential(f, k),
    {
        let p = M + 2;
        let h = f[k].0.height();
        let h1 = f[k + 1].0.height();
        if f[k].0 == f[k + 1].0 && f[k].1 < f[k + 1].1 {
        } else if f[k + 1] == f[k] && (k + 2 == f.len() || f[k + 2].0 != f[k + 1].0) {
        } else {
            f[k].0.lemma_child_height(f[k].1 as int);
            assert(2 * p * h1 <= 2 * p * h - 2 * p) by (nonlinear_arith)
                requires
                    h1 + 1 <= h,
                    p > 0,
            ;
        }
    }

    proof fn lemma_frame_potential_chain(f: Seq<(Node<K, V, M>, usize)>, j: int)
        requires
            0 <= j < f.len(),
            forall|k: int| 0 <= k < f.len() - 1 ==> #[trigger] Self::frame_link(f, k),
            forall|k: int| 0 <= k < f.len() ==> (#[trigger] f[k]).1 <= M,
        ensures
            Self::frame_potential(f, j) + j <= Self::frame_potential(f, 0),
        decreases j,
    {
        if j > 0 {
            Self::lemma_frame_potential_chain(f, j - 1);
            assert(Self::frame_link(f, j - 1));
            assert(f[j - 1].1 <= M);
            assert(f[j].1 <= M);
            Self::lemma_frame_potential_falls(f, j - 1);
        }
    }

    /// A stack of linked frames is no deeper than its first node's height
    /// allows.
    proof fn lemma_frames_len(f: Seq<(Node<K, V, M>, usize)>)
        requires
            f.len() >= 1,
            forall|k: int| 0 <= k < f.len() - 1 ==> #[trigger] Self::frame_link(f, k),
            forall|k: int| 0 <= k < f.len() ==> (#[trigger] f[k]).1 <= M,
        ensures
            f.len() <= 2 * (M + 2) * (f[0].0.height() + 1),
    {
        let n = f.len();
        Self::lemma_frame_potential_chain(f, n - 1);
        assert(f[n - 1].1 <= M);
        let p = M + 2;
        let h = f[0].0.height();
        assert(2 * p * f[n - 1].0.height() >= 0) by (nonlinear_arith)
            requires
                p > 0,
        ;
        assert(2 * p * h + 2 * (p - 1) + 1 < 2 * p * (h + 1)) by (nonlinear_arith)
            requires
                p > 0,
        ;
    }

    /// The digit of a frame in the walk's measure: the children still ahead
    /// of it.
    pub open spec fn frame_digit(e: (Node<K, V, M>, usize)) -> int {
        if e.0.is_leaf_node() {
            0
        } else {
            e.0.children_of().len() - e.1
        }
    }

    /// The digit of the node the walk stands at: the keys or children still
    /// ahead of it.
    pub open spec fn current_digit(c: Node<K, V, M>, x: usize) -> int {
        if c.is_leaf_node() {
            c.keys_of().len() - x
        } else {
            c.children_of().len() - x
        }
    }
}

impl<K: OrderedKey, V, const M: usize> Node<K, V, M> {
    /// The entries of a leaf from position `x` on whose keys lie in the range
    /// from `start` to `end`, in the leaf's order.
    pub open spec fn leaf_hits(self, x: nat, start: Bound<K>, end: Bound<K>) -> Seq<(K::V, V)>
        decreases self.keys_of().len() - x,
    {
        if x >= self.keys_of().len() {
            Seq::empty()
        } else {
            let k = self.keys_of()[x as int]@;
            let rest = self.leaf_hits(x + 1, start, end);
            if in_bounds::<K>(start, end, k) {
                seq![(k, self.values_of()[x as int])] + rest
            } else {
                rest
            }
        }
    }

    /// The entries in the range of the leaves `ch[j]`, `ch[j + 1]`, ...,
    /// leaf after leaf.
    pub open spec fn children_hits(ch: Seq<Box<Node<K, V, M>>>, j: nat, start: Bound<K>, end: Bound<K>) -> Seq<(K::V, V)>
        decreases ch.len() - j,
    {
        if j >= ch.len() {
            Seq::empty()
        } else {
            ch[j as int].leaf_hits(0, start, end) + Self::children_hits(ch, j + 1, start, end)
        }
    }

    /// The entries in the range of a leaf, or of the leaves just below a node.
    pub open spec fn node_hits(self, start: Bound<K>, end: Bound<K>) -> Seq<(K::V, V)> {
        if self.is_leaf_node() {
            self.leaf_hits(0, start, end)
        } else {
            Self::children_hits(self.children_of(), 0, start, end)
        }
    }
}

/// A walk over the entries of a tree whose keys lie in a range, leaf by leaf.
pub struct RangeIter<'a, K: OrderedKey, V, const M: usize> {
    tree: &'a BTree<K, V, M>,
    start: Bound<K>,
    end: Bound<K>,
    stack: Vec<(&'a Node<K, V, M>, usize)>,
    current: Option<&'a Node<K, V, M>>,
    index: usize,
}

impl<'a, K: OrderedKey, V, const M: usize> RangeIter<'a, K, V, M> {
    /// The map of the tree that the walk runs over.
    pub closed spec fn tree_map(self) -> Map<K::V, V> {
        self.tree@
    }

    /// The start of the range.
    pub closed spec fn range_start(self) -> Bound<K> {
        self.start
    }

    /// The end of the range.
    pub closed spec fn range_end(self) -> Bound<K> {
        self.end
    }

    /// The walk has not begun, or has ended and begins anew at the next step.
    pub closed spec fn is_fresh(self) -> bool {
        self.current is None
    }

    /// The frames of the walk's stack.
    closed spec fn frames(self) -> Seq<(Node<K, V, M>, usize)> {
        self.stack@.map_values(|e: (&'a Node<K, V, M>, usize)| (*e.0, e.1))
    }

    /// How the top frame stands to the node `c` the walk is at, at index `x`:
    /// it is that node, or its parent.
    closed spec fn top_ok(f: Seq<(Node<K, V, M>, usize)>, c: Node<K, V, M>, x: usize) -> bool {
        let t = f.last();
        &&& if c.is_leaf_node() {
            x <= c.keys_of().len()
        } else {
            x <= c.children_of().len()
        }
        &&& {
            ||| {
                &&& t.0 == c
                &&& c.is_leaf_node() ==> f.len() == 1 && t.1 == 0
                &&& !c.is_leaf_node() ==> t.1 == x
                &&& (f.len() >= 2 && f[f.len() - 2].0 == c ==> f[f.len() - 2].1 < x)
            }
            ||| {
                &&& !t.0.is_leaf_node()
                &&& t.1 < t.0.children_of().len()
                &&& c == *t.0.children_of()[t.1 as int]
            }
        }
    }

    /// The walk's state is one that its steps reach.
    pub closed spec fn wf(self) -> bool {
        let f = self.frames();
        &&& (self.tree.root matches Some(r) ==> r.entries_within(self.tree@) && r.wf(None, None))
        &&& match self.current {
            None => f.len() == 0,
            Some(c) => {
                &&& self.tree.root matches Some(r) && f.len() >= 1 && f[0].0 == *r
                &&& c.entries_within(self.tree@)
                &&& forall|k: int| 0 <= k < f.len() ==> (#[trigger] f[k]).0.entries_within(self.tree@)
                &&& forall|k: int| 0 <= k < f.len() - 1 ==> #[trigger] Node::<K, V, M>::frame_link(f, k)
                &&& forall|k: int|
                    0 <= k < f.len() - 1 ==> !(#[trigger] f[k]).0.is_leaf_node() && f[k].1 < f[k].0.children_of().len()
                &&& Self::top_ok(f, *c, self.index)
            },
        }
    }

    /// The digits of the walk's measure.
    closed spec fn digits(self) -> Seq<int> {
        match self.current {
            None => Seq::empty(),
            Some(c) => self.frames().map_values(|e: (Node<K, V, M>, usize)| Node::<K, V, M>::frame_digit(e)).push(
                Node::<K, V, M>::current_digit(*c, self.index),
            ),
        }
    }

    /// The most digits the walk's measure can have.
    closed spec fn digit_cap(self) -> nat {
        let h: nat = match self.tree.root {
            Some(r) => r.height(),
            None => 0,
        };
        (2 * (M + 2) * (h + 1) + 2) as nat
    }

    /// A number that every step of the walk lowers.
    closed spec fn measure(self) -> int {
        digits_value(padded(self.digits(), self.digit_cap(), M + 1), M + 2)
    }

    /// The tree has at most two levels: its root is a leaf, or the root's
    /// children all are.
    pub closed spec fn shallow(self) -> bool {
        match self.tree.root {
            None => true,
            Some(r) => r.height() <= 1,
        }
    }

    /// On a tree of at most two levels, the stack holds the root once, where
    /// the walk stands at the root, and twice, where it stands at a leaf below.
    pub closed spec fn shallow_ok(self) -> bool {
        self.shallow() && self.current is Some ==> {
            let f = self.frames();
            let c = *self.current.unwrap();
            &&& c.is_leaf_node() && !f.last().0.is_leaf_node() ==> f.len() == 2 && f[0] == f[1]
            &&& !c.is_leaf_node() ==> f.len() == 1
        }
    }

    /// The entries still ahead of the walk, for a tree of at most two
    /// levels: those in the range of the rest of its leaf, then of the leaves
    /// after it; a walk that has not begun has all of them ahead.
    pub closed spec fn pending(self) -> Seq<(K::V, V)> {
        match self.current {
            None => match self.tree.root {
                None => Seq::empty(),
                Some(r) => r.node_hits(self.start, self.end),
            },
            Some(c) => {
                let f = self.frames();
                if c.is_leaf_node() {
                    if f.len() >= 2 {
                        c.leaf_hits(self.index as nat, self.start, self.end) + Node::<K, V, M>::children_hits(
                            f.last().0.children_of(),
                            (f.last().1 + 1) as nat,
                            self.start,
                            self.end,
                        )
                    } else {
                        c.leaf_hits(self.index as nat, self.start, self.end)
                    }
                } else {
                    Node::<K, V, M>::children_hits(c.children_of(), self.index as nat, self.start, self.end)
                }
            },
        }
    }

    /// Going down from the root to one of its leaves leaves the entries ahead
    /// as they were.
    proof fn lemma_shallow_push(pre: Self, post: Self)
        requires
            pre.wf(),
            pre.shallow_ok(),
            pre.shallow(),
            pre.current is Some,
            !pre.current.unwrap().is_leaf_node(),
            pre.index < pre.current.unwrap().children_of().len(),
            post.tree == pre.tree,
            post.start == pre.start,
            post.end == pre.end,
            post.current is Some,
            ({
                let c = *pre.current.unwrap();
                &&& post.frames() == pre.frames().push((c, pre.index))
                &&& *post.current.unwrap() == *c.children_of()[pre.index as int]
                &&& post.index == 0
            }),
        ensures
            post.shallow_ok(),
            post.pending() == pre.pending(),
    {
        let f = pre.frames();
        let c = *pre.current.unwrap();
        let x = pre.index;
        let r = *pre.tree.root.unwrap();
        let t = f.last();
        assert(f.len() == 1);
        assert(f[0].0 == r);
        assert(t == f[0]);
        if !t.0.is_leaf_node() && t.1 < t.0.children_of().len() && c == *t.0.children_of()[t.1 as int] {
            t.0.lemma_child_height(t.1 as int);
            assert(c.height() == 0);
            assert(false);
        }
        assert(t.0 == c);
        assert(t.1 == x);
        assert(c == r);
        c.lemma_child_height(x as int);
        let child = *c.children_of()[x as int];
        assert(child.is_leaf_node());
        let g = post.frames();
        assert(Self::top_ok(f, c, x));
        assert(t == (c, x));
        assert(g[0] == f[0]);
        assert(g[1] == (c, x));
        assert(g.last() == (c, x));
        assert(post.pending() == child.leaf_hits(0, pre.start, pre.end) + Node::<K, V, M>::children_hits(
            c.children_of(),
            (x + 1) as nat,
            pre.start,
            pre.end,
        ));
    }

    /// Leaving a finished leaf for the root leaves the entries ahead as they
    /// were.
    proof fn lemma_shallow_pop(pre: Self, post: Self)
        requires
            pre.wf(),
            pre.shallow_ok(),
            pre.shallow(),
            pre.current is Some,
            pre.current.unwrap().is_leaf_node() && pre.index == pre.current.unwrap().keys_of().len()
                || !pre.current.unwrap().is_leaf_node() && pre.index == pre.current.unwrap().children_of().len(),
            pre.frames().len() >= 2,
            post.tree == pre.tree,
            post.start == pre.start,
            post.end == pre.end,
            post.current is Some,
            ({
                let f = pre.frames();
                let q = f[f.len() - 2];
                &&& post.frames() == f.drop_last().update(f.len() - 2, (q.0, (q.1 + 1) as usize))
                &&& *post.current.unwrap() == q.0
                &&& post.index == q.1 + 1
            }),
        ensures
            post.shallow_ok(),
            post.pending() == pre.pending(),
    {
        let f = pre.frames();
        let c = *pre.current.unwrap();
        let t = f.last();
        assert(c.is_leaf_node());
        assert(!t.0.is_leaf_node());
        assert(f.len() == 2 && f[0] == f[1]);
        let g = post.frames();
        assert(g.len() == 1);
        assert(!g[0].0.is_leaf_node());
        assert(c.leaf_hits(pre.index as nat, pre.start, pre.end) =~= Seq::empty());
        assert(pre.pending() =~= Node::<K, V, M>::children_hits(t.0.children_of(), (t.1 + 1) as nat, pre.start, pre.end));
    }
}


/// Two key views stand in exactly one of the three orders.
proof fn lemma_key_trichotomy<K: OrderedKey>(a: K::V, b: K::V)
    ensures
        a == b || K::spec_less(a, b) || K::spec_less(b, a),
        !(a == b && K::spec_less(a, b)),
        !(K::spec_less(a, b) && K::spec_less(b, a)),
{
    K::lemma_less_total(a, b);
    K::lemma_less_irreflexive(a);
    if K::spec_less(a, b) && K::spec_less(b, a) {
        K::lemma_less_transitive(a, b, a);
    }
}

impl<'a, K: OrderedKey, V, const M: usize> RangeIter<'a, K, V, M> {
    proof fn lemma_digits_bounded(self)
        requires
            self.wf(),
            self.current is Some,
        ensures
            self.digits().len() == self.frames().len() + 1,
            self.digits().len() + 1 <= self.digit_cap(),
            forall|i: int| 0 <= i < self.digits().len() ==> 0 <= #[trigger] self.digits()[i] <= M,
            forall|i: int| 0 <= i < self.frames().len() ==> #[trigger] self.digits()[i] == Node::<K, V, M>::frame_digit(self.frames()[i]),
            self.digits()[self.frames().len() as int] == Node::<K, V, M>::current_digit(*self.current.unwrap(), self.index),
    {
        let f = self.frames();
        let c = *self.current.unwrap();
        let d = self.digits();
        let m = f.len();
        assert forall|k: int| 0 <= k < m implies (#[trigger] f[k]).1 <= M && 0 <= Node::<K, V, M>::frame_digit(f[k]) <= M by {
            assert(f[k].0.entries_within(self.tree@));
            if k < m - 1 {
                assert(!f[k].0.is_leaf_node() && f[k].1 < f[k].0.children_of().len());
            }
        }
        assert(c.entries_within(self.tree@));
        Node::<K, V, M>::lemma_frames_len(f);
    }

    /// Leaving a finished node for the frame below its parent's lowers the
    /// measure.
    proof fn lemma_pop_step(pre: Self, post: Self)
        requires
            pre.wf(),
            pre.current is Some,
            pre.current.unwrap().is_leaf_node() || pre.index == pre.current.unwrap().children_of().len(),
            pre.frames().len() >= 2,
            post.tree == pre.tree,
            post.start == pre.start,
            post.end == pre.end,
            post.current is Some,
            ({
                let f = pre.frames();
                let q = f[f.len() - 2];
                &&& post.frames() == f.drop_last().update(f.len() - 2, (q.0, (q.1 + 1) as usize))
                &&& *post.current.unwrap() == q.0
                &&& post.index == q.1 + 1
            }),
        ensures
            post.wf(),
            0 <= post.measure() < pre.measure(),
    {
        let f = pre.frames();
        let m = f.len();
        let q = f[m - 2];
        let g = post.frames();
        let tm = pre.tree@;
        assert(!q.0.is_leaf_node() && q.1 < q.0.children_of().len());
        assert(q.0.entries_within(tm));
        assert forall|k: int| 0 <= k < g.len() implies (#[trigger] g[k]).0.entries_within(tm) by {
            assert(f[k].0.entries_within(tm));
        }
        assert forall|k: int| 0 <= k < g.len() - 1 implies #[trigger] Node::<K, V, M>::frame_link(g, k) by {
            assert(Node::<K, V, M>::frame_link(f, k));
            if k + 2 < g.len() {
                assert(g[k + 2].0 == f[k + 2].0);
            }
        }
        assert forall|k: int| 0 <= k < g.len() - 1 implies !(#[trigger] g[k]).0.is_leaf_node()
            && g[k].1 < g[k].0.children_of().len() by {
            assert(!f[k].0.is_leaf_node() && f[k].1 < f[k].0.children_of().len());
        }
        if m >= 3 && g[m - 3].0 == q.0 {
            assert(Node::<K, V, M>::frame_link(f, m - 3));
            if !(f[m - 3].0 == f[m - 2].0 && f[m - 3].1 < f[m - 2].1) && f[m - 2] != f[m - 3] {
                f[m - 3].0.lemma_child_height(f[m - 3].1 as int);
            }
        }
        assert(Self::top_ok(g, *post.current.unwrap(), post.index));
        assert(post.wf());
        pre.lemma_digits_bounded();
        post.lemma_digits_bounded();
        let dp = pre.digits();
        let dq = post.digits();
        let b = M + 2;
        let pp = padded(dp, pre.digit_cap(), M + 1);
        let pq = padded(dq, post.digit_cap(), M + 1);
        assert(pre.digit_cap() == post.digit_cap());
        assert forall|i: int| 0 <= i < pp.len() implies 0 <= #[trigger] pp[i] < b by {
            if i < dp.len() {
                assert(0 <= dp[i] <= M);
            }
        }
        assert forall|i: int| 0 <= i < pq.len() implies 0 <= #[trigger] pq[i] < b by {
            if i < dq.len() {
                assert(0 <= dq[i] <= M);
            }
        }
        assert forall|i: int| 0 <= i < m - 2 implies pq[i] == pp[i] by {
            assert(dq[i] == Node::<K, V, M>::frame_digit(g[i]));
            assert(dp[i] == Node::<K, V, M>::frame_digit(f[i]));
        }
        assert(dq[m - 2] == Node::<K, V, M>::frame_digit(g[m - 2]));
        assert(dp[m - 2] == Node::<K, V, M>::frame_digit(f[m - 2]));
        lemma_digits_value_lex(pp, pq, b, m - 2);
        lemma_digits_value_nonneg(pq, b);
    }

    /// Going down to the child at the current index lowers the measure.
    proof fn lemma_push_step(pre: Self, post: Self)
        requires
            pre.wf(),
            pre.current is Some,
            !pre.current.unwrap().is_leaf_node(),
            pre.index < pre.current.unwrap().children_of().len(),
            post.tree == pre.tree,
            post.start == pre.start,
            post.end == pre.end,
            post.current is Some,
            ({
                let c = *pre.current.unwrap();
                &&& post.frames() == pre.frames().push((c, pre.index))
                &&& *post.current.unwrap() == *c.children_of()[pre.index as int]
                &&& post.index == 0
            }),
        ensures
            post.wf(),
            0 <= post.measure() < pre.measure(),
    {
        let f = pre.frames();
        let m = f.len();
        let c = *pre.current.unwrap();
        let x = pre.index;
        let t = f[m - 1];
        let g = post.frames();
        let tm = pre.tree@;
        let child = *c.children_of()[x as int];
        assert(c.entries_within(tm));
        assert(child.entries_within(tm));
        assert forall|k: int| 0 <= k < g.len() implies (#[trigger] g[k]).0.entries_within(tm) by {
            if k < m {
                assert(f[k].0.entries_within(tm));
            }
        }
        if t.0 != c {
            t.0.lemma_child_height(t.1 as int);
        }
        assert forall|k: int| 0 <= k < g.len() - 1 implies #[trigger] Node::<K, V, M>::frame_link(g, k) by {
            if k < m - 1 {
                assert(Node::<K, V, M>::frame_link(f, k));
                if k + 2 < g.len() {
                    assert(g[k + 2] == if k + 2 < m { f[k + 2] } else { (c, x) });
                }
            }
        }
        assert forall|k: int| 0 <= k < g.len() - 1 implies !(#[trigger] g[k]).0.is_leaf_node()
            && g[k].1 < g[k].0.children_of().len() by {
            if k < m - 1 {
                assert(!f[k].0.is_leaf_node() && f[k].1 < f[k].0.children_of().len());
            }
        }
        assert(Self::top_ok(g, *post.current.unwrap(), post.index));
        assert(post.wf());
        pre.lemma_digits_bounded();
        post.lemma_digits_bounded();
        let dp = pre.digits();
        let dq = post.digits();
        let b = M + 2;
        let pp = padded(dp, pre.digit_cap(), M + 1);
        let pq = padded(dq, post.digit_cap(), M + 1);
        assert(pre.digit_cap() == post.digit_cap());
        assert forall|i: int| 0 <= i < pp.len() implies 0 <= #[trigger] pp[i] < b by {
            if i < dp.len() {
                assert(0 <= dp[i] <= M);
            }
        }
        assert forall|i: int| 0 <= i < pq.len() implies 0 <= #[trigger] pq[i] < b by {
            if i < dq.len() {
                assert(0 <= dq[i] <= M);
            }
        }
        assert forall|i: int| 0 <= i < m + 1 implies pq[i] == pp[i] by {
            if i < m {
                assert(dq[i] == Node::<K, V, M>::frame_digit(g[i]));
                assert(dp[i] == Node::<K, V, M>::frame_digit(f[i]));
            } else {
                assert(dq[i] == Node::<K, V, M>::frame_digit(g[i]));
            }
        }
        assert(pp[m + 1int] == M + 1);
        lemma_digits_value_lex(pp, pq, b, m + 1int);
        lemma_digits_value_nonneg(pq, b);
    }

    /// Whether `key` lies in the walk's range.
    fn in_range(&self, key: &K) -> (r: bool)
        ensures
            r == in_bounds::<K>(self.start, self.end, key@),
    {
        match &self.start {
            Bound::Included(s) => {
                proof {
                    lemma_key_trichotomy::<K>(key@, s@);
                }
                if key.compare(s) == KeyOrder::Less {
                    return false;
                }
            },
            Bound::Excluded(s) => {
                proof {
                    lemma_key_trichotomy::<K>(key@, s@);
                }
                if key.compare(s) != KeyOrder::Greater {
                    return false;
                }
            },
            Bound::Unbounded => {},
        }
        match &self.end {
            Bound::Included(e) => {
                proof {
                    lemma_key_trichotomy::<K>(key@, e@);
                }
                if key.compare(e) == KeyOrder::Greater {
                    return false;
                }
            },
            Bound::Excluded(e) => {
                proof {
                    lemma_key_trichotomy::<K>(key@, e@);
                }
                if key.compare(e) != KeyOrder::Less {
                    return false;
                }
            },
            Bound::Unbounded => {},
        }
        true
    }
}


impl<'a, K: OrderedKey, V, const M: usize> RangeIter<'a, K, V, M> {
    /// The next entry of the walk whose key lies in the range. The walk goes
    /// through the leaves' entries one by one, moving between leaves by way of
    /// the nodes on its stack; once it has no node left to go to it answers
    /// `None`, and the step after that begins the walk anew.
    pub fn next(&mut self) -> (r: Option<(&'a K, &'a V)>)
        requires
            old(self).wf(),
            old(self).shallow_ok(),
        ensures
            final(self).wf(),
            final(self).shallow_ok(),
            final(self).tree_map() == old(self).tree_map(),
            final(self).range_start() == old(self).range_start(),
            final(self).range_end() == old(self).range_end(),
            final(self).shallow() == old(self).shallow(),
            match r {
                Some((k, v)) => {
                    &&& final(self).tree_map().contains_key(k@)
                    &&& final(self).tree_map()[k@] == *v
                    &&& in_bounds::<K>(final(self).range_start(), final(self).range_end(), k@)
                },
                None => final(self).is_fresh(),
            },
            old(self).shallow() ==> match r {
                Some((k, v)) => {
                    &&& old(self).pending().len() > 0
                    &&& old(self).pending()[0] == (k@, *v)
                    &&& final(self).pending() == old(self).pending().drop_first()
                },
                None => old(self).pending().len() == 0,
            },
    {
        let ghost p_init = self.pending();
        if self.current.is_none() {
            let tree: &'a BTree<K, V, M> = self.tree;
            match tree.root.as_ref() {
                Some(node) => {
                    let root: &'a Node<K, V, M> = &**node;
                    self.current = Some(root);
                    self.index = 0;
                    self.stack.push((root, 0));
                    proof {
                        assert(self.frames() =~= seq![(*root, 0usize)]);
                        assert(self.pending() == p_init);
                    }
                },
                None => {
                    return None;
                },
            }
        }
        loop
            invariant
                self.wf(),
                self.shallow_ok(),
                self.current is Some,
                self.tree == old(self).tree,
                self.start == old(self).start,
                self.end == old(self).end,
                old(self).shallow() ==> self.pending() == p_init,
                p_init == old(self).pending(),
            decreases self.measure(),
        {
            let ghost s0 = *self;
            let node: &'a Node<K, V, M> = match self.current {
                Some(n) => n,
                None => {
                    return None;
                },
            };
            match node {
                Node::Leaf { keys, values } => {
                    proof {
                        assert(node.entries_within(self.tree@));
                    }
                    while self.index < keys.len()
                        invariant
                            self.wf(),
                            self.shallow_ok(),
                            old(self).shallow() ==> self.pending() == p_init,
                            p_init == old(self).pending(),
                            self.current == Some(node),
                            *node == (Node::<K, V, M>::Leaf { keys: *keys, values: *values }),
                            self.stack == s0.stack,
                            self.tree == s0.tree,
                            self.start == s0.start,
                            self.end == s0.end,
                            s0.tree == old(self).tree,
                            s0.start == old(self).start,
                            s0.end == old(self).end,
                        decreases keys.len() - self.index,
                    {
                        let i = self.index;
                        proof {
                            assert(node.entries_within(self.tree@));
                        }
                        let key: &'a K = &keys[i];
                        let value: &'a V = &values[i];
                        let ghost pre = self.pending();
                        proof {
                            let f = self.frames();
                            let tail = if f.len() >= 2 {
                                Node::<K, V, M>::children_hits(
                                    f.last().0.children_of(),
                                    (f.last().1 + 1) as nat,
                                    self.start,
                                    self.end,
                                )
                            } else {
                                Seq::empty()
                            };
                            assert(pre =~= node.leaf_hits(i as nat, self.start, self.end) + tail);
                        }
                        if self.in_range(key) {
                            self.index = i + 1;
                            proof {
                                assert(pre =~= seq![(key@, *value)] + self.pending());
                                assert(self.pending() =~= pre.drop_first());
                            }
                            return Some((key, value));
                        }
                        self.index = i + 1;
                    }
                    let ghost s1 = *self;
                    proof {
                        if s1.frames().len() == 1 {
                            assert(s1.pending() =~= Seq::empty());
                        }
                    }
                    self.current = None;
                    let _ = self.stack.pop();
                    let len = self.stack.len();
                    if len > 0 {
                        let (parent, parent_index) = self.stack[len - 1];
                        proof {
                            assert(s0.frames()[len - 1] == (*parent, parent_index));
                        }
                        self.current = Some(parent);
                        self.index = parent_index + 1;
                        self.stack[len - 1] = (parent, parent_index + 1);
                        proof {
                            let f = s0.frames();
                            assert(self.frames() =~= f.drop_last().update(len - 1, (*parent, (parent_index + 1) as usize)));
                            Self::lemma_pop_step(s0, *self);
                            if s0.shallow() {
                                Self::lemma_shallow_pop(s1, *self);
                            }
                        }
                    } else {
                        return None;
                    }
                },
                Node::Internal { .. } => {
                    proof {
                        assert(node.entries_within(self.tree@));
                        assert(node.children_of().len() == node.key_seq().len() + 1);
                    }
                    if self.index < node.num_keys() + 1 {
                        match node.get_child(self.index) {
                            Some(child) => {
                                self.stack.push((node, self.index));
                                self.current = Some(child);
                                self.index = 0;
                                proof {
                                    assert(self.frames() =~= s0.frames().push((*node, s0.index)));
                                    Self::lemma_push_step(s0, *self);
                                    if s0.shallow() {
                                        Self::lemma_shallow_push(s0, *self);
                                    }
                                }
                            },
                            None => {
                                self.index = self.index + 1;
                            },
                        }
                    } else {
                        let ghost s1 = *self;
                        proof {
                            if s1.frames().len() == 1 {
                                assert(s1.pending() =~= Seq::empty());
                            }
                        }
                        self.current = None;
                        let _ = self.stack.pop();
                        let len = self.stack.len();
                        if len > 0 {
                            let (parent, parent_index) = self.stack[len - 1];
                            proof {
                                assert(s0.frames()[len - 1] == (*parent, parent_index));
                            }
                            self.current = Some(parent);
                            self.index = parent_index + 1;
                            self.stack[len - 1] = (parent, parent_index + 1);
                            proof {
                                let f = s0.frames();
                                assert(self.frames() =~= f.drop_last().update(len - 1, (*parent, (parent_index + 1) as usize)));
                                Self::lemma_pop_step(s0, *self);
                                if s0.shallow() {
                                    Self::lemma_shallow_pop(s1, *self);
                                }
                            }
                        } else {
                            return None;
                        }
                    }
                },
            }
        }
    }
}

impl<K: OrderedKey, V, const M: usize> BTree<K, V, M> {
    /// A walk over the entries whose keys lie between `start` and `end`.
    pub fn range(&self, start: Bound<K>, end: Bound<K>) -> (it: RangeIter<'_, K, V, M>)
        ensures
            it.wf(),
            it.shallow_ok(),
            it.is_fresh(),
            it.shallow() == (self.levels() <= 2),
            it.tree_map() == self@,
            it.range_start() == start,
            it.range_end() == end,
    {
        proof {
            use_type_invariant(self);
            if self.root is Some {
                self.root.unwrap().lemma_wf_entries_within(None, None);
            }
        }
        RangeIter { tree: self, start, end, stack: Vec::new(), current: None, index: 0 }
    }
}

/// The keys of a run of entries rise strictly.
pub open spec fn keys_rising<K: OrderedKey, V>(s: Seq<(K::V, V)>) -> bool {
    forall|i: int, j: int| 0 <= i < j < s.len() ==> K::spec_less(s[i].0, s[j].0)
}

impl<K: OrderedKey, V, const M: usize> Node<K, V, M> {
    /// Each entry in the range of a leaf from position `x` on is an entry of
    /// the leaf at or after `x`, with a key in the range.
    proof fn lemma_leaf_hits_sound(self, x: nat, start: Bound<K>, end: Bound<K>)
        ensures
            ({
                let hits = self.leaf_hits(x, start, end);
                forall|j: int| 0 <= j < hits.len() ==> exists|i: int|
                    x <= i < self.keys_of().len() && (#[trigger] hits[j]) == (self.keys_of()[i]@, self.values_of()[i])
                        && in_bounds::<K>(start, end, hits[j].0)
            }),
        decreases self.keys_of().len() - x,
    {
        let ks = self.keys_of();
        let vs = self.values_of();
        let hits = self.leaf_hits(x, start, end);
        if x < ks.len() {
            self.lemma_leaf_hits_sound(x + 1, start, end);
            let rest = self.leaf_hits(x + 1, start, end);
            let k = ks[x as int]@;
            if in_bounds::<K>(start, end, k) {
                assert forall|j: int| 0 <= j < hits.len() implies exists|i: int|
                    x <= i < ks.len() && (#[trigger] hits[j]) == (ks[i]@, vs[i]) && in_bounds::<K>(start, end, hits[j].0) by {
                    if j > 0 {
                        assert(hits[j] == rest[j - 1]);
                    } else {
                        assert(hits[0] == (ks[x as int]@, vs[x as int]));
                    }
                }
            }
        }
    }

    /// Each entry of a leaf at or after position `x` whose key lies in the
    /// range is among the entries in the range from `x` on.
    proof fn lemma_leaf_hits_complete(self, x: nat, start: Bound<K>, end: Bound<K>)
        ensures
            ({
                let hits = self.leaf_hits(x, start, end);
                forall|i: int| x <= i < self.keys_of().len() && in_bounds::<K>(start, end, #[trigger] self.keys_of()[i]@)
                    ==> exists|j: int| 0 <= j < hits.len() && hits[j].0 == self.keys_of()[i]@
            }),
        decreases self.keys_of().len() - x,
    {
        let ks = self.keys_of();
        let hits = self.leaf_hits(x, start, end);
        if x < ks.len() {
            self.lemma_leaf_hits_complete(x + 1, start, end);
            let rest = self.leaf_hits(x + 1, start, end);
            let k = ks[x as int]@;
            assert forall|i: int| x <= i < ks.len() && in_bounds::<K>(start, end, #[trigger] ks[i]@)
                implies exists|j: int| 0 <= j < hits.len() && hits[j].0 == ks[i]@ by {
                if in_bounds::<K>(start, end, k) {
                    if i > x {
                        let j = choose|j: int| 0 <= j < rest.len() && rest[j].0 == ks[i]@;
                        assert(hits[j + 1] == rest[j]);
                    } else {
                        assert(hits[0].0 == ks[i]@);
                    }
                }
            }
        }
    }

    /// The entries in the range of a sorted leaf rise in key.
    proof fn lemma_leaf_hits_rising(self, x: nat, start: Bound<K>, end: Bound<K>)
        requires
            sorted::<K>(self.key_seq()),
        ensures
            keys_rising::<K, V>(self.leaf_hits(x, start, end)),
        decreases self.keys_of().len() - x,
    {
        let ks = self.keys_of();
        let vs = self.values_of();
        let hits = self.leaf_hits(x, start, end);
        if x < ks.len() {
            self.lemma_leaf_hits_rising(x + 1, start, end);
            self.lemma_leaf_hits_sound(x + 1, start, end);
            let rest = self.leaf_hits(x + 1, start, end);
            let k = ks[x as int]@;
            if in_bounds::<K>(start, end, k) {
                assert forall|a: int, b: int| 0 <= a < b < hits.len() implies K::spec_less(hits[a].0, hits[b].0) by {
                    assert(hits[b] == rest[b - 1]);
                    if a > 0 {
                        assert(hits[a] == rest[a - 1]);
                    } else {
                        let i = choose|i: int| x + 1 <= i < ks.len() && (#[trigger] rest[b - 1]) == (ks[i]@, vs[i])
                            && in_bounds::<K>(start, end, rest[b - 1].0);
                        assert(self.key_seq()[i] == ks[i]@);
                        assert(self.key_seq()[x as int] == k);
                    }
                }
            }
        }
    }

    /// The entries in the range of the leaves `ch[j]`, ... of an ordered node
    /// are the entries of those leaves whose keys lie in the range, each of
    /// them, in rising order of keys.
    proof fn lemma_children_hits(
        ks: Seq<K::V>,
        ch: Seq<Box<Node<K, V, M>>>,
        lo: Option<K::V>,
        hi: Option<K::V>,
        j: nat,
        start: Bound<K>,
        end: Bound<K>,
    )
        requires
            Self::internal_ordered(ks, ch, lo, hi),
            forall|c: int| 0 <= c < ch.len() ==> (#[trigger] ch[c]).is_leaf_node(),
            j <= ch.len(),
        ensures
            ({
                let hits = Self::children_hits(ch, j, start, end);
                &&& forall|e: int| #![trigger hits[e]] 0 <= e < hits.len() ==> exists|c: int|
                    j <= c < ch.len() && (#[trigger] ch[c]).map().contains_key(hits[e].0) && ch[c].map()[hits[e].0] == hits[e].1
                        && in_bounds::<K>(start, end, hits[e].0)
                &&& forall|c: int, k: K::V| j <= c < ch.len() && #[trigger] ch[c].map().contains_key(k) && in_bounds::<K>(start, end, k)
                    ==> exists|e: int| 0 <= e < hits.len() && hits[e].0 == k
                &&& keys_rising::<K, V>(hits)
            }),
        decreases ch.len() - j,
    {
        let hits = Self::children_hits(ch, j, start, end);
        if j < ch.len() {
            Self::lemma_children_hits(ks, ch, lo, hi, j + 1, start, end);
            let rest = Self::children_hits(ch, j + 1, start, end);
            let leaf = *ch[j as int];
            Self::lemma_child_wf(ks, ch, lo, hi, j as int);
            assert(leaf.wf(child_lo(lo, ks, j as int), child_hi(hi, ks, j as int)));
            let lk = leaf.key_seq();
            leaf.lemma_leaf_hits_sound(0, start, end);
            leaf.lemma_leaf_hits_complete(0, start, end);
            leaf.lemma_leaf_hits_rising(0, start, end);
            let here = leaf.leaf_hits(0, start, end);
            assert(hits == here + rest);
            leaf.lemma_map_bounds(child_lo(lo, ks, j as int), child_hi(hi, ks, j as int));
            assert forall|e: int| 0 <= e < here.len() implies leaf.map().contains_key(here[e].0)
                && leaf.map()[here[e].0] == here[e].1 && in_bounds::<K>(start, end, here[e].0) by {
                let i = choose|i: int| 0 <= i < leaf.keys_of().len() && (#[trigger] here[e]) == (leaf.keys_of()[i]@, leaf.values_of()[i])
                    && in_bounds::<K>(start, end, here[e].0);
                assert(lk[i] == leaf.keys_of()[i]@);
                lemma_leaf_map_at::<K, V>(lk, leaf.values_of(), i);
            }
            assert forall|e: int| #![trigger hits[e]] 0 <= e < hits.len() implies exists|c: int|
                j <= c < ch.len() && (#[trigger] ch[c]).map().contains_key(hits[e].0) && ch[c].map()[hits[e].0] == hits[e].1
                    && in_bounds::<K>(start, end, hits[e].0) by {
                if e < here.len() {
                    assert(hits[e] == here[e]);
                    assert(ch[j as int] == ch[j as int]);
                } else {
                    assert(hits[e] == rest[e - here.len()]);
                }
            }
            assert forall|c: int, k: K::V| j <= c < ch.len() && #[trigger] ch[c].map().contains_key(k) && in_bounds::<K>(start, end, k)
                implies exists|e: int| 0 <= e < hits.len() && hits[e].0 == k by {
                if c == j {
                    let i = choose|i: int| 0 <= i < lk.len() && lk[i] == k;
                    assert(leaf.keys_of()[i]@ == lk[i]);
                    let e = choose|e: int| 0 <= e < here.len() && here[e].0 == leaf.keys_of()[i]@;
                    assert(hits[e] == here[e]);
                } else {
                    let e = choose|e: int| 0 <= e < rest.len() && rest[e].0 == k;
                    assert(hits[e + here.len()] == rest[e]);
                }
            }
            assert forall|a: int, b: int| 0 <= a < b < hits.len() implies K::spec_less(hits[a].0, hits[b].0) by {
                if b < here.len() {
                    assert(hits[a] == here[a] && hits[b] == here[b]);
                } else if a >= here.len() {
                    assert(hits[a] == rest[a - here.len()] && hits[b] == rest[b - here.len()]);
                } else {
                    assert(hits[a] == here[a]);
                    assert(hits[b] == rest[b - here.len()]);
                    let x = hits[a].0;
                    let y = hits[b].0;
                    assert(leaf.map().contains_key(x));
                    assert(below::<K>(child_hi(hi, ks, j as int), x));
                    let c = choose|c: int| j + 1 <= c < ch.len() && (#[trigger] ch[c]).map().contains_key(rest[b - here.len()].0)
                        && ch[c].map()[rest[b - here.len()].0] == rest[b - here.len()].1
                        && in_bounds::<K>(start, end, rest[b - here.len()].0);
                    Self::lemma_child_wf(ks, ch, lo, hi, c);
                    ch[c].lemma_map_bounds(child_lo(lo, ks, c), child_hi(hi, ks, c));
                    assert(above::<K>(child_lo(lo, ks, c), y));
                    assert(j < ks.len());
                    assert(K::spec_less(x, ks[j as int]));
                    if c - 1 > j {
                        assert(K::spec_less(ks[j as int], ks[c - 1]));
                        K::lemma_less_transitive(x, ks[j as int], ks[c - 1]);
                    }
                    assert(key_le::<K>(ks[c - 1], y));
                    if ks[c - 1] != y {
                        K::lemma_less_transitive(x, ks[c - 1], y);
                    }
                }
            }
        }
    }
}

impl<'a, K: OrderedKey, V, const M: usize> RangeIter<'a, K, V, M> {
    /// A walk over a tree of at most two levels has ahead of it, before it
    /// begins, exactly the entries of the tree whose keys lie in the range,
    /// each once, in rising order of keys.
    pub proof fn lemma_fresh_walk(self)
        requires
            self.wf(),
            self.is_fresh(),
            self.shallow(),
        ensures
            keys_rising::<K, V>(self.pending()),
            forall|e: int| 0 <= e < self.pending().len() ==> {
                &&& self.tree_map().contains_key((#[trigger] self.pending()[e]).0)
                &&& self.tree_map()[self.pending()[e].0] == self.pending()[e].1
                &&& in_bounds::<K>(self.range_start(), self.range_end(), self.pending()[e].0)
            },
            forall|k: K::V| #[trigger] self.tree_map().contains_key(k) && in_bounds::<K>(self.range_start(), self.range_end(), k)
                ==> exists|e: int| 0 <= e < self.pending().len() && self.pending()[e].0 == k,
    {
        let start = self.start;
        let end = self.end;
        let p = self.pending();
        match self.tree.root {
            None => {
                assert(p =~= Seq::empty());
            },
            Some(rb) => {
                let r = *rb;
                assert(self.tree@ == r.map());
                match r {
                    Node::Leaf { keys, values } => {
                        let lk = key_views(keys@);
                        r.lemma_leaf_hits_sound(0, start, end);
                        r.lemma_leaf_hits_complete(0, start, end);
                        r.lemma_leaf_hits_rising(0, start, end);
                        assert(p == r.leaf_hits(0, start, end));
                        assert forall|e: int| 0 <= e < p.len() implies {
                            &&& self.tree_map().contains_key((#[trigger] p[e]).0)
                            &&& self.tree_map()[p[e].0] == p[e].1
                            &&& in_bounds::<K>(start, end, p[e].0)
                        } by {
                            let i = choose|i: int| 0 <= i < r.keys_of().len() && (#[trigger] p[e]) == (r.keys_of()[i]@, r.values_of()[i])
                                && in_bounds::<K>(start, end, p[e].0);
                            assert(lk[i] == keys@[i]@);
                            lemma_leaf_map_at::<K, V>(lk, values@, i);
                        }
                        assert forall|k: K::V| #[trigger] self.tree_map().contains_key(k) && in_bounds::<K>(start, end, k)
                            implies exists|e: int| 0 <= e < p.len() && p[e].0 == k by {
                            let i = choose|i: int| 0 <= i < lk.len() && lk[i] == k;
                            assert(r.keys_of()[i]@ == lk[i]);
                        }
                    },
                    Node::Internal { keys, children } => {
                        let ks = key_views(keys@);
                        let ch = children@;
                        assert(Node::<K, V, M>::internal_ordered(ks, ch, None, None));
                        assert forall|c: int| 0 <= c < ch.len() implies (#[trigger] ch[c]).is_leaf_node() by {
                            r.lemma_child_height(c);
                        }
                        Node::<K, V, M>::lemma_children_hits(ks, ch, None, None, 0, start, end);
                        assert(p == Node::<K, V, M>::children_hits(ch, 0, start, end));
                        assert forall|e: int| 0 <= e < p.len() implies {
                            &&& self.tree_map().contains_key((#[trigger] p[e]).0)
                            &&& self.tree_map()[p[e].0] == p[e].1
                            &&& in_bounds::<K>(start, end, p[e].0)
                        } by {
                            let c = choose|c: int| 0 <= c < ch.len() && (#[trigger] ch[c]).map().contains_key(p[e].0)
                                && ch[c].map()[p[e].0] == p[e].1 && in_bounds::<K>(start, end, p[e].0);
                            Node::<K, V, M>::lemma_child_submap(ks, ch, None, None, c);
                        }
                        assert forall|k: K::V| #[trigger] self.tree_map().contains_key(k) && in_bounds::<K>(start, end, k)
                            implies exists|e: int| 0 <= e < p.len() && p[e].0 == k by {
                            let c = route::<K>(ks, k) as int;
                            assert(ch[c].map().contains_key(k));
                        }
                    },
                }
            },
        }
    }
}

/// A read gives back what the last write wrote: after `insert(key, value)`,
/// `get(key)` finds `value`, and every other key keeps what it had.
pub proof fn lemma_get_after_insert<K: OrderedKey, V>(before: Map<K::V, V>, key: K::V, value: V)
    ensures
        before.insert(key, value).contains_key(key),
        before.insert(key, value)[key] == value,
        forall|other: K::V| other != key ==> (#[trigger] before.insert(key, value).contains_key(other)) == before.contains_key(other)
            && (before.contains_key(other) ==> before.insert(key, value)[other] == before[other]),
{
}

} // verus!
