//! Keys that the trees can order: a strict total order on the keys' views,
//! and an executable three-way comparison that agrees with it.

use vstd::prelude::*;
use vstd::utf8::encode_utf8;

verus! {

/// The outcome of comparing two keys.
#[derive(Clone, Copy, Debug, PartialEq, Eq, Structural)]
pub enum KeyOrder {
    Less,
    Equal,
    Greater,
}

/// A key type ordered by a strict total order on its view.
pub trait OrderedKey: View + Sized {
    /// The strict order on views of keys.
    spec fn spec_less(a: Self::V, b: Self::V) -> bool;

    proof fn lemma_less_irreflexive(a: Self::V)
        ensures
            !Self::spec_less(a, a),
    ;

    proof fn lemma_less_transitive(a: Self::V, b: Self::V, c: Self::V)
        requires
            Self::spec_less(a, b),
            Self::spec_less(b, c),
        ensures
            Self::spec_less(a, c),
    ;

    proof fn lemma_less_total(a: Self::V, b: Self::V)
        ensures
            a == b || Self::spec_less(a, b) || Self::spec_less(b, a),
    ;

    /// Three-way comparison of two keys.
    fn compare(&self, other: &Self) -> (c: KeyOrder)
        ensures
            c == KeyOrder::Less <==> Self::spec_less(self@, other@),
            c == KeyOrder::Equal <==> self@ == other@,
            c == KeyOrder::Greater <==> Self::spec_less(other@, self@),
    ;

    /// A copy of the key with the same view.
    fn clone_key(&self) -> (r: Self)
        ensures
            r@ == self@,
    ;
}

/// `a` is ordered before or equal to `b`.
pub open spec fn key_le<K: OrderedKey>(a: K::V, b: K::V) -> bool {
    a == b || K::spec_less(a, b)
}

pub broadcast proof fn lemma_key_irreflexive<K: OrderedKey>(a: K::V)
    ensures
        !(#[trigger] K::spec_less(a, a)),
{
    K::lemma_less_irreflexive(a);
}

pub broadcast proof fn lemma_key_transitive<K: OrderedKey>(a: K::V, b: K::V, c: K::V)
    requires
        K::spec_less(a, b),
        K::spec_less(b, c),
    ensures
        #![trigger K::spec_less(a, b), K::spec_less(b, c)]
        K::spec_less(a, c),
{
    K::lemma_less_transitive(a, b, c);
}

pub broadcast group group_key_order {
    lemma_key_irreflexive,
    lemma_key_transitive,
}

impl OrderedKey for u64 {
    open spec fn spec_less(a: u64, b: u64) -> bool {
        a < b
    }

    proof fn lemma_less_irreflexive(a: u64) {
    }

    proof fn lemma_less_transitive(a: u64, b: u64, c: u64) {
    }

    proof fn lemma_less_total(a: u64, b: u64) {
    }

    fn compare(&self, other: &u64) -> (c: KeyOrder) {
        if *self < *other {
            KeyOrder::Less
        } else if *self == *other {
            KeyOrder::Equal
        } else {
            KeyOrder::Greater
        }
    }

    fn clone_key(&self) -> (r: u64) {
        *self
    }
}

/// Lexicographic order on byte strings, with a proper prefix first.
pub open spec fn bytes_less(a: Seq<u8>, b: Seq<u8>) -> bool
    decreases a.len(),
{
    if a.len() == 0 {
        b.len() > 0
    } else if b.len() == 0 {
        false
    } else if a[0] != b[0] {
        a[0] < b[0]
    } else {
        bytes_less(a.drop_first(), b.drop_first())
    }
}

proof fn lemma_bytes_less_irreflexive(a: Seq<u8>)
    ensures
        !bytes_less(a, a),
    decreases a.len(),
{
    if a.len() > 0 {
        lemma_bytes_less_irreflexive(a.drop_first());
    }
}

proof fn lemma_bytes_less_transitive(a: Seq<u8>, b: Seq<u8>, c: Seq<u8>)
    requires
        bytes_less(a, b),
        bytes_less(b, c),
    ensures
        bytes_less(a, c),
    decreases a.len(),
{
    if a.len() > 0 && b.len() > 0 && c.len() > 0 && a[0] == b[0] && b[0] == c[0] {
        lemma_bytes_less_transitive(a.drop_first(), b.drop_first(), c.drop_first());
    }
}

proof fn lemma_bytes_less_total(a: Seq<u8>, b: Seq<u8>)
    ensures
        a == b || bytes_less(a, b) || bytes_less(b, a),
    decreases a.len(),
{
    if a.len() > 0 && b.len() > 0 && a[0] == b[0] {
        lemma_bytes_less_total(a.drop_first(), b.drop_first());
        if a.drop_first() == b.drop_first() {
            assert(a =~= b) by {
                assert forall|i: int| 0 <= i < a.len() implies a[i] == b[i] by {
                    if i > 0 {
                        assert(a[i] == a.drop_first()[i - 1]);
                        assert(b[i] == b.drop_first()[i - 1]);
                    }
                }
            }
        }
    } else if a.len() == 0 && b.len() == 0 {
        assert(a =~= b);
    }
}

/// Comparing from a common prefix of length `i` on compares the rest.
proof fn lemma_bytes_less_common_prefix(a: Seq<u8>, b: Seq<u8>, i: int)
    requires
        0 <= i <= a.len(),
        i <= b.len(),
        forall|j: int| 0 <= j < i ==> a[j] == b[j],
    ensures
        bytes_less(a, b) == bytes_less(a.subrange(i, a.len() as int), b.subrange(i, b.len() as int)),
    decreases i,
{
    if i > 0 {
        lemma_bytes_less_common_prefix(a.drop_first(), b.drop_first(), i - 1);
        assert(a.drop_first().subrange(i - 1, a.len() - 1) =~= a.subrange(i, a.len() as int));
        assert(b.drop_first().subrange(i - 1, b.len() - 1) =~= b.subrange(i, b.len() as int));
    } else {
        assert(a.subrange(0, a.len() as int) =~= a);
        assert(b.subrange(0, b.len() as int) =~= b);
    }
}

/// Byte strings are ordered lexicographically: `a` comes before `b` exactly
/// when `a` is a proper prefix of `b`, or where they first differ `a` holds
/// the smaller byte.
pub proof fn lemma_bytes_less_lexicographic(a: Seq<u8>, b: Seq<u8>)
    ensures
        bytes_less(a, b) <==> {
            ||| a.len() < b.len() && a == b.subrange(0, a.len() as int)
            ||| exists|i: int|
                0 <= i < a.len() && i < b.len() && a.subrange(0, i) == b.subrange(0, i) && #[trigger] a[i] < b[i]
        },
    decreases a.len(),
{
    if a.len() == 0 {
        assert(a =~= b.subrange(0, 0));
    } else if b.len() == 0 {
    } else if a[0] != b[0] {
        if a.len() < b.len() && a == b.subrange(0, a.len() as int) {
            assert(a[0] == b.subrange(0, a.len() as int)[0]);
        }
        assert forall|i: int| 0 <= i < a.len() && i < b.len() && a.subrange(0, i) == b.subrange(0, i) && #[trigger] a[i] < b[i]
            implies i == 0 by {
            if i > 0 {
                assert(a.subrange(0, i)[0] == b.subrange(0, i)[0]);
            }
        }
        if a[0] < b[0] {
            assert(a.subrange(0, 0) =~= b.subrange(0, 0));
        }
    } else {
        let a1 = a.drop_first();
        let b1 = b.drop_first();
        lemma_bytes_less_lexicographic(a1, b1);
        // a prefix of one is a prefix of the other
        if a.len() < b.len() && a == b.subrange(0, a.len() as int) {
            assert(a1 =~= b1.subrange(0, a1.len() as int)) by {
                assert forall|j: int| #![auto] 0 <= j < a1.len() implies a1[j] == b1.subrange(0, a1.len() as int)[j] by {
                    assert(a[j + 1] == b.subrange(0, a.len() as int)[j + 1]);
                }
            }
        }
        if a1.len() < b1.len() && a1 == b1.subrange(0, a1.len() as int) {
            assert(a =~= b.subrange(0, a.len() as int)) by {
                assert forall|j: int| #![auto] 0 <= j < a.len() implies a[j] == b.subrange(0, a.len() as int)[j] by {
                    if j > 0 {
                        assert(a1[j - 1] == b1.subrange(0, a1.len() as int)[j - 1]);
                    }
                }
            }
        }
        // a first difference in one is a first difference in the other
        if exists|i: int| 0 <= i < a.len() && i < b.len() && a.subrange(0, i) == b.subrange(0, i) && #[trigger] a[i] < b[i] {
            let i = choose|i: int| 0 <= i < a.len() && i < b.len() && a.subrange(0, i) == b.subrange(0, i) && #[trigger] a[i] < b[i];
            assert(i > 0);
            let sa = a1.subrange(0, i - 1);
            let sb = b1.subrange(0, i - 1);
            assert(sa =~= sb) by {
                assert forall|j: int| 0 <= j < sa.len() implies #[trigger] sa[j] == sb[j] by {
                    assert(a.subrange(0, i)[j + 1] == b.subrange(0, i)[j + 1]);
                }
            }
            assert(a1[i - 1] < b1[i - 1]);
        }
        if exists|i: int| 0 <= i < a1.len() && i < b1.len() && a1.subrange(0, i) == b1.subrange(0, i) && #[trigger] a1[i] < b1[i] {
            let i = choose|i: int| 0 <= i < a1.len() && i < b1.len() && a1.subrange(0, i) == b1.subrange(0, i) && #[trigger] a1[i] < b1[i];
            let sa = a.subrange(0, i + 1);
            let sb = b.subrange(0, i + 1);
            assert(sa =~= sb) by {
                assert forall|j: int| 0 <= j < sa.len() implies #[trigger] sa[j] == sb[j] by {
                    if j > 0 {
                        assert(a1.subrange(0, i)[j - 1] == b1.subrange(0, i)[j - 1]);
                    }
                }
            }
            assert(a[i + 1] < b[i + 1]);
        }
    }
}

/// Compares two byte slices lexicographically.
fn compare_bytes(a: &[u8], b: &[u8]) -> (c: KeyOrder)
    ensures
        c == KeyOrder::Less <==> bytes_less(a@, b@),
        c == KeyOrder::Equal <==> a@ == b@,
        c == KeyOrder::Greater <==> bytes_less(b@, a@),
{
    proof {
        lemma_bytes_less_irreflexive(a@);
        lemma_bytes_less_total(a@, b@);
        if bytes_less(a@, b@) && bytes_less(b@, a@) {
            lemma_bytes_less_transitive(a@, b@, a@);
        }
    }
    let mut i: usize = 0;
    while i < a.len() && i < b.len()
        invariant
            i <= a.len(),
            i <= b.len(),
            forall|j: int| 0 <= j < i ==> a@[j] == b@[j],
        decreases a.len() - i,
    {
        if a[i] != b[i] {
            proof {
                lemma_bytes_less_common_prefix(a@, b@, i as int);
                lemma_bytes_less_common_prefix(b@, a@, i as int);
            }
            if a[i] < b[i] {
                return KeyOrder::Less;
            } else {
                return KeyOrder::Greater;
            }
        }
        i = i + 1;
    }
    proof {
        lemma_bytes_less_common_prefix(a@, b@, i as int);
        lemma_bytes_less_common_prefix(b@, a@, i as int);
    }
    if a.len() == b.len() {
        assert(a@ =~= b@);
        KeyOrder::Equal
    } else if a.len() < b.len() {
        KeyOrder::Less
    } else {
        KeyOrder::Greater
    }
}

/// Strings are ordered as Rust orders them: by their UTF-8 bytes.
impl OrderedKey for String {
    open spec fn spec_less(a: Seq<char>, b: Seq<char>) -> bool {
        bytes_less(encode_utf8(a), encode_utf8(b))
    }

    proof fn lemma_less_irreflexive(a: Seq<char>) {
        lemma_bytes_less_irreflexive(encode_utf8(a));
    }

    proof fn lemma_less_transitive(a: Seq<char>, b: Seq<char>, c: Seq<char>) {
        lemma_bytes_less_transitive(encode_utf8(a), encode_utf8(b), encode_utf8(c));
    }

    proof fn lemma_less_total(a: Seq<char>, b: Seq<char>) {
        lemma_bytes_less_total(encode_utf8(a), encode_utf8(b));
        if encode_utf8(a) == encode_utf8(b) {
            vstd::utf8::encode_utf8_decode_utf8(a);
            vstd::utf8::encode_utf8_decode_utf8(b);
        }
    }

    fn compare(&self, other: &String) -> (c: KeyOrder) {
        let a = self.as_str().as_bytes();
        let b = other.as_str().as_bytes();
        let c = compare_bytes(a, b);
        proof {
            vstd::utf8::encode_utf8_decode_utf8(self@);
            vstd::utf8::encode_utf8_decode_utf8(other@);
        }
        c
    }

    fn clone_key(&self) -> (r: String) {
        self.clone()
    }
}

/// The number of bytes of a fixed-size key.
pub const FIXED_LEN: usize = 32;

/// A key of at most `FIXED_LEN` bytes, kept in place and padded with zero
/// bytes; keys order as their bytes do.
#[derive(Clone, Copy, Debug, PartialEq, Eq, PartialOrd, Ord, Hash)]
pub struct FixedSize(pub [u8; 32]);

impl View for FixedSize {
    type V = Seq<u8>;

    open spec fn view(&self) -> Seq<u8> {
        self.0@
    }
}

/// The bytes of the fixed-size key made from the bytes `s`: `s`, then zero
/// bytes up to `FIXED_LEN`.
pub open spec fn fixed_bytes(s: Seq<u8>) -> Seq<u8> {
    s + Seq::new((FIXED_LEN - s.len()) as nat, |i: int| 0u8)
}

impl FixedSize {
    /// The key holding the UTF-8 bytes of `s`, which must fit.
    pub fn new(s: &str) -> (r: Self)
        requires
            encode_utf8(s@).len() <= FIXED_LEN,
        ensures
            r@ == fixed_bytes(encode_utf8(s@)),
    {
        let bytes = s.as_bytes();
        let n = bytes.len();
        let mut arr = [0u8; 32];
        let mut i: usize = 0;
        while i < n
            invariant
                n == bytes@.len(),
                n <= FIXED_LEN,
                i <= n,
                arr@.len() == FIXED_LEN,
                forall|j: int| 0 <= j < i ==> arr@[j] == bytes@[j],
                forall|j: int| i <= j < FIXED_LEN ==> arr@[j] == 0u8,
            decreases n - i,
        {
            arr[i] = bytes[i];
            i = i + 1;
        }
        let r = FixedSize(arr);
        assert(r@ =~= fixed_bytes(encode_utf8(s@)));
        r
    }
}

/// Fixed-size keys are ordered by their bytes.
impl OrderedKey for FixedSize {
    open spec fn spec_less(a: Seq<u8>, b: Seq<u8>) -> bool {
        bytes_less(a, b)
    }

    proof fn lemma_less_irreflexive(a: Seq<u8>) {
        lemma_bytes_less_irreflexive(a);
    }

    proof fn lemma_less_transitive(a: Seq<u8>, b: Seq<u8>, c: Seq<u8>) {
        lemma_bytes_less_transitive(a, b, c);
    }

    proof fn lemma_less_total(a: Seq<u8>, b: Seq<u8>) {
        lemma_bytes_less_total(a, b);
    }

    fn compare(&self, other: &FixedSize) -> (c: KeyOrder) {
        compare_bytes(self.0.as_slice(), other.0.as_slice())
    }

    fn clone_key(&self) -> (r: FixedSize) {
        FixedSize(self.0)
    }
}

/// Strings are ordered as Rust orders them, lexicographically by their UTF-8
/// bytes: `a` comes before `b` exactly when the bytes of `a` are a proper
/// prefix of those of `b`, or where they first differ `a` holds the smaller
/// byte.
pub proof fn lemma_string_order(a: Seq<char>, b: Seq<char>)
    ensures
        <String as OrderedKey>::spec_less(a, b) <==> {
            let x = encode_utf8(a);
            let y = encode_utf8(b);
            ||| x.len() < y.len() && x == y.subrange(0, x.len() as int)
            ||| exists|i: int|
                0 <= i < x.len() && i < y.len() && x.subrange(0, i) == y.subrange(0, i) && #[trigger] x[i] < y[i]
        },
{
    lemma_bytes_less_lexicographic(encode_utf8(a), encode_utf8(b));
}

/// Fixed-size keys are ordered lexicographically by their bytes.
pub proof fn lemma_fixed_size_order(a: Seq<u8>, b: Seq<u8>)
    ensures
        <FixedSize as OrderedKey>::spec_less(a, b) <==> {
            ||| a.len() < b.len() && a == b.subrange(0, a.len() as int)
            ||| exists|i: int|
                0 <= i < a.len() && i < b.len() && a.subrange(0, i) == b.subrange(0, i) && #[trigger] a[i] < b[i]
        },
{
    lemma_bytes_less_lexicographic(a, b);
}

} // verus!
