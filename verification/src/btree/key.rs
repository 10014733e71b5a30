//! Keys and their byte-wise lexicographic order.
use vstd::prelude::*;

verus! {

/// Byte-wise lexicographic order: `a` sorts strictly before `b`.
///
/// Bytes are compared left to right; a proper prefix sorts before the longer key.
pub open spec fn lex_lt(a: Seq<u8>, b: Seq<u8>) -> bool
    decreases a.len(),
{
    if b.len() == 0 {
        false
    } else if a.len() == 0 {
        true
    } else if a[0] < b[0] {
        true
    } else if a[0] > b[0] {
        false
    } else {
        lex_lt(a.drop_first(), b.drop_first())
    }
}

/// `a` sorts before `b` in unsigned byte-wise lexicographic order: at the first index where
/// they differ, `a`'s byte is the smaller as an unsigned byte, or `a` is a proper prefix of
/// `b`.
pub open spec fn unsigned_lex_before(a: Seq<u8>, b: Seq<u8>) -> bool {
    ||| exists|i: int|
        0 <= i < a.len() && i < b.len() && a.take(i) == b.take(i) && (#[trigger] a[i] as int) < b[i] as int
    ||| a.len() < b.len() && b.take(a.len() as int) == a
}

/// The key order is unsigned byte-wise lexicographic order: a key sorts before another
/// exactly when, at the first byte where they differ, its byte is the smaller unsigned
/// value, or when it is a proper prefix of the other. In particular two one-byte keys
/// are ordered as their bytes are, as unsigned numbers.
pub proof fn law_key_order(a: Seq<u8>, b: Seq<u8>)
    ensures
        lex_lt(a, b) <==> unsigned_lex_before(a, b),
        forall|x: u8, y: u8| #[trigger] lex_lt(seq![x], seq![y]) <==> (x as int) < (y as int),
    decreases a.len(),
{
    if b.len() == 0 {
        assert(!unsigned_lex_before(a, b));
    } else if a.len() == 0 {
        assert(b.take(0) =~= a);
    } else if a[0] < b[0] {
        assert(a.take(0) =~= b.take(0));
        assert(unsigned_lex_before(a, b));
    } else if a[0] > b[0] {
        if unsigned_lex_before(a, b) {
            if exists|i: int|
                0 <= i < a.len() && i < b.len() && a.take(i) == b.take(i) && (#[trigger] a[i] as int) < b[i] as int {
                let i = choose|i: int|
                    0 <= i < a.len() && i < b.len() && a.take(i) == b.take(i) && (#[trigger] a[i] as int) < b[i] as int;
                if i > 0 {
                    assert(a.take(i)[0] == b.take(i)[0]);
                }
            } else {
                assert(b.take(a.len() as int)[0] == a[0]);
            }
        }
    } else {
        let a1 = a.drop_first();
        let b1 = b.drop_first();
        law_key_order(a1, b1);
        if unsigned_lex_before(a1, b1) {
            if exists|i: int|
                0 <= i < a1.len() && i < b1.len() && a1.take(i) == b1.take(i) && (#[trigger] a1[i] as int) < b1[i] as int {
                let i = choose|i: int|
                    0 <= i < a1.len() && i < b1.len() && a1.take(i) == b1.take(i) && (#[trigger] a1[i] as int) < b1[i] as int;
                assert(a.take(i + 1) =~= seq![a[0]] + a1.take(i));
                assert(b.take(i + 1) =~= seq![b[0]] + b1.take(i));
                assert(a[i + 1] == a1[i] && b[i + 1] == b1[i]);
            } else {
                assert(b.take(a.len() as int) =~= seq![b[0]] + b1.take(a1.len() as int));
                assert(a =~= seq![a[0]] + a1);
            }
            assert(unsigned_lex_before(a, b));
        }
        if unsigned_lex_before(a, b) {
            if exists|i: int|
                0 <= i < a.len() && i < b.len() && a.take(i) == b.take(i) && (#[trigger] a[i] as int) < b[i] as int {
                let i = choose|i: int|
                    0 <= i < a.len() && i < b.len() && a.take(i) == b.take(i) && (#[trigger] a[i] as int) < b[i] as int;
                assert(i > 0);
                assert(a1.take(i - 1) =~= a.take(i).drop_first());
                assert(b1.take(i - 1) =~= b.take(i).drop_first());
                assert(a1[i - 1] == a[i] && b1[i - 1] == b[i]);
            } else {
                assert(b1.take(a1.len() as int) =~= b.take(a.len() as int).drop_first());
            }
            assert(unsigned_lex_before(a1, b1));
        }
    }
    assert forall|x: u8, y: u8| #[trigger] lex_lt(seq![x], seq![y]) <==> (x as int) < (y as int) by {
        let sx = seq![x];
        let sy = seq![y];
        assert(sx.drop_first() =~= Seq::<u8>::empty());
        assert(sy.drop_first() =~= Seq::<u8>::empty());
        assert(sx[0] == x && sy[0] == y);
        assert(!lex_lt(sx.drop_first(), sy.drop_first()));
        assert(lex_lt(sx, sy) == if x < y {
            true
        } else if x > y {
            false
        } else {
            lex_lt(sx.drop_first(), sy.drop_first())
        });
    }
}

/// No key sorts before itself.
pub proof fn lemma_lex_irreflexive(a: Seq<u8>)
    ensures
        !lex_lt(a, a),
    decreases a.len(),
{
    if a.len() > 0 {
        lemma_lex_irreflexive(a.drop_first());
    }
}

/// The order is transitive.
pub proof fn lemma_lex_transitive(a: Seq<u8>, b: Seq<u8>, c: Seq<u8>)
    requires
        lex_lt(a, b),
        lex_lt(b, c),
    ensures
        lex_lt(a, c),
    decreases a.len(),
{
    if a.len() > 0 && b.len() > 0 && c.len() > 0 && a[0] == b[0] && b[0] == c[0] {
        lemma_lex_transitive(a.drop_first(), b.drop_first(), c.drop_first());
    }
}

/// Any two keys are ordered one way, the other, or are equal.
pub proof fn lemma_lex_total(a: Seq<u8>, b: Seq<u8>)
    ensures
        lex_lt(a, b) || a == b || lex_lt(b, a),
    decreases a.len(),
{
    if a.len() == 0 && b.len() == 0 {
        assert(a =~= b);
    } else if a.len() > 0 && b.len() > 0 && a[0] == b[0] {
        lemma_lex_total(a.drop_first(), b.drop_first());
        if a.drop_first() == b.drop_first() {
            assert(a =~= b) by {
                assert(a.drop_first().len() == b.drop_first().len());
                assert forall|i: int| 0 <= i < a.len() implies a[i] == b[i] by {
                    if i > 0 {
                        assert(a[i] == a.drop_first()[i - 1]);
                        assert(b[i] == b.drop_first()[i - 1]);
                    }
                }
            }
        }
    }
}

/// The order is asymmetric.
pub proof fn lemma_lex_asymmetric(a: Seq<u8>, b: Seq<u8>)
    requires
        lex_lt(a, b),
    ensures
        !lex_lt(b, a),
{
    if lex_lt(b, a) {
        lemma_lex_transitive(a, b, a);
        lemma_lex_irreflexive(a);
    }
}

/// Byte-wise lexicographic order is a strict total order: irreflexive, transitive, and
/// any two distinct keys are comparable.
pub proof fn lemma_lex_strict_total_order()
    ensures
        forall|a: Seq<u8>| !lex_lt(a, a),
        forall|a: Seq<u8>, b: Seq<u8>, c: Seq<u8>|
            #[trigger] lex_lt(a, b) && #[trigger] lex_lt(b, c) ==> lex_lt(a, c),
        forall|a: Seq<u8>, b: Seq<u8>| #[trigger] lex_lt(a, b) || a == b || lex_lt(b, a),
{
    assert forall|a: Seq<u8>| !lex_lt(a, a) by {
        lemma_lex_irreflexive(a);
    }
    assert forall|a: Seq<u8>, b: Seq<u8>, c: Seq<u8>|
        #[trigger] lex_lt(a, b) && #[trigger] lex_lt(b, c) implies lex_lt(a, c) by {
        lemma_lex_transitive(a, b, c);
    }
    assert forall|a: Seq<u8>, b: Seq<u8>| #[trigger] lex_lt(a, b) || a == b || lex_lt(b, a) by {
        lemma_lex_total(a, b);
    }
}

/// Two keys that agree on their first `i` bytes compare as their remainders do.
proof fn lemma_lex_common_prefix(a: Seq<u8>, b: Seq<u8>, i: int)
    requires
        0 <= i <= a.len(),
        i <= b.len(),
        forall|j: int| 0 <= j < i ==> a[j] == b[j],
    ensures
        lex_lt(a, b) == lex_lt(a.skip(i), b.skip(i)),
    decreases i,
{
    if i > 0 {
        lemma_lex_common_prefix(a.drop_first(), b.drop_first(), i - 1);
        assert(a.drop_first().skip(i - 1) =~= a.skip(i));
        assert(b.drop_first().skip(i - 1) =~= b.skip(i));
    } else {
        assert(a.skip(0) =~= a);
        assert(b.skip(0) =~= b);
    }
}

/// Compares two byte strings in byte-wise lexicographic order.
pub fn compare_bytes(a: &[u8], b: &[u8]) -> (r: KeyOrder)
    ensures
        r == KeyOrder::Less <==> lex_lt(a@, b@),
        r == KeyOrder::Equal <==> a@ == b@,
        r == KeyOrder::Greater <==> lex_lt(b@, a@),
{
    let n = if a.len() < b.len() {
        a.len()
    } else {
        b.len()
    };
    let mut i: usize = 0;
    while i < n
        invariant
            i <= n,
            n <= a@.len(),
            n <= b@.len(),
            n == a@.len() || n == b@.len(),
            forall|j: int| 0 <= j < i ==> a@[j] == b@[j],
        decreases n - i,
    {
        if a[i] != b[i] {
            proof {
                lemma_lex_common_prefix(a@, b@, i as int);
                lemma_lex_common_prefix(b@, a@, i as int);
                assert(a@.skip(i as int)[0] == a@[i as int]);
                assert(b@.skip(i as int)[0] == b@[i as int]);
            }
            if a[i] < b[i] {
                proof {
                    lemma_lex_asymmetric(a@, b@);
                }
                return KeyOrder::Less;
            } else {
                proof {
                    lemma_lex_asymmetric(b@, a@);
                }
                return KeyOrder::Greater;
            }
        }
        i = i + 1;
    }
    proof {
        lemma_lex_common_prefix(a@, b@, i as int);
        lemma_lex_common_prefix(b@, a@, i as int);
    }
    if a.len() < b.len() {
        proof {
            lemma_lex_asymmetric(a@, b@);
        }
        KeyOrder::Less
    } else if a.len() > b.len() {
        proof {
            lemma_lex_asymmetric(b@, a@);
        }
        KeyOrder::Greater
    } else {
        assert(a@ =~= b@);
        proof {
            lemma_lex_irreflexive(a@);
        }
        KeyOrder::Equal
    }
}

/// Outcome of comparing two keys.
#[derive(Debug, Clone, Copy, PartialEq, Eq, Structural)]
pub enum KeyOrder {
    Less,
    Equal,
    Greater,
}

/// A key: a thin wrapper over byte-like data that orders byte-wise lexicographically.
pub struct Key<D> {
    data: D,
}

impl<D> Key<D> {
    /// The wrapped data.
    pub closed spec fn data(&self) -> D {
        self.data
    }

    /// Wraps `data` as a key.
    pub fn from(data: D) -> (k: Self)
        ensures
            k.data() == data,
    {
        Self { data }
    }

    /// The raw backing data.
    pub fn bytes(&self) -> (r: &D)
        ensures
            *r == self.data(),
    {
        &self.data
    }
}

impl<'a> Key<&'a [u8]> {
    /// Number of bytes in the key.
    pub fn len(&self) -> (r: usize)
        ensures
            r == self.data()@.len(),
    {
        self.data.len()
    }

    /// Compares two keys byte-wise lexicographically.
    pub fn compare(&self, other: &Key<&[u8]>) -> (r: KeyOrder)
        ensures
            r == KeyOrder::Less <==> lex_lt(self.data()@, other.data()@),
            r == KeyOrder::Equal <==> self.data()@ == other.data()@,
            r == KeyOrder::Greater <==> lex_lt(other.data()@, self.data()@),
    {
        compare_bytes(self.data, other.data)
    }
}

impl Key<Vec<u8>> {
    /// Number of bytes in the key.
    pub fn len(&self) -> (r: usize)
        ensures
            r == self.data()@.len(),
    {
        self.data.len()
    }
}

} // verus!
