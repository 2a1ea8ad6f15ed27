//! Lexicographic order on sequences of code points and bytes.

use vstd::prelude::*;
use vstd::std_specs::iter::IteratorSpec;

verus! {

broadcast use vstd::string::group_string_axioms;

/// How one value stands relative to another in a total order.
#[derive(Clone, Copy, Debug, PartialEq, Eq, Structural)]
pub enum Rank {
    Before,
    Same,
    After,
}

/// The code points of a string, as integers.
pub open spec fn codes(s: Seq<char>) -> Seq<int> {
    Seq::new(s.len(), |i: int| s[i] as int)
}

/// The values of a byte string, as integers.
pub open spec fn octets(s: Seq<u8>) -> Seq<int> {
    Seq::new(s.len(), |i: int| s[i] as int)
}

/// `a` and `b` agree on their first `k` elements.
pub open spec fn agree_upto(a: Seq<int>, b: Seq<int>, k: int) -> bool {
    &&& 0 <= k <= a.len()
    &&& k <= b.len()
    &&& forall|i: int| 0 <= i < k ==> a[i] == b[i]
}

/// `a` comes strictly before `b`: at the first place where they differ `a`
/// has ended or holds the smaller element.
pub open spec fn lex_lt(a: Seq<int>, b: Seq<int>) -> bool {
    exists|k: int| #[trigger]
        agree_upto(a, b, k) && k < b.len() && (k == a.len() || a[k] < b[k])
}

/// The three-way comparison that `lex_lt` induces.
pub open spec fn lex_rank(a: Seq<int>, b: Seq<int>) -> Rank {
    if lex_lt(a, b) {
        Rank::Before
    } else if a == b {
        Rank::Same
    } else {
        Rank::After
    }
}

/// No sequence comes before itself, and of two sequences at most one comes
/// before the other.
pub proof fn lemma_lex_asymmetric(a: Seq<int>, b: Seq<int>)
    requires
        lex_lt(a, b),
    ensures
        !lex_lt(b, a),
        a != b,
{
    let k = choose|k: int| #[trigger]
        agree_upto(a, b, k) && k < b.len() && (k == a.len() || a[k] < b[k]);
    if lex_lt(b, a) {
        let j = choose|j: int| #[trigger]
            agree_upto(b, a, j) && j < a.len() && (j == b.len() || b[j] < a[j]);
        if j < k {
            assert(a[j] == b[j]);
        } else if k < j {
            assert(b[k] == a[k]);
        }
    }
}

/// `lex_lt` is transitive.
pub proof fn lemma_lex_transitive(a: Seq<int>, b: Seq<int>, c: Seq<int>)
    requires
        lex_lt(a, b),
        lex_lt(b, c),
    ensures
        lex_lt(a, c),
{
    let k = choose|k: int| #[trigger]
        agree_upto(a, b, k) && k < b.len() && (k == a.len() || a[k] < b[k]);
    let j = choose|j: int| #[trigger]
        agree_upto(b, c, j) && j < c.len() && (j == b.len() || b[j] < c[j]);
    let m = if k <= j { k } else { j };
    assert(agree_upto(a, c, m));
    if k < j {
        assert(b[k] == c[k]);
    } else if j < k {
        assert(a[j] == b[j]);
    }
}

/// Two sequences that agree on their first `k` elements are equal, or one of
/// them comes before the other.
pub proof fn lemma_lex_connected_from(a: Seq<int>, b: Seq<int>, k: int)
    requires
        agree_upto(a, b, k),
    ensures
        a == b || lex_lt(a, b) || lex_lt(b, a),
    decreases a.len() - k,
{
    if k == a.len() && k == b.len() {
        assert(a =~= b);
    } else if k == a.len() {
        assert(agree_upto(a, b, k) && k < b.len());
    } else if k == b.len() {
        assert(agree_upto(b, a, k) && k < a.len());
    } else if a[k] < b[k] {
        assert(agree_upto(a, b, k));
    } else if b[k] < a[k] {
        assert(agree_upto(b, a, k));
    } else {
        assert(agree_upto(a, b, k + 1));
        lemma_lex_connected_from(a, b, k + 1);
    }
}

/// Any two sequences are equal, or one of them comes before the other.
pub proof fn lemma_lex_connected(a: Seq<int>, b: Seq<int>)
    ensures
        a == b || lex_lt(a, b) || lex_lt(b, a),
{
    assert(agree_upto(a, b, 0));
    lemma_lex_connected_from(a, b, 0);
}

/// Strings with the same code points are the same string.
pub proof fn lemma_codes_injective(a: Seq<char>, b: Seq<char>)
    requires
        codes(a) == codes(b),
    ensures
        a == b,
{
    assert(a.len() == codes(a).len());
    assert(b.len() == codes(b).len());
    assert forall|i: int| 0 <= i < a.len() implies a[i] == b[i] by {
        assert(codes(a)[i] == a[i] as int);
        assert(codes(b)[i] == b[i] as int);
    }
    assert(a =~= b);
}

/// Byte strings with the same values are the same byte string.
pub proof fn lemma_octets_injective(a: Seq<u8>, b: Seq<u8>)
    requires
        octets(a) == octets(b),
    ensures
        a == b,
{
    assert(a.len() == octets(a).len());
    assert(b.len() == octets(b).len());
    assert forall|i: int| 0 <= i < a.len() implies a[i] == b[i] by {
        assert(octets(a)[i] == a[i] as int);
        assert(octets(b)[i] == b[i] as int);
    }
    assert(a =~= b);
}

/// Compares two strings code point by code point.
pub fn rank_str(a: &str, b: &str) -> (r: Rank)
    ensures
        r == lex_rank(codes(a@), codes(b@)),
        r == Rank::Same <==> a@ == b@,
{
    let mut ia = a.chars();
    let mut ib = b.chars();
    let ghost mut k: int = 0;
    let ghost ca = codes(a@);
    let ghost cb = codes(b@);
    loop
        invariant
            ca == codes(a@),
            cb == codes(b@),
            agree_upto(ca, cb, k),
            ia.remaining() == a@.skip(k),
            ib.remaining() == b@.skip(k),
        decreases a@.len() - k,
    {
        let x = ia.next();
        let y = ib.next();
        match (x, y) {
            (None, None) => {
                proof {
                    assert(ca =~= cb);
                    lemma_codes_injective(a@, b@);
                    if lex_lt(ca, cb) {
                        lemma_lex_asymmetric(ca, cb);
                    }
                }
                return Rank::Same;
            },
            (None, Some(_)) => {
                proof {
                    assert(agree_upto(ca, cb, k) && k < cb.len());
                    lemma_lex_asymmetric(ca, cb);
                }
                return Rank::Before;
            },
            (Some(_), None) => {
                proof {
                    assert(agree_upto(cb, ca, k) && k < ca.len());
                    lemma_lex_asymmetric(cb, ca);
                }
                return Rank::After;
            },
            (Some(p), Some(q)) => {
                assert(p == a@[k] && q == b@[k]);
                if p < q {
                    proof {
                        assert(agree_upto(ca, cb, k) && k < cb.len() && ca[k] < cb[k]);
                        lemma_lex_asymmetric(ca, cb);
                    }
                    return Rank::Before;
                }
                if q < p {
                    proof {
                        assert(agree_upto(cb, ca, k) && k < ca.len() && cb[k] < ca[k]);
                        lemma_lex_asymmetric(cb, ca);
                    }
                    return Rank::After;
                }
                proof {
                    assert(a@.skip(k).drop_first() =~= a@.skip(k + 1));
                    assert(b@.skip(k).drop_first() =~= b@.skip(k + 1));
                    k = k + 1;
                }
            },
        }
    }
}

/// Compares two byte strings element by element.
pub fn rank_bytes(a: &[u8], b: &[u8]) -> (r: Rank)
    ensures
        r == lex_rank(octets(a@), octets(b@)),
        r == Rank::Same <==> a@ == b@,
{
    let ghost ca = octets(a@);
    let ghost cb = octets(b@);
    let mut i: usize = 0;
    while i < a.len() && i < b.len()
        invariant
            ca == octets(a@),
            cb == octets(b@),
            agree_upto(ca, cb, i as int),
        decreases a.len() - i,
    {
        if a[i] < b[i] {
            proof {
                assert(agree_upto(ca, cb, i as int) && i < cb.len() && ca[i as int] < cb[i as int]);
                lemma_lex_asymmetric(ca, cb);
            }
            return Rank::Before;
        }
        if b[i] < a[i] {
            proof {
                assert(agree_upto(cb, ca, i as int) && i < ca.len() && cb[i as int] < ca[i as int]);
                lemma_lex_asymmetric(cb, ca);
            }
            return Rank::After;
        }
        i += 1;
    }
    if i < b.len() {
        proof {
            assert(agree_upto(ca, cb, i as int) && i < cb.len());
            lemma_lex_asymmetric(ca, cb);
        }
        Rank::Before
    } else if i < a.len() {
        proof {
            assert(agree_upto(cb, ca, i as int) && i < ca.len());
            lemma_lex_asymmetric(cb, ca);
        }
        Rank::After
    } else {
        proof {
            assert(ca =~= cb);
            lemma_octets_injective(a@, b@);
            if lex_lt(ca, cb) {
                lemma_lex_asymmetric(ca, cb);
            }
        }
        Rank::Same
    }
}

} // verus!
