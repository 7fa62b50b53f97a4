//! Lexicographic (byte-wise) ordering on byte sequences.
//!
//! Bencode dictionaries must iterate their keys in strictly ascending
//! lexicographic order of the raw key bytes; this module defines that order
//! and proves the comparison facts the sorted-dictionary code relies on.
use vstd::prelude::*;
use vstd::slice::slice_index_get;

verus! {

/// `a` is strictly below `b` in byte-wise lexicographic order.
pub open spec fn lex_lt(a: Seq<u8>, b: Seq<u8>) -> bool
    decreases a.len(),
{
    if b.len() == 0 {
        false
    } else if a.len() == 0 {
        true
    } else if a[0] != b[0] {
        a[0] < b[0]
    } else {
        lex_lt(a.drop_first(), b.drop_first())
    }
}

/// The order is irreflexive: no byte sequence is below itself.
pub proof fn lemma_lex_irreflexive(a: Seq<u8>)
    ensures
        !lex_lt(a, a),
    decreases a.len(),
{
    if a.len() > 0 {
        lemma_lex_irreflexive(a.drop_first());
    }
}

/// The order is total: two byte sequences are equal, or one is below the other.
pub proof fn lemma_lex_total(a: Seq<u8>, b: Seq<u8>)
    ensures
        a == b || lex_lt(a, b) || lex_lt(b, a),
    decreases a.len(),
{
    if a.len() == 0 || b.len() == 0 {
        if a.len() == b.len() {
            assert(a =~= b);
        }
    } else if a[0] == b[0] {
        lemma_lex_total(a.drop_first(), b.drop_first());
        if a.drop_first() == b.drop_first() {
            assert(a =~= seq![a[0]] + a.drop_first());
            assert(b =~= seq![b[0]] + b.drop_first());
        }
    }
}

/// The order is asymmetric: at most one of `a < b`, `b < a` holds.
pub proof fn lemma_lex_asymmetric(a: Seq<u8>, b: Seq<u8>)
    ensures
        !(lex_lt(a, b) && lex_lt(b, a)),
    decreases a.len(),
{
    if a.len() > 0 && b.len() > 0 && a[0] == b[0] {
        lemma_lex_asymmetric(a.drop_first(), b.drop_first());
    }
}

/// The order is transitive.
pub proof fn lemma_lex_transitive(a: Seq<u8>, b: Seq<u8>, c: Seq<u8>)
    requires
        lex_lt(a, b),
        lex_lt(b, c),
    ensures
        lex_lt(a, c),
    decreases a.len(),
{
    if a.len() > 0 && b.len() > 0 && c.len() > 0 && a[0] == b[0] && b[0] == c[0] {
        lemma_lex_transitive(a.drop_first(), b.drop_first(), c.drop_first());
    }
}

/// Three-way comparison of two byte slices in lexicographic order.
pub fn bytes_cmp(a: &[u8], b: &[u8]) -> (r: core::cmp::Ordering)
    ensures
        r == core::cmp::Ordering::Less <==> lex_lt(a@, b@),
        r == core::cmp::Ordering::Greater <==> lex_lt(b@, a@),
        r == core::cmp::Ordering::Equal <==> a@ == b@,
{
    proof {
        assert(a@.subrange(0, a@.len() as int) =~= a@);
        assert(b@.subrange(0, b@.len() as int) =~= b@);
    }
    let mut i: usize = 0;
    loop
        invariant
            i <= a@.len(),
            i <= b@.len(),
            lex_lt(a@, b@) <==> lex_lt(
                a@.subrange(i as int, a@.len() as int),
                b@.subrange(i as int, b@.len() as int),
            ),
            lex_lt(b@, a@) <==> lex_lt(
                b@.subrange(i as int, b@.len() as int),
                a@.subrange(i as int, a@.len() as int),
            ),
            (a@ == b@) <==> (a@.subrange(i as int, a@.len() as int) == b@.subrange(
                i as int,
                b@.len() as int,
            )),
        decreases a@.len() - i,
    {
        proof {
            lemma_lex_asymmetric(a@, b@);
            lemma_lex_irreflexive(a@);
            lemma_lex_irreflexive(b@);
        }
        let ghost ta = a@.subrange(i as int, a@.len() as int);
        let ghost tb = b@.subrange(i as int, b@.len() as int);
        if i >= a.len() || i >= b.len() {
            if a.len() == b.len() {
                proof {
                    assert(ta =~= tb);
                }
                return core::cmp::Ordering::Equal;
            } else if i >= a.len() {
                assert(lex_lt(ta, tb));
                return core::cmp::Ordering::Less;
            } else {
                assert(lex_lt(tb, ta));
                return core::cmp::Ordering::Greater;
            }
        } else {
            let x = *slice_index_get(a, i);
            let y = *slice_index_get(b, i);
            proof {
                assert(ta[0] == a@[i as int]);
                assert(tb[0] == b@[i as int]);
            }
            if x < y {
                assert(lex_lt(ta, tb));
                return core::cmp::Ordering::Less;
            } else if y < x {
                assert(lex_lt(tb, ta));
                return core::cmp::Ordering::Greater;
            }
            proof {
                assert(ta.drop_first() =~= a@.subrange(i + 1, a@.len() as int));
                assert(tb.drop_first() =~= b@.subrange(i + 1, b@.len() as int));
                if ta == tb {
                    assert(ta.drop_first() =~= tb.drop_first());
                }
                if ta.drop_first() == tb.drop_first() {
                    assert forall|j: int| 0 <= j < ta.len() implies ta[j] == tb[j] by {
                        if j >= 1 {
                            assert(ta[j] == ta.drop_first()[j - 1]);
                            assert(tb[j] == tb.drop_first()[j - 1]);
                        }
                    }
                    assert(ta =~= tb);
                }
            }
            i = i + 1;
        }
    }
}

} // verus!
