//! Decimal numerals as byte strings.
//!
//! Bencode writes integers and string lengths in ASCII decimal.  This module
//! defines the value of a digit string, the canonical (no leading zero)
//! rendering of a number, and verified executable conversions between the two.
use vstd::prelude::*;
use vstd::slice::slice_index_get;

verus! {

/// `b` is an ASCII decimal digit.
pub open spec fn is_digit(b: u8) -> bool {
    0x30 <= b <= 0x39
}

/// Every byte of `s` is an ASCII decimal digit.
pub open spec fn all_digits(s: Seq<u8>) -> bool {
    forall|i: int| 0 <= i < s.len() ==> is_digit(#[trigger] s[i])
}

/// Numeric value of the digit string `s`, read most significant digit first.
pub open spec fn digits_val(s: Seq<u8>) -> int
    decreases s.len(),
{
    if s.len() == 0 {
        0
    } else {
        digits_val(s.drop_last()) * 10 + (s.last() - 0x30)
    }
}

/// Canonical decimal rendering of `n`: no leading zeros, except `"0"` itself.
pub open spec fn dec_digits(n: nat) -> Seq<u8>
    decreases n,
{
    if n < 10 {
        seq![(0x30 + n) as u8]
    } else {
        dec_digits(n / 10) + seq![(0x30 + n % 10) as u8]
    }
}

/// A digit string has a non-negative value.
pub proof fn lemma_digits_val_nonneg(s: Seq<u8>)
    requires
        all_digits(s),
    ensures
        digits_val(s) >= 0,
    decreases s.len(),
{
    if s.len() > 0 {
        assert(all_digits(s.drop_last()));
        lemma_digits_val_nonneg(s.drop_last());
    }
}

/// Extending a digit string on the right cannot decrease its value.
pub proof fn lemma_digits_val_prefix_le(s: Seq<u8>, k: int)
    requires
        all_digits(s),
        0 <= k <= s.len(),
    ensures
        digits_val(s.subrange(0, k)) <= digits_val(s),
    decreases s.len(),
{
    if k == s.len() {
        assert(s.subrange(0, k) =~= s);
    } else {
        let head = s.drop_last();
        assert(all_digits(head));
        lemma_digits_val_prefix_le(head, k);
        assert(head.subrange(0, k) =~= s.subrange(0, k));
        lemma_digits_val_nonneg(head);
        assert(digits_val(s) == digits_val(head) * 10 + (s.last() - 0x30));
        assert(digits_val(head) * 10 >= digits_val(head));
    }
}

/// The canonical rendering consists of digits, is non-empty, starts with a
/// zero digit only for the number zero, and reads back to the number itself.
pub proof fn lemma_dec_digits(n: nat)
    ensures
        all_digits(dec_digits(n)),
        dec_digits(n).len() >= 1,
        digits_val(dec_digits(n)) == n,
        dec_digits(n)[0] == 0x30 <==> n == 0,
    decreases n,
{
    if n < 10 {
        assert(dec_digits(n) =~= seq![(0x30 + n) as u8]);
        assert(dec_digits(n).drop_last() =~= Seq::<u8>::empty());
        assert(digits_val(Seq::<u8>::empty()) == 0);
        assert(dec_digits(n).last() == (0x30 + n) as u8);
        assert(digits_val(dec_digits(n)) == 0 * 10 + ((0x30 + n) as u8 - 0x30));
        assert(forall|i: int| 0 <= i < dec_digits(n).len() ==> is_digit(#[trigger] dec_digits(n)[i]));
    } else {
        lemma_dec_digits(n / 10);
        let d = dec_digits(n / 10);
        let whole = dec_digits(n);
        assert(whole == d + seq![(0x30 + n % 10) as u8]);
        assert(whole.drop_last() =~= d);
        assert(whole.last() == (0x30 + n % 10) as u8);
        assert(digits_val(whole) == (n / 10) * 10 + n % 10);
        assert((n / 10) * 10 + n % 10 == n) by (nonlinear_arith);
        assert(whole[0] == d[0]);
        assert(forall|i: int| 0 <= i < whole.len() ==> is_digit(#[trigger] whole[i])) by {
            assert(forall|i: int| 0 <= i < d.len() ==> #[trigger] whole[i] == d[i]);
            assert(whole[d.len() as int] == (0x30 + n % 10) as u8);
        }
    }
}

/// Appends the canonical decimal rendering of `n` to `out`.
pub(crate) fn push_dec_digits(n: u64, out: &mut Vec<u8>)
    ensures
        final(out)@ == old(out)@ + dec_digits(n as nat),
    decreases n,
{
    if n < 10 {
        out.push(0x30 + n as u8);
        proof {
            assert(out@ =~= old(out)@ + dec_digits(n as nat));
        }
    } else {
        push_dec_digits(n / 10, out);
        out.push(0x30 + (n % 10) as u8);
        proof {
            assert(out@ =~= old(out)@ + dec_digits(n as nat));
        }
    }
}

/// Reads the digit string `s@.subrange(from, to)` as an unsigned number.
///
/// Returns its value, or `None` when the value does not fit in `u64`.
pub(crate) fn parse_digits(s: &[u8], from: usize, to: usize) -> (r: Option<u64>)
    requires
        from <= to <= s@.len(),
        all_digits(s@.subrange(from as int, to as int)),
    ensures
        r is Some <==> digits_val(s@.subrange(from as int, to as int)) <= u64::MAX,
        r is Some ==> r->0 == digits_val(s@.subrange(from as int, to as int)),
{
    let ghost whole = s@.subrange(from as int, to as int);
    let mut acc: u64 = 0;
    let mut i: usize = from;
    proof {
        assert(s@.subrange(from as int, from as int) =~= Seq::<u8>::empty());
    }
    while i < to
        invariant
            from <= i <= to <= s@.len(),
            all_digits(s@.subrange(from as int, to as int)),
            acc == digits_val(s@.subrange(from as int, i as int)),
        decreases to - i,
    {
        let ghost part = s@.subrange(from as int, i as int);
        let ghost next = s@.subrange(from as int, i + 1);
        let b = *slice_index_get(s, i);
        proof {
            assert(s@.subrange(from as int, to as int)[i - from] == b);
            assert(next.drop_last() =~= part);
            assert(next.last() == b);
        }
        let d = b - 0x30;
        if acc > (u64::MAX - d as u64) / 10 {
            proof {
                assert(digits_val(next) == acc * 10 + d);
                assert(digits_val(next) > u64::MAX) by (nonlinear_arith)
                    requires
                        acc > (u64::MAX - d as u64) / 10,
                        digits_val(next) == acc * 10 + d,
                        0 <= d <= 9,
                        acc <= u64::MAX,
                ;
                let ghost rest = s@.subrange(from as int, to as int);
                lemma_digits_val_prefix_le(rest, i + 1 - from);
                assert(rest.subrange(0, i + 1 - from) =~= next);
            }
            return None;
        }
        acc = acc * 10 + d as u64;
        i = i + 1;
    }
    proof {
        assert(s@.subrange(from as int, i as int) =~= whole);
    }
    Some(acc)
}

} // verus!
