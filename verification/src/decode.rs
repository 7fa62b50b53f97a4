//! The bencode decoder.
//!
//! `sdec` is the specification of decoding: a total function from input bytes
//! to either a model value with the number of bytes consumed, or the syntax
//! error the input exhibits.  Each executable decoder is proved to return
//! exactly what the specification says, for every input.
use vstd::prelude::*;
use vstd::slice::{slice_index_get, slice_subrange, slice_to_vec};
use vstd::utf8::{decode_utf8, encode_utf8, valid_utf8};

use crate::model::{insert_entry, BItem};
use crate::numerals::{all_digits, digits_val, is_digit, parse_digits};
use crate::value::{bview, bview_entries, bview_items, dict_insert, lemma_bview_items, Bencode};

verus! {

/// A syntax error found while decoding.
#[derive(Debug, Clone, Copy, PartialEq, Eq, Structural)]
pub enum DecodeError {
    /// The input ended where a value was required.
    UnexpectedEnd,
    /// The leading byte announces no known value kind.
    UnknownPrefix,
    /// An integer is missing its `e` terminator.
    MissingTerminator,
    /// The bytes of an integer do not match `-?[0-9]+`, or its value does
    /// not fit a signed 64-bit integer.
    InvalidInteger,
    /// A string is missing the colon after its length.
    MissingColon,
    /// A string length is not made of digits, or does not fit `usize`.
    InvalidLength,
    /// A string's declared length overruns the remaining input.
    OutOfBounds,
    /// A dictionary key is not valid UTF-8 text.
    InvalidUtf8,
}

/// Position of the first occurrence of `b` in `s` at or after `from`.
pub open spec fn find_byte(s: Seq<u8>, b: u8, from: int) -> Option<int>
    decreases s.len() - from,
{
    if from < 0 || from >= s.len() {
        None
    } else if s[from] == b {
        Some(from)
    } else {
        find_byte(s, b, from + 1)
    }
}

/// The bytes between `i` and `e` match `-?[0-9]+`.
pub open spec fn int_body_ok(d: Seq<u8>) -> bool {
    if d.len() == 0 {
        false
    } else if d[0] == 0x2d {
        d.len() >= 2 && all_digits(d.drop_first())
    } else {
        all_digits(d)
    }
}

/// The signed value of an integer body matching `-?[0-9]+`.
pub open spec fn int_body_val(d: Seq<u8>) -> int {
    if d.len() > 0 && d[0] == 0x2d {
        -digits_val(d.drop_first())
    } else {
        digits_val(d)
    }
}

/// Specification of integer decoding: `i`, a signed decimal, `e`.
pub open spec fn sdec_int(s: Seq<u8>) -> Result<(int, int), DecodeError> {
    if s.len() == 0 || s[0] != 0x69 {
        Err(DecodeError::UnknownPrefix)
    } else {
        match find_byte(s, 0x65, 1) {
            None => Err(DecodeError::MissingTerminator),
            Some(e) => {
                let d = s.subrange(1, e);
                if !int_body_ok(d) {
                    Err(DecodeError::InvalidInteger)
                } else if int_body_val(d) < i64::MIN || int_body_val(d) > i64::MAX {
                    Err(DecodeError::InvalidInteger)
                } else {
                    Ok((int_body_val(d), e + 1))
                }
            },
        }
    }
}

/// Specification of byte-string decoding: a decimal length, a colon, and
/// that many payload bytes.  Returns the payload and the bytes consumed.
pub open spec fn sdec_str(s: Seq<u8>) -> Result<(Seq<u8>, int), DecodeError> {
    match find_byte(s, 0x3a, 0) {
        None => Err(DecodeError::MissingColon),
        Some(c) => {
            let d = s.subrange(0, c);
            if d.len() == 0 || !all_digits(d) {
                Err(DecodeError::InvalidLength)
            } else if digits_val(d) > usize::MAX {
                Err(DecodeError::InvalidLength)
            } else if c + 1 + digits_val(d) > s.len() {
                Err(DecodeError::OutOfBounds)
            } else {
                Ok((s.subrange(c + 1, c + 1 + digits_val(d)), c + 1 + digits_val(d)))
            }
        },
    }
}

/// Specification of decoding one value from the start of `s`.
pub open spec fn sdec(s: Seq<u8>) -> Result<(BItem, int), DecodeError>
    decreases s.len(), 0int,
{
    if s.len() == 0 {
        Err(DecodeError::UnexpectedEnd)
    } else if s[0] == 0x69 {
        match sdec_int(s) {
            Ok((n, c)) => Ok((BItem::Int(n), c)),
            Err(e) => Err(e),
        }
    } else if s[0] == 0x6c {
        match sdec_items(s.subrange(1, s.len() as int)) {
            Ok((items, n)) => Ok((BItem::List(items), 1 + n)),
            Err(e) => Err(e),
        }
    } else if s[0] == 0x64 {
        match sdec_entries(s.subrange(1, s.len() as int), Seq::empty()) {
            Ok((entries, n)) => Ok((BItem::Dict(entries), 1 + n)),
            Err(e) => Err(e),
        }
    } else if 0x30 <= s[0] <= 0x39 {
        match sdec_str(s) {
            Ok((b, n)) => if valid_utf8(b) {
                Ok((BItem::Str(decode_utf8(b)), n))
            } else {
                Ok((BItem::Raw(b), n))
            },
            Err(e) => Err(e),
        }
    } else {
        Err(DecodeError::UnknownPrefix)
    }
}

/// Specification of decoding list elements up to and including the closing
/// `e`, starting just after the opening `l`.
pub open spec fn sdec_items(s: Seq<u8>) -> Result<(Seq<BItem>, int), DecodeError>
    decreases s.len(), 1int,
{
    if s.len() == 0 {
        Err(DecodeError::UnexpectedEnd)
    } else if s[0] == 0x65 {
        Ok((Seq::empty(), 1))
    } else {
        match sdec(s) {
            Err(e) => Err(e),
            Ok((item, n)) => if 1 <= n <= s.len() {
                match sdec_items(s.subrange(n, s.len() as int)) {
                    Err(e) => Err(e),
                    Ok((rest, m)) => Ok((seq![item] + rest, n + m)),
                }
            } else {
                // a successful decode always consumes within these bounds
                Err(DecodeError::UnexpectedEnd)
            },
        }
    }
}

/// Specification of decoding dictionary entries up to and including the
/// closing `e`, starting just after the opening `d`.  `acc` holds the sorted
/// entries gathered so far; a repeated key silently overwrites.
pub open spec fn sdec_entries(s: Seq<u8>, acc: Seq<(Seq<char>, BItem)>) -> Result<
    (Seq<(Seq<char>, BItem)>, int),
    DecodeError,
>
    decreases s.len(), 1int,
{
    if s.len() == 0 {
        Err(DecodeError::MissingColon)
    } else if s[0] == 0x65 {
        Ok((acc, 1))
    } else {
        match sdec_str(s) {
            Err(e) => Err(e),
            Ok((kb, kn)) => if !valid_utf8(kb) {
                Err(DecodeError::InvalidUtf8)
            } else if 1 <= kn <= s.len() {
                let s2 = s.subrange(kn, s.len() as int);
                match sdec(s2) {
                    Err(e) => Err(e),
                    Ok((v, vn)) => if 1 <= vn <= s2.len() {
                        match sdec_entries(
                            s2.subrange(vn, s2.len() as int),
                            insert_entry(acc, decode_utf8(kb), v),
                        ) {
                            Err(e) => Err(e),
                            Ok((entries, m)) => Ok((entries, kn + vn + m)),
                        }
                    } else {
                        // a successful decode always consumes within these bounds
                        Err(DecodeError::UnexpectedEnd)
                    },
                }
            } else {
                // a successful string parse always consumes within these bounds
                Err(DecodeError::UnexpectedEnd)
            },
        }
    }
}

/// Specification of decoding a whole list, opening `l` included.
pub open spec fn sdec_list(s: Seq<u8>) -> Result<(Seq<BItem>, int), DecodeError> {
    if s.len() == 0 || s[0] != 0x6c {
        Err(DecodeError::UnknownPrefix)
    } else {
        match sdec_items(s.subrange(1, s.len() as int)) {
            Ok((items, n)) => Ok((items, 1 + n)),
            Err(e) => Err(e),
        }
    }
}

/// Specification of decoding a whole dictionary, opening `d` included.
pub open spec fn sdec_dict(s: Seq<u8>) -> Result<(Seq<(Seq<char>, BItem)>, int), DecodeError> {
    if s.len() == 0 || s[0] != 0x64 {
        Err(DecodeError::UnknownPrefix)
    } else {
        match sdec_entries(s.subrange(1, s.len() as int), Seq::empty()) {
            Ok((entries, n)) => Ok((entries, 1 + n)),
            Err(e) => Err(e),
        }
    }
}

/// A found byte lies within the searched range and matches.
pub proof fn lemma_find_byte_bounds(s: Seq<u8>, b: u8, from: int)
    ensures
        find_byte(s, b, from) matches Some(p) ==> from <= p < s.len() && s[p] == b,
    decreases s.len() - from,
{
    if 0 <= from < s.len() && s[from] != b {
        lemma_find_byte_bounds(s, b, from + 1);
    }
}

/// A successful string parse returns a payload that fits in memory and a
/// sensible consumed count.
pub proof fn lemma_sdec_str_shape(s: Seq<u8>)
    ensures
        sdec_str(s) matches Ok(p) ==> p.0.len() <= usize::MAX && 1 <= p.1 <= s.len(),
{
    lemma_find_byte_bounds(s, 0x3a, 0);
    match find_byte(s, 0x3a, 0) {
        Some(c) => {
            let d = s.subrange(0, c);
            if d.len() > 0 && all_digits(d) {
                crate::numerals::lemma_digits_val_nonneg(d);
            }
        },
        None => {},
    }
}

/// Whatever decoding returns is well formed and consumed a sensible count:
/// at least one byte, at most the whole input.
pub proof fn lemma_sdec_wf(s: Seq<u8>)
    ensures
        sdec(s) matches Ok(p) ==> crate::model::wf(p.0) && 1 <= p.1 <= s.len(),
    decreases s.len(), 0int,
{
    if s.len() > 0 {
        if s[0] == 0x69 {
            lemma_find_byte_bounds(s, 0x65, 1);
        } else if s[0] == 0x6c {
            lemma_sdec_items_wf(s.subrange(1, s.len() as int));
        } else if s[0] == 0x64 {
            let acc0 = Seq::<(Seq<char>, BItem)>::empty();
            assert(crate::model::sorted_entries(acc0));
            lemma_sdec_entries_wf(s.subrange(1, s.len() as int), acc0);
        } else if 0x30 <= s[0] <= 0x39 {
            lemma_sdec_str_shape(s);
            match sdec_str(s) {
                Ok((b, n)) => {
                    if valid_utf8(b) {
                        vstd::utf8::decode_utf8_encode_utf8(b);
                    }
                },
                Err(_) => {},
            }
        }
    }
}

/// Whatever list-element decoding returns is element-wise well formed.
proof fn lemma_sdec_items_wf(s: Seq<u8>)
    ensures
        sdec_items(s) matches Ok(p) ==> (forall|i: int|
            0 <= i < p.0.len() ==> crate::model::wf(#[trigger] p.0[i])) && 1 <= p.1 <= s.len(),
    decreases s.len(), 1int,
{
    if s.len() > 0 && s[0] != 0x65 {
        lemma_sdec_wf(s);
        match sdec(s) {
            Ok((item, n)) => {
                if 1 <= n <= s.len() {
                    lemma_sdec_items_wf(s.subrange(n, s.len() as int));
                    match sdec_items(s.subrange(n, s.len() as int)) {
                        Ok((rest, m)) => {
                            assert forall|i: int|
                                0 <= i < (seq![item] + rest).len() implies crate::model::wf(
                                #[trigger] (seq![item] + rest)[i],
                            ) by {
                                if i > 0 {
                                    assert((seq![item] + rest)[i] == rest[i - 1]);
                                }
                            }
                        },
                        Err(_) => {},
                    }
                }
            },
            Err(_) => {},
        }
    }
}

/// Whatever entry decoding returns is sorted and well formed, provided the
/// accumulated entries already are.
proof fn lemma_sdec_entries_wf(s: Seq<u8>, acc: Seq<(Seq<char>, BItem)>)
    requires
        crate::model::sorted_entries(acc),
        forall|i: int|
            0 <= i < acc.len() ==> crate::model::wf((#[trigger] acc[i]).1)
                && crate::model::key_bytes(acc[i].0).len() <= usize::MAX,
    ensures
        sdec_entries(s, acc) matches Ok(p) ==> crate::model::sorted_entries(p.0) && (forall|i: int|
            0 <= i < p.0.len() ==> crate::model::wf((#[trigger] p.0[i]).1)
                && crate::model::key_bytes(p.0[i].0).len() <= usize::MAX) && 1 <= p.1 <= s.len(),
    decreases s.len(), 1int,
{
    if s.len() > 0 && s[0] != 0x65 {
        lemma_sdec_str_shape(s);
        match sdec_str(s) {
            Ok((kb, kn)) => {
                if valid_utf8(kb) && 1 <= kn <= s.len() {
                    let s2 = s.subrange(kn, s.len() as int);
                    lemma_sdec_wf(s2);
                    match sdec(s2) {
                        Ok((v, vn)) => {
                            if 1 <= vn <= s2.len() {
                                let key = decode_utf8(kb);
                                vstd::utf8::decode_utf8_encode_utf8(kb);
                                assert(crate::model::key_bytes(key) == kb);
                                let acc2 = insert_entry(acc, key, v);
                                crate::model::lemma_insert_entry(acc, key, v);
                                crate::model::lemma_insert_entry_members(acc, key, v);
                                assert forall|i: int|
                                    0 <= i < acc2.len() implies crate::model::wf(
                                    (#[trigger] acc2[i]).1,
                                ) && crate::model::key_bytes(acc2[i].0).len() <= usize::MAX by {
                                    if acc2[i] == (key, v) {
                                    } else {
                                        let t = choose|t: int|
                                            0 <= t < acc.len() && acc[t] == acc2[i];
                                        assert(crate::model::wf(acc[t].1));
                                    }
                                }
                                lemma_sdec_entries_wf(s2.subrange(vn, s2.len() as int), acc2);
                            }
                        },
                        Err(_) => {},
                    }
                }
            },
            Err(_) => {},
        }
    }
}

/// Relies on `String::from_utf8`: it succeeds exactly on valid UTF-8 input,
/// and the returned string then represents exactly the given bytes.
#[verifier::external_body]
fn string_from_utf8(bytes: Vec<u8>) -> (r: Option<String>)
    ensures
        r is Some <==> valid_utf8(bytes@),
        r matches Some(s) ==> encode_utf8(s@) == bytes@,
{
    String::from_utf8(bytes).ok()
}

/// Position of the first occurrence of `b` in `s` at or after `from`.
fn find_byte_from(s: &[u8], b: u8, from: usize) -> (r: Option<usize>)
    requires
        from <= s@.len(),
    ensures
        match r {
            Some(p) => find_byte(s@, b, from as int) == Some(p as int) && from <= p < s@.len(),
            None => find_byte(s@, b, from as int) is None,
        },
{
    let mut i: usize = from;
    while i < s.len()
        invariant
            from <= i <= s@.len(),
            find_byte(s@, b, from as int) == find_byte(s@, b, i as int),
        decreases s@.len() - i,
    {
        if *slice_index_get(s, i) == b {
            return Some(i);
        }
        i = i + 1;
    }
    None
}

/// Every byte of `s@.subrange(from, to)` is an ASCII decimal digit.
fn all_digits_in(s: &[u8], from: usize, to: usize) -> (r: bool)
    requires
        from <= to <= s@.len(),
    ensures
        r == all_digits(s@.subrange(from as int, to as int)),
{
    let ghost d = s@.subrange(from as int, to as int);
    let mut i: usize = from;
    while i < to
        invariant
            from <= i <= to <= s@.len(),
            forall|j: int| 0 <= j < i - from ==> is_digit(#[trigger] d[j]),
            d == s@.subrange(from as int, to as int),
        decreases to - i,
    {
        let b = *slice_index_get(s, i);
        proof {
            assert(d[i - from] == b);
        }
        if b < 0x30 || b > 0x39 {
            return false;
        }
        i = i + 1;
    }
    true
}

/// Decodes an integer from the start of `input`, returning its value and
/// the number of bytes consumed, exactly as `sdec_int` specifies.
pub fn decode_integer(input: &[u8]) -> (r: Result<(i64, usize), DecodeError>)
    ensures
        match r {
            Ok(p) => sdec_int(input@) == Ok::<(int, int), DecodeError>((p.0 as int, p.1 as int))
                && 1 <= p.1 <= input@.len(),
            Err(e) => sdec_int(input@) == Err::<(int, int), DecodeError>(e),
        },
{
    if input.len() == 0 || *slice_index_get(input, 0) != 0x69 {
        return Err(DecodeError::UnknownPrefix);
    }
    let e_pos = match find_byte_from(input, 0x65, 1) {
        Some(p) => p,
        None => {
            return Err(DecodeError::MissingTerminator);
        },
    };
    let ghost d = input@.subrange(1, e_pos as int);
    let neg = e_pos > 1 && *slice_index_get(input, 1) == 0x2d;
    let dstart: usize = if neg {
        2
    } else {
        1
    };
    proof {
        if d.len() > 0 {
            assert(d[0] == input@[1]);
        }
        if neg {
            assert(d.drop_first() =~= input@.subrange(dstart as int, e_pos as int));
        } else {
            assert(d =~= input@.subrange(dstart as int, e_pos as int));
        }
    }
    if dstart >= e_pos {
        // no digits between the sign (or the `i`) and the terminator
        return Err(DecodeError::InvalidInteger);
    }
    if !all_digits_in(input, dstart, e_pos) {
        return Err(DecodeError::InvalidInteger);
    }
    let mag = match parse_digits(input, dstart, e_pos) {
        Some(m) => m,
        None => {
            // the magnitude exceeds `u64::MAX`, so it exceeds the `i64` range
            return Err(DecodeError::InvalidInteger);
        },
    };
    if neg {
        if mag > 9223372036854775808u64 {
            return Err(DecodeError::InvalidInteger);
        }
        let value = (-(mag as i128)) as i64;
        Ok((value, e_pos + 1))
    } else {
        if mag > 9223372036854775807u64 {
            return Err(DecodeError::InvalidInteger);
        }
        Ok((mag as i64, e_pos + 1))
    }
}

/// Decodes a byte string from the start of `input` and checks that its
/// payload is UTF-8 text, as `sdec_str` specifies; a payload that is not
/// valid UTF-8 is reported as `InvalidUtf8`.
pub fn decode_string(input: &[u8]) -> (r: Result<(String, usize), DecodeError>)
    ensures
        match r {
            Ok(p) => sdec_str(input@) == Ok::<(Seq<u8>, int), DecodeError>(
                (encode_utf8(p.0@), p.1 as int),
            ) && valid_utf8(encode_utf8(p.0@)) && 1 <= p.1 <= input@.len(),
            Err(e) => if e == DecodeError::InvalidUtf8 {
                sdec_str(input@) matches Ok(q) && !valid_utf8(q.0)
            } else {
                sdec_str(input@) == Err::<(Seq<u8>, int), DecodeError>(e)
            },
        },
{
    let (payload, consumed) = match decode_raw_string(input) {
        Ok(p) => p,
        Err(e) => {
            return Err(e);
        },
    };
    match string_from_utf8(payload) {
        Some(s) => Ok((s, consumed)),
        None => Err(DecodeError::InvalidUtf8),
    }
}

/// Decodes a byte string from the start of `input`, returning its raw
/// payload and the number of bytes consumed, exactly as `sdec_str` specifies.
pub fn decode_raw_string(input: &[u8]) -> (r: Result<(Vec<u8>, usize), DecodeError>)
    ensures
        match r {
            Ok(p) => sdec_str(input@) == Ok::<(Seq<u8>, int), DecodeError>((p.0@, p.1 as int)) && 1
                <= p.1 <= input@.len(),
            Err(e) => sdec_str(input@) == Err::<(Seq<u8>, int), DecodeError>(e),
        },
{
    let colon = match find_byte_from(input, 0x3a, 0) {
        Some(p) => p,
        None => {
            return Err(DecodeError::MissingColon);
        },
    };
    if colon == 0 {
        return Err(DecodeError::InvalidLength);
    }
    if !all_digits_in(input, 0, colon) {
        return Err(DecodeError::InvalidLength);
    }
    let n = match parse_digits(input, 0, colon) {
        Some(m) => m,
        None => {
            return Err(DecodeError::InvalidLength);
        },
    };
    if n > usize::MAX as u64 {
        return Err(DecodeError::InvalidLength);
    }
    let len = n as usize;
    // `colon < input.len() <= usize::MAX`, so `colon + 1` cannot overflow
    if len > input.len() - (colon + 1) {
        return Err(DecodeError::OutOfBounds);
    }
    let start = colon + 1;
    let payload = slice_to_vec(slice_subrange(input, start, start + len));
    Ok((payload, start + len))
}

/// Decoding the elements remaining at `pos` completes the elements already
/// gathered in `done` to the result of decoding the whole element region.
spec fn items_compose(s: Seq<u8>, done: Seq<BItem>, pos: int) -> bool {
    match sdec_items(s.subrange(pos, s.len() as int)) {
        Ok((rest, m)) => sdec_items(s.subrange(1, s.len() as int)) == Ok::<
            (Seq<BItem>, int),
            DecodeError,
        >((done + rest, pos - 1 + m)),
        Err(e) => sdec_items(s.subrange(1, s.len() as int)) == Err::<
            (Seq<BItem>, int),
            DecodeError,
        >(e),
    }
}

/// Decoding the entries remaining at `pos` into the accumulated dictionary
/// `done` completes to the result of decoding the whole entry region.
spec fn entries_compose(s: Seq<u8>, done: Seq<(Seq<char>, BItem)>, pos: int) -> bool {
    match sdec_entries(s.subrange(pos, s.len() as int), done) {
        Ok((es, m)) => sdec_entries(s.subrange(1, s.len() as int), Seq::empty()) == Ok::<
            (Seq<(Seq<char>, BItem)>, int),
            DecodeError,
        >((es, pos - 1 + m)),
        Err(e) => sdec_entries(s.subrange(1, s.len() as int), Seq::empty()) == Err::<
            (Seq<(Seq<char>, BItem)>, int),
            DecodeError,
        >(e),
    }
}

/// Decodes the list that starts `input`, exactly as `sdec_list` specifies.
#[verifier::loop_isolation(false)]
pub fn decode_list(input: &[u8]) -> (r: Result<(Vec<Bencode>, usize), DecodeError>)
    ensures
        match r {
            Ok(p) => sdec_list(input@) == Ok::<(Seq<BItem>, int), DecodeError>(
                (bview_items(p.0@), p.1 as int),
            ) && 1 <= p.1 <= input@.len(),
            Err(e) => sdec_list(input@) == Err::<(Seq<BItem>, int), DecodeError>(e),
        },
    decreases input@.len(), 0int,
{
    if input.len() == 0 || *slice_index_get(input, 0) != 0x6c {
        return Err(DecodeError::UnknownPrefix);
    }
    let mut items: Vec<Bencode> = Vec::new();
    let mut pos: usize = 1;
    proof {
        assert(bview_items(items@) =~= Seq::<BItem>::empty());
        match sdec_items(input@.subrange(1, input@.len() as int)) {
            Ok(p) => {
                assert(Seq::<BItem>::empty() + p.0 =~= p.0);
            },
            Err(_) => {},
        }
    }
    loop
        invariant
            1 <= pos <= input@.len(),
            items_compose(input@, bview_items(items@), pos as int),
        decreases input@.len() - pos,
    {
        let ghost done = bview_items(items@);
        let ghost remaining = input@.subrange(pos as int, input@.len() as int);
        if pos < input.len() && *slice_index_get(input, pos) == 0x65 {
            proof {
                assert(remaining[0] == 0x65);
                assert(sdec_items(remaining) == Ok::<(Seq<BItem>, int), DecodeError>(
                    (Seq::empty(), 1),
                ));
                assert(done + Seq::<BItem>::empty() =~= done);
            }
            return Ok((items, pos + 1));
        }
        let sub = slice_subrange(input, pos, input.len());
        match decode(sub) {
            Err(e) => {
                proof {
                    if remaining.len() == 0 {
                        assert(sdec_items(remaining) == Err::<(Seq<BItem>, int), DecodeError>(
                            DecodeError::UnexpectedEnd,
                        ));
                    } else {
                        assert(remaining[0] != 0x65);
                        assert(sdec_items(remaining) == Err::<(Seq<BItem>, int), DecodeError>(e));
                    }
                }
                return Err(e);
            },
            Ok((item, n)) => {
                proof {
                    assert(remaining.len() > 0 && remaining[0] != 0x65);
                    assert(remaining.subrange(n as int, remaining.len() as int) =~= input@.subrange(
                        pos + n,
                        input@.len() as int,
                    ));
                    lemma_bview_items(items@);
                    lemma_bview_items(items@.push(item));
                    assert(bview_items(items@.push(item)) =~= done.push(bview(item)));
                    match sdec_items(input@.subrange(pos + n, input@.len() as int)) {
                        Ok((rest2, m2)) => {
                            assert(sdec_items(remaining) == Ok::<(Seq<BItem>, int), DecodeError>(
                                (seq![bview(item)] + rest2, n + m2),
                            ));
                            assert(done + (seq![bview(item)] + rest2) =~= done.push(bview(item))
                                + rest2);
                        },
                        Err(_) => {},
                    }
                }
                items.push(item);
                pos = pos + n;
            },
        }
    }
}

/// Decodes the dictionary that starts `input`, exactly as `sdec_dict`
/// specifies: keys are gathered in ascending byte order, a repeated key
/// silently overwrites.
#[verifier::loop_isolation(false)]
pub fn decode_dict(input: &[u8]) -> (r: Result<(Vec<(String, Bencode)>, usize), DecodeError>)
    ensures
        match r {
            Ok(p) => sdec_dict(input@) == Ok::<(Seq<(Seq<char>, BItem)>, int), DecodeError>(
                (bview_entries(p.0@), p.1 as int),
            ) && 1 <= p.1 <= input@.len(),
            Err(e) => sdec_dict(input@) == Err::<(Seq<(Seq<char>, BItem)>, int), DecodeError>(e),
        },
    decreases input@.len(), 0int,
{
    if input.len() == 0 || *slice_index_get(input, 0) != 0x64 {
        return Err(DecodeError::UnknownPrefix);
    }
    let mut entries: Vec<(String, Bencode)> = Vec::new();
    let mut pos: usize = 1;
    proof {
        assert(bview_entries(entries@) =~= Seq::<(Seq<char>, BItem)>::empty());
    }
    loop
        invariant
            1 <= pos <= input@.len(),
            entries_compose(input@, bview_entries(entries@), pos as int),
        decreases input@.len() - pos,
    {
        let ghost done = bview_entries(entries@);
        let ghost remaining = input@.subrange(pos as int, input@.len() as int);
        if pos < input.len() && *slice_index_get(input, pos) == 0x65 {
            proof {
                assert(remaining[0] == 0x65);
                assert(sdec_entries(remaining, done) == Ok::<
                    (Seq<(Seq<char>, BItem)>, int),
                    DecodeError,
                >((done, 1)));
            }
            return Ok((entries, pos + 1));
        }
        let sub = slice_subrange(input, pos, input.len());
        let (key, key_len) = match decode_string(sub) {
            Ok(p) => p,
            Err(e) => {
                proof {
                    if remaining.len() == 0 {
                        assert(find_byte(remaining, 0x3a, 0) is None);
                        assert(sdec_entries(remaining, done) == Err::<
                            (Seq<(Seq<char>, BItem)>, int),
                            DecodeError,
                        >(DecodeError::MissingColon));
                        assert(sdec_str(remaining) == Err::<(Seq<u8>, int), DecodeError>(
                            DecodeError::MissingColon,
                        ));
                    } else {
                        assert(remaining[0] != 0x65);
                        assert(sdec_entries(remaining, done) == Err::<
                            (Seq<(Seq<char>, BItem)>, int),
                            DecodeError,
                        >(e));
                    }
                }
                return Err(e);
            },
        };
        proof {
            assert(remaining.len() > 0 && remaining[0] != 0x65);
            vstd::utf8::encode_utf8_decode_utf8(key@);
        }
        let sub2 = slice_subrange(input, pos + key_len, input.len());
        proof {
            assert(sub2@ =~= remaining.subrange(key_len as int, remaining.len() as int));
        }
        match decode(sub2) {
            Err(e) => {
                proof {
                    assert(sdec_entries(remaining, done) == Err::<
                        (Seq<(Seq<char>, BItem)>, int),
                        DecodeError,
                    >(e));
                }
                return Err(e);
            },
            Ok((value, value_len)) => {
                proof {
                    assert(sub2@.subrange(value_len as int, sub2@.len() as int) =~= input@.subrange(
                        pos + key_len + value_len,
                        input@.len() as int,
                    ));
                }
                dict_insert(&mut entries, key, value);
                pos = pos + key_len + value_len;
            },
        }
    }
}

/// Decodes one bencode value from the start of `input`, dispatching on the
/// leading byte, exactly as `sdec` specifies.  A byte string becomes `Str`
/// when its payload is valid UTF-8 and `RawStr` otherwise.
pub fn decode(input: &[u8]) -> (r: Result<(Bencode, usize), DecodeError>)
    ensures
        match r {
            Ok(p) => sdec(input@) == Ok::<(BItem, int), DecodeError>((bview(p.0), p.1 as int)) && 1
                <= p.1 <= input@.len() && crate::model::wf(bview(p.0)),
            Err(e) => sdec(input@) == Err::<(BItem, int), DecodeError>(e),
        },
    decreases input@.len(), 1int,
{
    proof {
        lemma_sdec_wf(input@);
    }
    if input.len() == 0 {
        return Err(DecodeError::UnexpectedEnd);
    }
    let b = *slice_index_get(input, 0);
    if b == 0x69 {
        match decode_integer(input) {
            Ok((n, len)) => Ok((Bencode::Int(n), len)),
            Err(e) => Err(e),
        }
    } else if b == 0x6c {
        match decode_list(input) {
            Ok((items, len)) => Ok((Bencode::List(items), len)),
            Err(e) => Err(e),
        }
    } else if b == 0x64 {
        match decode_dict(input) {
            Ok((entries, len)) => Ok((Bencode::Dict(entries), len)),
            Err(e) => Err(e),
        }
    } else if 0x30 <= b && b <= 0x39 {
        match decode_string(input) {
            Ok((s, len)) => {
                proof {
                    vstd::utf8::encode_utf8_decode_utf8(s@);
                }
                Ok((Bencode::Str(s), len))
            },
            Err(e) => {
                if matches!(e, DecodeError::InvalidUtf8) {
                    match decode_raw_string(input) {
                        Ok((bytes, len)) => Ok((Bencode::RawStr(bytes), len)),
                        Err(e2) => Err(e2),
                    }
                } else {
                    Err(e)
                }
            },
        }
    } else {
        Err(DecodeError::UnknownPrefix)
    }
}

} // verus!
