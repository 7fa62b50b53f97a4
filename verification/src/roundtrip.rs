//! The round-trip theorem: decoding an encoding gives the value back.
//!
//! For every well-formed model value `m`, decoding a byte sequence that
//! starts with `enc(m)` succeeds, reproduces `m` exactly, and consumes
//! exactly `enc(m).len()` bytes — whatever bytes follow the encoding.
use vstd::prelude::*;
use vstd::utf8::encode_utf8;

use crate::decode::{find_byte, sdec, sdec_entries, sdec_int, sdec_items, sdec_str, DecodeError};
use crate::model::{
    enc, enc_entries, enc_items, insert_entry, int_digits, key_bytes, lemma_insert_entry_skip,
    sorted_entries, str_enc, wf, BItem,
};
use crate::numerals::{dec_digits, digits_val, is_digit, lemma_dec_digits};
use crate::order::{lemma_lex_irreflexive, lex_lt};

verus! {

/// `find_byte` returns the position of the first occurrence.
pub proof fn lemma_find_byte_at(s: Seq<u8>, b: u8, from: int, k: int)
    requires
        0 <= from <= k < s.len(),
        s[k] == b,
        forall|j: int| from <= j < k ==> s[j] != b,
    ensures
        find_byte(s, b, from) == Some(k),
    decreases k - from,
{
    if from < k {
        lemma_find_byte_at(s, b, from + 1, k);
    }
}

/// Every encoding is non-empty and never starts with the terminator byte.
pub proof fn lemma_enc_shape(m: BItem)
    ensures
        enc(m).len() >= 1,
        enc(m)[0] != 0x65,
{
    match m {
        BItem::Int(n) => {
            assert(enc(m)[0] == 0x69);
        },
        BItem::Str(t) => {
            lemma_dec_digits(encode_utf8(t).len());
            assert(enc(m)[0] == dec_digits(encode_utf8(t).len())[0]);
            assert(is_digit(enc(m)[0]));
        },
        BItem::Raw(b) => {
            lemma_dec_digits(b.len());
            assert(enc(m)[0] == dec_digits(b.len())[0]);
            assert(is_digit(enc(m)[0]));
        },
        BItem::List(items) => {
            assert(enc(m)[0] == 0x6c);
        },
        BItem::Dict(entries) => {
            assert(enc(m)[0] == 0x64);
        },
    }
}

/// Decoding `i<decimal>e` followed by anything yields the integer back and
/// consumes exactly the integer's encoding.
proof fn lemma_rt_int(n: int, rest: Seq<u8>)
    requires
        i64::MIN <= n <= i64::MAX,
    ensures
        sdec_int(seq![0x69u8] + int_digits(n) + seq![0x65u8] + rest) == Ok::<
            (int, int),
            DecodeError,
        >((n, int_digits(n).len() + 2int)),
{
    let d = int_digits(n);
    let mag = if n < 0 {
        (-n) as nat
    } else {
        n as nat
    };
    lemma_dec_digits(mag);
    let s = seq![0x69u8] + d + seq![0x65u8] + rest;
    assert(d.len() >= 1);
    assert(s[0] == 0x69);
    assert(s[1 + d.len() as int] == 0x65);
    assert forall|j: int| 0 <= j < d.len() implies s[1 + j] == d[j] by {}
    if n < 0 {
        assert(d[0] == 0x2d);
        assert forall|j: int| 1 <= j < d.len() implies is_digit(#[trigger] d[j]) by {
            assert(d[j] == dec_digits(mag)[j - 1]);
        }
    }
    assert forall|j: int| 1 <= j < 1 + d.len() implies s[j] != 0x65 by {
        assert(s[j] == d[j - 1]);
        if n < 0 && j == 1 {
            assert(d[0] == 0x2d);
        } else {
            assert(is_digit(d[j - 1]));
        }
    }
    lemma_find_byte_at(s, 0x65, 1, 1 + d.len() as int);
    let dd = s.subrange(1, 1 + d.len() as int);
    assert(dd =~= d);
    if n < 0 {
        assert(d.drop_first() =~= dec_digits(mag));
        assert(crate::decode::int_body_ok(d));
        assert(crate::decode::int_body_val(d) == -digits_val(dec_digits(mag)));
        assert(crate::decode::int_body_val(d) == n);
    } else {
        assert(d =~= dec_digits(mag));
        assert(is_digit(d[0]));
        assert(d[0] != 0x2d);
        assert(crate::decode::int_body_ok(d));
        assert(crate::decode::int_body_val(d) == n);
    }
}

/// Decoding `<len>:<payload>` followed by anything yields the payload back
/// and consumes exactly the string's encoding.
proof fn lemma_rt_str(b: Seq<u8>, rest: Seq<u8>)
    requires
        b.len() <= usize::MAX,
    ensures
        sdec_str(str_enc(b) + rest) == Ok::<(Seq<u8>, int), DecodeError>(
            (b, str_enc(b).len() as int),
        ),
{
    let d = dec_digits(b.len());
    lemma_dec_digits(b.len());
    let s = str_enc(b) + rest;
    assert(s =~= d + seq![0x3au8] + b + rest);
    assert forall|j: int| 0 <= j < d.len() implies s[j] == d[j] by {}
    assert forall|j: int| 0 <= j < d.len() implies s[j] != 0x3a by {
        assert(is_digit(d[j]));
    }
    assert(s[d.len() as int] == 0x3a);
    lemma_find_byte_at(s, 0x3a, 0, d.len() as int);
    let c = d.len() as int;
    assert(s.subrange(0, c) =~= d);
    assert(digits_val(d) == b.len());
    assert(c + 1 + b.len() <= s.len());
    assert(s.subrange(c + 1, c + 1 + b.len() as int) =~= b);
    assert(str_enc(b).len() == c + 1 + b.len());
}

/// Decoding the concatenated encodings of a sequence of well-formed values,
/// a terminator, and anything else yields the values back.
proof fn lemma_rt_items(items: Seq<BItem>, rest: Seq<u8>)
    requires
        forall|i: int| 0 <= i < items.len() ==> wf(#[trigger] items[i]),
    ensures
        sdec_items(enc_items(items) + seq![0x65u8] + rest) == Ok::<(Seq<BItem>, int), DecodeError>(
            (items, enc_items(items).len() + 1int),
        ),
    decreases items,
{
    let s = enc_items(items) + seq![0x65u8] + rest;
    if items.len() == 0 {
        assert(enc_items(items) == Seq::<u8>::empty());
        assert(s[0] == 0x65);
        assert(items =~= Seq::<BItem>::empty());
    } else {
        let m0 = items[0];
        let tail = items.drop_first();
        let rest2 = enc_items(tail) + seq![0x65u8] + rest;
        assert(enc_items(items) == enc(m0) + enc_items(tail));
        assert(s =~= enc(m0) + rest2);
        lemma_enc_shape(m0);
        assert(s[0] == enc(m0)[0]);
        assert(wf(m0));
        lemma_round_trip(m0, rest2);
        let n = enc(m0).len() as int;
        assert(sdec(s) == Ok::<(BItem, int), DecodeError>((m0, n)));
        assert(1 <= n <= s.len());
        assert(s.subrange(n, s.len() as int) =~= rest2);
        lemma_rt_items(tail, rest);
        assert(seq![m0] + tail =~= items);
        assert(n + (enc_items(tail).len() + 1) == enc_items(items).len() + 1);
    }
}

/// Decoding the concatenated encodings of sorted dictionary entries whose
/// keys all sort above those already gathered in `acc`, a terminator, and
/// anything else appends exactly those entries to `acc`.
proof fn lemma_rt_entries(
    entries: Seq<(Seq<char>, BItem)>,
    acc: Seq<(Seq<char>, BItem)>,
    rest: Seq<u8>,
)
    requires
        sorted_entries(acc + entries),
        forall|i: int|
            0 <= i < entries.len() ==> wf((#[trigger] entries[i]).1) && key_bytes(
                entries[i].0,
            ).len() <= usize::MAX,
    ensures
        sdec_entries(enc_entries(entries) + seq![0x65u8] + rest, acc) == Ok::<
            (Seq<(Seq<char>, BItem)>, int),
            DecodeError,
        >((acc + entries, enc_entries(entries).len() + 1int)),
    decreases entries,
{
    let s = enc_entries(entries) + seq![0x65u8] + rest;
    if entries.len() == 0 {
        assert(enc_entries(entries) == Seq::<u8>::empty());
        assert(s[0] == 0x65);
        assert(acc + entries =~= acc);
    } else {
        let k0 = entries[0].0;
        let v0 = entries[0].1;
        let kb = key_bytes(k0);
        let tail = entries.drop_first();
        let rest_after_val = enc_entries(tail) + seq![0x65u8] + rest;
        let rest_after_key = enc(v0) + rest_after_val;
        assert(enc_entries(entries) == str_enc(kb) + enc(v0) + enc_entries(tail));
        assert(s =~= str_enc(kb) + rest_after_key);
        lemma_dec_digits(kb.len());
        assert(str_enc(kb)[0] == dec_digits(kb.len())[0]);
        assert(s[0] == str_enc(kb)[0]);
        assert(is_digit(s[0]));
        assert(wf(v0) && kb.len() <= usize::MAX);
        lemma_rt_str(kb, rest_after_key);
        assert(sdec_str(s) == Ok::<(Seq<u8>, int), DecodeError>((kb, str_enc(kb).len() as int)));
        vstd::utf8::encode_utf8_valid_utf8(k0);
        vstd::utf8::encode_utf8_decode_utf8(k0);
        let kn = str_enc(kb).len() as int;
        assert(1 <= kn <= s.len());
        let s2 = s.subrange(kn, s.len() as int);
        assert(s2 =~= rest_after_key);
        lemma_round_trip(v0, rest_after_val);
        let vn = enc(v0).len() as int;
        assert(sdec(s2) == Ok::<(BItem, int), DecodeError>((v0, vn)));
        assert(1 <= vn <= s2.len());
        assert(s2.subrange(vn, s2.len() as int) =~= rest_after_val);
        // the new key sorts above everything gathered so far, so the sorted
        // insertion appends it at the end
        assert forall|j: int|
            0 <= j < acc.len() implies (#[trigger] acc[j]).0 != k0 && lex_lt(
            key_bytes(acc[j].0),
            key_bytes(k0),
        ) by {
            assert((acc + entries)[j] == acc[j]);
            assert((acc + entries)[acc.len() as int] == entries[0]);
            assert(lex_lt(key_bytes(acc[j].0), key_bytes(k0)));
            if acc[j].0 == k0 {
                lemma_lex_irreflexive(key_bytes(k0));
            }
        }
        lemma_insert_entry_skip(acc, k0, v0, acc.len() as int);
        let acc2 = insert_entry(acc, k0, v0);
        assert(acc.skip(acc.len() as int) =~= Seq::<(Seq<char>, BItem)>::empty());
        assert(acc.take(acc.len() as int) =~= acc);
        assert(insert_entry(Seq::<(Seq<char>, BItem)>::empty(), k0, v0) == seq![(k0, v0)]);
        assert(acc2 =~= acc + seq![(k0, v0)]);
        assert(acc2 + tail =~= acc + entries);
        assert forall|i: int|
            0 <= i < tail.len() implies wf((#[trigger] tail[i]).1) && key_bytes(
            tail[i].0,
        ).len() <= usize::MAX by {
            assert(tail[i] == entries[i + 1]);
        }
        lemma_rt_entries(tail, acc2, rest);
        assert(kn + vn + (enc_entries(tail).len() + 1) == enc_entries(entries).len() + 1);
    }
}

/// The round-trip theorem: decoding any byte sequence that starts with the
/// encoding of a well-formed value yields exactly that value and consumes
/// exactly its encoding.
pub proof fn lemma_round_trip(m: BItem, rest: Seq<u8>)
    requires
        wf(m),
    ensures
        enc(m).len() >= 1,
        sdec(enc(m) + rest) == Ok::<(BItem, int), DecodeError>((m, enc(m).len() as int)),
    decreases m,
{
    let s = enc(m) + rest;
    lemma_enc_shape(m);
    assert(s[0] == enc(m)[0]);
    match m {
        BItem::Int(n) => {
            assert(s =~= seq![0x69u8] + int_digits(n) + seq![0x65u8] + rest);
            lemma_rt_int(n, rest);
            assert(s[0] == 0x69);
        },
        BItem::Str(t) => {
            let b = encode_utf8(t);
            assert(s =~= str_enc(b) + rest);
            lemma_rt_str(b, rest);
            lemma_dec_digits(b.len());
            assert(enc(m)[0] == dec_digits(b.len())[0]);
            assert(is_digit(s[0]));
            vstd::utf8::encode_utf8_valid_utf8(t);
            vstd::utf8::encode_utf8_decode_utf8(t);
        },
        BItem::Raw(b) => {
            assert(s =~= str_enc(b) + rest);
            lemma_rt_str(b, rest);
            lemma_dec_digits(b.len());
            assert(enc(m)[0] == dec_digits(b.len())[0]);
            assert(is_digit(s[0]));
        },
        BItem::List(items) => {
            assert(s[0] == 0x6c);
            assert(s.subrange(1, s.len() as int) =~= enc_items(items) + seq![0x65u8] + rest);
            lemma_rt_items(items, rest);
            assert(1 + (enc_items(items).len() + 1) == enc(m).len());
        },
        BItem::Dict(entries) => {
            assert(s[0] == 0x64);
            assert(s.subrange(1, s.len() as int) =~= enc_entries(entries) + seq![0x65u8] + rest);
            assert(Seq::<(Seq<char>, BItem)>::empty() + entries =~= entries);
            lemma_rt_entries(entries, Seq::empty(), rest);
            assert(1 + (enc_entries(entries).len() + 1) == enc(m).len());
        },
    }
}

/// Round trip on exactly the encoded bytes: nothing is left over.
pub proof fn lemma_round_trip_exact(m: BItem)
    requires
        wf(m),
    ensures
        sdec(enc(m)) == Ok::<(BItem, int), DecodeError>((m, enc(m).len() as int)),
{
    lemma_round_trip(m, Seq::empty());
    assert(enc(m) + Seq::<u8>::empty() =~= enc(m));
}

} // verus!
