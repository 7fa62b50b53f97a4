//! The mathematical model of bencode values.
//!
//! `BItem` is the ghost counterpart of the executable value tree: integers are
//! unbounded, byte strings are `Seq<u8>`, text strings are `Seq<char>`, and a
//! dictionary is a sequence of key-value pairs held in strictly ascending
//! byte-wise key order.  `enc` gives the canonical wire form of a model value;
//! every contract about encoding and decoding is stated against it.
use vstd::prelude::*;
use vstd::utf8::{decode_utf8, encode_utf8, valid_utf8};

use crate::numerals::dec_digits;
use crate::order::{lemma_lex_asymmetric, lemma_lex_irreflexive, lemma_lex_total, lex_lt};

verus! {

/// Model of a bencode value.
pub enum BItem {
    /// A signed integer.
    Int(int),
    /// A byte string that decodes as UTF-8 text, modeled by its characters.
    Str(Seq<char>),
    /// A byte string that is not valid UTF-8, modeled by its raw bytes.
    Raw(Seq<u8>),
    /// An ordered, heterogeneous list of values.
    List(Seq<BItem>),
    /// A dictionary: key-value pairs in strictly ascending key order.
    Dict(Seq<(Seq<char>, BItem)>),
}

/// The wire bytes of a dictionary key: the UTF-8 encoding of its characters.
pub open spec fn key_bytes(k: Seq<char>) -> Seq<u8> {
    encode_utf8(k)
}

/// Entry keys are strictly ascending in byte-wise lexicographic order.
pub open spec fn sorted_entries(entries: Seq<(Seq<char>, BItem)>) -> bool {
    forall|i: int, j: int|
        0 <= i < j < entries.len() ==> lex_lt(
            key_bytes(#[trigger] entries[i].0),
            key_bytes(#[trigger] entries[j].0),
        )
}

/// A model value is well formed when its integers fit the wire's 64-bit
/// range, its byte strings fit in memory, its raw byte strings are exactly
/// those that are not UTF-8 text, and its dictionaries are sorted.
/// Decoding only produces such values.
pub open spec fn wf(v: BItem) -> bool
    decreases v,
{
    match v {
        BItem::Int(n) => i64::MIN <= n <= i64::MAX,
        BItem::Str(s) => encode_utf8(s).len() <= usize::MAX,
        BItem::Raw(b) => !valid_utf8(b) && b.len() <= usize::MAX,
        BItem::List(items) => forall|i: int| 0 <= i < items.len() ==> wf(#[trigger] items[i]),
        BItem::Dict(entries) => sorted_entries(entries) && forall|i: int|
            0 <= i < entries.len() ==> wf(#[trigger] entries[i].1) && key_bytes(
                entries[i].0,
            ).len() <= usize::MAX,
    }
}

/// Decimal rendering of a signed integer: a minus sign for negatives,
/// canonical digits for the magnitude.
pub open spec fn int_digits(n: int) -> Seq<u8> {
    if n < 0 {
        seq![0x2du8] + dec_digits((-n) as nat)
    } else {
        dec_digits(n as nat)
    }
}

/// Wire form of a byte string: decimal length, a colon, then the bytes.
pub open spec fn str_enc(b: Seq<u8>) -> Seq<u8> {
    dec_digits(b.len()) + seq![0x3au8] + b
}

/// Canonical wire form of a model value.
pub open spec fn enc(v: BItem) -> Seq<u8>
    decreases v,
{
    match v {
        BItem::Int(n) => seq![0x69u8] + int_digits(n) + seq![0x65u8],
        BItem::Str(s) => str_enc(encode_utf8(s)),
        BItem::Raw(b) => str_enc(b),
        BItem::List(items) => seq![0x6cu8] + enc_items(items) + seq![0x65u8],
        BItem::Dict(entries) => seq![0x64u8] + enc_entries(entries) + seq![0x65u8],
    }
}

/// Concatenated wire forms of a sequence of values.
pub open spec fn enc_items(items: Seq<BItem>) -> Seq<u8>
    decreases items,
{
    if items.len() == 0 {
        Seq::empty()
    } else {
        enc(items[0]) + enc_items(items.drop_first())
    }
}

/// Concatenated wire forms of a dictionary's key-value pairs, in entry order.
pub open spec fn enc_entries(entries: Seq<(Seq<char>, BItem)>) -> Seq<u8>
    decreases entries,
{
    if entries.len() == 0 {
        Seq::empty()
    } else {
        str_enc(key_bytes(entries[0].0)) + enc(entries[0].1) + enc_entries(entries.drop_first())
    }
}

/// The value bound to key `k`, searching entries left to right.
pub open spec fn lookup(entries: Seq<(Seq<char>, BItem)>, k: Seq<char>) -> Option<BItem>
    decreases entries,
{
    if entries.len() == 0 {
        None
    } else if entries[0].0 == k {
        Some(entries[0].1)
    } else {
        lookup(entries.drop_first(), k)
    }
}

/// Sorted insertion of a binding, overwriting an equal key in place.
pub open spec fn insert_entry(
    entries: Seq<(Seq<char>, BItem)>,
    k: Seq<char>,
    v: BItem,
) -> Seq<(Seq<char>, BItem)>
    decreases entries,
{
    if entries.len() == 0 {
        seq![(k, v)]
    } else if k == entries[0].0 {
        seq![(k, v)] + entries.drop_first()
    } else if lex_lt(key_bytes(k), key_bytes(entries[0].0)) {
        seq![(k, v)] + entries
    } else {
        seq![entries[0]] + insert_entry(entries.drop_first(), k, v)
    }
}

/// A sorted entry sequence stays sorted when its first entry is dropped.
pub proof fn lemma_sorted_drop_first(entries: Seq<(Seq<char>, BItem)>)
    requires
        sorted_entries(entries),
        entries.len() > 0,
    ensures
        sorted_entries(entries.drop_first()),
{
    let tail = entries.drop_first();
    assert forall|i: int, j: int| 0 <= i < j < tail.len() implies lex_lt(
        key_bytes(#[trigger] tail[i].0),
        key_bytes(#[trigger] tail[j].0),
    ) by {
        assert(tail[i] == entries[i + 1]);
        assert(tail[j] == entries[j + 1]);
    }
}

/// A key is bound in an entry sequence exactly when some entry holds it.
pub proof fn lemma_lookup_some_index(entries: Seq<(Seq<char>, BItem)>, k: Seq<char>)
    ensures
        lookup(entries, k) is Some <==> exists|i: int|
            0 <= i < entries.len() && (#[trigger] entries[i]).0 == k,
    decreases entries,
{
    if entries.len() > 0 {
        lemma_lookup_some_index(entries.drop_first(), k);
        if entries[0].0 == k {
            assert(entries[0].0 == k);
        } else {
            let tail = entries.drop_first();
            if lookup(tail, k) is Some {
                let i = choose|i: int| 0 <= i < tail.len() && (#[trigger] tail[i]).0 == k;
                assert(entries[i + 1] == tail[i]);
            } else {
                if exists|i: int| 0 <= i < entries.len() && (#[trigger] entries[i]).0 == k {
                    let i = choose|i: int|
                        0 <= i < entries.len() && (#[trigger] entries[i]).0 == k;
                    assert(i > 0);
                    assert(tail[i - 1] == entries[i]);
                }
            }
        }
    }
}

/// Sorted insertion keeps the entries sorted, binds `k` to `v`, and leaves
/// every other binding unchanged.
pub proof fn lemma_insert_entry(entries: Seq<(Seq<char>, BItem)>, k: Seq<char>, v: BItem)
    requires
        sorted_entries(entries),
    ensures
        sorted_entries(insert_entry(entries, k, v)),
        lookup(insert_entry(entries, k, v), k) == Some(v),
        forall|k2: Seq<char>|
            k2 != k ==> #[trigger] lookup(insert_entry(entries, k, v), k2) == lookup(entries, k2),
        forall|j: int|
            0 <= j < insert_entry(entries, k, v).len() ==> (#[trigger] insert_entry(
                entries,
                k,
                v,
            )[j]).0 == k || lookup(entries, insert_entry(entries, k, v)[j].0) is Some,
    decreases entries,
{
    let res = insert_entry(entries, k, v);
    if entries.len() == 0 {
        assert(res == seq![(k, v)]);
        assert(res[0] == (k, v));
        assert(res.drop_first() =~= Seq::<(Seq<char>, BItem)>::empty());
        assert forall|k2: Seq<char>| k2 != k implies #[trigger] lookup(res, k2) == lookup(
            entries,
            k2,
        ) by {
            assert(res[0].0 == k);
            assert(lookup(res.drop_first(), k2) is None);
        }
    } else {
        let e0 = entries[0];
        let tail = entries.drop_first();
        lemma_sorted_drop_first(entries);
        lemma_lex_total(key_bytes(k), key_bytes(e0.0));
        lemma_lex_irreflexive(key_bytes(k));
        if k == e0.0 {
            assert(res == seq![(k, v)] + tail);
            assert(res[0] == (k, v));
            assert(res.drop_first() =~= tail);
            assert forall|i: int, j: int| 0 <= i < j < res.len() implies lex_lt(
                key_bytes(#[trigger] res[i].0),
                key_bytes(#[trigger] res[j].0),
            ) by {
                assert(res[j] == entries[j]);
                if i > 0 {
                    assert(res[i] == entries[i]);
                }
            }
            assert forall|j: int|
                0 <= j < res.len() implies (#[trigger] res[j]).0 == k || lookup(
                entries,
                res[j].0,
            ) is Some by {
                if j > 0 {
                    assert(res[j] == entries[j]);
                    lemma_lookup_some_index(entries, res[j].0);
                }
            }
            assert forall|k2: Seq<char>| k2 != k implies #[trigger] lookup(res, k2) == lookup(
                entries,
                k2,
            ) by {
                assert(res.drop_first() =~= tail);
            }
        } else if lex_lt(key_bytes(k), key_bytes(e0.0)) {
            assert(res == seq![(k, v)] + entries);
            assert(res[0] == (k, v));
            assert(res.drop_first() =~= entries);
            assert forall|i: int, j: int| 0 <= i < j < res.len() implies lex_lt(
                key_bytes(#[trigger] res[i].0),
                key_bytes(#[trigger] res[j].0),
            ) by {
                assert(res[j] == entries[j - 1]);
                if i > 0 {
                    assert(res[i] == entries[i - 1]);
                    if i == 1 {
                        assert(res[i].0 == e0.0);
                    }
                } else {
                    if j == 1 {
                        assert(res[j].0 == e0.0);
                    } else {
                        crate::order::lemma_lex_transitive(
                            key_bytes(k),
                            key_bytes(e0.0),
                            key_bytes(entries[j - 1].0),
                        );
                    }
                }
            }
            assert forall|j: int|
                0 <= j < res.len() implies (#[trigger] res[j]).0 == k || lookup(
                entries,
                res[j].0,
            ) is Some by {
                if j > 0 {
                    assert(res[j] == entries[j - 1]);
                    lemma_lookup_some_index(entries, res[j].0);
                }
            }
            assert forall|k2: Seq<char>| k2 != k implies #[trigger] lookup(res, k2) == lookup(
                entries,
                k2,
            ) by {
                assert(res.drop_first() =~= entries);
            }
        } else {
            // k sorts after the first entry: it is neither equal to it nor
            // below it, so by totality and injectivity the first key is below.
            if key_bytes(k) == key_bytes(e0.0) {
                lemma_key_bytes_injective(k, e0.0);
            }
            assert(lex_lt(key_bytes(e0.0), key_bytes(k)));
            lemma_insert_entry(tail, k, v);
            let ins = insert_entry(tail, k, v);
            assert(res == seq![e0] + ins);
            assert(res[0] == e0);
            assert(res.drop_first() =~= ins);
            assert forall|i: int, j: int| 0 <= i < j < res.len() implies lex_lt(
                key_bytes(#[trigger] res[i].0),
                key_bytes(#[trigger] res[j].0),
            ) by {
                assert(res[j] == ins[j - 1]);
                if i > 0 {
                    assert(res[i] == ins[i - 1]);
                } else {
                    if ins[j - 1].0 == k {
                        assert(lex_lt(key_bytes(e0.0), key_bytes(k)));
                    } else {
                        assert(lookup(tail, ins[j - 1].0) is Some);
                        lemma_lookup_some_index(tail, ins[j - 1].0);
                        let t = choose|t: int|
                            0 <= t < tail.len() && (#[trigger] tail[t]).0 == ins[j - 1].0;
                        assert(tail[t] == entries[t + 1]);
                    }
                }
            }
            assert forall|j: int|
                0 <= j < res.len() implies (#[trigger] res[j]).0 == k || lookup(
                entries,
                res[j].0,
            ) is Some by {
                if j == 0 {
                    assert(res[0].0 == e0.0);
                    assert(lookup(entries, e0.0) == Some(e0.1));
                } else {
                    assert(res[j] == ins[j - 1]);
                    if ins[j - 1].0 != k {
                        lemma_lookup_some_index(tail, ins[j - 1].0);
                        lemma_lookup_some_index(entries, ins[j - 1].0);
                        let t = choose|t: int|
                            0 <= t < tail.len() && (#[trigger] tail[t]).0 == ins[j - 1].0;
                        assert(entries[t + 1] == tail[t]);
                    }
                }
            }
            assert(lookup(res, k) == lookup(ins, k));
            assert forall|k2: Seq<char>| k2 != k implies #[trigger] lookup(res, k2) == lookup(
                entries,
                k2,
            ) by {
                assert(res.drop_first() =~= ins);
                if e0.0 != k2 {
                    assert(lookup(res, k2) == lookup(ins, k2));
                    assert(lookup(entries, k2) == lookup(tail, k2));
                }
            }
        }
    }
}

/// Every entry of an insertion result is the new binding or an old entry.
pub proof fn lemma_insert_entry_members(entries: Seq<(Seq<char>, BItem)>, k: Seq<char>, v: BItem)
    ensures
        forall|j: int|
            0 <= j < insert_entry(entries, k, v).len() ==> (#[trigger] insert_entry(
                entries,
                k,
                v,
            )[j]) == (k, v) || exists|i: int|
                0 <= i < entries.len() && entries[i] == insert_entry(entries, k, v)[j],
    decreases entries,
{
    let res = insert_entry(entries, k, v);
    if entries.len() == 0 {
        assert(res[0] == (k, v));
    } else if k == entries[0].0 {
        assert forall|j: int|
            0 <= j < res.len() implies (#[trigger] res[j]) == (k, v) || exists|i: int|
            0 <= i < entries.len() && entries[i] == res[j] by {
            if j > 0 {
                assert(entries[j] == res[j]);
            } else {
                assert(res[0] == (k, v));
            }
        }
    } else if lex_lt(key_bytes(k), key_bytes(entries[0].0)) {
        assert forall|j: int|
            0 <= j < res.len() implies (#[trigger] res[j]) == (k, v) || exists|i: int|
            0 <= i < entries.len() && entries[i] == res[j] by {
            if j > 0 {
                assert(entries[j - 1] == res[j]);
            } else {
                assert(res[0] == (k, v));
            }
        }
    } else {
        let tail = entries.drop_first();
        let ins = insert_entry(tail, k, v);
        lemma_insert_entry_members(tail, k, v);
        assert forall|j: int|
            0 <= j < res.len() implies (#[trigger] res[j]) == (k, v) || exists|i: int|
            0 <= i < entries.len() && entries[i] == res[j] by {
            if j == 0 {
                assert(entries[0] == res[0]);
            } else {
                assert(res[j] == ins[j - 1]);
                if ins[j - 1] == (k, v) {
                } else {
                    let t = choose|t: int| 0 <= t < tail.len() && tail[t] == ins[j - 1];
                    assert(entries[t + 1] == res[j]);
                }
            }
        }
    }
}

/// Insertion passes over a prefix of entries whose keys all sort below `k`.
pub proof fn lemma_insert_entry_skip(
    entries: Seq<(Seq<char>, BItem)>,
    k: Seq<char>,
    v: BItem,
    i: int,
)
    requires
        0 <= i <= entries.len(),
        forall|j: int|
            0 <= j < i ==> (#[trigger] entries[j]).0 != k && lex_lt(
                key_bytes(entries[j].0),
                key_bytes(k),
            ),
    ensures
        insert_entry(entries, k, v) == entries.take(i) + insert_entry(entries.skip(i), k, v),
    decreases i,
{
    if i == 0 {
        assert(entries.skip(0) =~= entries);
        assert(entries.take(0) + insert_entry(entries, k, v) =~= insert_entry(entries, k, v));
    } else {
        let e0 = entries[0];
        lemma_lex_asymmetric(key_bytes(k), key_bytes(e0.0));
        assert(insert_entry(entries, k, v) == seq![e0] + insert_entry(entries.drop_first(), k, v));
        let tail = entries.drop_first();
        assert forall|j: int|
            0 <= j < i - 1 implies (#[trigger] tail[j]).0 != k && lex_lt(
            key_bytes(tail[j].0),
            key_bytes(k),
        ) by {
            assert(tail[j] == entries[j + 1]);
        }
        lemma_insert_entry_skip(tail, k, v, i - 1);
        assert(tail.take(i - 1) =~= entries.take(i).drop_first());
        assert(tail.skip(i - 1) =~= entries.skip(i));
        assert(seq![e0] + (tail.take(i - 1) + insert_entry(tail.skip(i - 1), k, v)) =~= entries.take(
            i,
        ) + insert_entry(entries.skip(i), k, v));
    }
}

/// Lookup passes over a prefix of entries that do not hold the key.
pub proof fn lemma_lookup_skip(entries: Seq<(Seq<char>, BItem)>, k: Seq<char>, i: int)
    requires
        0 <= i <= entries.len(),
        forall|j: int| 0 <= j < i ==> (#[trigger] entries[j]).0 != k,
    ensures
        lookup(entries, k) == lookup(entries.skip(i), k),
    decreases i,
{
    if i == 0 {
        assert(entries.skip(0) =~= entries);
    } else {
        let tail = entries.drop_first();
        assert forall|j: int| 0 <= j < i - 1 implies (#[trigger] tail[j]).0 != k by {
            assert(tail[j] == entries[j + 1]);
        }
        lemma_lookup_skip(tail, k, i - 1);
        assert(tail.skip(i - 1) =~= entries.skip(i));
    }
}

/// Two sorted entry sequences with the same bindings are the same sequence:
/// the canonical sorted form of a dictionary is unique.
pub proof fn lemma_sorted_entries_unique(d1: Seq<(Seq<char>, BItem)>, d2: Seq<(Seq<char>, BItem)>)
    requires
        sorted_entries(d1),
        sorted_entries(d2),
        forall|k: Seq<char>| #[trigger] lookup(d1, k) == lookup(d2, k),
    ensures
        d1 == d2,
    decreases d1.len(),
{
    if d1.len() == 0 {
        if d2.len() > 0 {
            assert(lookup(d2, d2[0].0) == Some(d2[0].1));
            assert(lookup(d1, d2[0].0) is None);
        }
        assert(d1 =~= d2);
    } else if d2.len() == 0 {
        assert(lookup(d1, d1[0].0) == Some(d1[0].1));
        assert(lookup(d2, d1[0].0) is None);
    } else {
        let k1 = d1[0].0;
        let k2 = d2[0].0;
        assert(lookup(d1, k1) == Some(d1[0].1));
        assert(lookup(d2, k2) == Some(d2[0].1));
        lemma_lookup_some_index(d2, k1);
        lemma_lookup_some_index(d1, k2);
        let i2 = choose|i: int| 0 <= i < d2.len() && (#[trigger] d2[i]).0 == k1;
        let i1 = choose|i: int| 0 <= i < d1.len() && (#[trigger] d1[i]).0 == k2;
        lemma_lex_irreflexive(key_bytes(k1));
        lemma_lex_asymmetric(key_bytes(k1), key_bytes(k2));
        if i2 > 0 && i1 > 0 {
            assert(lex_lt(key_bytes(k2), key_bytes(d2[i2].0)));
            assert(lex_lt(key_bytes(k1), key_bytes(d1[i1].0)));
            assert(false);
        }
        if i2 > 0 && i1 == 0 {
            assert(k1 == k2);
            assert(lex_lt(key_bytes(k2), key_bytes(d2[i2].0)));
            assert(false);
        }
        if i1 > 0 && i2 == 0 {
            assert(k1 == k2);
            assert(lex_lt(key_bytes(k1), key_bytes(d1[i1].0)));
            assert(false);
        }
        assert(k1 == k2);
        assert(d1[0].1 == d2[0].1);
        let t1 = d1.drop_first();
        let t2 = d2.drop_first();
        lemma_sorted_drop_first(d1);
        lemma_sorted_drop_first(d2);
        assert forall|k: Seq<char>| #[trigger] lookup(t1, k) == lookup(t2, k) by {
            if k == k1 {
                lemma_lookup_some_index(t1, k);
                lemma_lookup_some_index(t2, k);
                if lookup(t1, k) is Some {
                    let i = choose|i: int| 0 <= i < t1.len() && (#[trigger] t1[i]).0 == k;
                    assert(t1[i] == d1[i + 1]);
                    assert(lex_lt(key_bytes(k1), key_bytes(d1[i + 1].0)));
                    assert(false);
                }
                if lookup(t2, k) is Some {
                    let i = choose|i: int| 0 <= i < t2.len() && (#[trigger] t2[i]).0 == k;
                    assert(t2[i] == d2[i + 1]);
                    assert(lex_lt(key_bytes(k2), key_bytes(d2[i + 1].0)));
                    assert(false);
                }
            } else {
                assert(lookup(d1, k) == lookup(t1, k));
                assert(lookup(d2, k) == lookup(t2, k));
            }
        }
        lemma_sorted_entries_unique(t1, t2);
        assert(d1 =~= seq![d1[0]] + t1);
        assert(d2 =~= seq![d2[0]] + t2);
    }
}

/// Canonical dictionary ordering: two sorted dictionaries with the same
/// bindings are the same value, and therefore encode to identical bytes —
/// whatever order their entries were inserted in.
pub proof fn lemma_canonical_encoding(d1: Seq<(Seq<char>, BItem)>, d2: Seq<(Seq<char>, BItem)>)
    requires
        sorted_entries(d1),
        sorted_entries(d2),
        forall|k: Seq<char>| #[trigger] lookup(d1, k) == lookup(d2, k),
    ensures
        d1 == d2,
        enc(BItem::Dict(d1)) == enc(BItem::Dict(d2)),
{
    lemma_sorted_entries_unique(d1, d2);
}

/// UTF-8 encoding distinguishes distinct character sequences.
pub proof fn lemma_key_bytes_injective(a: Seq<char>, b: Seq<char>)
    requires
        key_bytes(a) == key_bytes(b),
    ensures
        a == b,
{
    vstd::utf8::encode_utf8_decode_utf8(a);
    vstd::utf8::encode_utf8_decode_utf8(b);
    assert(decode_utf8(encode_utf8(a)) == decode_utf8(encode_utf8(b)));
}

} // verus!
