//! The executable bencode value tree and its canonical encoder.
use vstd::prelude::*;
use vstd::slice::{slice_index_get, slice_to_vec};

use crate::model::{
    enc, enc_entries, enc_items, insert_entry, key_bytes, lemma_insert_entry_skip,
    lemma_lookup_skip, lookup, str_enc, BItem,
};
use crate::numerals::push_dec_digits;

verus! {

broadcast use vstd::std_specs::vec::group_vec_axioms;

/// A bencode value.
///
/// A byte string decodes to `Str` when its payload is valid UTF-8 and to
/// `RawStr` otherwise; both carry the same wire form.  A dictionary is held
/// as a vector of key-value pairs in strictly ascending byte-wise key order,
/// which makes re-encoding canonical.
#[derive(Debug)]
pub enum Bencode {
    /// An integer, `i<decimal>e` on the wire.
    Int(i64),
    /// A byte string that is valid UTF-8 text.
    Str(String),
    /// A byte string that is not valid UTF-8.
    RawStr(Vec<u8>),
    /// An ordered list of values.
    List(Vec<Bencode>),
    /// A dictionary with keys in ascending byte order.
    Dict(Vec<(String, Bencode)>),
}

/// The model of an executable value.
pub open spec fn bview(v: Bencode) -> BItem
    decreases v,
{
    match v {
        Bencode::Int(n) => BItem::Int(n as int),
        Bencode::Str(s) => BItem::Str(s@),
        Bencode::RawStr(b) => BItem::Raw(b@),
        Bencode::List(items) => BItem::List(bview_items(items@)),
        Bencode::Dict(entries) => BItem::Dict(bview_entries(entries@)),
    }
}

/// The models of a sequence of values.
pub open spec fn bview_items(s: Seq<Bencode>) -> Seq<BItem>
    decreases s,
{
    if s.len() == 0 {
        Seq::empty()
    } else {
        seq![bview(s[0])] + bview_items(s.drop_first())
    }
}

/// The models of a sequence of key-value pairs.
pub open spec fn bview_entries(s: Seq<(String, Bencode)>) -> Seq<(Seq<char>, BItem)>
    decreases s,
{
    if s.len() == 0 {
        Seq::empty()
    } else {
        seq![(s[0].0@, bview(s[0].1))] + bview_entries(s.drop_first())
    }
}

impl View for Bencode {
    type V = BItem;

    open spec fn view(&self) -> BItem {
        bview(*self)
    }
}

/// `bview_items` maps the model over the sequence element by element.
pub proof fn lemma_bview_items(s: Seq<Bencode>)
    ensures
        bview_items(s).len() == s.len(),
        forall|i: int| 0 <= i < s.len() ==> #[trigger] bview_items(s)[i] == bview(s[i]),
    decreases s,
{
    if s.len() > 0 {
        lemma_bview_items(s.drop_first());
        assert forall|i: int| 0 <= i < s.len() implies #[trigger] bview_items(s)[i] == bview(
            s[i],
        ) by {
            if i > 0 {
                assert(bview_items(s)[i] == bview_items(s.drop_first())[i - 1]);
                assert(s.drop_first()[i - 1] == s[i]);
            }
        }
    }
}

/// `bview_entries` maps the model over the pairs element by element.
pub proof fn lemma_bview_entries(s: Seq<(String, Bencode)>)
    ensures
        bview_entries(s).len() == s.len(),
        forall|i: int|
            0 <= i < s.len() ==> #[trigger] bview_entries(s)[i] == (s[i].0@, bview(s[i].1)),
    decreases s,
{
    if s.len() > 0 {
        lemma_bview_entries(s.drop_first());
        assert forall|i: int| 0 <= i < s.len() implies #[trigger] bview_entries(s)[i] == (
            s[i].0@,
            bview(s[i].1),
        ) by {
            if i > 0 {
                assert(bview_entries(s)[i] == bview_entries(s.drop_first())[i - 1]);
                assert(s.drop_first()[i - 1] == s[i]);
            }
        }
    }
}

/// Encoding a list one value longer appends that value's encoding.
pub proof fn lemma_enc_items_push(s: Seq<BItem>, x: BItem)
    ensures
        enc_items(s.push(x)) == enc_items(s) + enc(x),
    decreases s,
{
    if s.len() == 0 {
        assert(s.push(x).drop_first() =~= Seq::<BItem>::empty());
        assert(s.push(x)[0] == x);
        assert(enc_items(Seq::<BItem>::empty()) == Seq::<u8>::empty());
        assert(enc_items(s.push(x)) =~= enc_items(s) + enc(x));
    } else {
        lemma_enc_items_push(s.drop_first(), x);
        assert(s.push(x).drop_first() =~= s.drop_first().push(x));
        assert(s.push(x)[0] == s[0]);
        assert(enc_items(s.push(x)) =~= enc_items(s) + enc(x));
    }
}

/// Encoding a dictionary one pair longer appends that pair's encoding.
pub proof fn lemma_enc_entries_push(s: Seq<(Seq<char>, BItem)>, p: (Seq<char>, BItem))
    ensures
        enc_entries(s.push(p)) == enc_entries(s) + str_enc(key_bytes(p.0)) + enc(p.1),
    decreases s,
{
    if s.len() == 0 {
        assert(s.push(p).drop_first() =~= Seq::<(Seq<char>, BItem)>::empty());
        assert(s.push(p)[0] == p);
        assert(enc_entries(Seq::<(Seq<char>, BItem)>::empty()) == Seq::<u8>::empty());
        assert(enc_entries(s.push(p)) =~= enc_entries(s) + str_enc(key_bytes(p.0)) + enc(p.1));
    } else {
        lemma_enc_entries_push(s.drop_first(), p);
        assert(s.push(p).drop_first() =~= s.drop_first().push(p));
        assert(s.push(p)[0] == s[0]);
        assert(enc_entries(s.push(p)) =~= enc_entries(s) + str_enc(key_bytes(p.0)) + enc(p.1));
    }
}

/// Appends all bytes of `b` to `out`.
fn push_bytes(out: &mut Vec<u8>, b: &[u8])
    ensures
        final(out)@ == old(out)@ + b@,
{
    let mut i: usize = 0;
    while i < b.len()
        invariant
            i <= b@.len(),
            out@ == old(out)@ + b@.subrange(0, i as int),
        decreases b@.len() - i,
    {
        out.push(*slice_index_get(b, i));
        proof {
            assert(b@.subrange(0, i + 1) =~= b@.subrange(0, i as int).push(b@[i as int]));
            assert(out@ =~= old(out)@ + b@.subrange(0, i + 1));
        }
        i = i + 1;
    }
    proof {
        assert(b@.subrange(0, i as int) =~= b@);
    }
}

/// Appends the wire form of a byte string (length, colon, payload) to `out`.
fn push_str_enc(out: &mut Vec<u8>, b: &[u8])
    ensures
        final(out)@ == old(out)@ + str_enc(b@),
{
    push_dec_digits(b.len() as u64, out);
    out.push(0x3a);
    push_bytes(out, b);
    proof {
        assert(out@ =~= old(out)@ + str_enc(b@));
    }
}

/// Structural equality of two value vectors, element by element.
fn list_eq(a: &Vec<Bencode>, b: &Vec<Bencode>) -> (r: bool)
    ensures
        r == (bview_items(a@) == bview_items(b@)),
    decreases a@,
{
    proof {
        lemma_bview_items(a@);
        lemma_bview_items(b@);
    }
    if a.len() != b.len() {
        return false;
    }
    let mut i: usize = 0;
    while i < a.len()
        invariant
            a@.len() == b@.len(),
            i <= a@.len(),
            forall|j: int| 0 <= j < i ==> bview(#[trigger] a@[j]) == bview(b@[j]),
        decreases a@.len() - i,
    {
        let x = vstd::std_specs::vec::vec_index(a, i);
        let y = vstd::std_specs::vec::vec_index(b, i);
        proof {
            assert(decreases_to!(a@ => a@[i as int]));
        }
        if !x.eq(y) {
            proof {
                lemma_bview_items(a@);
                lemma_bview_items(b@);
                assert(bview_items(a@)[i as int] != bview_items(b@)[i as int]);
            }
            return false;
        }
        i = i + 1;
    }
    proof {
        lemma_bview_items(a@);
        lemma_bview_items(b@);
        assert(bview_items(a@) =~= bview_items(b@));
    }
    true
}

/// Structural equality of two entry vectors, pair by pair.
fn entries_eq(a: &Vec<(String, Bencode)>, b: &Vec<(String, Bencode)>) -> (r: bool)
    ensures
        r == (bview_entries(a@) == bview_entries(b@)),
    decreases a@,
{
    proof {
        lemma_bview_entries(a@);
        lemma_bview_entries(b@);
    }
    if a.len() != b.len() {
        return false;
    }
    let mut i: usize = 0;
    while i < a.len()
        invariant
            a@.len() == b@.len(),
            i <= a@.len(),
            forall|j: int|
                0 <= j < i ==> (#[trigger] a@[j]).0@ == b@[j].0@ && bview(a@[j].1) == bview(
                    b@[j].1,
                ),
        decreases a@.len() - i,
    {
        let x = vstd::std_specs::vec::vec_index(a, i);
        let y = vstd::std_specs::vec::vec_index(b, i);
        proof {
            assert(decreases_to!(a@ => a@[i as int]));
            assert(decreases_to!(a@[i as int] => a@[i as int].1));
        }
        if !(x.0.eq(&y.0)) || !(x.1.eq(&y.1)) {
            proof {
                lemma_bview_entries(a@);
                lemma_bview_entries(b@);
                assert(bview_entries(a@)[i as int] != bview_entries(b@)[i as int]);
            }
            return false;
        }
        i = i + 1;
    }
    proof {
        lemma_bview_entries(a@);
        lemma_bview_entries(b@);
        assert(bview_entries(a@) =~= bview_entries(b@));
    }
    true
}

/// Copies of a value vector's elements, model for model.
fn clone_list(a: &Vec<Bencode>) -> (r: Vec<Bencode>)
    ensures
        bview_items(r@) == bview_items(a@),
    decreases a@,
{
    let mut out: Vec<Bencode> = Vec::new();
    let mut i: usize = 0;
    proof {
        lemma_bview_items(a@);
    }
    while i < a.len()
        invariant
            i <= a@.len(),
            out@.len() == i,
            forall|j: int| 0 <= j < i ==> bview(#[trigger] out@[j]) == bview(a@[j]),
        decreases a@.len() - i,
    {
        let x = vstd::std_specs::vec::vec_index(a, i);
        proof {
            assert(decreases_to!(a@ => a@[i as int]));
        }
        out.push(x.clone());
        i = i + 1;
    }
    proof {
        lemma_bview_items(a@);
        lemma_bview_items(out@);
        assert(bview_items(out@) =~= bview_items(a@));
    }
    out
}

/// Copies of an entry vector's pairs, model for model.
fn clone_entries(a: &Vec<(String, Bencode)>) -> (r: Vec<(String, Bencode)>)
    ensures
        bview_entries(r@) == bview_entries(a@),
    decreases a@,
{
    let mut out: Vec<(String, Bencode)> = Vec::new();
    let mut i: usize = 0;
    proof {
        lemma_bview_entries(a@);
    }
    while i < a.len()
        invariant
            i <= a@.len(),
            out@.len() == i,
            forall|j: int|
                0 <= j < i ==> (#[trigger] out@[j]).0@ == a@[j].0@ && bview(out@[j].1) == bview(
                    a@[j].1,
                ),
        decreases a@.len() - i,
    {
        let x = vstd::std_specs::vec::vec_index(a, i);
        proof {
            assert(decreases_to!(a@ => a@[i as int]));
            assert(decreases_to!(a@[i as int] => a@[i as int].1));
        }
        out.push((x.0.clone(), x.1.clone()));
        i = i + 1;
    }
    proof {
        lemma_bview_entries(a@);
        lemma_bview_entries(out@);
        assert(bview_entries(out@) =~= bview_entries(a@));
    }
    out
}

impl Clone for Bencode {
    /// A deep copy with the same model.
    fn clone(&self) -> (r: Self)
        ensures
            bview(r) == bview(*self),
        decreases *self,
    {
        match self {
            Bencode::Int(n) => Bencode::Int(*n),
            Bencode::Str(s) => Bencode::Str(s.clone()),
            Bencode::RawStr(b) => Bencode::RawStr(slice_to_vec(b.as_slice())),
            Bencode::List(items) => {
                proof {
                    assert(decreases_to!(*self => *items));
                    assert(decreases_to!(*items => items@));
                }
                Bencode::List(clone_list(items))
            },
            Bencode::Dict(entries) => {
                proof {
                    assert(decreases_to!(*self => *entries));
                    assert(decreases_to!(*entries => entries@));
                }
                Bencode::Dict(clone_entries(entries))
            },
        }
    }
}

impl PartialEq for Bencode {
    /// Structural equality: two values are equal exactly when their models
    /// are.
    fn eq(&self, other: &Self) -> (r: bool)
        decreases *self,
    {
        match (self, other) {
            (Bencode::Int(a), Bencode::Int(b)) => *a == *b,
            (Bencode::Str(a), Bencode::Str(b)) => a.eq(b),
            (Bencode::RawStr(a), Bencode::RawStr(b)) => {
                let r = a.eq(b);
                proof {
                    if r {
                        assert(a@ =~= b@);
                    } else {
                        if a@ == b@ {
                            assert(a@.len() == b@.len());
                            assert(false);
                        }
                    }
                }
                r
            },
            (Bencode::List(a), Bencode::List(b)) => {
                proof {
                    assert(decreases_to!(*self => *a));
                    assert(decreases_to!(*a => a@));
                }
                list_eq(a, b)
            },
            (Bencode::Dict(a), Bencode::Dict(b)) => {
                proof {
                    assert(decreases_to!(*self => *a));
                    assert(decreases_to!(*a => a@));
                }
                entries_eq(a, b)
            },
            _ => false,
        }
    }
}

impl vstd::std_specs::cmp::PartialEqSpecImpl for Bencode {
    open spec fn obeys_eq_spec() -> bool {
        true
    }

    open spec fn eq_spec(&self, other: &Bencode) -> bool {
        bview(*self) == bview(*other)
    }
}

/// Inserts a binding into a dictionary's entry vector, keeping the entries
/// in ascending byte-wise key order; an equal key is overwritten in place.
#[verifier::loop_isolation(false)]
pub fn dict_insert(entries: &mut Vec<(String, Bencode)>, key: String, value: Bencode)
    ensures
        bview_entries(final(entries)@) == insert_entry(
            bview_entries(old(entries)@),
            key@,
            bview(value),
        ),
{
    let ghost es = bview_entries(old(entries)@);
    proof {
        lemma_bview_entries(old(entries)@);
    }
    let mut i: usize = 0;
    while i < entries.len()
        invariant
            i <= entries@.len(),
            entries@ == old(entries)@,
            forall|j: int|
                0 <= j < i ==> (#[trigger] es[j]).0 != key@ && crate::order::lex_lt(
                    key_bytes(es[j].0),
                    key_bytes(key@),
                ),
        decreases entries@.len() - i,
    {
        let entry_key_bytes = vstd::std_specs::vec::vec_index(entries, i).0.as_str().as_bytes();
        let c = crate::order::bytes_cmp(entry_key_bytes, key.as_str().as_bytes());
        match c {
            core::cmp::Ordering::Less => {
                proof {
                    if es[i as int].0 == key@ {
                        assert(key_bytes(es[i as int].0) == key_bytes(key@));
                        crate::order::lemma_lex_irreflexive(key_bytes(key@));
                    }
                }
                i = i + 1;
            },
            core::cmp::Ordering::Equal => {
                proof {
                    crate::model::lemma_key_bytes_injective(es[i as int].0, key@);
                    lemma_insert_entry_skip(es, key@, bview(value), i as int);
                    assert(es.skip(i as int)[0] == es[i as int]);
                }
                entries[i] = (key, value);
                proof {
                    lemma_bview_entries(entries@);
                    assert(es.skip(i as int).drop_first() =~= es.skip(i + 1));
                    assert(insert_entry(es.skip(i as int), key@, bview(value)) == seq![
                        (key@, bview(value)),
                    ] + es.skip(i + 1));
                    assert(bview_entries(entries@) =~= es.take(i as int) + (seq![
                        (key@, bview(value)),
                    ] + es.skip(i + 1)));
                }
                return ;
            },
            core::cmp::Ordering::Greater => {
                proof {
                    if es[i as int].0 == key@ {
                        assert(key_bytes(es[i as int].0) == key_bytes(key@));
                        crate::order::lemma_lex_irreflexive(key_bytes(key@));
                    }
                    lemma_insert_entry_skip(es, key@, bview(value), i as int);
                    assert(es.skip(i as int)[0] == es[i as int]);
                }
                entries.insert(i, (key, value));
                proof {
                    lemma_bview_entries(entries@);
                    assert(insert_entry(es.skip(i as int), key@, bview(value)) == seq![
                        (key@, bview(value)),
                    ] + es.skip(i as int));
                    assert(bview_entries(entries@) =~= es.take(i as int) + (seq![
                        (key@, bview(value)),
                    ] + es.skip(i as int)));
                }
                return ;
            },
        }
    }
    proof {
        lemma_insert_entry_skip(es, key@, bview(value), i as int);
        assert(es.skip(i as int) =~= Seq::<(Seq<char>, BItem)>::empty());
    }
    entries.push((key, value));
    proof {
        lemma_bview_entries(entries@);
        assert(bview_entries(entries@) =~= es.take(es.len() as int) + seq![(key@, bview(value))]);
    }
}

/// Looks a key up in a dictionary's entry vector, returning a reference to
/// the first value bound to it.
#[verifier::loop_isolation(false)]
pub fn dict_get<'a>(entries: &'a Vec<(String, Bencode)>, key: &str) -> (r: Option<&'a Bencode>)
    ensures
        match r {
            Some(v) => lookup(bview_entries(entries@), key@) == Some(bview(*v)),
            None => lookup(bview_entries(entries@), key@) is None,
        },
{
    let ghost es = bview_entries(entries@);
    proof {
        lemma_bview_entries(entries@);
    }
    let mut i: usize = 0;
    while i < entries.len()
        invariant
            i <= entries@.len(),
            forall|j: int| 0 <= j < i ==> (#[trigger] es[j]).0 != key@,
        decreases entries@.len() - i,
    {
        let entry = vstd::std_specs::vec::vec_index(entries, i);
        let c = crate::order::bytes_cmp(entry.0.as_str().as_bytes(), key.as_bytes());
        match c {
            core::cmp::Ordering::Equal => {
                proof {
                    crate::model::lemma_key_bytes_injective(es[i as int].0, key@);
                    lemma_lookup_skip(es, key@, i as int);
                    assert(es.skip(i as int)[0] == es[i as int]);
                }
                return Some(&entry.1);
            },
            _ => {
                proof {
                    if es[i as int].0 == key@ {
                        assert(key_bytes(es[i as int].0) == key_bytes(key@));
                        crate::order::lemma_lex_irreflexive(key_bytes(key@));
                    }
                }
                i = i + 1;
            },
        }
    }
    proof {
        lemma_lookup_skip(es, key@, i as int);
        assert(es.skip(i as int) =~= Seq::<(Seq<char>, BItem)>::empty());
    }
    None
}

impl Bencode {
    /// Canonical wire encoding of this value: the exact inverse transform of
    /// decoding, with dictionary keys emitted in ascending byte order.
    pub fn encode(&self) -> (r: Vec<u8>)
        ensures
            r@ == enc(self@),
    {
        let mut out = Vec::<u8>::new();
        self.encode_into(&mut out);
        out
    }

    /// Appends the canonical wire encoding of this value to `out`.
    #[verifier::loop_isolation(false)]
    fn encode_into(&self, out: &mut Vec<u8>)
        ensures
            final(out)@ == old(out)@ + enc(bview(*self)),
        decreases *self,
    {
        match self {
            Bencode::Int(n) => {
                out.push(0x69);
                if *n < 0 {
                    out.push(0x2d);
                    let mag: u64 = ((-(*n as i128)) as u64);
                    push_dec_digits(mag, out);
                } else {
                    push_dec_digits(*n as u64, out);
                }
                out.push(0x65);
                proof {
                    assert(out@ =~= old(out)@ + enc(bview(*self)));
                }
            },
            Bencode::Str(s) => {
                push_str_enc(out, s.as_str().as_bytes());
            },
            Bencode::RawStr(b) => {
                push_str_enc(out, b.as_slice());
            },
            Bencode::List(items) => {
                out.push(0x6c);
                let ghost base = out@;
                let mut j: usize = 0;
                proof {
                    lemma_bview_items(items@);
                    assert(bview_items(items@.subrange(0, 0)) =~= Seq::<BItem>::empty());
                    assert(enc_items(bview_items(items@.subrange(0, 0))) =~= Seq::<u8>::empty());
                    assert(out@ =~= base + enc_items(bview_items(items@.subrange(0, 0))));
                }
                while j < items.len()
                    invariant
                        j <= items@.len(),
                        out@ == base + enc_items(bview_items(items@.subrange(0, j as int))),
                        base == old(out)@ + seq![0x6cu8],
                    decreases items@.len() - j,
                {
                    let item = vstd::std_specs::vec::vec_index(items, j);
                    proof {
                        assert(decreases_to!(*self => *items));
                        assert(decreases_to!(*items => items@));
                        assert(decreases_to!(items@ => items@[j as int]));
                        assert(decreases_to!(*self => items@[j as int]));
                    }
                    item.encode_into(out);
                    proof {
                        lemma_bview_items(items@);
                        lemma_bview_items(items@.subrange(0, j as int));
                        lemma_bview_items(items@.subrange(0, j + 1));
                        assert(items@.subrange(0, j + 1) =~= items@.subrange(0, j as int).push(
                            items@[j as int],
                        ));
                        assert(bview_items(items@.subrange(0, j + 1)) =~= bview_items(
                            items@.subrange(0, j as int),
                        ).push(bview(items@[j as int])));
                        lemma_enc_items_push(
                            bview_items(items@.subrange(0, j as int)),
                            bview(items@[j as int]),
                        );
                        assert(out@ =~= base + enc_items(bview_items(items@.subrange(0, j + 1))));
                    }
                    j = j + 1;
                }
                out.push(0x65);
                proof {
                    assert(items@.subrange(0, items@.len() as int) =~= items@);
                    assert(out@ =~= old(out)@ + enc(bview(*self)));
                }
            },
            Bencode::Dict(entries) => {
                out.push(0x64);
                let ghost base = out@;
                let mut j: usize = 0;
                proof {
                    lemma_bview_entries(entries@);
                    assert(bview_entries(entries@.subrange(0, 0)) =~= Seq::<
                        (Seq<char>, BItem),
                    >::empty());
                    assert(enc_entries(bview_entries(entries@.subrange(0, 0))) =~= Seq::<
                        u8,
                    >::empty());
                    assert(out@ =~= base + enc_entries(bview_entries(entries@.subrange(0, 0))));
                }
                while j < entries.len()
                    invariant
                        j <= entries@.len(),
                        out@ == base + enc_entries(bview_entries(entries@.subrange(0, j as int))),
                        base == old(out)@ + seq![0x64u8],
                    decreases entries@.len() - j,
                {
                    let pair = vstd::std_specs::vec::vec_index(entries, j);
                    push_str_enc(out, pair.0.as_str().as_bytes());
                    proof {
                        assert(decreases_to!(*self => *entries));
                        assert(decreases_to!(*entries => entries@));
                        assert(decreases_to!(entries@ => entries@[j as int]));
                        assert(decreases_to!(entries@[j as int] => entries@[j as int].1));
                        assert(decreases_to!(*self => entries@[j as int].1));
                    }
                    pair.1.encode_into(out);
                    proof {
                        lemma_bview_entries(entries@);
                        lemma_bview_entries(entries@.subrange(0, j as int));
                        lemma_bview_entries(entries@.subrange(0, j + 1));
                        assert(entries@.subrange(0, j + 1) =~= entries@.subrange(0, j as int).push(
                            entries@[j as int],
                        ));
                        assert(bview_entries(entries@.subrange(0, j + 1)) =~= bview_entries(
                            entries@.subrange(0, j as int),
                        ).push((entries@[j as int].0@, bview(entries@[j as int].1))));
                        lemma_enc_entries_push(
                            bview_entries(entries@.subrange(0, j as int)),
                            (entries@[j as int].0@, bview(entries@[j as int].1)),
                        );
                        assert(out@ =~= base + enc_entries(
                            bview_entries(entries@.subrange(0, j + 1)),
                        ));
                    }
                    j = j + 1;
                }
                out.push(0x65);
                proof {
                    assert(entries@.subrange(0, entries@.len() as int) =~= entries@);
                    assert(out@ =~= old(out)@ + enc(bview(*self)));
                }
            },
        }
    }
}

} // verus!
