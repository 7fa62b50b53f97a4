//! A JSON-like text rendering of decoded values, for human inspection.
//!
//! Integers render as decimal, strings quoted, lists bracketed and
//! comma-joined, dictionaries braced with `"key":value` pairs comma-joined,
//! keys in the same ascending order used for encoding.  The rendering is
//! lossy for byte strings holding non-printable bytes (they go through
//! replacement-character decoding) and is for diagnostic display only; it
//! is never parsed back.
use vstd::prelude::*;

use crate::hex::hex_char;
use crate::model::BItem;
use crate::value::{bview, bview_entries, bview_items, lemma_bview_entries, lemma_bview_items, Bencode};

verus! {

/// What `String::from_utf8_lossy` returns: the text with each invalid
/// UTF-8 sequence replaced, a function of the bytes alone.
pub uninterp spec fn lossy_of(b: Seq<u8>) -> Seq<char>;

/// Relies on `String::from_utf8_lossy`: replacement-character decoding of
/// the bytes, depending on the bytes alone.
#[verifier::external_body]
fn utf8_lossy(b: &Vec<u8>) -> (r: String)
    ensures
        r@ == lossy_of(b@),
{
    String::from_utf8_lossy(b).into_owned()
}

/// Decimal digits of an unsigned number, as characters.
pub open spec fn uint_chars(n: nat) -> Seq<char>
    decreases n,
{
    if n < 10 {
        seq![hex_char(n as int)]
    } else {
        uint_chars(n / 10) + seq![hex_char((n % 10) as int)]
    }
}

/// Decimal rendering of a signed integer, as characters.
pub open spec fn int_chars(n: int) -> Seq<char> {
    if n < 0 {
        seq!['-'] + uint_chars((-n) as nat)
    } else {
        uint_chars(n as nat)
    }
}

/// The display text of a model value.
pub open spec fn display_of(m: BItem) -> Seq<char>
    decreases m,
{
    match m {
        BItem::Int(n) => int_chars(n),
        BItem::Str(s) => seq!['"'] + s + seq!['"'],
        BItem::Raw(b) => seq!['"'] + lossy_of(b) + seq!['"'],
        BItem::List(items) => seq!['['] + display_items(items) + seq![']'],
        BItem::Dict(entries) => seq!['{'] + display_entries(entries) + seq!['}'],
    }
}

/// The display texts of list elements, joined by a comma and a space.
pub open spec fn display_items(items: Seq<BItem>) -> Seq<char>
    decreases items,
{
    if items.len() == 0 {
        Seq::empty()
    } else if items.len() == 1 {
        display_of(items[0])
    } else {
        display_items(items.drop_last()) + seq![',', ' '] + display_of(items.last())
    }
}

/// The display texts of dictionary pairs, `"key":value`, joined by commas.
pub open spec fn display_entries(entries: Seq<(Seq<char>, BItem)>) -> Seq<char>
    decreases entries,
{
    if entries.len() == 0 {
        Seq::empty()
    } else if entries.len() == 1 {
        display_entry(entries[0])
    } else {
        display_entries(entries.drop_last()) + seq![','] + display_entry(entries.last())
    }
}

/// The display text of one dictionary pair.
pub open spec fn display_entry(entry: (Seq<char>, BItem)) -> Seq<char>
    decreases entry,
{
    seq!['"'] + entry.0 + seq!['"', ':'] + display_of(entry.1)
}

/// Appends the decimal rendering of an unsigned number to `out`.
fn push_uint_chars(n: u64, out: &mut String)
    ensures
        final(out)@ == old(out)@ + uint_chars(n as nat),
    decreases n,
{
    if n < 10 {
        out.append(crate::hex::hex_digit_str(n as u8));
        proof {
            assert(out@ =~= old(out)@ + uint_chars(n as nat));
        }
    } else {
        push_uint_chars(n / 10, out);
        out.append(crate::hex::hex_digit_str((n % 10) as u8));
        proof {
            assert(out@ =~= old(out)@ + uint_chars(n as nat));
        }
    }
}

impl Bencode {
    /// The JSON-like display text of this value: integers as decimal,
    /// strings quoted, lists bracketed, dictionaries braced with their
    /// keys in ascending byte order.
    pub fn render(&self) -> (r: String)
        ensures
            r@ == display_of(bview(*self)),
    {
        let mut out = String::new();
        self.render_into(&mut out);
        out
    }

    /// Appends the display text of this value to `out`.
    #[verifier::loop_isolation(false)]
    fn render_into(&self, out: &mut String)
        ensures
            final(out)@ == old(out)@ + display_of(bview(*self)),
        decreases *self,
    {
        proof {
            reveal_strlit("\"");
            reveal_strlit("-");
            reveal_strlit("[");
            reveal_strlit("]");
            reveal_strlit("{");
            reveal_strlit("}");
            reveal_strlit(", ");
            reveal_strlit(",");
            reveal_strlit(":");
        }
        match self {
            Bencode::Int(n) => {
                if *n < 0 {
                    out.append("-");
                    let mag: u64 = ((-(*n as i128)) as u64);
                    push_uint_chars(mag, out);
                } else {
                    push_uint_chars(*n as u64, out);
                }
                proof {
                    assert(out@ =~= old(out)@ + display_of(bview(*self)));
                }
            },
            Bencode::Str(s) => {
                out.append("\"");
                out.append(s.as_str());
                out.append("\"");
                proof {
                    assert(out@ =~= old(out)@ + display_of(bview(*self)));
                }
            },
            Bencode::RawStr(b) => {
                out.append("\"");
                let text = utf8_lossy(b);
                out.append(text.as_str());
                out.append("\"");
                proof {
                    assert(out@ =~= old(out)@ + display_of(bview(*self)));
                }
            },
            Bencode::List(items) => {
                out.append("[");
                let ghost base = out@;
                let mut j: usize = 0;
                proof {
                    lemma_bview_items(items@);
                    assert(bview_items(items@.subrange(0, 0)) =~= Seq::<BItem>::empty());
                    assert(out@ =~= base + display_items(bview_items(items@.subrange(0, 0))));
                }
                while j < items.len()
                    invariant
                        j <= items@.len(),
                        out@ == base + display_items(bview_items(items@.subrange(0, j as int))),
                        base == old(out)@ + "["@,
                    decreases items@.len() - j,
                {
                    if j > 0 {
                        out.append(", ");
                    }
                    let item = vstd::std_specs::vec::vec_index(items, j);
                    proof {
                        assert(decreases_to!(*self => *items));
                        assert(decreases_to!(*items => items@));
                        assert(decreases_to!(items@ => items@[j as int]));
                        assert(decreases_to!(*self => items@[j as int]));
                    }
                    item.render_into(out);
                    proof {
                        lemma_bview_items(items@);
                        lemma_bview_items(items@.subrange(0, j as int));
                        lemma_bview_items(items@.subrange(0, j + 1));
                        let prev = bview_items(items@.subrange(0, j as int));
                        let cur = bview_items(items@.subrange(0, j + 1));
                        assert(cur.len() == j + 1);
                        assert(cur.drop_last() =~= prev);
                        assert(cur.last() == bview(items@[j as int]));
                        assert(out@ =~= base + display_items(cur));
                    }
                    j = j + 1;
                }
                out.append("]");
                proof {
                    assert(items@.subrange(0, items@.len() as int) =~= items@);
                    assert(out@ =~= old(out)@ + display_of(bview(*self)));
                }
            },
            Bencode::Dict(entries) => {
                out.append("{");
                let ghost base = out@;
                let mut j: usize = 0;
                proof {
                    lemma_bview_entries(entries@);
                    assert(bview_entries(entries@.subrange(0, 0)) =~= Seq::<
                        (Seq<char>, BItem),
                    >::empty());
                    assert(out@ =~= base + display_entries(bview_entries(entries@.subrange(0, 0))));
                }
                while j < entries.len()
                    invariant
                        j <= entries@.len(),
                        out@ == base + display_entries(bview_entries(entries@.subrange(0, j as int))),
                        base == old(out)@ + "{"@,
                    decreases entries@.len() - j,
                {
                    if j > 0 {
                        out.append(",");
                    }
                    let pair = vstd::std_specs::vec::vec_index(entries, j);
                    out.append("\"");
                    out.append(pair.0.as_str());
                    out.append("\"");
                    out.append(":");
                    proof {
                        assert(decreases_to!(*self => *entries));
                        assert(decreases_to!(*entries => entries@));
                        assert(decreases_to!(entries@ => entries@[j as int]));
                        assert(decreases_to!(entries@[j as int] => entries@[j as int].1));
                        assert(decreases_to!(*self => entries@[j as int].1));
                    }
                    pair.1.render_into(out);
                    proof {
                        lemma_bview_entries(entries@);
                        lemma_bview_entries(entries@.subrange(0, j as int));
                        lemma_bview_entries(entries@.subrange(0, j + 1));
                        let prev = bview_entries(entries@.subrange(0, j as int));
                        let cur = bview_entries(entries@.subrange(0, j + 1));
                        assert(cur.len() == j + 1);
                        assert(cur.drop_last() =~= prev);
                        assert(cur.last() == (entries@[j as int].0@, bview(entries@[j as int].1)));
                        assert(("\"")@ =~= seq!['"']);
                        assert((",")@ =~= seq![',']);
                        assert((":")@ =~= seq![':']);
                        assert(display_entry(cur.last()) == seq!['"'] + entries@[j as int].0@
                            + seq!['"', ':'] + display_of(bview(entries@[j as int].1)));
                        assert(out@ =~= base + display_entries(cur));
                    }
                    j = j + 1;
                }
                out.append("}");
                proof {
                    assert(entries@.subrange(0, entries@.len() as int) =~= entries@);
                    assert(out@ =~= old(out)@ + display_of(bview(*self)));
                }
            },
        }
    }
}

} // verus!
