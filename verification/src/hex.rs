//! Lowercase hexadecimal rendering of byte strings.
//!
//! Piece hashes and the info hash are presented as hex text: two lowercase
//! digits per byte, zero-padded, in byte order.  `unhex` is the spec-level
//! inverse used to state that the rendering loses nothing.
use vstd::prelude::*;
use vstd::slice::slice_index_get;

verus! {

/// The lowercase hexadecimal digit for a value below 16.
pub open spec fn hex_char(n: int) -> char {
    if n == 0 {
        '0'
    } else if n == 1 {
        '1'
    } else if n == 2 {
        '2'
    } else if n == 3 {
        '3'
    } else if n == 4 {
        '4'
    } else if n == 5 {
        '5'
    } else if n == 6 {
        '6'
    } else if n == 7 {
        '7'
    } else if n == 8 {
        '8'
    } else if n == 9 {
        '9'
    } else if n == 10 {
        'a'
    } else if n == 11 {
        'b'
    } else if n == 12 {
        'c'
    } else if n == 13 {
        'd'
    } else if n == 14 {
        'e'
    } else {
        'f'
    }
}

/// Lowercase hex rendering of a byte string: two digits per byte, in order.
pub open spec fn hex_of(b: Seq<u8>) -> Seq<char>
    decreases b.len(),
{
    if b.len() == 0 {
        Seq::empty()
    } else {
        hex_of(b.drop_last()) + seq![
            hex_char((b.last() as int) / 16),
            hex_char((b.last() as int) % 16),
        ]
    }
}

/// The value of a lowercase hexadecimal digit.
pub open spec fn unhex_char(c: char) -> int {
    if c == '0' {
        0
    } else if c == '1' {
        1
    } else if c == '2' {
        2
    } else if c == '3' {
        3
    } else if c == '4' {
        4
    } else if c == '5' {
        5
    } else if c == '6' {
        6
    } else if c == '7' {
        7
    } else if c == '8' {
        8
    } else if c == '9' {
        9
    } else if c == 'a' {
        10
    } else if c == 'b' {
        11
    } else if c == 'c' {
        12
    } else if c == 'd' {
        13
    } else if c == 'e' {
        14
    } else {
        15
    }
}

/// The bytes a hex string denotes, reading two digits per byte.
pub open spec fn unhex(s: Seq<char>) -> Seq<u8>
    decreases s.len(),
{
    if s.len() < 2 {
        Seq::empty()
    } else {
        unhex(s.drop_last().drop_last()) + seq![
            (unhex_char(s[s.len() - 2]) * 16 + unhex_char(s.last())) as u8,
        ]
    }
}

/// Hex rendering loses nothing: reading the digits back gives the bytes,
/// and the rendering has exactly two digits per byte.
pub proof fn lemma_unhex_hex_of(b: Seq<u8>)
    ensures
        hex_of(b).len() == 2 * b.len(),
        unhex(hex_of(b)) == b,
    decreases b.len(),
{
    if b.len() > 0 {
        lemma_unhex_hex_of(b.drop_last());
        let s = hex_of(b);
        let head = hex_of(b.drop_last());
        let x = b.last();
        assert(s == head + seq![hex_char((x as int) / 16), hex_char((x as int) % 16)]);
        assert(s.drop_last().drop_last() =~= head);
        assert(s[s.len() - 2] == hex_char((x as int) / 16));
        assert(s.last() == hex_char((x as int) % 16));
        assert(unhex_char(hex_char((x as int) / 16)) == (x as int) / 16);
        assert(unhex_char(hex_char((x as int) % 16)) == (x as int) % 16);
        assert(((x as int) / 16) * 16 + ((x as int) % 16) == x) by (nonlinear_arith);
        assert(unhex(s) =~= b);
    }
}

/// Writes the lowercase hexadecimal digit for a value below 16.
pub(crate) fn hex_digit_str(d: u8) -> (r: &'static str)
    requires
        d < 16,
    ensures
        r@ == seq![hex_char(d as int)],
{
    proof {
        reveal_strlit("0");
        reveal_strlit("1");
        reveal_strlit("2");
        reveal_strlit("3");
        reveal_strlit("4");
        reveal_strlit("5");
        reveal_strlit("6");
        reveal_strlit("7");
        reveal_strlit("8");
        reveal_strlit("9");
        reveal_strlit("a");
        reveal_strlit("b");
        reveal_strlit("c");
        reveal_strlit("d");
        reveal_strlit("e");
        reveal_strlit("f");
    }
    let r = if d == 0 {
        "0"
    } else if d == 1 {
        "1"
    } else if d == 2 {
        "2"
    } else if d == 3 {
        "3"
    } else if d == 4 {
        "4"
    } else if d == 5 {
        "5"
    } else if d == 6 {
        "6"
    } else if d == 7 {
        "7"
    } else if d == 8 {
        "8"
    } else if d == 9 {
        "9"
    } else if d == 10 {
        "a"
    } else if d == 11 {
        "b"
    } else if d == 12 {
        "c"
    } else if d == 13 {
        "d"
    } else if d == 14 {
        "e"
    } else {
        "f"
    };
    proof {
        assert(r@ =~= seq![hex_char(d as int)]);
    }
    r
}

/// Renders a byte string as lowercase hexadecimal text.
pub fn hex_string(bytes: &[u8]) -> (r: String)
    ensures
        r@ == hex_of(bytes@),
{
    let mut out = String::new();
    let mut i: usize = 0;
    proof {
        assert(hex_of(bytes@.subrange(0, 0)) =~= Seq::<char>::empty());
    }
    while i < bytes.len()
        invariant
            i <= bytes@.len(),
            out@ == hex_of(bytes@.subrange(0, i as int)),
        decreases bytes@.len() - i,
    {
        let b = *slice_index_get(bytes, i);
        out.append(hex_digit_str(b / 16));
        out.append(hex_digit_str(b % 16));
        proof {
            let part = bytes@.subrange(0, i as int);
            let next = bytes@.subrange(0, i + 1);
            assert(next.drop_last() =~= part);
            assert(next.last() == b);
            assert(out@ =~= hex_of(next));
        }
        i = i + 1;
    }
    proof {
        assert(bytes@.subrange(0, i as int) =~= bytes@);
    }
    out
}

} // verus!
