//! The self-describing JSON form of UI values, and its reader.
//!
//! A value is written as the JSON array `[name, display_name, description,
//! read_only, payload]`; a payload as `[tag]` or `[tag, data...]`, where the
//! tag is the variant's digit, integers and colors are fixed-width lowercase
//! hexadecimal strings, and strings are JSON strings.
use vstd::prelude::*;
use vstd::utf8::{encode_utf8, decode_utf8, valid_utf8};
use crate::socket::{hex_digit, escape_byte, escape_bytes, json_string};
use crate::value::{FieldView, ValueView, UIValue, UIFieldValue, value_view, values_view, field_view};
use crate::socket::push_escaped;

verus! {

/// The value of a lowercase hexadecimal digit.
pub open spec fn unhex(b: u8) -> Option<u8> {
    if 48 <= b <= 57 {
        Some((b - 48) as u8)
    } else if 97 <= b <= 102 {
        Some((b - 87) as u8)
    } else {
        None
    }
}

/// Four bits of `x`, from bit `s` up.
#[verifier::opaque]
pub open spec fn nibble(x: u64, s: u64) -> u8 {
    ((x >> s) & 15) as u8
}

/// `x` as sixteen hexadecimal digits, most significant first.
pub open spec fn hex16(x: u64) -> Seq<u8> {
    seq![
        hex_digit(nibble(x, 60)), hex_digit(nibble(x, 56)), hex_digit(nibble(x, 52)), hex_digit(nibble(x, 48)),
        hex_digit(nibble(x, 44)), hex_digit(nibble(x, 40)), hex_digit(nibble(x, 36)), hex_digit(nibble(x, 32)),
        hex_digit(nibble(x, 28)), hex_digit(nibble(x, 24)), hex_digit(nibble(x, 20)), hex_digit(nibble(x, 16)),
        hex_digit(nibble(x, 12)), hex_digit(nibble(x, 8)), hex_digit(nibble(x, 4)), hex_digit(nibble(x, 0)),
    ]
}

/// `x` as two hexadecimal digits.
pub open spec fn hex2(x: u8) -> Seq<u8> {
    seq![hex_digit(x / 16), hex_digit(x % 16)]
}

/// Sixteen hexadecimal digits read back.
pub open spec fn unhex16(b: Seq<u8>) -> Option<u64> {
    if b.len() >= 16 && forall|i: int| 0 <= i < 16 ==> #[trigger] unhex(b[i]) is Some {
        let d = |i: int| unhex(b[i]).unwrap() as u64;
        Some(
            (d(0) << 60u64) | (d(1) << 56u64) | (d(2) << 52u64) | (d(3) << 48u64)
            | (d(4) << 44u64) | (d(5) << 40u64) | (d(6) << 36u64) | (d(7) << 32u64)
            | (d(8) << 28u64) | (d(9) << 24u64) | (d(10) << 20u64) | (d(11) << 16u64)
            | (d(12) << 12u64) | (d(13) << 8u64) | (d(14) << 4u64) | d(15),
        )
    } else {
        None
    }
}

/// Two hexadecimal digits read back.
pub open spec fn unhex2(b: Seq<u8>) -> Option<u8> {
    if b.len() >= 2 && unhex(b[0]) is Some && unhex(b[1]) is Some {
        Some((unhex(b[0]).unwrap() * 16 + unhex(b[1]).unwrap()) as u8)
    } else {
        None
    }
}

/// The JSON literal of a boolean.
pub open spec fn bool_bytes(b: bool) -> Seq<u8> {
    if b { seq![116u8, 114, 117, 101] } else { seq![102u8, 97, 108, 115, 101] }
}

/// A quoted hexadecimal string.
pub open spec fn quoted(h: Seq<u8>) -> Seq<u8> {
    seq![34u8] + h + seq![34u8]
}

/// A list of strings as a JSON array.
pub open spec fn strs_bytes(s: Seq<Seq<char>>) -> Seq<u8> {
    seq![91u8] + strs_items(s)
}

/// The items of a list of strings, then the closing bracket.
pub open spec fn strs_items(s: Seq<Seq<char>>) -> Seq<u8>
    decreases s.len(),
{
    if s.len() == 0 {
        seq![93u8]
    } else if s.len() == 1 {
        json_string(s[0]) + seq![93u8]
    } else {
        json_string(s[0]) + seq![44u8] + strs_items(s.subrange(1, s.len() as int))
    }
}

/// The JSON form of a value.
pub open spec fn value_bytes(v: ValueView) -> Seq<u8>
    decreases v,
{
    seq![91u8] + json_string(v.name) + seq![44u8] + json_string(v.display_name) + seq![44u8]
        + json_string(v.description) + seq![44u8] + bool_bytes(v.read_only) + seq![44u8]
        + payload_bytes(v.value) + seq![93u8]
}

/// The JSON form of a payload.
pub open spec fn payload_bytes(f: FieldView) -> Seq<u8>
    decreases f,
{
    match f {
        FieldView::Header => seq![91u8, 48, 93],
        FieldView::Bool(b) => seq![91u8, 49, 44] + bool_bytes(b) + seq![93u8],
        FieldView::Integer(i) => seq![91u8, 50, 44] + quoted(hex16(i as u64)) + seq![93u8],
        FieldView::UnsignedInteger(u) => seq![91u8, 51, 44] + quoted(hex16(u)) + seq![93u8],
        FieldView::Text(s) => seq![91u8, 52, 44] + json_string(s) + seq![93u8],
        FieldView::Color(r, g, b, a) => seq![91u8, 53, 44] + quoted(hex2(r) + hex2(g) + hex2(b) + hex2(a)) + seq![93u8],
        FieldView::Path(s) => seq![91u8, 54, 44] + json_string(s) + seq![93u8],
        FieldView::Choice(o, s) => seq![91u8, 55, 44] + strs_bytes(o) + seq![44u8] + json_string(s) + seq![93u8],
        FieldView::Array(t, es) => seq![91u8, 56, 44] + value_bytes(*t) + seq![44u8] + seq![91u8] + values_items(es) + seq![93u8],
        FieldView::Group(fs) => seq![91u8, 57, 44] + seq![91u8] + values_items(fs) + seq![93u8],
    }
}

/// The items of a list of values, then the closing bracket.
pub open spec fn values_items(s: Seq<ValueView>) -> Seq<u8>
    decreases s,
{
    if s.len() == 0 {
        seq![93u8]
    } else if s.len() == 1 {
        value_bytes(s[0]) + seq![93u8]
    } else {
        value_bytes(s[0]) + seq![44u8] + values_items(s.subrange(1, s.len() as int))
    }
}

// ---- reading ----

/// Reads the body of a JSON string up to its closing quote: the unescaped
/// bytes and what follows the quote.
pub open spec fn read_body(b: Seq<u8>) -> Option<(Seq<u8>, Seq<u8>)>
    decreases b.len(),
{
    if b.len() == 0 {
        None
    } else if b[0] == 34 {
        Some((Seq::empty(), b.subrange(1, b.len() as int)))
    } else if b[0] == 92 {
        if b.len() >= 2 && (b[1] == 34 || b[1] == 92) {
            match read_body(b.subrange(2, b.len() as int)) {
                Some((x, r)) => Some((seq![b[1]] + x, r)),
                None => None,
            }
        } else if b.len() >= 6 && b[1] == 117 && b[2] == 48 && b[3] == 48 && unhex2(b.subrange(4, 6)) is Some {
            match read_body(b.subrange(6, b.len() as int)) {
                Some((x, r)) => Some((seq![unhex2(b.subrange(4, 6)).unwrap()] + x, r)),
                None => None,
            }
        } else {
            None
        }
    } else {
        match read_body(b.subrange(1, b.len() as int)) {
            Some((x, r)) => Some((seq![b[0]] + x, r)),
            None => None,
        }
    }
}

/// Reads a JSON string.
#[verifier::opaque]
pub open spec fn read_str(b: Seq<u8>) -> Option<(Seq<char>, Seq<u8>)> {
    if b.len() > 0 && b[0] == 34 {
        match read_body(b.subrange(1, b.len() as int)) {
            Some((x, r)) => if valid_utf8(x) { Some((decode_utf8(x), r)) } else { None },
            None => None,
        }
    } else {
        None
    }
}

/// Reads one expected byte.
pub open spec fn expect(b: Seq<u8>, c: u8) -> Option<Seq<u8>> {
    if b.len() > 0 && b[0] == c { Some(b.subrange(1, b.len() as int)) } else { None }
}

proof fn lemma_escape_front(x: Seq<u8>)
    requires
        x.len() > 0,
    ensures
        escape_bytes(x) == escape_byte(x[0]) + escape_bytes(x.subrange(1, x.len() as int)),
    decreases x.len(),
{
    if x.len() == 1 {
        assert(x.drop_last() =~= Seq::<u8>::empty());
        assert(x.subrange(1, 1) =~= Seq::<u8>::empty());
        assert(escape_bytes(Seq::<u8>::empty()) == Seq::<u8>::empty());
        assert(escape_bytes(x) =~= escape_byte(x[0]) + escape_bytes(x.subrange(1, x.len() as int)));
    } else {
        let d = x.drop_last();
        lemma_escape_front(d);
        let t = x.subrange(1, x.len() as int);
        assert(t.drop_last() =~= d.subrange(1, d.len() as int));
        assert(t.last() == x.last());
        assert(escape_bytes(x) =~= escape_byte(x[0]) + escape_bytes(t));
    }
}

proof fn lemma_unhex_digit(d: u8)
    requires
        d < 16,
    ensures
        unhex(hex_digit(d)) == Some(d),
{
}

proof fn lemma_unhex2(c: u8)
    ensures
        unhex2(hex2(c)) == Some(c),
{
    lemma_unhex_digit(c / 16);
    lemma_unhex_digit(c % 16);
}

/// Reading back the body of an escaped string stops at its closing quote.
proof fn lemma_read_body(x: Seq<u8>, rest: Seq<u8>)
    ensures
        read_body(escape_bytes(x) + seq![34u8] + rest) == Some((x, rest)),
    decreases x.len(),
{
    let b = escape_bytes(x) + seq![34u8] + rest;
    if x.len() == 0 {
        assert(escape_bytes(x) == Seq::<u8>::empty());
        assert(b =~= seq![34u8] + rest);
        assert(b.subrange(1, b.len() as int) =~= rest);
    } else {
        let c = x[0];
        let t = x.subrange(1, x.len() as int);
        lemma_escape_front(x);
        lemma_read_body(t, rest);
        let b2 = escape_bytes(t) + seq![34u8] + rest;
        assert(b =~= escape_byte(c) + b2);
        assert(x =~= seq![c] + t);
        if c == 34 || c == 92 {
            assert(b.subrange(2, b.len() as int) =~= b2);
        } else if c < 32 {
            assert(b.subrange(6, b.len() as int) =~= b2);
            assert(b.subrange(4, 6) =~= hex2(c));
            lemma_unhex2(c);
        } else {
            assert(b.subrange(1, b.len() as int) =~= b2);
        }
    }
}

/// Reading back a JSON string gives the text and what follows.
pub proof fn lemma_read_str(s: Seq<char>, rest: Seq<u8>)
    ensures
        read_str(json_string(s) + rest) == Some((s, rest)),
{
    reveal(read_str);
    let e = encode_utf8(s);
    let b = json_string(s) + rest;
    assert(b.subrange(1, b.len() as int) =~= escape_bytes(e) + seq![34u8] + rest);
    lemma_read_body(e, rest);
    vstd::utf8::encode_utf8_valid_utf8(s);
    vstd::utf8::encode_utf8_decode_utf8(s);
}

/// Reads a JSON boolean.
#[verifier::opaque]
pub open spec fn read_bool(b: Seq<u8>) -> Option<(bool, Seq<u8>)> {
    if b.len() >= 4 && b.subrange(0, 4) == bool_bytes(true) {
        Some((true, b.subrange(4, b.len() as int)))
    } else if b.len() >= 5 && b.subrange(0, 5) == bool_bytes(false) {
        Some((false, b.subrange(5, b.len() as int)))
    } else {
        None
    }
}

/// Reads a quoted string of sixteen hexadecimal digits.
#[verifier::opaque]
pub open spec fn read_hex16(b: Seq<u8>) -> Option<(u64, Seq<u8>)> {
    if b.len() >= 18 && b[0] == 34 && b[17] == 34 && unhex16(b.subrange(1, 17)) is Some {
        Some((unhex16(b.subrange(1, 17)).unwrap(), b.subrange(18, b.len() as int)))
    } else {
        None
    }
}

/// Reads a quoted color of eight hexadecimal digits.
#[verifier::opaque]
pub open spec fn read_color(b: Seq<u8>) -> Option<((u8, u8, u8, u8), Seq<u8>)> {
    if b.len() >= 10 && b[0] == 34 && b[9] == 34 && unhex2(b.subrange(1, 3)) is Some && unhex2(b.subrange(3, 5)) is Some
        && unhex2(b.subrange(5, 7)) is Some && unhex2(b.subrange(7, 9)) is Some {
        Some((
            (unhex2(b.subrange(1, 3)).unwrap(), unhex2(b.subrange(3, 5)).unwrap(),
             unhex2(b.subrange(5, 7)).unwrap(), unhex2(b.subrange(7, 9)).unwrap()),
            b.subrange(10, b.len() as int),
        ))
    } else {
        None
    }
}

/// Reads the items of a list of strings, through the closing bracket.
#[verifier::opaque]
pub open spec fn read_strs_items(b: Seq<u8>) -> Option<(Seq<Seq<char>>, Seq<u8>)>
    decreases b.len(),
{
    if b.len() > 0 && b[0] == 93 {
        Some((Seq::empty(), b.subrange(1, b.len() as int)))
    } else {
        match read_str(b) {
            Some((x, r)) => if r.len() < b.len() && r.len() > 0 {
                if r[0] == 44 {
                    match read_strs_items(r.subrange(1, r.len() as int)) {
                        Some((xs, r2)) => Some((seq![x] + xs, r2)),
                        None => None,
                    }
                } else if r[0] == 93 {
                    Some((seq![x], r.subrange(1, r.len() as int)))
                } else {
                    None
                }
            } else {
                None
            },
            None => None,
        }
    }
}

/// Reads the data of a payload that holds no values, up to the closing
/// bracket, given its tag.
#[verifier::opaque]
pub open spec fn read_scalar(t: u8, d: Seq<u8>) -> Option<(FieldView, Seq<u8>)> {
    if t == 49 {
        match read_bool(d) {
            Some((x, r)) => match expect(r, 93) { Some(r2) => Some((FieldView::Bool(x), r2)), None => None },
            None => None,
        }
    } else if t == 50 {
        match read_hex16(d) {
            Some((x, r)) => match expect(r, 93) { Some(r2) => Some((FieldView::Integer(x as i64), r2)), None => None },
            None => None,
        }
    } else if t == 51 {
        match read_hex16(d) {
            Some((x, r)) => match expect(r, 93) { Some(r2) => Some((FieldView::UnsignedInteger(x), r2)), None => None },
            None => None,
        }
    } else if t == 52 || t == 54 {
        match read_str(d) {
            Some((x, r)) => match expect(r, 93) {
                Some(r2) => Some((if t == 52 { FieldView::Text(x) } else { FieldView::Path(x) }, r2)),
                None => None,
            },
            None => None,
        }
    } else if t == 53 {
        match read_color(d) {
            Some((x, r)) => match expect(r, 93) { Some(r2) => Some((FieldView::Color(x.0, x.1, x.2, x.3), r2)), None => None },
            None => None,
        }
    } else if t == 55 {
        match expect(d, 91) {
            Some(d1) => match read_strs_items(d1) {
                Some((o, r)) => match expect(r, 44) {
                    Some(r1) => match read_str(r1) {
                        Some((x, r2)) => match expect(r2, 93) {
                            Some(r3) => Some((FieldView::Choice(o, x), r3)),
                            None => None,
                        },
                        None => None,
                    },
                    None => None,
                },
                None => None,
            },
            None => None,
        }
    } else {
        None
    }
}

/// Reads a JSON value in the form [`value_bytes`] writes.
pub open spec fn read_value(b: Seq<u8>) -> Option<(ValueView, Seq<u8>)>
    decreases b.len(), 0int,
{
    match expect(b, 91) {
        Some(b1) => match read_str(b1) {
            Some((name, r1)) => match expect(r1, 44) {
                Some(b2) => match read_str(b2) {
                    Some((dn, r2)) => match expect(r2, 44) {
                        Some(b3) => match read_str(b3) {
                            Some((desc, r3)) => match expect(r3, 44) {
                                Some(b4) => match read_bool(b4) {
                                    Some((ro, r4)) => match expect(r4, 44) {
                                        Some(b5) => if b5.len() < b.len() {
                                            match read_payload(b5) {
                                                Some((f, r5)) => match expect(r5, 93) {
                                                    Some(r6) => Some((ValueView { name, display_name: dn, description: desc, read_only: ro, value: f }, r6)),
                                                    None => None,
                                                },
                                                None => None,
                                            }
                                        } else {
                                            None
                                        },
                                        None => None,
                                    },
                                    None => None,
                                },
                                None => None,
                            },
                            None => None,
                        },
                        None => None,
                    },
                    None => None,
                },
                None => None,
            },
            None => None,
        },
        None => None,
    }
}

/// Reads a payload in the form [`payload_bytes`] writes.
pub open spec fn read_payload(b: Seq<u8>) -> Option<(FieldView, Seq<u8>)>
    decreases b.len(), 0int,
{
    if b.len() >= 3 && b[0] == 91 {
        let t = b[1];
        let c = b.subrange(2, b.len() as int);
        if t == 48 {
            match expect(c, 93) {
                Some(r) => Some((FieldView::Header, r)),
                None => None,
            }
        } else if c[0] != 44 {
            None
        } else {
            let d = c.subrange(1, c.len() as int);
            if 49 <= t <= 55 {
                read_scalar(t, d)
            } else if t == 56 {
                match read_value(d) {
                    Some((tv, r)) => match expect(r, 44) {
                        Some(r1) => match expect(r1, 91) {
                            Some(r2) => if r2.len() < b.len() {
                                match read_values_items(r2) {
                                    Some((es, r3)) => match expect(r3, 93) {
                                        Some(r4) => Some((FieldView::Array(Box::new(tv), es), r4)),
                                        None => None,
                                    },
                                    None => None,
                                }
                            } else {
                                None
                            },
                            None => None,
                        },
                        None => None,
                    },
                    None => None,
                }
            } else if t == 57 {
                match expect(d, 91) {
                    Some(d1) => match read_values_items(d1) {
                        Some((fs, r)) => match expect(r, 93) {
                            Some(r2) => Some((FieldView::Group(fs), r2)),
                            None => None,
                        },
                        None => None,
                    },
                    None => None,
                }
            } else {
                None
            }
        }
    } else {
        None
    }
}

/// Reads the items of a list of values, through the closing bracket.
pub open spec fn read_values_items(b: Seq<u8>) -> Option<(Seq<ValueView>, Seq<u8>)>
    decreases b.len(), 1int,
{
    if b.len() > 0 && b[0] == 93 {
        Some((Seq::empty(), b.subrange(1, b.len() as int)))
    } else {
        match read_value(b) {
            Some((v, r)) => if r.len() < b.len() && r.len() > 0 {
                if r[0] == 44 {
                    match read_values_items(r.subrange(1, r.len() as int)) {
                        Some((vs, r2)) => Some((seq![v] + vs, r2)),
                        None => None,
                    }
                } else if r[0] == 93 {
                    Some((seq![v], r.subrange(1, r.len() as int)))
                } else {
                    None
                }
            } else {
                None
            },
            None => None,
        }
    }
}

proof fn lemma_expect(c: u8, x: Seq<u8>)
    ensures
        expect(seq![c] + x, c) == Some(x),
{
    assert((seq![c] + x).subrange(1, (seq![c] + x).len() as int) =~= x);
}

proof fn lemma_read_bool(v: bool, rest: Seq<u8>)
    ensures
        read_bool(bool_bytes(v) + rest) == Some((v, rest)),
{
    reveal(read_bool);
    let b = bool_bytes(v) + rest;
    if v {
        assert(b.subrange(0, 4) =~= bool_bytes(true));
        assert(b.subrange(4, b.len() as int) =~= rest);
    } else {
        assert(b.subrange(0, 4) != bool_bytes(true)) by {
            assert(b.subrange(0, 4)[0] == 102u8);
        }
        assert(b.subrange(0, 5) =~= bool_bytes(false));
        assert(b.subrange(5, b.len() as int) =~= rest);
    }
}

proof fn lemma_nibble(x: u64, s: u64)
    ensures
        nibble(x, s) < 16,
        unhex(hex_digit(nibble(x, s))) == Some(nibble(x, s)),
{
    reveal(nibble);
    assert(((x >> s) & 15) < 16) by (bit_vector);
    lemma_unhex_digit(nibble(x, s));
}

proof fn lemma_unhex16(x: u64)
    ensures
        unhex16(hex16(x)) == Some(x),
{
    let h = hex16(x);
    lemma_nibble(x, 60); lemma_nibble(x, 56); lemma_nibble(x, 52); lemma_nibble(x, 48);
    lemma_nibble(x, 44); lemma_nibble(x, 40); lemma_nibble(x, 36); lemma_nibble(x, 32);
    lemma_nibble(x, 28); lemma_nibble(x, 24); lemma_nibble(x, 20); lemma_nibble(x, 16);
    lemma_nibble(x, 12); lemma_nibble(x, 8); lemma_nibble(x, 4); lemma_nibble(x, 0);
    assert forall|i: int| 0 <= i < 16 implies #[trigger] unhex(h[i]) is Some by {
        assert(0 <= i < 16);
    }
    assert(x == (((x >> 60u64) & 15) << 60u64) | (((x >> 56u64) & 15) << 56u64) | (((x >> 52u64) & 15) << 52u64)
        | (((x >> 48u64) & 15) << 48u64) | (((x >> 44u64) & 15) << 44u64) | (((x >> 40u64) & 15) << 40u64)
        | (((x >> 36u64) & 15) << 36u64) | (((x >> 32u64) & 15) << 32u64) | (((x >> 28u64) & 15) << 28u64)
        | (((x >> 24u64) & 15) << 24u64) | (((x >> 20u64) & 15) << 20u64) | (((x >> 16u64) & 15) << 16u64)
        | (((x >> 12u64) & 15) << 12u64) | (((x >> 8u64) & 15) << 8u64) | (((x >> 4u64) & 15) << 4u64)
        | ((x >> 0u64) & 15)) by (bit_vector);
    reveal(nibble);
    assert forall|s: u64| #[trigger] (nibble(x, s) as u64) == ((x >> s) & 15) by {
        assert(((x >> s) & 15) < 256) by (bit_vector);
    }
}

proof fn lemma_read_hex16(x: u64, rest: Seq<u8>)
    ensures
        read_hex16(quoted(hex16(x)) + rest) == Some((x, rest)),
{
    reveal(read_hex16);
    let b = quoted(hex16(x)) + rest;
    assert(b.subrange(1, 17) =~= hex16(x));
    assert(b.subrange(18, b.len() as int) =~= rest);
    lemma_unhex16(x);
}

proof fn lemma_read_color(c: (u8, u8, u8, u8), rest: Seq<u8>)
    ensures
        read_color(quoted(hex2(c.0) + hex2(c.1) + hex2(c.2) + hex2(c.3)) + rest) == Some((c, rest)),
{
    reveal(read_color);
    let b = quoted(hex2(c.0) + hex2(c.1) + hex2(c.2) + hex2(c.3)) + rest;
    assert(b.subrange(1, 3) =~= hex2(c.0));
    assert(b.subrange(3, 5) =~= hex2(c.1));
    assert(b.subrange(5, 7) =~= hex2(c.2));
    assert(b.subrange(7, 9) =~= hex2(c.3));
    assert(b.subrange(10, b.len() as int) =~= rest);
    lemma_unhex2(c.0);
    lemma_unhex2(c.1);
    lemma_unhex2(c.2);
    lemma_unhex2(c.3);
}

proof fn lemma_read_strs_items(xs: Seq<Seq<char>>, rest: Seq<u8>)
    ensures
        read_strs_items(strs_items(xs) + rest) == Some((xs, rest)),
    decreases xs.len(),
{
    reveal(read_strs_items);
    let b = strs_items(xs) + rest;
    if xs.len() == 0 {
        assert(b =~= seq![93u8] + rest);
        lemma_expect(93, rest);
        assert(xs =~= Seq::<Seq<char>>::empty());
    } else {
        let j = json_string(xs[0]);
        assert(j[0] == 34u8);
        if xs.len() == 1 {
            assert(b =~= j + (seq![93u8] + rest));
            lemma_read_str(xs[0], seq![93u8] + rest);
            lemma_expect(93, rest);
            assert((seq![93u8] + rest).subrange(1, (seq![93u8] + rest).len() as int) =~= rest);
            assert(xs =~= seq![xs[0]]);
        } else {
            let t = xs.subrange(1, xs.len() as int);
            let r = seq![44u8] + (strs_items(t) + rest);
            assert(b =~= j + r);
            lemma_read_str(xs[0], r);
            assert(r.subrange(1, r.len() as int) =~= strs_items(t) + rest);
            lemma_read_strs_items(t, rest);
            assert(xs =~= seq![xs[0]] + t);
        }
    }
}

#[verifier::rlimit(100)]
/// Round trip of a UI value through its JSON form: reading back what was
/// written gives the same value, and leaves what follows untouched.
pub proof fn lemma_value_round_trip(v: ValueView, rest: Seq<u8>)
    ensures
        read_value(value_bytes(v) + rest) == Some((v, rest)),
    decreases v, 0int,
{
    let p = payload_bytes(v.value);
    let b = value_bytes(v) + rest;
    let t5 = p + (seq![93u8] + rest);
    let t4 = bool_bytes(v.read_only) + (seq![44u8] + t5);
    let t3 = json_string(v.description) + (seq![44u8] + t4);
    let t2 = json_string(v.display_name) + (seq![44u8] + t3);
    let t1 = json_string(v.name) + (seq![44u8] + t2);
    assert(b =~= seq![91u8] + t1);
    lemma_expect(91, t1);
    lemma_read_str(v.name, seq![44u8] + t2);
    lemma_expect(44, t2);
    lemma_read_str(v.display_name, seq![44u8] + t3);
    lemma_expect(44, t3);
    lemma_read_str(v.description, seq![44u8] + t4);
    lemma_expect(44, t4);
    lemma_read_bool(v.read_only, seq![44u8] + t5);
    lemma_expect(44, t5);
    lemma_payload_round_trip(v.value, seq![93u8] + rest);
    lemma_expect(93, rest);
}

/// The tag digit of a payload's variant.
pub open spec fn tag_of(f: FieldView) -> u8 {
    match f {
        FieldView::Header => 48,
        FieldView::Bool(_) => 49,
        FieldView::Integer(_) => 50,
        FieldView::UnsignedInteger(_) => 51,
        FieldView::Text(_) => 52,
        FieldView::Color(..) => 53,
        FieldView::Path(_) => 54,
        FieldView::Choice(..) => 55,
        FieldView::Array(..) => 56,
        FieldView::Group(_) => 57,
    }
}

/// The data part of a payload written after its tag and comma.
pub open spec fn scalar_data(f: FieldView) -> Seq<u8> {
    match f {
        FieldView::Bool(b) => bool_bytes(b),
        FieldView::Integer(i) => quoted(hex16(i as u64)),
        FieldView::UnsignedInteger(u) => quoted(hex16(u)),
        FieldView::Text(s) => json_string(s),
        FieldView::Color(r, g, b, a) => quoted(hex2(r) + hex2(g) + hex2(b) + hex2(a)),
        FieldView::Path(s) => json_string(s),
        FieldView::Choice(o, s) => strs_bytes(o) + seq![44u8] + json_string(s),
        _ => Seq::empty(),
    }
}

proof fn lemma_scalar_round_trip(f: FieldView, rest: Seq<u8>)
    requires
        49 <= tag_of(f) <= 55,
    ensures
        read_scalar(tag_of(f), scalar_data(f) + (seq![93u8] + rest)) == Some((f, rest)),
{
    reveal(read_scalar);
    let tail = seq![93u8] + rest;
    lemma_expect(93, rest);
    match f {
        FieldView::Bool(x) => lemma_read_bool(x, tail),
        FieldView::Integer(x) => {
            lemma_read_hex16(x as u64, tail);
            assert((x as u64) as i64 == x) by (bit_vector);
        },
        FieldView::UnsignedInteger(x) => lemma_read_hex16(x, tail),
        FieldView::Text(x) => lemma_read_str(x, tail),
        FieldView::Path(x) => lemma_read_str(x, tail),
        FieldView::Color(r, g, b, a) => lemma_read_color((r, g, b, a), tail),
        FieldView::Choice(o, x) => {
            let t2 = seq![44u8] + (json_string(x) + tail);
            assert(scalar_data(f) + tail =~= seq![91u8] + (strs_items(o) + t2));
            lemma_expect(91, strs_items(o) + t2);
            lemma_read_strs_items(o, t2);
            lemma_expect(44, json_string(x) + tail);
            lemma_read_str(x, tail);
        },
        _ => {},
    }
}

#[verifier::rlimit(100)]
/// Round trip of a payload through its JSON form.
pub proof fn lemma_payload_round_trip(f: FieldView, rest: Seq<u8>)
    ensures
        read_payload(payload_bytes(f) + rest) == Some((f, rest)),
    decreases f, 0int,
{
    let b = payload_bytes(f) + rest;
    match f {
        FieldView::Header => {
            assert(b.subrange(2, b.len() as int) =~= seq![93u8] + rest);
            lemma_expect(93, rest);
        },
        FieldView::Array(t, es) => {
            let items = values_items(es) + (seq![93u8] + rest);
            let r1 = seq![44u8] + (seq![91u8] + items);
            let d = value_bytes(*t) + r1;
            assert(b.subrange(2, b.len() as int) =~= seq![44u8] + d);
            assert((seq![44u8] + d).subrange(1, (seq![44u8] + d).len() as int) =~= d);
            lemma_value_round_trip(*t, r1);
            lemma_expect(44, seq![91u8] + items);
            lemma_expect(91, items);
            lemma_items_round_trip(es, seq![93u8] + rest);
            lemma_expect(93, rest);
        },
        FieldView::Group(fs) => {
            let items = values_items(fs) + (seq![93u8] + rest);
            let d = seq![91u8] + items;
            assert(b.subrange(2, b.len() as int) =~= seq![44u8] + d);
            assert((seq![44u8] + d).subrange(1, (seq![44u8] + d).len() as int) =~= d);
            lemma_expect(91, items);
            lemma_items_round_trip(fs, seq![93u8] + rest);
            lemma_expect(93, rest);
        },
        _ => {
            let d = scalar_data(f) + (seq![93u8] + rest);
            assert(b =~= seq![91u8, tag_of(f), 44u8] + d);
            assert(b.subrange(2, b.len() as int) =~= seq![44u8] + d);
            assert((seq![44u8] + d).subrange(1, (seq![44u8] + d).len() as int) =~= d);
            lemma_scalar_round_trip(f, rest);
        },
    }
}

/// Round trip of the items of a list of values.
pub proof fn lemma_items_round_trip(vs: Seq<ValueView>, rest: Seq<u8>)
    ensures
        read_values_items(values_items(vs) + rest) == Some((vs, rest)),
    decreases vs, 1int,
{
    let b = values_items(vs) + rest;
    if vs.len() == 0 {
        assert(b =~= seq![93u8] + rest);
        assert(b.subrange(1, b.len() as int) =~= rest);
        assert(vs =~= Seq::<ValueView>::empty());
    } else {
        let j = value_bytes(vs[0]);
        assert(j[0] == 91u8);
        if vs.len() == 1 {
            assert(b =~= j + (seq![93u8] + rest));
            lemma_value_round_trip(vs[0], seq![93u8] + rest);
            assert((seq![93u8] + rest).subrange(1, (seq![93u8] + rest).len() as int) =~= rest);
            assert(vs =~= seq![vs[0]]);
        } else {
            let t = vs.subrange(1, vs.len() as int);
            let r = seq![44u8] + (values_items(t) + rest);
            assert(b =~= j + r);
            lemma_value_round_trip(vs[0], r);
            assert(r.subrange(1, r.len() as int) =~= values_items(t) + rest);
            lemma_items_round_trip(t, rest);
            assert(vs =~= seq![vs[0]] + t);
        }
    }
}

// ---- writing ----

fn hex_digit_of(d: u8) -> (r: u8)
    requires
        d < 16,
    ensures
        r == hex_digit(d),
{
    if d < 10 { 48 + d } else { 87 + d }
}

fn write_json_string(out: &mut Vec<u8>, s: &String)
    ensures
        final(out)@ == old(out)@ + json_string(s@),
{
    let ghost o0 = out@;
    out.push(34);
    push_escaped(out, s.as_str());
    out.push(34);
    assert(out@ =~= o0 + json_string(s@));
}

fn write_bytes(out: &mut Vec<u8>, b: &[u8])
    ensures
        final(out)@ == old(out)@ + b@,
{
    let ghost o0 = out@;
    let mut i: usize = 0;
    while i < b.len()
        invariant
            i <= b@.len(),
            out@ == o0 + b@.subrange(0, i as int),
        decreases b@.len() - i,
    {
        out.push(b[i]);
        i += 1;
        assert(out@ =~= o0 + b@.subrange(0, i as int));
    }
    assert(b@.subrange(0, i as int) =~= b@);
}

fn write_bool(out: &mut Vec<u8>, v: bool)
    ensures
        final(out)@ == old(out)@ + bool_bytes(v),
{
    if v {
        let b: [u8; 4] = [116, 114, 117, 101];
        assert(b@ =~= bool_bytes(true));
        write_bytes(out, &b);
    } else {
        let b: [u8; 5] = [102, 97, 108, 115, 101];
        assert(b@ =~= bool_bytes(false));
        write_bytes(out, &b);
    }
}

#[verifier::rlimit(100)]
fn write_hex16(out: &mut Vec<u8>, x: u64)
    ensures
        final(out)@ == old(out)@ + quoted(hex16(x)),
{
    let ghost o0 = out@;
    out.push(34);
    write_nibble(out, x, 60); write_nibble(out, x, 56); write_nibble(out, x, 52); write_nibble(out, x, 48);
    write_nibble(out, x, 44); write_nibble(out, x, 40); write_nibble(out, x, 36); write_nibble(out, x, 32);
    write_nibble(out, x, 28); write_nibble(out, x, 24); write_nibble(out, x, 20); write_nibble(out, x, 16);
    write_nibble(out, x, 12); write_nibble(out, x, 8); write_nibble(out, x, 4); write_nibble(out, x, 0);
    out.push(34);
    assert(out@ =~= o0 + quoted(hex16(x)));
}

fn write_nibble(out: &mut Vec<u8>, x: u64, s: u64)
    requires
        s < 64,
    ensures
        final(out)@ == old(out)@.push(hex_digit(nibble(x, s))),
{
    reveal(nibble);
    assert(((x >> s) & 15) < 16) by (bit_vector);
    out.push(hex_digit_of(((x >> s) & 15) as u8));
}

fn write_hex2(out: &mut Vec<u8>, x: u8)
    ensures
        final(out)@ == old(out)@ + hex2(x),
{
    let ghost o0 = out@;
    out.push(hex_digit_of(x / 16));
    out.push(hex_digit_of(x % 16));
    assert(out@ =~= o0 + hex2(x));
}

fn write_strs_items(out: &mut Vec<u8>, v: &Vec<String>, i: usize)
    requires
        i <= v@.len(),
    ensures
        final(out)@ == old(out)@ + strs_items(crate::panel::strings_view(v@).subrange(i as int, v@.len() as int)),
    decreases v@.len() - i,
{
    let ghost sv = crate::panel::strings_view(v@).subrange(i as int, v@.len() as int);
    let ghost o0 = out@;
    if i == v.len() {
        out.push(93);
        assert(sv =~= Seq::<Seq<char>>::empty());
        assert(out@ =~= o0 + strs_items(sv));
    } else if i + 1 == v.len() {
        write_json_string(out, &v[i]);
        out.push(93);
        assert(sv[0] == v@[i as int]@);
        assert(out@ =~= o0 + strs_items(sv));
    } else {
        write_json_string(out, &v[i]);
        out.push(44);
        let ghost o1 = out@;
        write_strs_items(out, v, i + 1);
        assert(sv[0] == v@[i as int]@);
        assert(sv.subrange(1, sv.len() as int) =~= crate::panel::strings_view(v@).subrange(i + 1, v@.len() as int));
        assert(out@ =~= o0 + strs_items(sv));
    }
}

/// Writes a value in its JSON form.
fn write_value(out: &mut Vec<u8>, v: &UIValue)
    ensures
        final(out)@ == old(out)@ + value_bytes(value_view(v)),
    decreases v, 0int,
{
    let ghost o0 = out@;
    out.push(91);
    write_json_string(out, &v.name);
    out.push(44);
    write_json_string(out, &v.display_name);
    out.push(44);
    write_json_string(out, &v.description);
    out.push(44);
    write_bool(out, v.read_only);
    out.push(44);
    let ghost o1 = out@;
    write_payload(out, &v.value);
    out.push(93);
    assert(value_view(v).value == field_view(&v.value));
    assert(out@ =~= o0 + value_bytes(value_view(v)));
}

fn write_payload(out: &mut Vec<u8>, f: &UIFieldValue)
    ensures
        final(out)@ == old(out)@ + payload_bytes(field_view(f)),
    decreases f, 0int,
{
    let ghost o0 = out@;
    let ghost fv = field_view(f);
    match f {
        UIFieldValue::Array(t, es) => {
            out.push(91);
            out.push(56);
            out.push(44);
            write_value(out, &**t);
            out.push(44);
            out.push(91);
            write_values_items(out, es, 0);
            assert(values_view(es@).subrange(0, es@.len() as int) =~= values_view(es@));
            out.push(93);
            assert(out@ =~= o0 + payload_bytes(fv));
        },
        UIFieldValue::Group(fs) => {
            out.push(91);
            out.push(57);
            out.push(44);
            out.push(91);
            write_values_items(out, fs, 0);
            assert(values_view(fs@).subrange(0, fs@.len() as int) =~= values_view(fs@));
            out.push(93);
            assert(out@ =~= o0 + payload_bytes(fv));
        },
        _ => write_scalar(out, f),
    }
}

#[verifier::rlimit(100)]
fn write_scalar(out: &mut Vec<u8>, f: &UIFieldValue)
    requires
        !(f is Array || f is Group),
    ensures
        final(out)@ == old(out)@ + payload_bytes(field_view(f)),
{
    let ghost o0 = out@;
    let ghost fv = field_view(f);
    out.push(91);
    match f {
        UIFieldValue::Header => {
            out.push(48);
            out.push(93);
        },
        UIFieldValue::Bool(b) => {
            out.push(49);
            out.push(44);
            write_bool(out, *b);
            out.push(93);
        },
        UIFieldValue::Integer(i) => {
            out.push(50);
            out.push(44);
            write_hex16(out, *i as u64);
            out.push(93);
        },
        UIFieldValue::UnsignedInteger(u) => {
            out.push(51);
            out.push(44);
            write_hex16(out, *u);
            out.push(93);
        },
        UIFieldValue::Text(s) => {
            out.push(52);
            out.push(44);
            write_json_string(out, s);
            out.push(93);
        },
        UIFieldValue::Color(r, g, b, a) => {
            out.push(53);
            out.push(44);
            let ghost o1 = out@;
            out.push(34);
            write_hex2(out, *r);
            write_hex2(out, *g);
            write_hex2(out, *b);
            write_hex2(out, *a);
            out.push(34);
            assert(out@ =~= o1 + quoted(hex2(*r) + hex2(*g) + hex2(*b) + hex2(*a)));
            out.push(93);
        },
        UIFieldValue::Path(s) => {
            out.push(54);
            out.push(44);
            write_json_string(out, s);
            out.push(93);
        },
        UIFieldValue::Choice(o, s) => {
            out.push(55);
            out.push(44);
            out.push(91);
            write_strs_items(out, o, 0);
            assert(crate::panel::strings_view(o@).subrange(0, o@.len() as int) =~= o@.map_values(|x: String| x@));
            out.push(44);
            write_json_string(out, s);
            out.push(93);
        },
        _ => {},
    }
    assert(out@ =~= o0 + payload_bytes(fv));
}

fn write_values_items(out: &mut Vec<u8>, vs: &Vec<UIValue>, i: usize)
    requires
        i <= vs@.len(),
    ensures
        final(out)@ == old(out)@ + values_items(values_view(vs@).subrange(i as int, vs@.len() as int)),
    decreases vs, vs@.len() - i,
{
    let ghost sv = values_view(vs@).subrange(i as int, vs@.len() as int);
    let ghost o0 = out@;
    if i == vs.len() {
        out.push(93);
        assert(sv =~= Seq::<ValueView>::empty());
        assert(out@ =~= o0 + values_items(sv));
    } else {
        assert(decreases_to!(vs => vs@[i as int]));
        write_value(out, &vs[i]);
        assert(sv[0] == value_view(&vs@[i as int]));
        if i + 1 == vs.len() {
            out.push(93);
            assert(out@ =~= o0 + values_items(sv));
        } else {
            out.push(44);
            write_values_items(out, vs, i + 1);
            assert(sv.subrange(1, sv.len() as int) =~= values_view(vs@).subrange(i + 1, vs@.len() as int));
            assert(out@ =~= o0 + values_items(sv));
        }
    }
}

/// A value in its self-describing JSON form.
pub fn encode_value(v: &UIValue) -> (r: Vec<u8>)
    ensures
        r@ == value_bytes(value_view(v)),
{
    let mut out: Vec<u8> = Vec::new();
    write_value(&mut out, v);
    assert(out@ =~= value_bytes(value_view(v)));
    out
}

// ---- reading, executable ----

/// The bytes of `b` from `pos` on.
pub open spec fn suffix(b: Seq<u8>, pos: int) -> Seq<u8> {
    b.subrange(pos, b.len() as int)
}

/// Relies on std's `String::from_utf8`: it succeeds exactly on valid UTF-8,
/// and the string then holds the characters the bytes encode.
#[verifier::external_body]
fn string_from_utf8(b: Vec<u8>) -> (r: Option<String>)
    ensures
        match r {
            Some(s) => valid_utf8(b@) && s@ == decode_utf8(b@),
            None => !valid_utf8(b@),
        },
{
    String::from_utf8(b).ok()
}

fn expect_at(b: &Vec<u8>, pos: usize, c: u8) -> (r: Option<usize>)
    requires
        pos <= b@.len(),
    ensures
        match expect(suffix(b@, pos as int), c) {
            Some(rest) => r is Some && r.unwrap() as int == pos + 1 && pos + 1 <= b@.len() && suffix(b@, pos + 1) == rest,
            None => r is None,
        },
{
    if pos < b.len() && b[pos] == c {
        assert(suffix(b@, pos as int).subrange(1, suffix(b@, pos as int).len() as int) =~= suffix(b@, pos + 1));
        Some(pos + 1)
    } else {
        None
    }
}

fn unhex_exec(c: u8) -> (r: Option<u8>)
    ensures
        r == unhex(c),
{
    if 48 <= c && c <= 57 {
        Some(c - 48)
    } else if 97 <= c && c <= 102 {
        Some(c - 87)
    } else {
        None
    }
}

fn unhex2_at(b: &Vec<u8>, pos: usize) -> (r: Option<u8>)
    requires
        pos + 2 <= b@.len(),
    ensures
        r == unhex2(b@.subrange(pos as int, pos + 2)),
{
    let ghost w = b@.subrange(pos as int, pos + 2);
    let n = b.len();
    assert(w[0] == b@[pos as int] && w[1] == b@[pos + 1]);
    match (unhex_exec(b[pos]), unhex_exec(b[pos + 1])) {
        (Some(h), Some(l)) => Some(h * 16 + l),
        _ => None,
    }
}

fn read_body_at(b: &Vec<u8>, pos: usize) -> (r: Option<(Vec<u8>, usize)>)
    requires
        pos <= b@.len(),
    ensures
        match read_body(suffix(b@, pos as int)) {
            Some((x, rest)) => r is Some && r.unwrap().0@ == x && r.unwrap().1 <= b@.len() && suffix(b@, r.unwrap().1 as int) == rest,
            None => r is None,
        },
{
    let mut acc: Vec<u8> = Vec::new();
    let mut i = pos;
    while i < b.len()
        invariant
            pos <= i <= b@.len(),
            read_body(suffix(b@, pos as int)) == match read_body(suffix(b@, i as int)) {
                Some((x, rest)) => Some((acc@ + x, rest)),
                None => None,
            },
        decreases b@.len() - i,
    {
        let ghost s = suffix(b@, i as int);
        assert(s[0] == b@[i as int]);
        let c = b[i];
        if c == 34 {
            assert(s.subrange(1, s.len() as int) =~= suffix(b@, i + 1));
            assert(acc@ + Seq::<u8>::empty() =~= acc@);
            return Some((acc, i + 1));
        } else if c == 92 {
            if i + 1 < b.len() && (b[i + 1] == 34 || b[i + 1] == 92) {
                assert(s[1] == b@[i + 1]);
                let e = b[i + 1];
                assert(s.subrange(2, s.len() as int) =~= suffix(b@, i + 2));
                let ghost a0 = acc@;
                acc.push(e);
                proof {
                    match read_body(suffix(b@, i + 2)) {
                        Some((x, rest)) => { assert(a0 + (seq![e] + x) =~= acc@ + x); },
                        None => {},
                    }
                }
                i = i + 2;
            } else if b.len() - i > 5 && b[i + 1] == 117 && b[i + 2] == 48 && b[i + 3] == 48 {
                assert(s[1] == b@[i + 1] && s[2] == b@[i + 2] && s[3] == b@[i + 3]);
                assert(s.subrange(4, 6) =~= b@.subrange(i + 4, i + 6));
                match unhex2_at(b, i + 4) {
                    Some(v) => {
                        assert(s.subrange(6, s.len() as int) =~= suffix(b@, i + 6));
                        let ghost a0 = acc@;
                        acc.push(v);
                        proof {
                            match read_body(suffix(b@, i + 6)) {
                                Some((x, rest)) => { assert(a0 + (seq![v] + x) =~= acc@ + x); },
                                None => {},
                            }
                        }
                        i = i + 6;
                    },
                    None => return None,
                }
            } else {
                proof {
                    if s.len() >= 2 { assert(s[1] == b@[i + 1]); }
                    if s.len() >= 6 {
                        assert(s[1] == b@[i + 1] && s[2] == b@[i + 2] && s[3] == b@[i + 3]);
                    }
                }
                return None;
            }
        } else {
            assert(s.subrange(1, s.len() as int) =~= suffix(b@, i + 1));
            let ghost a0 = acc@;
            acc.push(c);
            proof {
                match read_body(suffix(b@, i + 1)) {
                    Some((x, rest)) => { assert(a0 + (seq![c] + x) =~= acc@ + x); },
                    None => {},
                }
            }
            i = i + 1;
        }
    }
    assert(suffix(b@, i as int).len() == 0);
    None
}

fn read_str_at(b: &Vec<u8>, pos: usize) -> (r: Option<(String, usize)>)
    requires
        pos <= b@.len(),
    ensures
        match read_str(suffix(b@, pos as int)) {
            Some((x, rest)) => r is Some && r.unwrap().0@ == x && r.unwrap().1 <= b@.len() && suffix(b@, r.unwrap().1 as int) == rest,
            None => r is None,
        },
{
    reveal(read_str);
    let ghost s = suffix(b@, pos as int);
    if pos < b.len() && b[pos] == 34 {
        assert(s[0] == b@[pos as int]);
        assert(s.subrange(1, s.len() as int) =~= suffix(b@, pos + 1));
        match read_body_at(b, pos + 1) {
            Some((x, end)) => {
                match string_from_utf8(x) {
                    Some(t) => Some((t, end)),
                    None => None,
                }
            },
            None => None,
        }
    } else {
        None
    }
}

fn read_bool_at(b: &Vec<u8>, pos: usize) -> (r: Option<(bool, usize)>)
    requires
        pos <= b@.len(),
    ensures
        match read_bool(suffix(b@, pos as int)) {
            Some((x, rest)) => r is Some && r.unwrap().0 == x && r.unwrap().1 <= b@.len() && suffix(b@, r.unwrap().1 as int) == rest,
            None => r is None,
        },
{
    reveal(read_bool);
    let ghost s = suffix(b@, pos as int);
    if b.len() - pos >= 4 && b[pos] == 116 && b[pos + 1] == 114 && b[pos + 2] == 117 && b[pos + 3] == 101 {
        assert(s.subrange(0, 4) =~= bool_bytes(true));
        assert(s.subrange(4, s.len() as int) =~= suffix(b@, pos + 4));
        Some((true, pos + 4))
    } else if b.len() - pos >= 5 && b[pos] == 102 && b[pos + 1] == 97 && b[pos + 2] == 108 && b[pos + 3] == 115 && b[pos + 4] == 101 {
        assert(s.subrange(0, 4) != bool_bytes(true)) by { assert(s.subrange(0, 4)[0] == 102u8); }
        assert(s.subrange(0, 5) =~= bool_bytes(false));
        assert(s.subrange(5, s.len() as int) =~= suffix(b@, pos + 5));
        Some((false, pos + 5))
    } else {
        proof {
            if s.len() >= 4 && s.subrange(0, 4) == bool_bytes(true) {
                assert(s.subrange(0, 4)[0] == b@[pos as int] && s.subrange(0, 4)[1] == b@[pos + 1]
                    && s.subrange(0, 4)[2] == b@[pos + 2] && s.subrange(0, 4)[3] == b@[pos + 3]);
            }
            if s.len() >= 5 && s.subrange(0, 5) == bool_bytes(false) {
                assert(s.subrange(0, 5)[0] == b@[pos as int] && s.subrange(0, 5)[1] == b@[pos + 1]
                    && s.subrange(0, 5)[2] == b@[pos + 2] && s.subrange(0, 5)[3] == b@[pos + 3]
                    && s.subrange(0, 5)[4] == b@[pos + 4]);
            }
        }
        None
    }
}

fn digit_at(b: &Vec<u8>, k: usize) -> (r: Option<u64>)
    requires
        k < b@.len(),
    ensures
        r == match unhex(b@[k as int]) { Some(d) => Some(d as u64), None => None },
{
    match unhex_exec(b[k]) {
        Some(d) => Some(d as u64),
        None => None,
    }
}

fn read_hex16_at(b: &Vec<u8>, pos: usize) -> (r: Option<(u64, usize)>)
    requires
        pos <= b@.len(),
    ensures
        match read_hex16(suffix(b@, pos as int)) {
            Some((x, rest)) => r is Some && r.unwrap().0 == x && r.unwrap().1 <= b@.len() && suffix(b@, r.unwrap().1 as int) == rest,
            None => r is None,
        },
{
    reveal(read_hex16);
    let ghost s = suffix(b@, pos as int);
    if !(b.len() - pos >= 18 && b[pos] == 34 && b[pos + 17] == 34) {
        proof {
            if s.len() >= 18 { assert(s[0] == b@[pos as int] && s[17] == b@[pos + 17]); }
        }
        return None;
    }
    assert(s[0] == b@[pos as int] && s[17] == b@[pos + 17]);
    let ghost w = s.subrange(1, 17);
    assert(w[0] == b@[pos + 1] && w[1] == b@[pos + 2] && w[2] == b@[pos + 3] && w[3] == b@[pos + 4] && w[4] == b@[pos + 5] && w[5] == b@[pos + 6] && w[6] == b@[pos + 7] && w[7] == b@[pos + 8] && w[8] == b@[pos + 9] && w[9] == b@[pos + 10] && w[10] == b@[pos + 11] && w[11] == b@[pos + 12] && w[12] == b@[pos + 13] && w[13] == b@[pos + 14] && w[14] == b@[pos + 15] && w[15] == b@[pos + 16]);
    let d0 = match digit_at(b, pos + 1) { Some(d) => d, None => { proof { assert(w[0] == b@[pos + 1]); } return None; } };
    let d1 = match digit_at(b, pos + 2) { Some(d) => d, None => { proof { assert(w[1] == b@[pos + 2]); } return None; } };
    let d2 = match digit_at(b, pos + 3) { Some(d) => d, None => { proof { assert(w[2] == b@[pos + 3]); } return None; } };
    let d3 = match digit_at(b, pos + 4) { Some(d) => d, None => { proof { assert(w[3] == b@[pos + 4]); } return None; } };
    let d4 = match digit_at(b, pos + 5) { Some(d) => d, None => { proof { assert(w[4] == b@[pos + 5]); } return None; } };
    let d5 = match digit_at(b, pos + 6) { Some(d) => d, None => { proof { assert(w[5] == b@[pos + 6]); } return None; } };
    let d6 = match digit_at(b, pos + 7) { Some(d) => d, None => { proof { assert(w[6] == b@[pos + 7]); } return None; } };
    let d7 = match digit_at(b, pos + 8) { Some(d) => d, None => { proof { assert(w[7] == b@[pos + 8]); } return None; } };
    let d8 = match digit_at(b, pos + 9) { Some(d) => d, None => { proof { assert(w[8] == b@[pos + 9]); } return None; } };
    let d9 = match digit_at(b, pos + 10) { Some(d) => d, None => { proof { assert(w[9] == b@[pos + 10]); } return None; } };
    let d10 = match digit_at(b, pos + 11) { Some(d) => d, None => { proof { assert(w[10] == b@[pos + 11]); } return None; } };
    let d11 = match digit_at(b, pos + 12) { Some(d) => d, None => { proof { assert(w[11] == b@[pos + 12]); } return None; } };
    let d12 = match digit_at(b, pos + 13) { Some(d) => d, None => { proof { assert(w[12] == b@[pos + 13]); } return None; } };
    let d13 = match digit_at(b, pos + 14) { Some(d) => d, None => { proof { assert(w[13] == b@[pos + 14]); } return None; } };
    let d14 = match digit_at(b, pos + 15) { Some(d) => d, None => { proof { assert(w[14] == b@[pos + 15]); } return None; } };
    let d15 = match digit_at(b, pos + 16) { Some(d) => d, None => { proof { assert(w[15] == b@[pos + 16]); } return None; } };
    let x = (d0 << 60u64) | (d1 << 56u64) | (d2 << 52u64) | (d3 << 48u64)
        | (d4 << 44u64) | (d5 << 40u64) | (d6 << 36u64) | (d7 << 32u64)
        | (d8 << 28u64) | (d9 << 24u64) | (d10 << 20u64) | (d11 << 16u64)
        | (d12 << 12u64) | (d13 << 8u64) | (d14 << 4u64) | d15;
    assert(forall|i: int| 0 <= i < 16 ==> #[trigger] unhex(w[i]) is Some) by {
        assert forall|i: int| 0 <= i < 16 implies #[trigger] unhex(w[i]) is Some by {
            assert(w[i] == b@[pos + 1 + i]);
        }
    }
    assert(s.subrange(18, s.len() as int) =~= suffix(b@, pos + 18));
    Some((x, pos + 18))
}

fn read_color_at(b: &Vec<u8>, pos: usize) -> (r: Option<((u8, u8, u8, u8), usize)>)
    requires
        pos <= b@.len(),
    ensures
        match read_color(suffix(b@, pos as int)) {
            Some((x, rest)) => r is Some && r.unwrap().0 == x && r.unwrap().1 <= b@.len() && suffix(b@, r.unwrap().1 as int) == rest,
            None => r is None,
        },
{
    reveal(read_color);
    let ghost s = suffix(b@, pos as int);
    if !(b.len() - pos >= 10 && b[pos] == 34 && b[pos + 9] == 34) {
        proof {
            if s.len() >= 10 { assert(s[0] == b@[pos as int] && s[9] == b@[pos + 9]); }
        }
        return None;
    }
    assert(s[0] == b@[pos as int] && s[9] == b@[pos + 9]);
    assert(s.subrange(1, 3) =~= b@.subrange(pos + 1, pos + 3));
    assert(s.subrange(3, 5) =~= b@.subrange(pos + 3, pos + 5));
    assert(s.subrange(5, 7) =~= b@.subrange(pos + 5, pos + 7));
    assert(s.subrange(7, 9) =~= b@.subrange(pos + 7, pos + 9));
    let r = match unhex2_at(b, pos + 1) { Some(v) => v, None => return None };
    let g = match unhex2_at(b, pos + 3) { Some(v) => v, None => return None };
    let bl = match unhex2_at(b, pos + 5) { Some(v) => v, None => return None };
    let a = match unhex2_at(b, pos + 7) { Some(v) => v, None => return None };
    assert(s.subrange(10, s.len() as int) =~= suffix(b@, pos + 10));
    Some(((r, g, bl, a), pos + 10))
}

fn read_strs_items_at(b: &Vec<u8>, pos: usize) -> (r: Option<(Vec<String>, usize)>)
    requires
        pos <= b@.len(),
    ensures
        match read_strs_items(suffix(b@, pos as int)) {
            Some((x, rest)) => r is Some && crate::panel::strings_view(r.unwrap().0@) == x && r.unwrap().1 <= b@.len()
                && suffix(b@, r.unwrap().1 as int) == rest,
            None => r is None,
        },
    decreases b@.len() - pos,
{
    reveal(read_strs_items);
    let ghost s = suffix(b@, pos as int);
    if pos < b.len() && b[pos] == 93 {
        assert(s[0] == b@[pos as int]);
        assert(s.subrange(1, s.len() as int) =~= suffix(b@, pos + 1));
        let v: Vec<String> = Vec::new();
        assert(crate::panel::strings_view(v@) =~= Seq::<Seq<char>>::empty());
        return Some((v, pos + 1));
    }
    proof { if s.len() > 0 { assert(s[0] == b@[pos as int]); } }
    match read_str_at(b, pos) {
        Some((x, end)) => {
            let ghost rs = suffix(b@, end as int);
            if !(end > pos && end < b.len()) {
                return None;
            }
            assert(rs[0] == b@[end as int]);
            assert(rs.subrange(1, rs.len() as int) =~= suffix(b@, end + 1));
            if b[end] == 44 {
                match read_strs_items_at(b, end + 1) {
                    Some((mut xs, e2)) => {
                        let ghost xv = crate::panel::strings_view(xs@);
                        let ghost xx = x@;
                        xs.insert(0, x);
                        assert(crate::panel::strings_view(xs@) =~= seq![xx] + xv);
                        Some((xs, e2))
                    },
                    None => None,
                }
            } else if b[end] == 93 {
                let ghost xx = x@;
                let mut xs: Vec<String> = Vec::new();
                xs.push(x);
                assert(crate::panel::strings_view(xs@) =~= seq![xx]);
                Some((xs, end + 1))
            } else {
                None
            }
        },
        None => None,
    }
}

/// A payload reader's result agrees with the spec reader's.
pub open spec fn agrees_field(r: Option<(UIFieldValue, usize)>, spec: Option<(FieldView, Seq<u8>)>, b: Seq<u8>) -> bool {
    match spec {
        Some((x, rest)) => r is Some && field_view(&r.unwrap().0) == x && r.unwrap().1 <= b.len() && suffix(b, r.unwrap().1 as int) == rest,
        None => r is None,
    }
}

/// A value reader's result agrees with the spec reader's.
pub open spec fn agrees_value(r: Option<(UIValue, usize)>, spec: Option<(ValueView, Seq<u8>)>, b: Seq<u8>) -> bool {
    match spec {
        Some((x, rest)) => r is Some && value_view(&r.unwrap().0) == x && r.unwrap().1 <= b.len() && suffix(b, r.unwrap().1 as int) == rest,
        None => r is None,
    }
}

/// A list reader's result agrees with the spec reader's.
pub open spec fn agrees_values(r: Option<(Vec<UIValue>, usize)>, spec: Option<(Seq<ValueView>, Seq<u8>)>, b: Seq<u8>) -> bool {
    match spec {
        Some((x, rest)) => r is Some && values_view(r.unwrap().0@) == x && r.unwrap().1 <= b.len() && suffix(b, r.unwrap().1 as int) == rest,
        None => r is None,
    }
}

/// Reads the closing bracket after a payload's data.
fn close_at(b: &Vec<u8>, pos: usize, f: UIFieldValue) -> (r: Option<(UIFieldValue, usize)>)
    requires
        pos <= b@.len(),
    ensures
        match expect(suffix(b@, pos as int), 93) {
            Some(rest) => r is Some && r.unwrap().0 == f && r.unwrap().1 <= b@.len() && suffix(b@, r.unwrap().1 as int) == rest,
            None => r is None,
        },
{
    let ghost fv = f;
    match expect_at(b, pos, 93) {
        Some(e) => {
            let r = Some((f, e));
            assert(r.unwrap().0 == fv);
            assert(expect(suffix(b@, pos as int), 93) is Some);
            let ghost rest = expect(suffix(b@, pos as int), 93).unwrap();
            assert(r is Some);
            assert(r.unwrap().1 <= b@.len());
            assert(suffix(b@, r.unwrap().1 as int) == rest);
            r
        },
        None => None,
    }
}

#[verifier::rlimit(100)]
fn read_scalar_at(t: u8, b: &Vec<u8>, pos: usize) -> (r: Option<(UIFieldValue, usize)>)
    requires
        pos <= b@.len(),
    ensures
        agrees_field(r, read_scalar(t, suffix(b@, pos as int)), b@),
{
    reveal(read_scalar);
    if t == 49 {
        match read_bool_at(b, pos) {
            Some((x, e)) => close_at(b, e, UIFieldValue::Bool(x)),
            None => None,
        }
    } else if t == 50 {
        match read_hex16_at(b, pos) {
            Some((x, e)) => close_at(b, e, UIFieldValue::Integer(x as i64)),
            None => None,
        }
    } else if t == 51 {
        match read_hex16_at(b, pos) {
            Some((x, e)) => close_at(b, e, UIFieldValue::UnsignedInteger(x)),
            None => None,
        }
    } else if t == 52 || t == 54 {
        match read_str_at(b, pos) {
            Some((x, e)) => close_at(b, e, if t == 52 { UIFieldValue::Text(x) } else { UIFieldValue::Path(x) }),
            None => None,
        }
    } else if t == 53 {
        match read_color_at(b, pos) {
            Some((x, e)) => close_at(b, e, UIFieldValue::Color(x.0, x.1, x.2, x.3)),
            None => None,
        }
    } else if t == 55 {
        match expect_at(b, pos, 91) {
            Some(p1) => match read_strs_items_at(b, p1) {
                Some((o, e)) => match expect_at(b, e, 44) {
                    Some(p2) => match read_str_at(b, p2) {
                        Some((x, e2)) => {
                            assert(crate::panel::strings_view(o@) =~= o@.map_values(|y: String| y@));
                            close_at(b, e2, UIFieldValue::Choice(o, x))
                        },
                        None => None,
                    },
                    None => None,
                },
                None => None,
            },
            None => None,
        }
    } else {
        None
    }
}

/// Reads a value written by [`encode_value`] from `pos`.
fn read_value_at(b: &Vec<u8>, pos: usize) -> (r: Option<(UIValue, usize)>)
    requires
        pos <= b@.len(),
    ensures
        agrees_value(r, read_value(suffix(b@, pos as int)), b@),
    decreases b@.len() - pos, 0int,
{
    let ghost s = suffix(b@, pos as int);
    let p1 = match expect_at(b, pos, 91) { Some(p) => p, None => return None };
    let (name, e1) = match read_str_at(b, p1) { Some(x) => x, None => return None };
    let p2 = match expect_at(b, e1, 44) { Some(p) => p, None => return None };
    let (dn, e2) = match read_str_at(b, p2) { Some(x) => x, None => return None };
    let p3 = match expect_at(b, e2, 44) { Some(p) => p, None => return None };
    let (desc, e3) = match read_str_at(b, p3) { Some(x) => x, None => return None };
    let p4 = match expect_at(b, e3, 44) { Some(p) => p, None => return None };
    let (ro, e4) = match read_bool_at(b, p4) { Some(x) => x, None => return None };
    let p5 = match expect_at(b, e4, 44) { Some(p) => p, None => return None };
    if p5 <= pos {
        return None;
    }
    let (f, e5) = match read_payload_at(b, p5) { Some(x) => x, None => return None };
    let e6 = match expect_at(b, e5, 93) { Some(p) => p, None => return None };
    let v = UIValue { name, display_name: dn, description: desc, read_only: ro, value: f };
    assert(value_view(&v).value == field_view(&v.value));
    Some((v, e6))
}

fn read_payload_at(b: &Vec<u8>, pos: usize) -> (r: Option<(UIFieldValue, usize)>)
    requires
        pos <= b@.len(),
    ensures
        agrees_field(r, read_payload(suffix(b@, pos as int)), b@),
    decreases b@.len() - pos, 0int,
{
    let ghost s = suffix(b@, pos as int);
    if !(b.len() - pos >= 3 && b[pos] == 91) {
        proof { if s.len() >= 3 { assert(s[0] == b@[pos as int]); } }
        return None;
    }
    assert(s[0] == b@[pos as int] && s[1] == b@[pos + 1] && s[2] == b@[pos + 2]);
    let t = b[pos + 1];
    let ghost c = s.subrange(2, s.len() as int);
    assert(c =~= suffix(b@, pos + 2));
    if t == 48 {
        return close_at(b, pos + 2, UIFieldValue::Header);
    }
    if b[pos + 2] != 44 {
        return None;
    }
    assert(c.subrange(1, c.len() as int) =~= suffix(b@, pos + 3));
    let d = pos + 3;
    if 49 <= t && t <= 55 {
        read_scalar_at(t, b, d)
    } else if t == 56 {
        let (tv, e) = match read_value_at(b, d) { Some(x) => x, None => return None };
        let p1 = match expect_at(b, e, 44) { Some(p) => p, None => return None };
        let p2 = match expect_at(b, p1, 91) { Some(p) => p, None => return None };
        if p2 <= pos {
            return None;
        }
        let (es, e2) = match read_values_items_at(b, p2) { Some(x) => x, None => return None };
        close_at(b, e2, UIFieldValue::Array(Box::new(tv), es))
    } else if t == 57 {
        let p1 = match expect_at(b, d, 91) { Some(p) => p, None => return None };
        let (fs, e) = match read_values_items_at(b, p1) { Some(x) => x, None => return None };
        close_at(b, e, UIFieldValue::Group(fs))
    } else {
        None
    }
}

fn read_values_items_at(b: &Vec<u8>, pos: usize) -> (r: Option<(Vec<UIValue>, usize)>)
    requires
        pos <= b@.len(),
    ensures
        agrees_values(r, read_values_items(suffix(b@, pos as int)), b@),
    decreases b@.len() - pos, 1int,
{
    let ghost s = suffix(b@, pos as int);
    if pos < b.len() && b[pos] == 93 {
        assert(s[0] == b@[pos as int]);
        assert(s.subrange(1, s.len() as int) =~= suffix(b@, pos + 1));
        let v: Vec<UIValue> = Vec::new();
        assert(values_view(v@) =~= Seq::<ValueView>::empty());
        return Some((v, pos + 1));
    }
    proof { if s.len() > 0 { assert(s[0] == b@[pos as int]); } }
    match read_value_at(b, pos) {
        Some((x, end)) => {
            let ghost rs = suffix(b@, end as int);
            if !(end > pos && end < b.len()) {
                return None;
            }
            assert(rs[0] == b@[end as int]);
            assert(rs.subrange(1, rs.len() as int) =~= suffix(b@, end + 1));
            if b[end] == 44 {
                match read_values_items_at(b, end + 1) {
                    Some((mut xs, e2)) => {
                        let ghost xv = values_view(xs@);
                        let ghost xx = value_view(&x);
                        xs.insert(0, x);
                        assert(values_view(xs@) =~= seq![xx] + xv);
                        Some((xs, e2))
                    },
                    None => None,
                }
            } else if b[end] == 93 {
                let ghost xx = value_view(&x);
                let mut xs: Vec<UIValue> = Vec::new();
                xs.push(x);
                assert(values_view(xs@) =~= seq![xx]);
                Some((xs, end + 1))
            } else {
                None
            }
        },
        None => None,
    }
}

/// Reads a value from its self-describing JSON form; `None` where the bytes
/// are not exactly one value in that form.
pub fn decode_value(b: &Vec<u8>) -> (r: Option<UIValue>)
    ensures
        match read_value(b@) {
            Some((v, rest)) => if rest.len() == 0 { r is Some && value_view(&r.unwrap()) == v } else { r is None },
            None => r is None,
        },
{
    assert(suffix(b@, 0) =~= b@);
    match read_value_at(b, 0) {
        Some((v, end)) => {
            if end == b.len() {
                assert(suffix(b@, end as int).len() == 0);
                Some(v)
            } else {
                None
            }
        },
        None => None,
    }
}

/// A list of values in its JSON form: an array of values.
pub fn encode_values(vs: &Vec<UIValue>) -> (r: Vec<u8>)
    ensures
        r@ == seq![91u8] + values_items(values_view(vs@)),
{
    let mut out: Vec<u8> = Vec::new();
    out.push(91);
    write_values_items(&mut out, vs, 0);
    assert(values_view(vs@).subrange(0, vs@.len() as int) =~= values_view(vs@));
    assert(out@ =~= seq![91u8] + values_items(values_view(vs@)));
    out
}

/// Reads a list of values from its JSON form; `None` where the bytes are not
/// exactly one such list.
pub fn decode_values(b: &Vec<u8>) -> (r: Option<Vec<UIValue>>)
    ensures
        match expect(b@, 91) {
            Some(rest) => match read_values_items(rest) {
                Some((vs, tail)) => if tail.len() == 0 { r is Some && values_view(r.unwrap()@) == vs } else { r is None },
                None => r is None,
            },
            None => r is None,
        },
{
    assert(suffix(b@, 0) =~= b@);
    let p = match expect_at(b, 0, 91) {
        Some(p) => p,
        None => return None,
    };
    match read_values_items_at(b, p) {
        Some((vs, end)) => {
            if end == b.len() {
                assert(suffix(b@, end as int).len() == 0);
                Some(vs)
            } else {
                None
            }
        },
        None => None,
    }
}

/// Writing a list of values and reading it back gives the same list.
pub proof fn lemma_decode_encode_values(vs: Seq<ValueView>)
    ensures
        ({
            let b = seq![91u8] + values_items(vs);
            &&& expect(b, 91) == Some(values_items(vs))
            &&& read_values_items(values_items(vs)) == Some((vs, Seq::<u8>::empty()))
        }),
{
    lemma_expect(91, values_items(vs));
    lemma_items_round_trip(vs, Seq::<u8>::empty());
    assert(values_items(vs) + Seq::<u8>::empty() =~= values_items(vs));
}

/// Writing a value and reading it back gives the same value: the bytes that
/// [`encode_value`] returns for `v` are exactly one value to
/// [`decode_value`], which returns a value with the same view.
pub proof fn lemma_decode_encode(v: ValueView)
    ensures
        read_value(value_bytes(v)) == Some((v, Seq::<u8>::empty())),
{
    lemma_value_round_trip(v, Seq::<u8>::empty());
    assert(value_bytes(v) + Seq::<u8>::empty() =~= value_bytes(v));
}

} // verus!
