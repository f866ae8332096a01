//! Properties of the escaping model that hold for every input.

use vstd::prelude::*;
use vstd::utf8::encode_utf8;
use vstd::utf8::is_continuation_byte;
use vstd::utf8::valid_utf8;

use crate::strings::escape_seq;
use crate::strings::escaped;
use crate::strings::is_hex_digit_byte;
use crate::strings::marker_wf;
use crate::strings::quoted;
use crate::table::classify;
use crate::table::hex_digit_byte;
use crate::table::Escape;
use crate::utf8_facts::ef_next;
use crate::utf8_facts::lemma_valid_utf8_structure;

verus! {

/// Text whose bytes all classify as `Verbatim` in the lone-surrogate table
/// (so nothing needs escaping and the marker byte is absent) passes through
/// escaping unchanged, in either mode.
pub proof fn lemma_plain_text_unchanged(bytes: Seq<u8>, lone_surrogates: bool)
    requires
        forall|i: int|
            0 <= i < bytes.len() ==> classify(#[trigger] bytes[i], true) == Escape::Verbatim,
    ensures
        escaped(bytes, lone_surrogates) == bytes,
    decreases bytes.len(),
{
    if bytes.len() == 0 {
        assert(escaped(bytes, lone_surrogates) =~= bytes);
    } else {
        let b = bytes[0];
        assert(classify(b, true) == Escape::Verbatim);
        assert(classify(b, lone_surrogates) == Escape::Verbatim);
        let rest = bytes.skip(1);
        assert forall|i: int| 0 <= i < rest.len() implies classify(#[trigger] rest[i], true)
            == Escape::Verbatim by {
            assert(rest[i] == bytes[i + 1]);
        }
        lemma_plain_text_unchanged(rest, lone_surrogates);
        assert(escaped(bytes, lone_surrogates) =~= seq![b] + rest);
        assert(seq![b] + rest =~= bytes);
    }
}

/// In any mode, a string that needs no escaping and carries no marker is
/// written as itself between two quotes.
pub proof fn lemma_plain_string_quoted(text: Seq<char>, lone_surrogates: bool)
    requires
        forall|i: int|
            0 <= i < encode_utf8(text).len() ==> classify(
                #[trigger] encode_utf8(text)[i],
                true,
            ) == Escape::Verbatim,
    ensures
        quoted(text, lone_surrogates) == seq![0x22u8] + encode_utf8(text) + seq![0x22u8],
{
    lemma_plain_text_unchanged(encode_utf8(text), lone_surrogates);
}

/// A single byte that classifies as a named or generic escape is rendered
/// as exactly that escape sequence: `0x08/0x09/0x0A/0x0C/0x0D` become
/// `\b \t \n \f \r`, the quote becomes `\"`, the backslash `\\`, and every
/// other byte in `0x00..0x20` becomes `\u00XX` with lowercase hex digits.
pub proof fn lemma_escaped_single_byte(b: u8, lone_surrogates: bool)
    requires
        classify(b, lone_surrogates) != Escape::Verbatim,
        classify(b, lone_surrogates) != Escape::Marker,
    ensures
        escaped(seq![b], lone_surrogates) == escape_seq(classify(b, lone_surrogates), b),
{
    let s = seq![b];
    assert(s[0] == b && s.len() == 1);
    assert(s.skip(1) =~= Seq::<u8>::empty());
    assert(escaped(s.skip(1), lone_surrogates) == Seq::<u8>::empty());
    match classify(b, lone_surrogates) {
        Escape::Named(c) => {
            assert(escaped(s, lone_surrogates) == seq![0x5Cu8, c] + escaped(
                s.skip(1),
                lone_surrogates,
            ));
            assert(seq![0x5Cu8, c] + Seq::<u8>::empty() =~= seq![0x5Cu8, c]);
        },
        Escape::Unicode => {
            assert(escaped(s, lone_surrogates) == escape_seq(Escape::Unicode, b) + escaped(
                s.skip(1),
                lone_surrogates,
            ));
            assert(escape_seq(Escape::Unicode, b) + Seq::<u8>::empty() =~= escape_seq(
                Escape::Unicode,
                b,
            ));
        },
        _ => {
            assert(false);
        },
    }
}

/// No unescaped quote: scanning left to right, every `\` consumes the byte
/// after it, and no byte read outside such a pair is a quote.
pub open spec fn quote_free(t: Seq<u8>) -> bool
    decreases t.len(),
{
    if t.len() == 0 {
        true
    } else if t[0] == 0x5C {
        t.len() >= 2 && quote_free(t.skip(2))
    } else {
        t[0] != 0x22 && quote_free(t.skip(1))
    }
}

proof fn lemma_quote_free_byte(b: u8, u: Seq<u8>)
    requires
        b != 0x22,
        b != 0x5C,
        quote_free(u),
    ensures
        quote_free(seq![b] + u),
{
    let v = seq![b] + u;
    assert(v[0] == b);
    assert(v.skip(1) =~= u);
}

proof fn lemma_quote_free_escape(c: u8, u: Seq<u8>)
    requires
        quote_free(u),
    ensures
        quote_free(seq![0x5Cu8, c] + u),
{
    let v = seq![0x5Cu8, c] + u;
    assert(v[0] == 0x5C && v.len() >= 2);
    assert(v.skip(2) =~= u);
}

proof fn lemma_marker_wf_skip(bytes: Seq<u8>, k: int)
    requires
        0 <= k <= bytes.len(),
        marker_wf(bytes),
    ensures
        marker_wf(bytes.skip(k)),
{
    let rest = bytes.skip(k);
    assert forall|i: int|
        0 <= i && i + 3 <= rest.len() && #[trigger] rest[i] == 0xEF && rest[i + 1] == 0xBF
            && rest[i + 2] == 0xBD implies i + 7 <= rest.len() && is_hex_digit_byte(rest[i + 3])
        && is_hex_digit_byte(rest[i + 4]) && is_hex_digit_byte(rest[i + 5]) && is_hex_digit_byte(
        rest[i + 6],
    ) by {
        assert(bytes[i + k] == 0xEF && bytes[i + k + 1] == 0xBF && bytes[i + k + 2] == 0xBD);
        assert(i + k + 7 <= bytes.len() && is_hex_digit_byte(bytes[i + k + 3])
            && is_hex_digit_byte(bytes[i + k + 4]) && is_hex_digit_byte(bytes[i + k + 5])
            && is_hex_digit_byte(bytes[i + k + 6]));
        assert(rest[i + 3] == bytes[i + k + 3] && rest[i + 4] == bytes[i + k + 4] && rest[i + 5]
            == bytes[i + k + 5] && rest[i + 6] == bytes[i + k + 6]);
    }
}

proof fn lemma_ef_next_skip(bytes: Seq<u8>, k: int)
    requires
        0 <= k <= bytes.len(),
        ef_next(bytes),
    ensures
        ef_next(bytes.skip(k)),
{
    let rest = bytes.skip(k);
    assert forall|i: int| 0 <= i < rest.len() && #[trigger] rest[i] == 0xEF implies i + 3
        <= rest.len() && is_continuation_byte(rest[i + 1]) && is_continuation_byte(
        rest[i + 2],
    ) by {
        assert(bytes[i + k] == 0xEF);
        assert(i + k + 3 <= bytes.len() && is_continuation_byte(bytes[i + k + 1])
            && is_continuation_byte(bytes[i + k + 2]));
        assert(rest[i + 1] == bytes[i + k + 1] && rest[i + 2] == bytes[i + k + 2]);
    }
}

proof fn lemma_escaped_quote_free_bytes(bytes: Seq<u8>, lone_surrogates: bool)
    requires
        lone_surrogates ==> marker_wf(bytes),
        lone_surrogates ==> ef_next(bytes),
    ensures
        quote_free(escaped(bytes, lone_surrogates)),
    decreases bytes.len(),
{
    let lone = lone_surrogates;
    if bytes.len() == 0 {
    } else if lone && bytes[0] == 0xEF {
        assert(bytes.len() >= 3 && is_continuation_byte(bytes[1]) && is_continuation_byte(
            bytes[2],
        ));
        if bytes[1] == 0xBF && bytes[2] == 0xBD {
            assert(bytes.len() >= 7 && is_hex_digit_byte(bytes[3]) && is_hex_digit_byte(bytes[4])
                && is_hex_digit_byte(bytes[5]) && is_hex_digit_byte(bytes[6]));
            let rest = bytes.skip(7);
            lemma_marker_wf_skip(bytes, 7);
            lemma_ef_next_skip(bytes, 7);
            lemma_escaped_quote_free_bytes(rest, lone);
            let e = escaped(rest, lone);
            if bytes[3] == 0x66 && bytes[4] == 0x66 && bytes[5] == 0x66 && bytes[6] == 0x64 {
                lemma_quote_free_byte(0xBD, e);
                lemma_quote_free_byte(0xBF, seq![0xBDu8] + e);
                lemma_quote_free_byte(0xEF, seq![0xBFu8] + (seq![0xBDu8] + e));
                assert(escaped(bytes, lone) =~= seq![0xEFu8] + (seq![0xBFu8] + (seq![0xBDu8]
                    + e)));
            } else {
                let w1 = seq![bytes[6]] + e;
                lemma_quote_free_byte(bytes[6], e);
                let w2 = seq![bytes[5]] + w1;
                lemma_quote_free_byte(bytes[5], w1);
                let w3 = seq![bytes[4]] + w2;
                lemma_quote_free_byte(bytes[4], w2);
                let w4 = seq![bytes[3]] + w3;
                lemma_quote_free_byte(bytes[3], w3);
                lemma_quote_free_escape(0x75, w4);
                assert(escaped(bytes, lone) =~= seq![0x5Cu8, 0x75u8] + w4);
            }
        } else {
            let rest = bytes.skip(3);
            lemma_marker_wf_skip(bytes, 3);
            lemma_ef_next_skip(bytes, 3);
            lemma_escaped_quote_free_bytes(rest, lone);
            let e = escaped(rest, lone);
            let w1 = seq![bytes[2]] + e;
            lemma_quote_free_byte(bytes[2], e);
            let w2 = seq![bytes[1]] + w1;
            lemma_quote_free_byte(bytes[1], w1);
            lemma_quote_free_byte(bytes[0], w2);
            assert(escaped(bytes, lone) =~= seq![bytes[0]] + w2);
        }
    } else {
        let b = bytes[0];
        let rest = bytes.skip(1);
        if lone {
            lemma_marker_wf_skip(bytes, 1);
            lemma_ef_next_skip(bytes, 1);
        }
        lemma_escaped_quote_free_bytes(rest, lone);
        let e = escaped(rest, lone);
        match classify(b, lone) {
            Escape::Named(c) => {
                lemma_quote_free_escape(c, e);
                assert(escaped(bytes, lone) =~= seq![0x5Cu8, c] + e);
            },
            Escape::Unicode => {
                let hh = hex_digit_byte(b / 16);
                let hl = hex_digit_byte(b % 16);
                let w1 = seq![hl] + e;
                lemma_quote_free_byte(hl, e);
                let w2 = seq![hh] + w1;
                lemma_quote_free_byte(hh, w1);
                let w3 = seq![0x30u8] + w2;
                lemma_quote_free_byte(0x30, w2);
                let w4 = seq![0x30u8] + w3;
                lemma_quote_free_byte(0x30, w3);
                lemma_quote_free_escape(0x75, w4);
                assert(escaped(bytes, lone) =~= seq![0x5Cu8, 0x75u8] + w4);
            },
            _ => {
                assert(classify(b, lone) == Escape::Verbatim);
                lemma_quote_free_byte(b, e);
                assert(escaped(bytes, lone) =~= seq![b] + e);
            },
        }
    }
}

/// Each marker is resolved on its own, from its seven bytes alone: hex
/// digits `fffd` give the literal replacement character, any other digits
/// give `\u` followed by those digits, and the rest of the text is escaped
/// as if the marker were not there.
pub proof fn lemma_marker_resolution(h1: u8, h2: u8, h3: u8, h4: u8, rest: Seq<u8>)
    requires
        is_hex_digit_byte(h1),
        is_hex_digit_byte(h2),
        is_hex_digit_byte(h3),
        is_hex_digit_byte(h4),
    ensures
        (h1 == 0x66 && h2 == 0x66 && h3 == 0x66 && h4 == 0x64) ==> escaped(
            seq![0xEFu8, 0xBFu8, 0xBDu8, h1, h2, h3, h4] + rest,
            true,
        ) == seq![0xEFu8, 0xBFu8, 0xBDu8] + escaped(rest, true),
        !(h1 == 0x66 && h2 == 0x66 && h3 == 0x66 && h4 == 0x64) ==> escaped(
            seq![0xEFu8, 0xBFu8, 0xBDu8, h1, h2, h3, h4] + rest,
            true,
        ) == seq![0x5Cu8, 0x75u8, h1, h2, h3, h4] + escaped(rest, true),
{
    let s = seq![0xEFu8, 0xBFu8, 0xBDu8, h1, h2, h3, h4] + rest;
    assert(s[0] == 0xEF && s[1] == 0xBF && s[2] == 0xBD && s[3] == h1 && s[4] == h2 && s[5] == h3
        && s[6] == h4);
    assert(s.len() >= 7);
    assert(s.skip(7) =~= rest);
}

/// The byte a two-character JSON escape `\c` stands for, when `c` names one.
pub open spec fn unescape_named(c: u8) -> Option<u8> {
    if c == 0x62 {
        Some(0x08u8)
    } else if c == 0x74 {
        Some(0x09u8)
    } else if c == 0x6E {
        Some(0x0Au8)
    } else if c == 0x66 {
        Some(0x0Cu8)
    } else if c == 0x72 {
        Some(0x0Du8)
    } else if c == 0x22 {
        Some(0x22u8)
    } else if c == 0x5C {
        Some(0x5Cu8)
    } else if c == 0x2F {
        Some(0x2Fu8)
    } else {
        None
    }
}

/// The value of an ASCII hex digit, either case.
pub open spec fn hex_val(d: u8) -> int
    recommends
        is_hex_digit_byte(d),
{
    if 0x30 <= d && d <= 0x39 {
        d - 0x30
    } else if 0x61 <= d && d <= 0x66 {
        d - 0x57
    } else {
        d - 0x37
    }
}

/// The value of four hex digits read most-significant first.
pub open spec fn hex4_value(a: u8, b: u8, c: u8, d: u8) -> int {
    ((hex_val(a) * 16 + hex_val(b)) * 16 + hex_val(c)) * 16 + hex_val(d)
}

/// Standard JSON decoding of string-literal content: named escapes,
/// `\uXXXX` escapes of non-surrogate code points (no surrogate-pair
/// recombination), and verbatim bytes. Raw control bytes, unescaped quotes
/// and malformed escapes are rejected.
pub open spec fn json_unescaped(t: Seq<u8>) -> Option<Seq<u8>>
    decreases t.len(),
{
    if t.len() == 0 {
        Some(Seq::empty())
    } else if t[0] == 0x5C {
        if t.len() >= 2 && t[1] == 0x75 {
            if t.len() >= 6 && is_hex_digit_byte(t[2]) && is_hex_digit_byte(t[3])
                && is_hex_digit_byte(t[4]) && is_hex_digit_byte(t[5]) {
                let v = hex4_value(t[2], t[3], t[4], t[5]);
                if 0xD800 <= v && v <= 0xDFFF {
                    None
                } else {
                    match json_unescaped(t.skip(6)) {
                        Some(rest) => Some(vstd::utf8::encode_scalar(v as u32) + rest),
                        None => None,
                    }
                }
            } else {
                None
            }
        } else if t.len() >= 2 && unescape_named(t[1]) is Some {
            match json_unescaped(t.skip(2)) {
                Some(rest) => Some(seq![unescape_named(t[1])->Some_0] + rest),
                None => None,
            }
        } else {
            None
        }
    } else if t[0] == 0x22 || t[0] < 0x20 {
        None
    } else {
        match json_unescaped(t.skip(1)) {
            Some(rest) => Some(seq![t[0]] + rest),
            None => None,
        }
    }
}

/// Round trip: decoding the content produced in standard mode gives back
/// the input bytes, for every input.
pub proof fn lemma_round_trip_standard(bytes: Seq<u8>)
    ensures
        json_unescaped(escaped(bytes, false)) == Some(bytes),
    decreases bytes.len(),
{
    if bytes.len() > 0 {
        let b = bytes[0];
        let rest = bytes.skip(1);
        lemma_round_trip_standard(rest);
        let e = escaped(rest, false);
        match classify(b, false) {
            Escape::Named(c) => {
                let v = seq![0x5Cu8, c] + e;
                assert(v[0] == 0x5C && v[1] == c && v.len() >= 2);
                assert(unescape_named(c) == Some(b));
                assert(v.skip(2) =~= e);
                assert(escaped(bytes, false) =~= v);
                assert(seq![b] + rest =~= bytes);
            },
            Escape::Unicode => {
                let hh = hex_digit_byte(b / 16);
                let hl = hex_digit_byte(b % 16);
                let v = seq![0x5Cu8, 0x75u8, 0x30u8, 0x30u8, hh, hl] + e;
                assert(v[0] == 0x5C && v[1] == 0x75 && v[2] == 0x30 && v[3] == 0x30 && v[4] == hh
                    && v[5] == hl && v.len() >= 6);
                assert(is_hex_digit_byte(0x30) && is_hex_digit_byte(hh) && is_hex_digit_byte(hl));
                assert(hex_val(hh) == b / 16 && hex_val(hl) == b % 16);
                assert(hex4_value(0x30, 0x30, hh, hl) == b);
                let w: u32 = b as u32;
                assert(w < 0x80 ==> w & 0x7F == w) by (bit_vector);
                assert(vstd::utf8::encode_scalar(w) =~= seq![b]);
                assert(v.skip(6) =~= e);
                assert(escaped(bytes, false) =~= v);
                assert(json_unescaped(v) == Some(seq![b] + rest));
                assert(seq![b] + rest =~= bytes);
            },
            _ => {
                assert(classify(b, false) == Escape::Verbatim);
                assert(b != 0x22 && b != 0x5C && b >= 0x20);
                let v = seq![b] + e;
                assert(v[0] == b);
                assert(v.skip(1) =~= e);
                assert(escaped(bytes, false) =~= v);
                assert(seq![b] + rest =~= bytes);
            },
        }
    }
}

/// The output is a quoted literal whose content holds no unescaped quote:
/// one `"` at each end, none in between.
pub proof fn lemma_output_quote_free(text: Seq<char>, lone_surrogates: bool)
    requires
        lone_surrogates ==> marker_wf(encode_utf8(text)),
    ensures
        quoted(text, lone_surrogates) == seq![0x22u8] + escaped(
            encode_utf8(text),
            lone_surrogates,
        ) + seq![0x22u8],
        quote_free(escaped(encode_utf8(text), lone_surrogates)),
{
    broadcast use vstd::utf8::group_utf8_lib;

    let bytes = encode_utf8(text);
    assert(valid_utf8(bytes));
    lemma_valid_utf8_structure(bytes);
    lemma_escaped_quote_free_bytes(bytes, lone_surrogates);
}

} // verus!
