//! Escape classification: what to do with each input byte.

use vstd::prelude::*;
use vstd::utf8::encode_scalar;

verus! {

/// How a single input byte is rendered in the output.
///
/// `Named(c)` is a two-character escape `\c` (for example `\n`); `Unicode` is
/// a generic `\u00XX` escape; `Marker` starts the seven-byte lone-surrogate
/// convention and is only ever assigned to byte `0xEF`.
#[derive(Clone, Copy, PartialEq, Eq, Structural)]
pub enum Escape {
    Verbatim,
    Named(u8),
    Unicode,
    Marker,
}

/// The classification of byte `b`. Only byte `0xEF` depends on the mode:
/// it is `Marker` in lone-surrogate mode and `Verbatim` otherwise.
pub open spec fn classify(b: u8, lone_surrogates: bool) -> Escape {
    if b == 0x08 {
        Escape::Named(0x62)
    } else if b == 0x09 {
        Escape::Named(0x74)
    } else if b == 0x0A {
        Escape::Named(0x6E)
    } else if b == 0x0C {
        Escape::Named(0x66)
    } else if b == 0x0D {
        Escape::Named(0x72)
    } else if b == 0x22 {
        Escape::Named(0x22)
    } else if b == 0x5C {
        Escape::Named(0x5C)
    } else if b < 0x20 {
        Escape::Unicode
    } else if b == 0xEF && lone_surrogates {
        Escape::Marker
    } else {
        Escape::Verbatim
    }
}

/// A full 256-entry classification table for the given mode.
pub open spec fn is_escape_table(t: Seq<Escape>, lone_surrogates: bool) -> bool {
    &&& t.len() == 256
    &&& forall|i: int| 0 <= i < 256 ==> t[i] == classify(i as u8, lone_surrogates)
}

/// Whether a classification table is the lone-surrogate one.
pub open spec fn table_is_lone(t: Seq<Escape>) -> bool {
    t.len() == 256 && t[0xEF] == Escape::Marker
}

/// Classification of one byte, with byte `0xEF` always `Verbatim`
/// (the plain-table entry).
pub fn classify_byte(b: u8) -> (escape: Escape)
    ensures
        escape == classify(b, false),
{
    if b == 0x08 {
        Escape::Named(0x62)
    } else if b == 0x09 {
        Escape::Named(0x74)
    } else if b == 0x0A {
        Escape::Named(0x6E)
    } else if b == 0x0C {
        Escape::Named(0x66)
    } else if b == 0x0D {
        Escape::Named(0x72)
    } else if b == 0x22 {
        Escape::Named(0x22)
    } else if b == 0x5C {
        Escape::Named(0x5C)
    } else if b < 0x20 {
        Escape::Unicode
    } else {
        Escape::Verbatim
    }
}

/// Build a classification table. All entries are the standard classification
/// except byte `0xEF`, which gets `lo`: `Escape::Marker` yields the
/// lone-surrogate table, `Escape::Verbatim` the plain one.
pub fn create_table(lo: Escape) -> (t: Vec<Escape>)
    ensures
        t@.len() == 256,
        forall|i: int|
            0 <= i < 256 ==> t@[i] == (if i == 0xEF {
                lo
            } else {
                classify(i as u8, false)
            }),
{
    let mut t: Vec<Escape> = Vec::new();
    let mut i: usize = 0;
    while i < 256
        invariant
            i <= 256,
            t@.len() == i,
            forall|j: int|
                0 <= j < i ==> t@[j] == (if j == 0xEF {
                    lo
                } else {
                    classify(j as u8, false)
                }),
        decreases 256 - i,
    {
        let escape: Escape = if i == 0xEF {
            lo
        } else {
            classify_byte(i as u8)
        };
        t.push(escape);
        i += 1;
    }
    t
}

/// The ASCII byte for hex digit `n` (lowercase).
pub open spec fn hex_digit_byte(n: u8) -> u8
    recommends
        n < 16,
{
    if n < 10 {
        (0x30 + n) as u8
    } else {
        (0x57 + n) as u8
    }
}

/// High hex digit of a byte.
pub open spec fn hex_byte_hi(b: u8) -> u8 {
    hex_digit_byte(b / 16)
}

/// Low hex digit of a byte.
pub open spec fn hex_byte_lo(b: u8) -> u8 {
    hex_digit_byte(b % 16)
}

/// Lowercase ASCII hex digit for `n`.
pub fn hex_digit(n: u8) -> (d: u8)
    requires
        n < 16,
    ensures
        d == hex_digit_byte(n),
{
    if n < 10 {
        0x30 + n
    } else {
        0x57 + n
    }
}

/// UTF-8 encoding of a character, as the sequence of its bytes.
pub fn to_bytes(ch: char) -> (bytes: Vec<u8>)
    ensures
        bytes@ == encode_scalar(ch as u32),
{
    proof {
        broadcast use vstd::utf8::char_is_scalar;

    }
    let c: u32 = ch as u32;
    let mut bytes: Vec<u8> = Vec::new();
    if c <= 0x7F {
        proof {
            assert(c & 0x7F <= 0x7F) by (bit_vector);
        }
        bytes.push((c & 0x7F) as u8);
    } else if c <= 0x7FF {
        proof {
            assert((c >> 6) & 0x1F <= 0x1F && c & 0x3F <= 0x3F) by (bit_vector);
        }
        bytes.push(0xC0u8 | ((c >> 6) & 0x1F) as u8);
        bytes.push(0x80u8 | (c & 0x3F) as u8);
    } else if c <= 0xFFFF {
        proof {
            assert((c >> 12) & 0x0F <= 0x0F && (c >> 6) & 0x3F <= 0x3F && c & 0x3F <= 0x3F)
                by (bit_vector);
        }
        bytes.push(0xE0u8 | ((c >> 12) & 0x0F) as u8);
        bytes.push(0x80u8 | ((c >> 6) & 0x3F) as u8);
        bytes.push(0x80u8 | (c & 0x3F) as u8);
    } else {
        proof {
            assert((c >> 18) & 0x7 <= 0x7 && (c >> 12) & 0x3F <= 0x3F && (c >> 6) & 0x3F <= 0x3F
                && c & 0x3F <= 0x3F) by (bit_vector);
        }
        bytes.push(0xF0u8 | ((c >> 18) & 0x7) as u8);
        bytes.push(0x80u8 | ((c >> 12) & 0x3F) as u8);
        bytes.push(0x80u8 | ((c >> 6) & 0x3F) as u8);
        bytes.push(0x80u8 | (c & 0x3F) as u8);
    }
    proof {
        assert(bytes@ =~= encode_scalar(ch as u32));
    }
    bytes
}

} // verus!
