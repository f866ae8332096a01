//! The byte-scanning writer and the mode-selecting entry points.
//!
//! A string is written into the sink as a double-quoted JSON string literal.
//! The scan keeps a cursor pair: `start` marks the next unwritten verbatim
//! run, `index` the byte under inspection. Bytes classified `Verbatim` are
//! absorbed into the pending run; escapes flush the run and emit their
//! translation; the lone-surrogate marker is resolved with a fixed lookahead
//! of six bytes past the leading `0xEF`.

use oxc_data_structures::code_buffer::CodeBuffer;
use vstd::prelude::*;
use vstd::string::StringSliceAdditionalSpecFns;
use vstd::utf8::encode_utf8;
use vstd::utf8::is_char_boundary;
use vstd::utf8::is_continuation_byte;
use vstd::utf8::valid_utf8;

use crate::sink::buffer_bytes;
use crate::sink::print_ascii_byte;
use crate::sink::print_str;
use crate::table::classify;
use crate::table::create_table;
use crate::table::hex_byte_hi;
use crate::table::hex_byte_lo;
use crate::table::hex_digit;
use crate::table::is_escape_table;
use crate::table::table_is_lone;
use crate::table::Escape;
use crate::utf8_facts::ascii_next;
use crate::utf8_facts::ef_next;
use crate::utf8_facts::lemma_valid_utf8_structure;
use crate::utf8_facts::run_boundary;

verus! {

/// The bytes an escape classification emits for one input byte: `\c` for a
/// named escape, `\u00XX` (lowercase hex) for a generic one.
pub open spec fn escape_seq(escape: Escape, byte: u8) -> Seq<u8> {
    match escape {
        Escape::Named(c) => seq![0x5Cu8, c],
        Escape::Unicode => seq![
            0x5Cu8,
            0x75u8,
            0x30u8,
            0x30u8,
            hex_byte_hi(byte),
            hex_byte_lo(byte),
        ],
        _ => Seq::empty(),
    }
}

/// The classifications `write_char_escape` accepts.
pub open spec fn named_or_unicode(escape: Escape, byte: u8) -> bool {
    match escape {
        Escape::Named(c) => c < 0x80,
        Escape::Unicode => byte < 0x20,
        _ => false,
    }
}

/// An ASCII hex digit, either case.
pub open spec fn is_hex_digit_byte(b: u8) -> bool {
    (0x30 <= b && b <= 0x39) || (0x61 <= b && b <= 0x66) || (0x41 <= b && b <= 0x46)
}

/// Well-formedness of the lone-surrogate convention inside a byte sequence:
/// wherever the three-byte encoding of U+FFFD occurs, four ASCII hex digits
/// follow. A malformed marker indicates corrupted upstream state; the writer
/// demands this of its input rather than fail at run time.
pub open spec fn marker_wf(bytes: Seq<u8>) -> bool {
    forall|i: int|
        0 <= i && i + 3 <= bytes.len() && #[trigger] bytes[i] == 0xEF && bytes[i + 1] == 0xBF
            && bytes[i + 2] == 0xBD ==> i + 7 <= bytes.len() && is_hex_digit_byte(bytes[i + 3])
            && is_hex_digit_byte(bytes[i + 4]) && is_hex_digit_byte(bytes[i + 5])
            && is_hex_digit_byte(bytes[i + 6])
}

/// The escaped form of a byte sequence: the content of the JSON string
/// literal between the quotes. In lone-surrogate mode a marker whose hex
/// digits spell `fffd` becomes a literal U+FFFD, any other marker becomes
/// `\u` followed by its own four hex digits, and an `0xEF` that does not
/// open a marker is copied with its two continuation bytes.
pub open spec fn escaped(s: Seq<u8>, lone_surrogates: bool) -> Seq<u8>
    decreases s.len(),
{
    if s.len() == 0 {
        Seq::empty()
    } else if lone_surrogates && s[0] == 0xEF {
        if s.len() >= 7 && s[1] == 0xBF && s[2] == 0xBD {
            if s[3] == 0x66 && s[4] == 0x66 && s[5] == 0x66 && s[6] == 0x64 {
                seq![0xEFu8, 0xBFu8, 0xBDu8] + escaped(s.skip(7), lone_surrogates)
            } else {
                seq![0x5Cu8, 0x75u8, s[3], s[4], s[5], s[6]] + escaped(s.skip(7), lone_surrogates)
            }
        } else if s.len() >= 3 && !(s[1] == 0xBF && s[2] == 0xBD) {
            seq![s[0], s[1], s[2]] + escaped(s.skip(3), lone_surrogates)
        } else {
            // A truncated marker: excluded by `marker_wf` and by UTF-8
            // validity, so the writer never reaches this case.
            Seq::empty()
        }
    } else {
        match classify(s[0], lone_surrogates) {
            Escape::Verbatim => seq![s[0]] + escaped(s.skip(1), lone_surrogates),
            Escape::Marker => seq![s[0]] + escaped(s.skip(1), lone_surrogates),
            _ => escape_seq(classify(s[0], lone_surrogates), s[0]) + escaped(
                s.skip(1),
                lone_surrogates,
            ),
        }
    }
}

/// The full literal for `text` in the given mode: quote, escaped content,
/// quote.
pub open spec fn quoted(text: Seq<char>, lone_surrogates: bool) -> Seq<u8> {
    seq![0x22u8] + escaped(encode_utf8(text), lone_surrogates) + seq![0x22u8]
}

/// Write one escape sequence for `byte`.
pub fn write_char_escape(escape: Escape, byte: u8, buffer: &mut CodeBuffer)
    requires
        named_or_unicode(escape, byte),
    ensures
        buffer_bytes(*final(buffer)) == buffer_bytes(*old(buffer)) + escape_seq(escape, byte),
{
    match escape {
        Escape::Named(c) => {
            print_ascii_byte(buffer, 0x5C);
            print_ascii_byte(buffer, c);
            proof {
                assert(buffer_bytes(*buffer) =~= buffer_bytes(*old(buffer)) + escape_seq(
                    escape,
                    byte,
                ));
            }
        },
        Escape::Unicode => {
            let hi: u8 = hex_digit(byte / 16);
            let lo: u8 = hex_digit(byte % 16);
            print_ascii_byte(buffer, 0x5C);
            print_ascii_byte(buffer, 0x75);
            print_ascii_byte(buffer, 0x30);
            print_ascii_byte(buffer, 0x30);
            print_ascii_byte(buffer, hi);
            print_ascii_byte(buffer, lo);
            proof {
                assert(buffer_bytes(*buffer) =~= buffer_bytes(*old(buffer)) + escape_seq(
                    escape,
                    byte,
                ));
            }
        },
        _ => {
            proof {
                assert(buffer_bytes(*buffer) =~= buffer_bytes(*old(buffer)) + escape_seq(
                    escape,
                    byte,
                ));
            }
        },
    }
}

/// Flush the verbatim run `[from, to)` of `s`'s bytes into the buffer.
/// Both ends must lie on UTF-8 boundaries, so the run never splits a
/// multi-byte encoding.
fn print_run(buffer: &mut CodeBuffer, s: &str, from: usize, to: usize)
    requires
        from <= to <= encode_utf8(s@).len(),
        run_boundary(encode_utf8(s@), from as int),
        run_boundary(encode_utf8(s@), to as int),
    ensures
        buffer_bytes(*final(buffer)) == buffer_bytes(*old(buffer)) + encode_utf8(s@).subrange(
            from as int,
            to as int,
        ),
{
    let ghost all = encode_utf8(s@);
    proof {
        broadcast use vstd::utf8::group_utf8_lib;

        assert(valid_utf8(all));
        assert(is_char_boundary(all, from as int));
        assert(is_char_boundary(all, to as int));
    }
    let (_head, tail) = s.split_at(from);
    proof {
        let t = all.subrange(from as int, all.len() as int);
        assert(tail.spec_bytes() =~= t);
        assert(valid_utf8(t));
        if to == from {
            assert(is_char_boundary(t, 0));
        } else if to == all.len() {
            assert(to - from == t.len());
            assert(is_char_boundary(t, t.len() as int));
        } else {
            assert(!is_continuation_byte(all[to as int]));
            assert(t[to - from] == all[to as int]);
            assert(!is_continuation_byte(t[to - from]));
            assert(is_char_boundary(t, to - from));
        }
    }
    let (run, _rest) = tail.split_at(to - from);
    print_str(buffer, run);
    proof {
        assert(encode_utf8(run@) =~= all.subrange(from as int, to as int));
    }
}

/// One scan step at a byte that is not the marker: a verbatim byte joins
/// the run, an escapable byte contributes its escape sequence.
proof fn lemma_step_one(all: Seq<u8>, lone: bool, i: int)
    requires
        0 <= i < all.len(),
        classify(all[i], lone) != Escape::Marker,
    ensures
        classify(all[i], lone) == Escape::Verbatim ==> escaped(all.skip(i), lone) == all.subrange(
            i,
            i + 1,
        ) + escaped(all.skip(i + 1), lone),
        classify(all[i], lone) != Escape::Verbatim ==> escaped(all.skip(i), lone) == escape_seq(
            classify(all[i], lone),
            all[i],
        ) + escaped(all.skip(i + 1), lone),
{
    let t = all.skip(i);
    assert(t[0] == all[i]);
    assert(t.skip(1) =~= all.skip(i + 1));
    assert(seq![all[i]] =~= all.subrange(i, i + 1));
}

/// One scan step at an `0xEF` that does not open a marker: it joins the
/// run together with its two continuation bytes.
proof fn lemma_step_ef_verbatim(all: Seq<u8>, lone: bool, i: int)
    requires
        lone,
        0 <= i,
        i + 3 <= all.len(),
        all[i] == 0xEF,
        !(all[i + 1] == 0xBF && all[i + 2] == 0xBD),
    ensures
        escaped(all.skip(i), lone) == all.subrange(i, i + 3) + escaped(all.skip(i + 3), lone),
{
    let t = all.skip(i);
    assert(t[0] == all[i] && t[1] == all[i + 1] && t[2] == all[i + 2]);
    assert(t.skip(3) =~= all.skip(i + 3));
    assert(seq![t[0], t[1], t[2]] =~= all.subrange(i, i + 3));
}

/// One scan step at a marker: the seven bytes resolve to a literal U+FFFD
/// or to `\u` followed by their own hex digits.
proof fn lemma_step_marker(all: Seq<u8>, lone: bool, i: int)
    requires
        lone,
        0 <= i,
        i + 7 <= all.len(),
        all[i] == 0xEF,
        all[i + 1] == 0xBF,
        all[i + 2] == 0xBD,
    ensures
        (all[i + 3] == 0x66 && all[i + 4] == 0x66 && all[i + 5] == 0x66 && all[i + 6] == 0x64)
            ==> escaped(all.skip(i), lone) == seq![0xEFu8, 0xBFu8, 0xBDu8] + escaped(
            all.skip(i + 7),
            lone,
        ),
        !(all[i + 3] == 0x66 && all[i + 4] == 0x66 && all[i + 5] == 0x66 && all[i + 6] == 0x64)
            ==> escaped(all.skip(i), lone) == seq![
            0x5Cu8,
            0x75u8,
            all[i + 3],
            all[i + 4],
            all[i + 5],
            all[i + 6],
        ] + escaped(all.skip(i + 7), lone),
{
    let t = all.skip(i);
    assert(t[0] == all[i] && t[1] == all[i + 1] && t[2] == all[i + 2] && t[3] == all[i + 3] && t[4]
        == all[i + 4] && t[5] == all[i + 5] && t[6] == all[i + 6]);
    assert(t.len() >= 7);
    assert(t.skip(7) =~= all.skip(i + 7));
}

/// Absorbing bytes `[i, j)` into the pending run keeps the scan equation.
proof fn lemma_run_absorb(b: Seq<u8>, all: Seq<u8>, lone: bool, start: int, i: int, j: int, rhs: Seq<u8>)
    requires
        0 <= start <= i <= j <= all.len(),
        b + all.subrange(start, i) + escaped(all.skip(i), lone) == rhs,
        escaped(all.skip(i), lone) == all.subrange(i, j) + escaped(all.skip(j), lone),
    ensures
        b + all.subrange(start, j) + escaped(all.skip(j), lone) == rhs,
{
    assert(all.subrange(start, j) =~= all.subrange(start, i) + all.subrange(i, j));
    assert(b + all.subrange(start, j) + escaped(all.skip(j), lone) =~= b + all.subrange(start, i)
        + escaped(all.skip(i), lone));
}

/// Flushing the run and emitting `chunk` for the bytes `[i, j)` keeps the
/// scan equation, with the new run empty at `j`.
proof fn lemma_run_flush(
    b: Seq<u8>,
    all: Seq<u8>,
    lone: bool,
    start: int,
    i: int,
    j: int,
    chunk: Seq<u8>,
    rhs: Seq<u8>,
)
    requires
        0 <= start <= i <= j <= all.len(),
        b + all.subrange(start, i) + escaped(all.skip(i), lone) == rhs,
        escaped(all.skip(i), lone) == chunk + escaped(all.skip(j), lone),
    ensures
        b + all.subrange(start, i) + chunk + all.subrange(j, j) + escaped(all.skip(j), lone)
            == rhs,
{
    assert(all.subrange(j, j) =~= Seq::<u8>::empty());
    assert(b + all.subrange(start, i) + chunk + all.subrange(j, j) + escaped(all.skip(j), lone)
        =~= b + all.subrange(start, i) + (chunk + escaped(all.skip(j), lone)));
}

/// Write `s` to the buffer as a quoted JSON string literal, escaping with
/// the given classification table. The table decides the mode: when its
/// entry for byte `0xEF` is `Marker`, the lone-surrogate convention is
/// resolved, and the input must carry it well-formed.
#[verifier::rlimit(50)]
pub fn write_str(s: &str, table: &Vec<Escape>, buffer: &mut CodeBuffer)
    requires
        is_escape_table(table@, table_is_lone(table@)),
        table_is_lone(table@) ==> marker_wf(encode_utf8(s@)),
    ensures
        buffer_bytes(*final(buffer)) == buffer_bytes(*old(buffer)) + quoted(
            s@,
            table_is_lone(table@),
        ),
{
    let ghost lone: bool = table_is_lone(table@);
    let ghost all: Seq<u8> = encode_utf8(s@);
    let ghost rhs: Seq<u8> = buffer_bytes(*old(buffer)) + seq![0x22u8] + escaped(all, lone);
    proof {
        vstd::utf8::encode_utf8_valid_utf8(s@);
        lemma_valid_utf8_structure(all);
    }
    let ghost buf0: Seq<u8> = buffer_bytes(*old(buffer));
    print_ascii_byte(buffer, 0x22);
    let bytes: &[u8] = s.as_bytes();
    let mut start: usize = 0;
    let mut index: usize = 0;
    proof {
        assert(all.skip(0) =~= all);
        assert(buffer_bytes(*buffer) + all.subrange(0, 0) + escaped(all, lone) =~= rhs);
    }
    while index < bytes.len()
        invariant
            bytes@ == all,
            all == encode_utf8(s@),
            valid_utf8(all),
            ascii_next(all),
            ef_next(all),
            is_escape_table(table@, lone),
            lone == table_is_lone(table@),
            lone ==> marker_wf(all),
            start <= index && index <= all.len(),
            run_boundary(all, start as int),
            rhs == buf0 + seq![0x22u8] + escaped(all, lone),
            buf0 == buffer_bytes(*old(buffer)),
            buffer_bytes(*buffer) + all.subrange(start as int, index as int) + escaped(
                all.skip(index as int),
                lone,
            ) == rhs,
        decreases all.len() - index,
    {
        let byte: u8 = bytes[index];
        let escape: Escape = table[byte as usize];
        proof {
            assert(escape == classify(byte, lone));
        }
        match escape {
            Escape::Verbatim => {
                proof {
                    lemma_step_one(all, lone, index as int);
                    lemma_run_absorb(
                        buffer_bytes(*buffer),
                        all,
                        lone,
                        start as int,
                        index as int,
                        index as int + 1,
                        rhs,
                    );
                }
                index += 1;
            },
            Escape::Marker => {
                proof {
                    assert(lone && byte == 0xEF);
                    assert(index + 3 <= all.len() && is_continuation_byte(all[index as int + 1])
                        && is_continuation_byte(all[index as int + 2]));
                }
                let next1: u8 = bytes[index + 1];
                let next2: u8 = bytes[index + 2];
                if next1 == 0xBF && next2 == 0xBD {
                    proof {
                        assert(index + 7 <= all.len() && is_hex_digit_byte(all[index as int + 3])
                            && is_hex_digit_byte(all[index as int + 4]) && is_hex_digit_byte(
                            all[index as int + 5],
                        ) && is_hex_digit_byte(all[index as int + 6]));
                        assert(!is_continuation_byte(0xEFu8));
                    }
                    let hex1: u8 = bytes[index + 3];
                    let hex2: u8 = bytes[index + 4];
                    let hex3: u8 = bytes[index + 5];
                    let hex4: u8 = bytes[index + 6];
                    let ghost pre = buffer_bytes(*buffer);
                    print_run(buffer, s, start, index);
                    let ghost flushed = buffer_bytes(*buffer);
                    if hex1 == 0x66 && hex2 == 0x66 && hex3 == 0x66 && hex4 == 0x64 {
                        print_str(buffer, "\u{FFFD}");
                        proof {
                            lemma_replacement_char_bytes();
                            assert(buffer_bytes(*buffer) == flushed + seq![0xEFu8, 0xBFu8, 0xBDu8]);
                            lemma_step_marker(all, lone, index as int);
                            lemma_run_flush(
                                pre,
                                all,
                                lone,
                                start as int,
                                index as int,
                                index as int + 7,
                                seq![0xEFu8, 0xBFu8, 0xBDu8],
                                rhs,
                            );
                        }
                    } else {
                        print_ascii_byte(buffer, 0x5C);
                        print_ascii_byte(buffer, 0x75);
                        print_ascii_byte(buffer, hex1);
                        print_ascii_byte(buffer, hex2);
                        print_ascii_byte(buffer, hex3);
                        print_ascii_byte(buffer, hex4);
                        proof {
                            assert(buffer_bytes(*buffer) =~= flushed + seq![
                                0x5Cu8,
                                0x75u8,
                                hex1,
                                hex2,
                                hex3,
                                hex4,
                            ]);
                            lemma_step_marker(all, lone, index as int);
                            lemma_run_flush(
                                pre,
                                all,
                                lone,
                                start as int,
                                index as int,
                                index as int + 7,
                                seq![0x5Cu8, 0x75u8, hex1, hex2, hex3, hex4],
                                rhs,
                            );
                        }
                    }
                    proof {
                        // the four hex digits are ASCII, so the byte after
                        // them starts a fresh encoding
                        assert(all[index as int + 6] < 0x80);
                        assert(run_boundary(all, index as int + 7));
                        assert(buffer_bytes(*buffer) + all.subrange(
                            index as int + 7,
                            index as int + 7,
                        ) + escaped(all.skip(index as int + 7), lone) == rhs);
                    }
                    index += 7;
                    start = index;
                } else {
                    proof {
                        lemma_step_ef_verbatim(all, lone, index as int);
                        lemma_run_absorb(
                            buffer_bytes(*buffer),
                            all,
                            lone,
                            start as int,
                            index as int,
                            index as int + 3,
                            rhs,
                        );
                    }
                    index += 3;
                }
            },
            _ => {
                proof {
                    assert(named_or_unicode(escape, byte));
                    assert(all[index as int] < 0x80);
                    assert(!is_continuation_byte(byte));
                }
                let ghost pre = buffer_bytes(*buffer);
                if start < index {
                    print_run(buffer, s, start, index);
                } else {
                    proof {
                        assert(all.subrange(start as int, index as int) =~= Seq::<u8>::empty());
                        assert(buffer_bytes(*buffer) =~= pre + all.subrange(
                            start as int,
                            index as int,
                        ));
                    }
                }
                write_char_escape(escape, byte, buffer);
                proof {
                    lemma_step_one(all, lone, index as int);
                    lemma_run_flush(
                        pre,
                        all,
                        lone,
                        start as int,
                        index as int,
                        index as int + 1,
                        escape_seq(escape, byte),
                        rhs,
                    );
                    assert(run_boundary(all, index as int + 1));
                    assert(buffer_bytes(*buffer) + all.subrange(
                        index as int + 1,
                        index as int + 1,
                    ) + escaped(all.skip(index as int + 1), lone) == rhs);
                }
                index += 1;
                start = index;
            },
        }
    }
    if start < bytes.len() {
        print_run(buffer, s, start, bytes.len());
    }
    print_ascii_byte(buffer, 0x22);
    proof {
        assert(all.skip(all.len() as int) =~= Seq::<u8>::empty());
        assert(buffer_bytes(*buffer) =~= buf0 + quoted(s@, lone));
    }
}

/// The three-byte UTF-8 encoding of the replacement character U+FFFD.
proof fn lemma_replacement_char_bytes()
    ensures
        encode_utf8("\u{FFFD}"@) == seq![0xEFu8, 0xBFu8, 0xBDu8],
{
    broadcast use vstd::utf8::char_is_scalar;

    reveal_strlit("\u{FFFD}");
    let chars = "\u{FFFD}"@;
    assert(chars.len() == 1);
    assert(chars[0] == '\u{FFFD}');
    assert('\u{FFFD}' as u32 == 0xFFFD);
    assert((0xFFFDu32 >> 12) & 0x0F == 0x0F && (0xFFFDu32 >> 6) & 0x3F == 0x3F && 0xFFFDu32 & 0x3F
        == 0x3D) by (bit_vector);
    assert(0xE0u8 | 0x0Fu8 == 0xEFu8 && 0x80u8 | 0x3Fu8 == 0xBFu8 && 0x80u8 | 0x3Du8 == 0xBDu8)
        by (bit_vector);
    assert(vstd::utf8::encode_scalar(0xFFFD) =~= seq![0xEFu8, 0xBFu8, 0xBDu8]);
    assert(chars.drop_first() =~= Seq::<char>::empty());
    assert(encode_utf8(chars) =~= vstd::utf8::encode_scalar(0xFFFD) + encode_utf8(
        Seq::<char>::empty(),
    ));
    assert(encode_utf8(chars) =~= seq![0xEFu8, 0xBFu8, 0xBDu8]);
}

/// A string which does not need any escaping in JSON.
///
/// This serializes faster, as the bytes are copied with no scanning at all.
/// If the string does in fact contain characters that need escaping, the
/// output is invalid JSON: asserting otherwise is the caller's
/// responsibility, by contract rather than by a runtime check.
pub struct JsonSafeString<'s>(pub &'s str);

impl<'s> JsonSafeString<'s> {
    /// Write the string between quotes, verbatim.
    pub fn serialize(&self, buffer: &mut CodeBuffer)
        ensures
            buffer_bytes(*final(buffer)) == buffer_bytes(*old(buffer)) + seq![0x22u8]
                + encode_utf8(self.0@) + seq![0x22u8],
    {
        print_ascii_byte(buffer, 0x22);
        print_str(buffer, self.0);
        print_ascii_byte(buffer, 0x22);
        proof {
            assert(buffer_bytes(*buffer) =~= buffer_bytes(*old(buffer)) + seq![0x22u8]
                + encode_utf8(self.0@) + seq![0x22u8]);
        }
    }
}

/// A string which may contain lone surrogates encoded with the lossy
/// replacement character (U+FFFD).
///
/// A lone surrogate is held in the string as U+FFFD followed by the code
/// unit's four hex digits, and comes out as `\uXXXX`; an actual replacement
/// character is held as U+FFFD followed by `fffd`, and comes out as itself.
pub struct LoneSurrogatesString<'s>(pub &'s str);

impl<'s> LoneSurrogatesString<'s> {
    /// Write the string as a JSON literal, resolving the lone-surrogate
    /// convention.
    pub fn serialize(&self, buffer: &mut CodeBuffer)
        requires
            marker_wf(encode_utf8(self.0@)),
        ensures
            buffer_bytes(*final(buffer)) == buffer_bytes(*old(buffer)) + quoted(self.0@, true),
    {
        let table: Vec<Escape> = create_table(Escape::Marker);
        proof {
            assert(table_is_lone(table@));
            assert forall|i: int| 0 <= i < 256 implies table@[i] == classify(i as u8, true) by {}
        }
        write_str(self.0, &table, buffer);
    }
}

/// The marker condition at one position: if the three-byte encoding of
/// U+FFFD starts here, four ASCII hex digits follow.
pub open spec fn marker_ok_at(bytes: Seq<u8>, i: int) -> bool {
    (0 <= i && i + 3 <= bytes.len() && bytes[i] == 0xEF && bytes[i + 1] == 0xBF && bytes[i + 2]
        == 0xBD) ==> (i + 7 <= bytes.len() && is_hex_digit_byte(bytes[i + 3])
        && is_hex_digit_byte(bytes[i + 4]) && is_hex_digit_byte(bytes[i + 5])
        && is_hex_digit_byte(bytes[i + 6]))
}

/// Whether `b` is an ASCII hex digit, either case.
fn is_hex_digit(b: u8) -> (r: bool)
    ensures
        r == is_hex_digit_byte(b),
{
    (0x30 <= b && b <= 0x39) || (0x61 <= b && b <= 0x66) || (0x41 <= b && b <= 0x46)
}

/// Decide whether a string carries the lone-surrogate convention
/// well-formed, so that `LoneSurrogatesString::serialize` accepts it.
pub fn marker_wf_check(s: &str) -> (ok: bool)
    ensures
        ok == marker_wf(encode_utf8(s@)),
{
    let ghost all = encode_utf8(s@);
    let bytes: &[u8] = s.as_bytes();
    let mut i: usize = 0;
    while i < bytes.len()
        invariant
            all == encode_utf8(s@),
            bytes@ == all,
            i <= all.len(),
            forall|j: int| 0 <= j < i ==> #[trigger] marker_ok_at(all, j),
        decreases all.len() - i,
    {
        if bytes[i] == 0xEF && bytes.len() - i >= 3 && bytes[i + 1] == 0xBF && bytes[i + 2]
            == 0xBD {
            let bad: bool = bytes.len() - i < 7 || !is_hex_digit(bytes[i + 3]) || !is_hex_digit(
                bytes[i + 4],
            ) || !is_hex_digit(bytes[i + 5]) || !is_hex_digit(bytes[i + 6]);
            if bad {
                proof {
                    assert(all[i as int] == 0xEF && all[i as int + 1] == 0xBF && all[i as int + 2]
                        == 0xBD && i as int + 3 <= all.len());
                    if marker_wf(all) {
                        assert(i as int + 7 <= all.len() && is_hex_digit_byte(all[i as int + 3])
                            && is_hex_digit_byte(all[i as int + 4]) && is_hex_digit_byte(
                            all[i as int + 5],
                        ) && is_hex_digit_byte(all[i as int + 6]));
                        assert(false);
                    }
                }
                return false;
            }
        }
        proof {
            assert(marker_ok_at(all, i as int));
        }
        i += 1;
    }
    proof {
        assert(marker_wf(all)) by {
            assert forall|k: int|
                0 <= k && k + 3 <= all.len() && #[trigger] all[k] == 0xEF && all[k + 1] == 0xBF
                    && all[k + 2] == 0xBD implies k + 7 <= all.len() && is_hex_digit_byte(
                all[k + 3],
            ) && is_hex_digit_byte(all[k + 4]) && is_hex_digit_byte(all[k + 5])
                && is_hex_digit_byte(all[k + 6]) by {
                assert(marker_ok_at(all, k));
            }
        }
    }
    true
}

/// Write a string slice as a JSON literal, standard mode.
pub fn serialize_str(s: &str, buffer: &mut CodeBuffer)
    ensures
        buffer_bytes(*final(buffer)) == buffer_bytes(*old(buffer)) + quoted(s@, false),
{
    let table: Vec<Escape> = create_table(Escape::Verbatim);
    proof {
        assert(!table_is_lone(table@));
        assert forall|i: int| 0 <= i < 256 implies table@[i] == classify(i as u8, false) by {}
    }
    write_str(s, &table, buffer);
}

/// Write an owned string as a JSON literal, standard mode.
pub fn serialize_string(s: &String, buffer: &mut CodeBuffer)
    ensures
        buffer_bytes(*final(buffer)) == buffer_bytes(*old(buffer)) + quoted(s@, false),
{
    serialize_str(s.as_str(), buffer);
}

} // verus!
