//! Positional facts about valid UTF-8 byte sequences.
//!
//! The byte-scanning writer walks a string's bytes by index. The facts here
//! restate vstd's scalar-by-scalar UTF-8 model as per-position statements the
//! scan can use directly: an ASCII byte is never followed by a continuation
//! byte, and byte `0xEF` always leads a three-byte encoding.

use vstd::prelude::*;
use vstd::utf8::is_continuation_byte;
use vstd::utf8::is_leading_byte_width_1;
use vstd::utf8::is_leading_byte_width_2;
use vstd::utf8::is_leading_byte_width_3;
use vstd::utf8::is_leading_byte_width_4;
use vstd::utf8::length_of_first_scalar;
use vstd::utf8::pop_first_scalar;
use vstd::utf8::valid_utf8;

verus! {

/// Every ASCII byte ends the text or is followed by a non-continuation byte.
pub open spec fn ascii_next(bytes: Seq<u8>) -> bool {
    forall|i: int|
        0 <= i < bytes.len() && #[trigger] bytes[i] < 0x80 ==> i + 1 == bytes.len()
            || !is_continuation_byte(bytes[i + 1])
}

/// Byte `0xEF` only occurs with two continuation bytes after it.
pub open spec fn ef_next(bytes: Seq<u8>) -> bool {
    forall|i: int|
        0 <= i < bytes.len() && #[trigger] bytes[i] == 0xEF ==> i + 3 <= bytes.len()
            && is_continuation_byte(bytes[i + 1]) && is_continuation_byte(bytes[i + 2])
}

/// An index where a verbatim run may start or stop: the start of the text,
/// its end, or any position not inside a multi-byte encoding.
pub open spec fn run_boundary(bytes: Seq<u8>, i: int) -> bool {
    i == 0 || i == bytes.len() || !is_continuation_byte(bytes[i])
}

/// Valid UTF-8 never puts a continuation byte after an ASCII byte, and only
/// uses `0xEF` to lead a three-byte encoding.
pub proof fn lemma_valid_utf8_structure(bytes: Seq<u8>)
    requires
        valid_utf8(bytes),
    ensures
        ascii_next(bytes),
        ef_next(bytes),
        bytes.len() > 0 ==> !is_continuation_byte(bytes[0]),
    decreases bytes.len(),
{
    if bytes.len() > 0 {
        let k = length_of_first_scalar(bytes);
        let tail = pop_first_scalar(bytes);
        assert(1 <= k <= 4 && k <= bytes.len());
        assert(tail =~= bytes.subrange(k, bytes.len() as int));
        lemma_valid_utf8_structure(tail);
        assert(!is_continuation_byte(bytes[0])) by {
            assert(is_leading_byte_width_1(bytes[0]) || is_leading_byte_width_2(bytes[0])
                || is_leading_byte_width_3(bytes[0]) || is_leading_byte_width_4(bytes[0]));
        }
        assert forall|i: int| 0 <= i < bytes.len() && #[trigger] bytes[i] < 0x80 implies i + 1
            == bytes.len() || !is_continuation_byte(bytes[i + 1]) by {
            if i < k {
                // ASCII can only be a width-1 leading byte, so k == 1 and i == 0.
                assert(i == 0 && k == 1);
                if bytes.len() > 1 {
                    assert(tail[0] == bytes[1]);
                    assert(!is_continuation_byte(tail[0]));
                }
            } else {
                assert(tail[i - k] == bytes[i]);
                assert(ascii_next(tail));
                if i + 1 < bytes.len() {
                    assert(tail[i - k + 1] == bytes[i + 1]);
                }
            }
        }
        assert forall|i: int| 0 <= i < bytes.len() && #[trigger] bytes[i] == 0xEF implies i + 3
            <= bytes.len() && is_continuation_byte(bytes[i + 1]) && is_continuation_byte(
            bytes[i + 2],
        ) by {
            if i < k {
                // 0xEF is neither ASCII nor a continuation byte, so it can
                // only stand first, as a width-3 leading byte.
                assert(i == 0 && k == 3);
                assert(is_continuation_byte(bytes[1]) && is_continuation_byte(bytes[2]));
            } else {
                assert(tail[i - k] == bytes[i]);
                assert(ef_next(tail));
                assert(tail[i - k + 1] == bytes[i + 1]);
                assert(tail[i - k + 2] == bytes[i + 2]);
            }
        }
    }
}

} // verus!
