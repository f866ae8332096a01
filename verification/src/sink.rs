//! The output sink: an append-only, amortized-growth byte buffer owned by
//! the caller. The buffer itself comes from the `oxc_data_structures` crate;
//! its contents are modeled as the sequence of bytes appended so far.

use oxc_data_structures::code_buffer::CodeBuffer;
use vstd::prelude::*;
use vstd::utf8::encode_utf8;

verus! {

/// Declares `oxc_data_structures::code_buffer::CodeBuffer`, the append-only
/// byte buffer the serializer writes into, as an opaque outside type.
#[verifier::external_type_specification]
#[verifier::external_body]
pub struct ExCodeBuffer(CodeBuffer);

/// The bytes held by a `CodeBuffer`.
pub uninterp spec fn buffer_bytes(buffer: CodeBuffer) -> Seq<u8>;

/// Relies on `CodeBuffer::print_ascii_byte`: appends the byte to the buffer;
/// panics when the byte is not ASCII, so that input is excluded here.
#[verifier::external_body]
pub(crate) fn print_ascii_byte(buffer: &mut CodeBuffer, byte: u8)
    requires
        byte < 0x80,
    ensures
        buffer_bytes(*final(buffer)) == buffer_bytes(*old(buffer)).push(byte),
{
    buffer.print_ascii_byte(byte);
}

/// Relies on `CodeBuffer::print_str`: appends the string's UTF-8 bytes to
/// the buffer.
#[verifier::external_body]
pub(crate) fn print_str(buffer: &mut CodeBuffer, s: &str)
    ensures
        buffer_bytes(*final(buffer)) == buffer_bytes(*old(buffer)) + encode_utf8(s@),
{
    buffer.print_str(s);
}

} // verus!
