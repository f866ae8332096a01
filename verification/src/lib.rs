//! JSON string-literal serialization for AST interchange.
//!
//! Text is written into an append-only byte sink as a double-quoted JSON
//! string literal. A byte-scanning writer copies runs of bytes that need no
//! escaping verbatim, emits the minimal JSON escapes for control characters,
//! quotes and backslashes, and, in lone-surrogate mode, resolves an internal
//! seven-byte convention (U+FFFD followed by four hex digits) into either a
//! literal replacement character or a `\uXXXX` escape.

pub mod laws;
pub mod sink;
pub mod strings;
pub mod table;
pub mod utf8_facts;

pub use strings::marker_wf_check;
pub use strings::serialize_str;
pub use strings::serialize_string;
pub use strings::write_char_escape;
pub use strings::write_str;
pub use strings::JsonSafeString;
pub use strings::LoneSurrogatesString;
pub use table::create_table;
pub use table::to_bytes;
pub use table::Escape;
