use estree_strings::create_table;
use estree_strings::serialize_str;
use estree_strings::to_bytes;
use estree_strings::Escape;
use oxc_data_structures::code_buffer::CodeBuffer;

#[test]
fn table_named_and_generic_entries() {
    let plain = create_table(Escape::Verbatim);
    assert!(plain.len() == 256);
    assert!(plain[0x08] == Escape::Named(b'b'));
    assert!(plain[0x09] == Escape::Named(b't'));
    assert!(plain[0x0A] == Escape::Named(b'n'));
    assert!(plain[0x0C] == Escape::Named(b'f'));
    assert!(plain[0x0D] == Escape::Named(b'r'));
    assert!(plain[0x22] == Escape::Named(b'"'));
    assert!(plain[0x5C] == Escape::Named(b'\\'));
    assert!(plain[0x0B] == Escape::Unicode);
    assert!(plain[0x1F] == Escape::Unicode);
    assert!(plain[0x20] == Escape::Verbatim);
    assert!(plain[0x7F] == Escape::Verbatim);
    assert!(plain[0xEF] == Escape::Verbatim);
    assert!(plain[0xFF] == Escape::Verbatim);
}

#[test]
fn tables_differ_only_at_marker_byte() {
    let plain = create_table(Escape::Verbatim);
    let lone = create_table(Escape::Marker);
    assert!(lone[0xEF] == Escape::Marker);
    for i in 0..256 {
        if i != 0xEF {
            assert!(lone[i] == plain[i]);
        }
    }
}

#[test]
fn to_bytes_encodings() {
    assert_eq!(to_bytes('a'), vec![0x61]);
    assert_eq!(to_bytes('\u{E9}'), vec![0xC3, 0xA9]);
    assert_eq!(to_bytes('\u{FFFD}'), vec![0xEF, 0xBF, 0xBD]);
    assert_eq!(to_bytes('\u{1D11E}'), vec![0xF0, 0x9D, 0x84, 0x9E]);
}

/// Standard JSON string-literal decoding, without surrogate-pair handling:
/// enough to read back everything the standard mode emits.
fn decode_json_string(literal: &str) -> String {
    let bytes = literal.as_bytes();
    assert_eq!(bytes[0], b'"');
    assert_eq!(bytes[bytes.len() - 1], b'"');
    let inner = &literal[1..literal.len() - 1];
    let mut out = String::new();
    let mut chars = inner.chars();
    while let Some(c) = chars.next() {
        if c == '\\' {
            match chars.next().unwrap() {
                'n' => out.push('\n'),
                't' => out.push('\t'),
                'b' => out.push('\u{8}'),
                'f' => out.push('\u{C}'),
                'r' => out.push('\r'),
                '"' => out.push('"'),
                '\\' => out.push('\\'),
                'u' => {
                    let mut v: u32 = 0;
                    for _ in 0..4 {
                        v = v * 16 + chars.next().unwrap().to_digit(16).unwrap();
                    }
                    out.push(char::from_u32(v).unwrap());
                }
                other => panic!("unexpected escape {other}"),
            }
        } else {
            out.push(c);
        }
    }
    out
}

#[test]
fn round_trip_standard_mode() {
    let cases = [
        "",
        "foobar",
        "foo\nbar",
        "\x00\x01\x02\x03\x04\x05\x06\x07\x08\x09\x0A\x0B\x0C\x0D\x0E\x0F",
        "\x10\x11\x12\x13\x14\x15\x16\x17\x18\x19\x1A\x1B\x1C\x1D\x1E\x1F",
        r#"They call me "Bob" but I prefer "Dennis", innit?"#,
        "back\\slash and \"quote\"",
        "caf\u{E9} \u{FFFD} \u{1D11E} \u{FEFF}",
    ];
    for input in cases {
        let mut buffer = CodeBuffer::new();
        serialize_str(input, &mut buffer);
        let literal = buffer.into_string();
        assert_eq!(decode_json_string(&literal), input);
    }
}

#[test]
fn write_str_with_chosen_table() {
    let plain = create_table(Escape::Verbatim);
    let lone = create_table(Escape::Marker);
    let mut buffer = CodeBuffer::new();
    estree_strings::write_str("a\u{FFFD}d834b", &plain, &mut buffer);
    assert_eq!(buffer.into_string(), "\"a\u{FFFD}d834b\"");
    let mut buffer = CodeBuffer::new();
    estree_strings::write_str("a\u{FFFD}d834b", &lone, &mut buffer);
    assert_eq!(buffer.into_string(), r#""a\ud834b""#);
}

#[test]
fn write_char_escape_sequences() {
    let mut buffer = CodeBuffer::new();
    estree_strings::write_char_escape(Escape::Named(b'n'), 0x0A, &mut buffer);
    assert_eq!(buffer.into_string(), r#"\n"#);
    let mut buffer = CodeBuffer::new();
    estree_strings::write_char_escape(Escape::Unicode, 0x1F, &mut buffer);
    assert_eq!(buffer.into_string(), r#"\u001f"#);
}

#[test]
fn marker_wf_check_accepts_and_rejects() {
    assert!(estree_strings::marker_wf_check("plain text, no marker"));
    assert!(estree_strings::marker_wf_check("\u{FFFD}fffd"));
    assert!(estree_strings::marker_wf_check("_x_\u{FFFD}d834_y_\u{FFFD}d835_z_"));
    assert!(estree_strings::marker_wf_check("\u{FFFD}D834"));
    // truncated marker: fewer than four bytes after the replacement character
    assert!(!estree_strings::marker_wf_check("\u{FFFD}ff"));
    assert!(!estree_strings::marker_wf_check("tail\u{FFFD}"));
    // digits that are not hex
    assert!(!estree_strings::marker_wf_check("\u{FFFD}d8g4"));
}
