//! Numbers, hexadecimal bytes and JSON text.

use mmap_chunker_core::document::{Doc, Style};
use mmap_chunker_core::error::{ErrorKind, SourceError};
use mmap_chunker_core::json::Json;
use mmap_chunker_core::text::{chars_of, decimal, decode_hex, parse_unsigned, push_hex, text_of};

#[test]
fn decimals_round_trip() {
    for value in [0u128, 7, 10, 12345, u128::from(u64::MAX), u128::MAX] {
        let text = decimal(value);
        assert_eq!(text, value.to_string());
        assert_eq!(parse_unsigned(&chars_of(&text), u128::MAX), Some(value));
    }
    let read = |text: &str, max: u128| parse_unsigned(&chars_of(text), max);
    assert_eq!(read("+5", 9), Some(5));
    assert_eq!(read("0005", 9), Some(5));
    assert_eq!(read("10", 9), None);
    assert_eq!(read("+", 9), None);
    assert_eq!(read("", 9), None);
    assert_eq!(read("-1", 9), None);
    assert_eq!(read("340282366920938463463374607431768211456", u128::MAX), None);
}

#[test]
fn hexadecimal_bytes_round_trip() {
    let bytes: Vec<u8> = (0..=255).collect();
    let mut text = String::new();
    push_hex(&mut text, &bytes);
    assert_eq!(text.len(), 512);
    assert!(text.starts_with("000102"));
    assert!(text.ends_with("fdfeff"));
    assert_eq!(decode_hex(&text), Some(bytes.clone()));
    assert_eq!(decode_hex(&text.to_uppercase()), Some(bytes));
    assert_eq!(decode_hex("0"), None);
    assert_eq!(decode_hex("0g"), None);
    assert_eq!(decode_hex("+f"), Some(vec![15]));
    assert_eq!(decode_hex("f+"), None);
    assert_eq!(decode_hex("\u{e9}"), None);
    assert_eq!(decode_hex(""), Some(Vec::new()));
}

#[test]
fn characters_round_trip() {
    let text = "a\u{e9}\u{1f600}\n";
    assert_eq!(text_of(&chars_of(text)), text);
}

fn sample() -> Doc {
    Doc::Object(
        Style::Block(0),
        vec![
            ("name".to_owned(), Doc::Text("a\"b\\\n\u{1}\u{e9}".to_owned())),
            ("none".to_owned(), Doc::Null),
            (
                "list".to_owned(),
                Doc::Array(
                    Style::Inline,
                    vec![Doc::Number(1), Doc::Bool(true), Doc::Number(u128::MAX)],
                ),
            ),
            ("empty".to_owned(), Doc::Array(Style::Block(2), Vec::new())),
        ],
    )
}

#[test]
fn documents_round_trip() {
    let text = sample().to_text();
    let value = Json::parse(&text).unwrap();
    assert_eq!(value.get("name").unwrap().as_str(), Some("a\"b\\\n\u{1}\u{e9}"));
    assert_eq!(value.get("none"), Some(&Json::Null));
    let list = value.get("list").unwrap().as_array().unwrap();
    assert_eq!(list.len(), 3);
    assert_eq!(list[0].as_u64(), Some(1));
    assert_eq!(list[1].as_bool(), Some(true));
    assert_eq!(list[2].as_u128(), Some(u128::MAX));
    assert_eq!(list[2].as_u64(), None);
    assert!(value.get("empty").unwrap().as_array().unwrap().is_empty());
    assert!(value.get("other").is_none());
}

#[test]
fn texts_are_escaped() {
    let text = Doc::Text("a\"b\\\n\r\t\u{1}\u{e9}".to_owned()).to_text();
    assert!(text.starts_with("\"a\\\"b\\\\\\n\\r\\t\\u0001\u{e9}\""));
}

#[test]
fn json_errors_tell_where() {
    let error = Json::parse("[1,]").unwrap_err();
    assert!(error.to_string().starts_with("invalid JSON at byte "));
    assert_eq!(error.position, 3);
    let error = Json::parse("{} x").unwrap_err();
    assert_eq!(error.position, 3);
    assert_eq!(error.message, "trailing data after JSON value");
}

#[test]
fn surrogates_must_come_in_pairs() {
    assert_eq!(
        Json::parse("\"\\ud83d\\ude00\"").unwrap().as_str(),
        Some("\u{1f600}")
    );
    assert!(Json::parse("\"\\ud83d\"").is_err());
    assert!(Json::parse("\"\\ude00\"").is_err());
    assert!(Json::parse("\"\\ud83d\\u0041\"").is_err());
}

#[test]
fn errors_have_kinds_and_messages() {
    let cases = vec![
        (SourceError::EmptyDelimiter, ErrorKind::InvalidInput),
        (SourceError::ZeroRecordBytes, ErrorKind::InvalidInput),
        (SourceError::PrefixWidth, ErrorKind::InvalidInput),
        (SourceError::ZeroStride, ErrorKind::InvalidInput),
        (SourceError::TruncatedPrefix, ErrorKind::InvalidData),
        (SourceError::PrefixTooSmall, ErrorKind::InvalidData),
        (SourceError::RecordLengthOverflow, ErrorKind::InvalidData),
        (SourceError::RecordExceedsFile, ErrorKind::InvalidData),
        (SourceError::ChangedWhilePlanning, ErrorKind::Other),
        (SourceError::ChangedWhileIndexing, ErrorKind::Other),
        (SourceError::IdentityMismatch, ErrorKind::Other),
        (
            SourceError::Read {
                kind: ErrorKind::PermissionDenied,
                message: "no".to_owned(),
            },
            ErrorKind::PermissionDenied,
        ),
    ];
    for (error, kind) in cases {
        assert_eq!(error.kind(), kind);
        assert!(!error.message().is_empty());
    }
    assert_eq!(
        SourceError::EmptyDelimiter.message(),
        "delimiter must not be empty"
    );
}
