//! The JSON reader.

use mmap_chunker_core::json::{Json, MAX_DEPTH};

#[test]
fn parses_nested_values() {
    let value = Json::parse(
        r#"{"a": [1, 2.5, -3e2, true, false, null], "b": {"c": "x\u0041\u00e9\ud83d\ude00"}}"#,
    )
    .unwrap();

    assert_eq!(value.get("a").unwrap().as_array().unwrap().len(), 6);
    assert_eq!(
        value.get("a").unwrap().as_array().unwrap()[0].as_u64(),
        Some(1)
    );
    assert_eq!(
        value.get("a").unwrap().as_array().unwrap()[1].as_u64(),
        None
    );
    assert_eq!(
        value.get("a").unwrap().as_array().unwrap()[3].as_bool(),
        Some(true)
    );
    assert_eq!(
        value.get("b").unwrap().get("c").unwrap().as_str(),
        Some("xA\u{e9}\u{1f600}")
    );
}

#[test]
fn large_integers_round_trip_as_text() {
    let value =
        Json::parse(r#"{"mtime": 1790008126888781900, "offset": 18446744073709551615}"#)
            .unwrap();
    assert_eq!(
        value.get("mtime").unwrap().as_u128(),
        Some(1_790_008_126_888_781_900)
    );
    assert_eq!(value.get("offset").unwrap().as_u64(), Some(u64::MAX));
}

#[test]
fn rejects_malformed_documents() {
    let cases = [
        "",
        "{",
        "{\"a\":}",
        "{\"a\" 1}",
        "[1,]",
        "{\"a\":1,}",
        "tru",
        "01",
        "1.",
        "1e",
        "\"unterminated",
        "\"bad\\xescape\"",
        "{} trailing",
    ];
    for case in cases {
        assert!(
            Json::parse(case).is_err(),
            "case unexpectedly parsed: {case}"
        );
    }
}

#[test]
fn rejects_excessive_nesting() {
    let depth = MAX_DEPTH + 2;
    let document = format!("{}0{}", "[".repeat(depth), "]".repeat(depth));
    assert!(Json::parse(&document).is_err());
}

#[test]
fn rejects_unescaped_control_characters() {
    assert!(Json::parse("\"line\nbreak\"").is_err());
}

#[test]
fn parsed_numbers_have_no_plus_sign() {
    assert!(Json::parse("+1").is_err());
    assert!(Json::parse("[+1]").is_err());
    let value = Json::parse(r#"[0, 7, 18446744073709551616, -1, 1.0, 1e+2]"#).unwrap();
    let items = value.as_array().unwrap();
    let expected: [Option<u128>; 6] = [
        Some(0),
        Some(7),
        Some(18_446_744_073_709_551_616),
        None,
        None,
        None,
    ];
    for (item, number) in items.iter().zip(expected) {
        assert_eq!(item.as_u128(), number);
        let small = number.and_then(|n| u64::try_from(n).ok());
        assert_eq!(item.as_u64(), small);
    }
}

#[test]
fn white_space_between_tokens_is_overlooked() {
    let tight = r#"{"a b":[1,-2.5e+3,true,null," \" A "],"c":{},"d":[]}"#;
    let loose = " {\n\"a b\" :\t[ 1 ,\r\n-2.5e+3 , true,null , \" \\\" \\u0041 \" ] , \
                 \"c\": { } ,\"d\" :[ ] } \n";
    assert_eq!(Json::parse(tight).unwrap(), Json::parse(loose).unwrap());
    assert!(Json::parse("[1 2]").is_err());
    assert!(Json::parse("[12]").is_ok());
}
