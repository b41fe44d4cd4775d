//! JSON values: numbers kept exactly, and both written forms.

use taska::display::{emit, OutputArgs, OutputFormat};
use taska::json::{
    compact_text, json_of, parse_json, same_json, value_of, Json, JsonNumber, NumberKind,
};

fn kind(text: &str) -> NumberKind {
    match parse_json(text) {
        Some(Json::Num(n)) => n.kind(),
        _ => panic!("{text} is a number"),
    }
}

#[test]
fn numbers_are_told_apart_by_sign_and_fraction() {
    assert!(matches!(kind("7"), NumberKind::Pos(7)));
    assert!(matches!(kind("18446744073709551615"), NumberKind::Pos(u64::MAX)));
    assert!(matches!(kind("-7"), NumberKind::Neg(-7)));
    assert!(matches!(kind("1.5"), NumberKind::Float(bits) if bits == 1.5f64.to_bits()));
    assert!(matches!(kind("1e3"), NumberKind::Float(bits) if bits == 1000f64.to_bits()));
    assert!(matches!(JsonNumber::from_u64(12).kind(), NumberKind::Pos(12)));
}

#[test]
fn values_are_written_as_they_were_read() {
    for text in [
        "null",
        "true",
        "-0.0",
        "0.1",
        "1e300",
        "-9223372036854775808",
        "\"a \\\"b\\\" \\n\"",
        "[1,[2.5,null],{}]",
        "{\"a\":{\"b\":[1,2]},\"c\":\"d\"}",
    ] {
        let v = parse_json(text).unwrap();
        let outside: serde_json::Value = serde_json::from_str(text).unwrap();
        assert_eq!(compact_text(&v), outside.to_string());
        assert_eq!(value_of(&v), outside, "{text}");
        assert!(same_json(&json_of(outside), &v), "{text}");
    }
    assert!(parse_json("{\"a\":}").is_none());
    assert!(parse_json("").is_none());
}

#[test]
fn a_value_is_printed_indented_or_on_a_line() {
    let v = parse_json("{\"a\":[1,2.5],\"b\":{}}").unwrap();
    let out = |format: OutputFormat| emit(&OutputArgs { format, no_color: true }, "text", &v);
    assert_eq!(out(OutputFormat::Human), ["text"]);
    assert_eq!(
        out(OutputFormat::Json),
        ["{\n  \"a\": [\n    1,\n    2.5\n  ],\n  \"b\": {}\n}"]
    );
    assert_eq!(out(OutputFormat::Jsonl), ["{\"a\":[1,2.5],\"b\":{}}"]);
}
