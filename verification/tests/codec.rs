//! The plugin-argument codec: exact round trips for representative
//! argument shapes, and rejection of malformed input.

use rustc_plugin::args::deserialize;
use rustc_plugin::args::ArgsValue;

fn round_trip(v: ArgsValue) -> ArgsValue {
    let encoded = v.serialize();
    deserialize(encoded.as_str()).expect("a serialization must decode")
}

#[test]
fn flags_round_trip() {
    assert_eq!(round_trip(ArgsValue::Flag(true)), ArgsValue::Flag(true));
    assert_eq!(round_trip(ArgsValue::Flag(false)), ArgsValue::Flag(false));
}

#[test]
fn strings_round_trip() {
    for s in ["", "hello", "with space", "quote\" and \\ backslash", "[t]\"f\""] {
        let v = ArgsValue::Text(String::from(s));
        assert_eq!(round_trip(v), ArgsValue::Text(String::from(s)));
    }
}

#[test]
fn nested_lists_round_trip() {
    let v = ArgsValue::List(vec![
        ArgsValue::Flag(true),
        ArgsValue::Text(String::from("--target-dir")),
        ArgsValue::List(vec![]),
        ArgsValue::List(vec![
            ArgsValue::Text(String::from("a\\b\"c")),
            ArgsValue::Flag(false),
        ]),
    ]);
    let encoded = v.serialize();
    assert_eq!(deserialize(encoded.as_str()), Some(v));
}

#[test]
fn wire_format_is_stable() {
    let v = ArgsValue::List(vec![
        ArgsValue::Flag(true),
        ArgsValue::Text(String::from("a\"b")),
    ]);
    assert_eq!(v.serialize(), "[t\"a\\\"b\"]");
}

#[test]
fn malformed_input_is_rejected() {
    for s in [
        "",            // nothing
        "x",           // unknown opener
        "tt",          // trailing garbage
        "\"abc",       // unterminated string
        "\"a\\xb\"",   // invalid escape
        "[t",          // unterminated list
        "]",           // bare closer
        "[t]f",        // trailing after list
    ] {
        assert_eq!(deserialize(s), None, "input {s:?} must be rejected");
    }
}
