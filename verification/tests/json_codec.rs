//! The JSON codec: canonical encoding and decode round trips.

use mqtt_bridge::json::decode_json;
use mqtt_bridge::json::encode_value;
use mqtt_bridge::json::JsonValue;

fn b(s: &str) -> Vec<u8> {
    s.as_bytes().to_vec()
}

fn roundtrip(v: JsonValue) -> JsonValue {
    let text = encode_value(&v);
    decode_json(&text).expect("canonical text must decode")
}

fn obj(members: Vec<(&str, JsonValue)>) -> JsonValue {
    JsonValue::Obj(members.into_iter().map(|(k, v)| (b(k), v)).collect())
}

#[test]
fn encodes_leaves_canonically() {
    assert_eq!(encode_value(&JsonValue::Null), b("null"));
    assert_eq!(encode_value(&JsonValue::Bool(true)), b("true"));
    assert_eq!(encode_value(&JsonValue::Bool(false)), b("false"));
    assert_eq!(encode_value(&JsonValue::Int(0)), b("0"));
    assert_eq!(encode_value(&JsonValue::Int(1883)), b("1883"));
    assert_eq!(
        encode_value(&JsonValue::Int(u64::MAX)),
        b("18446744073709551615")
    );
    assert_eq!(encode_value(&JsonValue::Str(b("a/b"))), b("\"a/b\""));
}

#[test]
fn escapes_quotes_backslashes_and_controls() {
    let v = JsonValue::Str(vec![34, 92, 10, 9, 1, 65]);
    let text = encode_value(&v);
    assert_eq!(text, b("\"\\\"\\\\\\u000a\\u0009\\u0001A\""));
    match roundtrip(v) {
        JsonValue::Str(s) => assert_eq!(s, vec![34, 92, 10, 9, 1, 65]),
        _ => panic!("expected a string"),
    }
}

#[test]
fn round_trips_raw_bytes_in_strings() {
    // any byte string survives, including bytes outside ASCII
    let raw: Vec<u8> = (0u8..=255).collect();
    match roundtrip(JsonValue::Str(raw.clone())) {
        JsonValue::Str(s) => assert_eq!(s, raw),
        _ => panic!("expected a string"),
    }
}

#[test]
fn round_trips_nested_values() {
    let v = obj(vec![
        ("jsonrpc", JsonValue::Str(b("2.0"))),
        (
            "params",
            JsonValue::Arr(vec![
                JsonValue::Int(1),
                JsonValue::Null,
                JsonValue::Arr(vec![]),
                obj(vec![("x", JsonValue::Bool(false))]),
            ]),
        ),
    ]);
    let text = encode_value(&v);
    assert_eq!(
        text,
        b("{\"jsonrpc\":\"2.0\",\"params\":[1,null,[],{\"x\":false}]}")
    );
    let back = roundtrip(v);
    assert_eq!(encode_value(&back), text);
}

#[test]
fn accepts_whitespace_between_tokens() {
    let text = b(" { \"a\" : [ 1 , 2 ] , \"b\" : null } ");
    let v = decode_json(&text).expect("whitespace is allowed");
    assert_eq!(encode_value(&v), b("{\"a\":[1,2],\"b\":null}"));
}

#[test]
fn rejects_malformed_text() {
    assert!(decode_json(&b("")).is_none());
    assert!(decode_json(&b("{")).is_none());
    assert!(decode_json(&b("[1,]")).is_none());
    assert!(decode_json(&b("nul")).is_none());
    assert!(decode_json(&b("\"unterminated")).is_none());
    assert!(decode_json(&b("{\"a\" 1}")).is_none());
    assert!(decode_json(&b("1 2")).is_none());
    assert!(decode_json(&b("-1")).is_none());
    assert!(decode_json(&b("1.5")).is_none());
    // a number too large for the codec's integers
    assert!(decode_json(&b("18446744073709551616")).is_none());
}

#[test]
fn rejects_nesting_beyond_the_depth_bound() {
    let mut deep = Vec::new();
    for _ in 0..200 {
        deep.push(b'[');
    }
    for _ in 0..200 {
        deep.push(b']');
    }
    assert!(decode_json(&deep).is_none());
    let mut fine = Vec::new();
    for _ in 0..100 {
        fine.push(b'[');
    }
    for _ in 0..100 {
        fine.push(b']');
    }
    assert!(decode_json(&fine).is_some());
}

#[test]
fn decodes_unicode_escapes_below_128_only() {
    match decode_json(&b("\"\\u0041\"")) {
        Some(JsonValue::Str(s)) => assert_eq!(s, b("A")),
        _ => panic!("expected the letter A"),
    }
    assert!(decode_json(&b("\"\\u00e9\"")).is_none());
    match decode_json(&b("\"a\\nb\\tc\\/d\"")) {
        Some(JsonValue::Str(s)) => assert_eq!(s, vec![97, 10, 98, 9, 99, 47, 100]),
        _ => panic!("expected escapes to decode"),
    }
}
