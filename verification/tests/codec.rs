use jsonrpsee_core::json::{from_text, to_text, JsonValue};

fn text(s: &str) -> JsonValue {
    JsonValue::Text(s.to_string())
}

#[test]
fn scalars_render_canonically() {
    assert_eq!(to_text(&JsonValue::Null), "null");
    assert_eq!(to_text(&JsonValue::Bool(true)), "true");
    assert_eq!(to_text(&JsonValue::Bool(false)), "false");
    assert_eq!(to_text(&JsonValue::Int(0)), "0");
    assert_eq!(to_text(&JsonValue::Int(1337)), "1337");
    assert_eq!(to_text(&JsonValue::Int(-32601)), "-32601");
    assert_eq!(to_text(&JsonValue::Int(i64::MAX)), "9223372036854775807");
    assert_eq!(to_text(&JsonValue::Int(i64::MIN)), "-9223372036854775808");
    assert_eq!(to_text(&text("hello")), "\"hello\"");
    assert_eq!(to_text(&text("a\"b\\c")), "\"a\\\"b\\\\c\"");
}

#[test]
fn containers_render_canonically() {
    let arr = JsonValue::Arr(vec![JsonValue::Int(1), JsonValue::Int(2), JsonValue::Null]);
    assert_eq!(to_text(&arr), "[1,2,null]");
    let obj = JsonValue::Obj(vec![
        ("a".to_string(), JsonValue::Int(1)),
        ("b".to_string(), JsonValue::Arr(vec![])),
    ]);
    assert_eq!(to_text(&obj), "{\"a\":1,\"b\":[]}");
    assert_eq!(to_text(&JsonValue::Obj(vec![])), "{}");
}

#[test]
fn round_trip_preserves_values() {
    let samples = vec![
        JsonValue::Null,
        JsonValue::Bool(false),
        JsonValue::Int(-1),
        JsonValue::Int(9007199254740991),
        text(""),
        text("quote \" backslash \\ done"),
        JsonValue::Arr(vec![
            JsonValue::Int(1),
            text("x"),
            JsonValue::Arr(vec![JsonValue::Bool(true)]),
        ]),
        JsonValue::Obj(vec![
            ("k".to_string(), JsonValue::Null),
            ("nested".to_string(), JsonValue::Obj(vec![("i".to_string(), JsonValue::Int(7))])),
        ]),
    ];
    for v in samples {
        let rendered = to_text(&v);
        let back = from_text(&rendered).expect("canonical text parses");
        assert_eq!(to_text(&back), rendered);
    }
}

#[test]
fn malformed_texts_do_not_parse() {
    for bad in ["", "nul", "tru", "{", "[1,", "\"unterminated", "01", "-0", "1e5", "--3", "[1]x"] {
        assert!(from_text(bad).is_none(), "{} should not parse", bad);
    }
}

#[test]
fn serde_json_reads_what_the_library_writes() {
    let v = JsonValue::Obj(vec![
        ("jsonrpc".to_string(), text("2.0")),
        ("result".to_string(), JsonValue::Arr(vec![JsonValue::Int(-5), text("ok")])),
        ("id".to_string(), JsonValue::Int(3)),
    ]);
    let rendered = to_text(&v);
    let parsed: serde_json::Value = serde_json::from_str(&rendered).expect("valid JSON");
    assert_eq!(parsed["jsonrpc"], serde_json::Value::String("2.0".to_string()));
    assert_eq!(parsed["id"], serde_json::Value::Number(3.into()));
    assert_eq!(parsed["result"][1], serde_json::Value::String("ok".to_string()));
    // and the library reads what serde_json writes
    let reprinted = serde_json::to_string(&parsed["result"]).expect("serializes");
    let back = from_text(&reprinted).expect("parses");
    assert_eq!(to_text(&back), "[-5,\"ok\"]");
}

#[test]
fn control_characters_are_escaped_and_round_trip() {
    let v = text("line\nbreak\ttab\u{1}");
    let rendered = to_text(&v);
    assert_eq!(rendered, "\"line\\u000abreak\\u0009tab\\u0001\"");
    // serde_json accepts the rendering and reads the same characters
    let parsed: serde_json::Value = serde_json::from_str(&rendered).expect("legal JSON");
    assert_eq!(parsed, serde_json::Value::String("line\nbreak\ttab\u{1}".to_string()));
    // and the library reads its own rendering back
    let back = from_text(&rendered).expect("parses");
    assert_eq!(to_text(&back), rendered);
}

#[test]
fn whitespace_between_tokens_is_accepted() {
    let spaced = " { \"a\" : 1 , \"b\" : [ 1 , 2 , \"x\" ] } ";
    let v = from_text(spaced).expect("standard JSON parses");
    assert_eq!(to_text(&v), "{\"a\":1,\"b\":[1,2,\"x\"]}");
    let v = from_text("\t[ ]\r\n").expect("empty array with whitespace");
    assert_eq!(to_text(&v), "[]");
}

#[test]
fn standard_escapes_are_accepted() {
    let v = from_text("\"a\\n\\t\\r\\b\\f\\/\\u0041\\u00e9\"").expect("standard escapes parse");
    match v {
        JsonValue::Text(t) => assert_eq!(t, "a\n\t\r\u{8}\u{c}/A\u{e9}"),
        _ => panic!("expected a string"),
    }
    // a lone surrogate escape is refused
    assert!(from_text("\"\\ud800\"").is_none());
    assert!(from_text("\"\\uZZZZ\"").is_none());
    assert!(from_text("\"\\q\"").is_none());
}
