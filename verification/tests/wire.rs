use jsonrpsee_core::json::{from_text, to_text, JsonValue};
use jsonrpsee_core::sink::{new_method_sink, sink_try_next};
use jsonrpsee_core::wire::{
    error_frame, notification_frame, parse_reply, parse_request, request_frame, response_frame,
    Id, ParseFault, Reply,
};
use jsonrpsee_core::mask_subscription_id;

#[test]
fn request_frames_render_and_parse() {
    let f = request_frame("say_hello", None, Id::Num(1));
    assert_eq!(f, "{\"jsonrpc\":\"2.0\",\"method\":\"say_hello\",\"id\":1}");
    let req = parse_request(&f).unwrap();
    assert_eq!(req.method, "say_hello");
    assert!(req.params.is_none());
    assert!(matches!(req.id, Id::Num(1)));

    let params = JsonValue::Arr(vec![JsonValue::Int(5)]);
    let f = request_frame("add", Some(params), Id::Text("seven".to_string()));
    assert_eq!(f, "{\"jsonrpc\":\"2.0\",\"method\":\"add\",\"params\":[5],\"id\":\"seven\"}");
    let req = parse_request(&f).unwrap();
    match req.id {
        Id::Text(t) => assert_eq!(t, "seven"),
        _ => panic!("expected a text identifier"),
    }
    assert_eq!(to_text(&req.params.unwrap()), "[5]");
}

#[test]
fn notification_requests_carry_a_null_identifier() {
    let f = request_frame("notify", None, Id::Null);
    assert_eq!(f, "{\"jsonrpc\":\"2.0\",\"method\":\"notify\",\"id\":null}");
    let req = parse_request(&f).unwrap();
    assert!(matches!(req.id, Id::Null));
}

#[test]
fn malformed_and_invalid_requests_are_told_apart() {
    assert!(matches!(parse_request("garbage"), Err(ParseFault::Malformed)));
    assert!(matches!(parse_request("42"), Err(ParseFault::Invalid)));
    assert!(matches!(
        parse_request("{\"jsonrpc\":\"1.0\",\"method\":\"m\",\"id\":1}"),
        Err(ParseFault::Invalid)
    ));
}

#[test]
fn reply_frames_render_and_parse() {
    let f = response_frame(Id::Num(2), JsonValue::Bool(true));
    assert_eq!(f, "{\"jsonrpc\":\"2.0\",\"result\":true,\"id\":2}");
    match parse_reply(&f).unwrap() {
        Reply::Success { id, result } => {
            assert_eq!(id, 2);
            assert_eq!(to_text(&result), "true");
        },
        _ => panic!("expected a success reply"),
    }

    let f = error_frame(Id::Num(3), -32601, "Method not found");
    match parse_reply(&f).unwrap() {
        Reply::Failure { id, code, message } => {
            assert_eq!(id, 3);
            assert_eq!(code, -32601);
            assert_eq!(message, "Method not found");
        },
        _ => panic!("expected a failure reply"),
    }

    let f = notification_frame("subscribe_hello", 77, JsonValue::Int(9));
    assert_eq!(
        f,
        "{\"jsonrpc\":\"2.0\",\"method\":\"subscribe_hello\",\"params\":{\"subscription\":77,\"result\":9}}"
    );
    match parse_reply(&f).unwrap() {
        Reply::Push { method, sub_id, result } => {
            assert_eq!(method, "subscribe_hello");
            assert_eq!(sub_id, 77);
            assert_eq!(to_text(&result), "9");
        },
        _ => panic!("expected a push"),
    }

    assert!(parse_reply("{\"jsonrpc\":\"2.0\",\"other\":1,\"id\":2}").is_none());
    assert!(parse_reply("nonsense").is_none());
}

#[test]
fn every_envelope_survives_a_round_trip_through_its_frame() {
    let frames = vec![
        request_frame("m", Some(JsonValue::Obj(vec![("k".to_string(), JsonValue::Int(-1))])), Id::Num(0)),
        response_frame(Id::Num(1), JsonValue::Arr(vec![])),
        error_frame(Id::Num(2), -32000, "quoted \" here"),
        notification_frame("s", 4503599627370495, JsonValue::Null),
    ];
    for f in frames {
        let v = from_text(&f).expect("every frame is one JSON value");
        assert_eq!(to_text(&v), f);
    }
}

#[test]
fn masked_identifiers_fit_53_bits() {
    for raw in [0u64, 1, u64::MAX, 0x8000000000000000, 0x20000000000000, 123456789123456789] {
        let sid = mask_subscription_id(raw);
        assert!(sid <= (1u64 << 53) - 1);
        assert_eq!(sid, raw & ((1u64 << 53) - 1));
    }
}

#[test]
fn sink_frames_arrive_as_sent() {
    let (sink, mut stream) = new_method_sink();
    let f1 = response_frame(Id::Num(1), JsonValue::Int(1));
    let f2 = response_frame(Id::Num(2), JsonValue::Int(2));
    jsonrpsee_core::sink::sink_send(&sink, f1.clone()).unwrap();
    jsonrpsee_core::sink::sink_send(&sink, f2.clone()).unwrap();
    assert_eq!(sink_try_next(&mut stream), Some(f1));
    assert_eq!(sink_try_next(&mut stream), Some(f2));
    assert_eq!(sink_try_next(&mut stream), None);
}

#[test]
fn sending_on_a_dead_connection_fails() {
    let (sink, stream) = new_method_sink();
    drop(stream);
    let err = jsonrpsee_core::sink::sink_send(&sink, "x".to_string());
    assert!(err.is_err());
}

#[test]
fn frames_from_a_conforming_peer_parse_with_whitespace() {
    let spaced = "{ \"jsonrpc\" : \"2.0\" , \"result\" : \"hello\" , \"id\" : 7 }";
    match parse_reply(spaced).unwrap() {
        Reply::Success { id, result } => {
            assert_eq!(id, 7);
            assert_eq!(to_text(&result), "\"hello\"");
        },
        _ => panic!("expected a success reply"),
    }
    let spaced_req = "{\"jsonrpc\": \"2.0\", \"method\": \"say_hello\", \"id\": 2}";
    let req = parse_request(spaced_req).unwrap();
    assert_eq!(req.method, "say_hello");
}

#[test]
fn error_messages_with_newlines_travel_whole() {
    let f = error_frame(Id::Num(1), -32000, "first line\nsecond line");
    // the frame is legal JSON even with the control character
    let parsed: serde_json::Value = serde_json::from_str(&f).expect("legal JSON");
    assert_eq!(
        parsed["error"]["message"],
        serde_json::Value::String("first line\nsecond line".to_string())
    );
    match parse_reply(&f).unwrap() {
        Reply::Failure { message, .. } => assert_eq!(message, "first line\nsecond line"),
        _ => panic!("expected a failure reply"),
    }
}

#[test]
fn envelope_members_may_come_in_any_order() {
    let req = parse_request("{\"id\":4,\"method\":\"say_hello\",\"jsonrpc\":\"2.0\"}").unwrap();
    assert_eq!(req.method, "say_hello");
    assert!(matches!(req.id, Id::Num(4)));

    match parse_reply("{\"id\":9,\"jsonrpc\":\"2.0\",\"result\":true}").unwrap() {
        Reply::Success { id, result } => {
            assert_eq!(id, 9);
            assert_eq!(to_text(&result), "true");
        },
        _ => panic!("expected a success reply"),
    }
    match parse_reply(
        "{\"error\":{\"message\":\"m\",\"code\":-1},\"id\":2,\"jsonrpc\":\"2.0\"}",
    )
    .unwrap()
    {
        Reply::Failure { id, code, message } => {
            assert_eq!((id, code), (2, -1));
            assert_eq!(message, "m");
        },
        _ => panic!("expected a failure reply"),
    }
    match parse_reply(
        "{\"params\":{\"result\":5,\"subscription\":8},\"method\":\"s\",\"jsonrpc\":\"2.0\"}",
    ) {
        Some(Reply::Push { method, sub_id, result }) => {
            assert_eq!(method, "s");
            assert_eq!(sub_id, 8);
            assert_eq!(to_text(&result), "5");
        },
        _ => panic!("expected a push"),
    }
    // junk members are still refused
    assert!(parse_request("{\"jsonrpc\":\"2.0\",\"method\":\"m\",\"id\":1,\"x\":2}").is_err());
    assert!(parse_reply("{\"jsonrpc\":\"2.0\",\"result\":1,\"id\":1,\"x\":2}").is_none());
}
