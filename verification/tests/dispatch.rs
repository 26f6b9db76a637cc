use jsonrpsee_core::client::{ClientCore, NextOut, Routed};
use jsonrpsee_core::module::{respond, CallOutcome, Dispatched, RpcModule};
use jsonrpsee_core::sink::{new_method_sink, sink_try_next, MethodSink, MethodStream};
use jsonrpsee_core::json::JsonValue;

fn text(s: &str) -> JsonValue {
    JsonValue::Text(s.to_string())
}

fn drain(rx: &mut MethodStream) -> Vec<String> {
    let mut out = Vec::new();
    while let Some(frame) = sink_try_next(rx) {
        out.push(frame);
    }
    out
}

struct Pipe {
    sink: MethodSink,
    stream: MethodStream,
}

fn pipe() -> Pipe {
    let (sink, stream) = new_method_sink();
    Pipe { sink, stream }
}

#[test]
fn method_call_round_trip() {
    // register "say_hello" answering the string "hello"; a client call
    // comes back with exactly that value
    let mut module = RpcModule::new();
    module.register_method("say_hello").unwrap();
    let mut p = pipe();
    let mut client = ClientCore::new(8);

    let (id, frame) = client.start_call("say_hello", None);
    let d = module.dispatch(7, &frame, &p.sink);
    let (method, params, req_id) = match d {
        Dispatched::CallReady { method, params, id } => (method, params, id),
        _ => panic!("expected a ready call"),
    };
    assert_eq!(method, "say_hello");
    assert!(params.is_none());
    // the registered callback answers "hello"
    respond(req_id, CallOutcome::Success(text("hello")), &p.sink);
    let frames = drain(&mut p.stream);
    assert_eq!(frames.len(), 1);
    assert_eq!(frames[0], "{\"jsonrpc\":\"2.0\",\"result\":\"hello\",\"id\":0}");
    match client.route_frame(&frames[0]) {
        Routed::Answered { id: rid, result } => {
            assert_eq!(rid, id);
            assert_eq!(jsonrpsee_core::json::to_text(&result), "\"hello\"");
        },
        _ => panic!("expected the call to be answered"),
    }
}

#[test]
fn unknown_method_and_malformed_frames_are_answered_with_errors() {
    let mut module = RpcModule::new();
    let p = pipe();
    let d = module.dispatch(1, "{\"jsonrpc\":\"2.0\",\"method\":\"nope\",\"id\":4}", &p.sink);
    match d {
        Dispatched::Reply(f) => assert_eq!(
            f,
            "{\"jsonrpc\":\"2.0\",\"error\":{\"code\":-32601,\"message\":\"Method not found\"},\"id\":4}"
        ),
        _ => panic!("expected an error reply"),
    }
    let d = module.dispatch(1, "{ not json", &p.sink);
    match d {
        Dispatched::Reply(f) => assert_eq!(
            f,
            "{\"jsonrpc\":\"2.0\",\"error\":{\"code\":-32700,\"message\":\"Parse error\"},\"id\":null}"
        ),
        _ => panic!("expected an error reply"),
    }
    let d = module.dispatch(1, "[1,2,3]", &p.sink);
    match d {
        Dispatched::Reply(f) => assert_eq!(
            f,
            "{\"jsonrpc\":\"2.0\",\"error\":{\"code\":-32600,\"message\":\"Invalid request\"},\"id\":null}"
        ),
        _ => panic!("expected an error reply"),
    }
}

#[test]
fn call_outcomes_map_to_the_documented_codes() {
    let p = pipe();
    let f = respond(jsonrpsee_core::wire::Id::Num(3), CallOutcome::InvalidParams, &p.sink);
    assert_eq!(
        f,
        "{\"jsonrpc\":\"2.0\",\"error\":{\"code\":-32602,\"message\":\"Invalid params\"},\"id\":3}"
    );
    let f = respond(
        jsonrpsee_core::wire::Id::Num(3),
        CallOutcome::Failed("boom".to_string()),
        &p.sink,
    );
    assert_eq!(
        f,
        "{\"jsonrpc\":\"2.0\",\"error\":{\"code\":-32000,\"message\":\"boom\"},\"id\":3}"
    );
}

#[test]
fn subscription_fan_out_delivers_every_value_in_order() {
    let mut module = RpcModule::new();
    module.register_subscription("subscribe_hello", "unsubscribe_hello").unwrap();
    module.register_subscription("subscribe_foo", "unsubscribe_foo").unwrap();
    let mut p = pipe();
    let mut client = ClientCore::new(64);

    // subscribe to both
    let (hello_call, frame) = client.start_call("subscribe_hello", None);
    let d = module.dispatch(1, &frame, &p.sink);
    let hello_sink = match d {
        Dispatched::Subscribed { reply: Some(_), sink, .. } => sink,
        _ => panic!("expected a confirmed subscription"),
    };
    let (foo_call, frame) = client.start_call("subscribe_foo", None);
    let d = module.dispatch(1, &frame, &p.sink);
    let foo_sink = match d {
        Dispatched::Subscribed { reply: Some(_), sink, .. } => sink,
        _ => panic!("expected a confirmed subscription"),
    };
    assert!(module.has_subscriber(1, hello_sink.subscription_id()));
    assert!(module.has_subscriber(1, foo_sink.subscription_id()));
    // both identifiers fit in 53 bits
    assert!(hello_sink.subscription_id() <= (1u64 << 53) - 1);
    assert!(foo_sink.subscription_id() <= (1u64 << 53) - 1);

    // route the confirmations, then install the queues
    let confirmations = drain(&mut p.stream);
    let mut hello_id = 0u64;
    let mut foo_id = 0u64;
    for f in &confirmations {
        match client.route_frame(f) {
            Routed::Answered { id, result } => {
                let sid = match result {
                    JsonValue::Int(i) => i as u64,
                    _ => panic!("subscription ids are numbers"),
                };
                if id == hello_call {
                    hello_id = sid;
                } else {
                    assert_eq!(id, foo_call);
                    foo_id = sid;
                }
                assert!(client.install_subscription(sid));
            },
            _ => panic!("expected answers to the subscribe calls"),
        }
    }
    assert_eq!(hello_id, hello_sink.subscription_id());
    assert_eq!(foo_id, foo_sink.subscription_id());

    // the handlers push ten values each
    for _ in 0..10 {
        hello_sink.send(&text("hello from subscription")).unwrap();
        foo_sink.send(&JsonValue::Int(1337)).unwrap();
    }
    for f in drain(&mut p.stream) {
        match client.route_frame(&f) {
            Routed::Pushed { .. } => {},
            _ => panic!("pushes land in their queues"),
        }
    }
    for _ in 0..10 {
        match client.sub_next(hello_id) {
            NextOut::Item(v) => assert_eq!(jsonrpsee_core::json::to_text(&v), "\"hello from subscription\""),
            _ => panic!("expected a hello item"),
        }
        match client.sub_next(foo_id) {
            NextOut::Item(v) => assert_eq!(jsonrpsee_core::json::to_text(&v), "1337"),
            _ => panic!("expected a foo item"),
        }
    }
    assert!(matches!(client.sub_next(hello_id), NextOut::Empty));
}

#[test]
fn unsubscribing_clears_the_entry_and_is_idempotent() {
    let mut module = RpcModule::new();
    module.register_subscription("sub", "unsub").unwrap();
    let mut client = ClientCore::new(4);
    let p = pipe();

    let (_, frame) = client.start_call("sub", None);
    let sink = match module.dispatch(9, &frame, &p.sink) {
        Dispatched::Subscribed { sink, .. } => sink,
        _ => panic!("expected a subscription"),
    };
    let sid = sink.subscription_id();
    assert!(module.has_subscriber(9, sid));

    let (_, frame) = client.drop_subscription(sid, "unsub");
    match module.dispatch(9, &frame, &p.sink) {
        Dispatched::Reply(f) => {
            assert!(f.contains("\"result\":\"Unsubscribed\""));
        },
        _ => panic!("expected the acknowledgement"),
    }
    assert!(!module.has_subscriber(9, sid));

    // unsubscribing an unknown identifier is still acknowledged
    let (_, frame) = client.drop_subscription(sid, "unsub");
    match module.dispatch(9, &frame, &p.sink) {
        Dispatched::Reply(f) => assert!(f.contains("\"result\":\"Unsubscribed\"")),
        _ => panic!("expected the acknowledgement"),
    }
}

#[test]
fn dropping_half_the_connections_leaves_the_rest_untouched() {
    let mut module = RpcModule::new();
    module.register_subscription("sub", "unsub").unwrap();
    let mut pipes = Vec::new();
    let mut sinks = Vec::new();
    for conn in 0..10u64 {
        let mut p = pipe();
        let mut client = ClientCore::new(16);
        let (_, frame) = client.start_call("sub", None);
        let sink = match module.dispatch(conn, &frame, &p.sink) {
            Dispatched::Subscribed { sink, .. } => sink,
            _ => panic!("expected a subscription"),
        };
        drain(&mut p.stream);
        sinks.push(sink);
        pipes.push(p);
    }
    for conn in 0..5u64 {
        module.disconnect(conn);
    }
    for conn in 0..10u64 {
        let present = module.has_subscriber(conn, sinks[conn as usize].subscription_id());
        assert_eq!(present, conn >= 5);
    }
    // the remaining five still receive pushes
    for conn in 5..10usize {
        sinks[conn].send(&JsonValue::Int(conn as i64)).unwrap();
        let frames = drain(&mut pipes[conn].stream);
        assert_eq!(frames.len(), 1);
        assert!(frames[0].contains("\"subscription\":"));
    }
}

#[test]
fn slow_consumer_becomes_terminal_and_client_stays_usable() {
    let mut module = RpcModule::new();
    module.register_method("say_hello").unwrap();
    module.register_subscription("subscribe_hello", "unsubscribe_hello").unwrap();
    let mut p = pipe();
    let capacity = 4usize;
    let mut client = ClientCore::new(capacity);

    let (_, frame) = client.start_call("subscribe_hello", None);
    let sink = match module.dispatch(2, &frame, &p.sink) {
        Dispatched::Subscribed { sink, .. } => sink,
        _ => panic!("expected a subscription"),
    };
    for f in drain(&mut p.stream) {
        if let Routed::Answered { result: JsonValue::Int(i), .. } = client.route_frame(&f) {
            assert!(client.install_subscription(i as u64));
        }
    }
    let sid = sink.subscription_id();

    // the consumer never reads: the (capacity + 1)-th push overflows
    for i in 0..(capacity + 1) {
        sink.send(&JsonValue::Int(i as i64)).unwrap();
    }
    let frames = drain(&mut p.stream);
    assert_eq!(frames.len(), capacity + 1);
    for (i, f) in frames.iter().enumerate() {
        match client.route_frame(f) {
            Routed::Pushed { .. } => assert!(i < capacity),
            Routed::Overflowed { sub_id } => {
                assert_eq!(i, capacity);
                assert_eq!(sub_id, sid);
            },
            _ => panic!("pushes either queue or overflow"),
        }
    }
    // the queued items drain, then the stream ends
    for i in 0..capacity {
        match client.sub_next(sid) {
            NextOut::Item(v) => assert_eq!(jsonrpsee_core::json::to_text(&v), format!("{}", i)),
            _ => panic!("expected a queued item"),
        }
    }
    assert!(matches!(client.sub_next(sid), NextOut::End));
    assert!(matches!(client.sub_next(sid), NextOut::End));

    // the client remains usable: a plain call and a fresh subscribe both work
    let (id, frame) = client.start_call("say_hello", None);
    match module.dispatch(2, &frame, &p.sink) {
        Dispatched::CallReady { id: rid, .. } => {
            respond(rid, CallOutcome::Success(text("hello")), &p.sink);
        },
        _ => panic!("expected a ready call"),
    }
    let frames = drain(&mut p.stream);
    match client.route_frame(&frames[0]) {
        Routed::Answered { id: aid, result } => {
            assert_eq!(aid, id);
            assert_eq!(jsonrpsee_core::json::to_text(&result), "\"hello\"");
        },
        _ => panic!("expected the answer"),
    }
    let (_, frame) = client.start_call("subscribe_hello", None);
    match module.dispatch(2, &frame, &p.sink) {
        Dispatched::Subscribed { .. } => {},
        _ => panic!("a fresh subscription succeeds"),
    }
}

#[test]
fn responses_correlate_by_identifier_alone() {
    // several calls in flight; answers arrive out of order and each
    // lands on its own call
    let mut client = ClientCore::new(4);
    let p = pipe();
    let mut module = RpcModule::new();
    module.register_method("m").unwrap();
    let mut ids = Vec::new();
    for _ in 0..5 {
        let (id, _frame) = client.start_call("m", None);
        ids.push(id);
    }
    // answer them in reverse order
    for &id in ids.iter().rev() {
        let f = respond(
            jsonrpsee_core::wire::Id::Num(id),
            CallOutcome::Success(JsonValue::Int(id as i64 * 10)),
            &p.sink,
        );
        match client.route_frame(&f) {
            Routed::Answered { id: rid, result } => {
                assert_eq!(rid, id);
                assert_eq!(jsonrpsee_core::json::to_text(&result), format!("{}", id * 10));
            },
            _ => panic!("expected the matching answer"),
        }
    }
    // an unknown identifier is ignored
    let f = respond(
        jsonrpsee_core::wire::Id::Num(999),
        CallOutcome::Success(JsonValue::Null),
        &p.sink,
    );
    assert!(matches!(client.route_frame(&f), Routed::Ignored));
}

#[test]
fn call_failures_come_back_with_code_and_message() {
    let mut client = ClientCore::new(4);
    let p = pipe();
    let (id, _frame) = client.start_call("m", None);
    let f = respond(
        jsonrpsee_core::wire::Id::Num(id),
        CallOutcome::Failed("no luck".to_string()),
        &p.sink,
    );
    match client.route_frame(&f) {
        Routed::CallFailed { id: rid, code, message } => {
            assert_eq!(rid, id);
            assert_eq!(code, -32000);
            assert_eq!(message, "no luck");
        },
        _ => panic!("expected the failure"),
    }
}

#[test]
fn pushing_to_a_dead_connection_reports_internal_error() {
    let mut module = RpcModule::new();
    module.register_subscription("sub", "unsub").unwrap();
    let mut client = ClientCore::new(4);
    let p = pipe();
    let (_, frame) = client.start_call("sub", None);
    let sink = match module.dispatch(3, &frame, &p.sink) {
        Dispatched::Subscribed { sink, .. } => sink,
        _ => panic!("expected a subscription"),
    };
    drop(p);
    let err = sink.send(&JsonValue::Int(1)).unwrap_err();
    assert!(matches!(err, jsonrpsee_core::error::Error::Internal));
}

#[test]
fn early_notifications_for_unknown_subscriptions_are_dropped() {
    let mut client = ClientCore::new(4);
    let f = jsonrpsee_core::wire::notification_frame("sub", 42, JsonValue::Int(1));
    assert!(matches!(client.route_frame(&f), Routed::Ignored));
    // once installed, the same notification lands in the queue
    assert!(client.install_subscription(42));
    assert!(matches!(client.route_frame(&f), Routed::Pushed { sub_id: 42 }));
    match client.sub_next(42) {
        NextOut::Item(v) => assert_eq!(jsonrpsee_core::json::to_text(&v), "1"),
        _ => panic!("expected the queued value"),
    }
}
