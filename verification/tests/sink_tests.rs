use web_logger::codec::{decode, encode};
use web_logger::level::Level;
use web_logger::record::{Json, Record};
use web_logger::sink::init;

fn bytes(s: &str) -> Vec<u8> {
    s.as_bytes().to_vec()
}

fn simple_record(msg: &str, level: Level) -> Record {
    Record {
        value: None,
        message: bytes(msg),
        level,
        file: None,
        module: None,
        line: None,
    }
}

fn radius_record() -> Record {
    Record {
        value: Some(Json::Obj(vec![(bytes("radius"), Json::Num(bytes("5.0")))])),
        message: bytes(""),
        level: Level::Info,
        file: None,
        module: None,
        line: None,
    }
}

#[test]
fn encode_exact_wire_form() {
    let r = simple_record("starting", Level::Info);
    let w = encode(&r);
    assert_eq!(
        String::from_utf8(w).unwrap(),
        r#"{"value":null,"message":"starting","level":"Info","file":null,"module":null,"line":null}"#
    );
}

#[test]
fn encode_exact_wire_form_full() {
    let r = Record {
        value: Some(Json::Arr(vec![
            Json::Null,
            Json::Bool(true),
            Json::Num(bytes("42")),
            Json::Str(bytes("hi")),
        ])),
        message: bytes("m"),
        level: Level::Error,
        file: Some(bytes("main.rs")),
        module: Some(bytes("app")),
        line: Some(17),
    };
    let w = encode(&r);
    assert_eq!(
        String::from_utf8(w).unwrap(),
        r#"{"value":[null,true,42,"hi"],"message":"m","level":"Error","file":"main.rs","module":"app","line":17}"#
    );
}

#[test]
fn round_trip_simple() {
    let r = simple_record("starting", Level::Info);
    let w = encode(&r);
    let r2 = decode(&w).expect("wire form of a record must decode");
    assert_eq!(r2, simple_record("starting", Level::Info));
}

#[test]
fn round_trip_all_levels() {
    for level in [
        Level::Error,
        Level::Warn,
        Level::Info,
        Level::Debug,
        Level::Trace,
    ] {
        let r = simple_record("x", level);
        let w = encode(&r);
        assert_eq!(decode(&w), Some(simple_record("x", level)));
    }
}

#[test]
fn round_trip_structured_payload() {
    let make = || Record {
        value: Some(Json::Obj(vec![
            (bytes("name"), Json::Str(bytes("circle"))),
            (bytes("radius"), Json::Num(bytes("5.0"))),
            (
                bytes("tags"),
                Json::Arr(vec![Json::Bool(false), Json::Null, Json::Str(bytes("a"))]),
            ),
            (bytes("nested"), Json::Obj(vec![(bytes("k"), Json::Num(bytes("-1e3")))])),
        ])),
        message: bytes(""),
        level: Level::Debug,
        file: Some(bytes("src/lib.rs")),
        module: Some(bytes("geometry::shapes")),
        line: Some(4294967295),
    };
    let w = encode(&make());
    assert_eq!(decode(&w), Some(make()));
}

#[test]
fn round_trip_escaped_message() {
    let mut msg = bytes("say \"hi\" \\ twice");
    msg.push(0x0a);
    msg.push(0x01);
    let make = |m: &Vec<u8>| Record {
        value: None,
        message: m.clone(),
        level: Level::Warn,
        file: None,
        module: None,
        line: None,
    };
    let w = encode(&make(&msg));
    assert_eq!(decode(&w), Some(make(&msg)));
}

#[test]
fn escapes_use_lowercase_hex() {
    let mut msg = Vec::new();
    msg.push(0x1f);
    msg.push(b'"');
    msg.push(b'\\');
    let r = Record {
        value: None,
        message: msg,
        level: Level::Info,
        file: None,
        module: None,
        line: None,
    };
    let w = encode(&r);
    let text = String::from_utf8(w).unwrap();
    assert!(text.contains(r#""message":"\u001f\u0022\u005c""#));
}

#[test]
fn decode_rejects_garbage() {
    assert_eq!(decode(&bytes("hello")), None);
    assert_eq!(decode(&bytes("")), None);
    assert_eq!(decode(&bytes("{}")), None);
}

#[test]
fn decode_rejects_non_canonical() {
    let w = encode(&simple_record("x", Level::Info));
    let mut truncated = w.clone();
    truncated.pop();
    assert_eq!(decode(&truncated), None);
    let mut extended = w.clone();
    extended.push(b' ');
    assert_eq!(decode(&extended), None);
    let spaced = bytes(
        r#"{ "value":null,"message":"x","level":"Info","file":null,"module":null,"line":null}"#,
    );
    assert_eq!(decode(&spaced), None);
    assert_eq!(decode(&w), Some(simple_record("x", Level::Info)));
}

#[test]
fn severity_order() {
    assert!(Level::Error.at_least_as_severe(Level::Trace));
    assert!(Level::Error.at_least_as_severe(Level::Error));
    assert!(!Level::Trace.at_least_as_severe(Level::Debug));
    assert_eq!(Level::Warn.severity(), 1);
}

#[test]
fn enabled_is_always_true() {
    let s = init(Level::Info);
    assert!(s.enabled(Level::Trace));
    assert!(s.enabled(Level::Error));
}

#[test]
fn buffer_then_drain() {
    let mut s = init(Level::Info);
    s.log(&simple_record("one", Level::Info));
    s.log(&simple_record("two", Level::Info));
    s.log(&simple_record("three", Level::Info));
    assert_eq!(s.registry.buffer_len(), 3);
    assert!(!s.flushed());
    let id = s.registry.register();
    assert!(s.flushed());
    let backlog = s.registry.take_pending(id).unwrap();
    assert_eq!(backlog.len(), 3);
    assert_eq!(backlog[0], encode(&simple_record("one", Level::Info)));
    assert_eq!(backlog[1], encode(&simple_record("two", Level::Info)));
    assert_eq!(backlog[2], encode(&simple_record("three", Level::Info)));
}

#[test]
fn three_records_in_order() {
    let mut s = init(Level::Info);
    let id = s.registry.register();
    s.log(&simple_record("a", Level::Info));
    s.log(&simple_record("b", Level::Warn));
    s.log(&simple_record("c", Level::Error));
    let got = s.registry.take_pending(id).unwrap();
    assert_eq!(got.len(), 3);
    assert_eq!(decode(&got[0]), Some(simple_record("a", Level::Info)));
    assert_eq!(decode(&got[1]), Some(simple_record("b", Level::Warn)));
    assert_eq!(decode(&got[2]), Some(simple_record("c", Level::Error)));
}

#[test]
fn late_join_sees_backlog_then_live_stream() {
    let mut s = init(Level::Info);
    s.log(&simple_record("starting", Level::Info));
    assert_eq!(s.registry.buffer_len(), 1);
    let c1 = s.registry.register();
    let first = s.registry.take_pending(c1).unwrap();
    assert_eq!(first.len(), 1);
    assert_eq!(decode(&first[0]), Some(simple_record("starting", Level::Info)));
    s.log(&radius_record());
    let second = s.registry.take_pending(c1).unwrap();
    assert_eq!(second.len(), 1);
    let rec = decode(&second[0]).unwrap();
    assert_eq!(
        rec.value,
        Some(Json::Obj(vec![(bytes("radius"), Json::Num(bytes("5.0")))]))
    );
    let c2 = s.registry.register();
    assert_eq!(s.registry.take_pending(c2).unwrap().len(), 0);
}

#[test]
fn failure_isolation() {
    let mut s = init(Level::Info);
    let a = s.registry.register();
    let b = s.registry.register();
    assert_ne!(a, b);
    s.log(&simple_record("to both", Level::Info));
    s.registry.remove(a);
    assert_eq!(s.registry.client_count(), 1);
    assert_eq!(s.registry.take_pending(a), None);
    let got = s.registry.take_pending(b).unwrap();
    assert_eq!(got.len(), 1);
    assert_eq!(decode(&got[0]), Some(simple_record("to both", Level::Info)));
    s.log(&simple_record("after", Level::Info));
    let later = s.registry.take_pending(b).unwrap();
    assert_eq!(later.len(), 1);
    assert_eq!(decode(&later[0]), Some(simple_record("after", Level::Info)));
}

#[test]
fn broadcast_reaches_every_client() {
    let mut s = init(Level::Info);
    let a = s.registry.register();
    let b = s.registry.register();
    let c = s.registry.register();
    assert_eq!(s.registry.client_ids(), vec![a, b, c]);
    s.log(&simple_record("fan out", Level::Info));
    assert_eq!(s.registry.buffer_len(), 0);
    for id in [a, b, c] {
        let got = s.registry.take_pending(id).unwrap();
        assert_eq!(got.len(), 1);
        assert_eq!(decode(&got[0]), Some(simple_record("fan out", Level::Info)));
    }
}

#[test]
fn publish_with_client_does_not_buffer() {
    let mut s = init(Level::Info);
    let id = s.registry.register();
    s.log(&simple_record("live", Level::Info));
    assert_eq!(s.registry.buffer_len(), 0);
    assert!(s.flushed());
    assert_eq!(s.registry.take_pending(id).unwrap().len(), 1);
}

#[test]
fn line_number_bounds_round_trip() {
    for line in [Some(0u32), Some(1), Some(10), Some(4294967295), None] {
        let make = || Record {
            value: None,
            message: bytes("m"),
            level: Level::Trace,
            file: None,
            module: None,
            line,
        };
        let w = encode(&make());
        assert_eq!(decode(&w), Some(make()));
    }
}

#[test]
fn null_payload_normalizes_to_absent() {
    // The canonical wire form of a bare null payload is an absent
    // payload, so a record built with `Some(Json::Null)` decodes with
    // `value == None`.
    let r = Record {
        value: Some(Json::Null),
        message: bytes("m"),
        level: Level::Info,
        file: None,
        module: None,
        line: None,
    };
    let w = encode(&r);
    let rec = decode(&w).unwrap();
    assert_eq!(rec.value, None);
    assert_eq!(rec.message, bytes("m"));
}
