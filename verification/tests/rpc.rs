use codex_managed_channel::json::JsonValue;
use codex_managed_channel::rpc::{
    classify_reply, client_text_frame, control_frame, frame_start, payload_length,
    unmask_payload, upgrade_accepted, upgrade_request, upgrade_response_complete, Assembler,
    Assembly, ReadError, ReplyMatch, SendError,
};

#[test]
fn handshake_request_and_acceptance() {
    assert!(upgrade_request().starts_with("GET / HTTP/1.1\r\nHost: localhost\r\n"));
    assert!(upgrade_request().ends_with("Sec-WebSocket-Version: 13\r\n\r\n"));
    assert!(upgrade_accepted(
        "HTTP/1.1 101 Switching Protocols\r\nSec-WebSocket-Accept: s3pPLMBiTxaQ9kYGzzhZRbK+xOo=\r\n\r\n"
    ));
    assert!(!upgrade_accepted(
        "HTTP/1.1 400 Bad Request\r\nSec-WebSocket-Accept: s3pPLMBiTxaQ9kYGzzhZRbK+xOo=\r\n\r\n"
    ));
    assert!(!upgrade_accepted("HTTP/1.1 101 Switching Protocols\r\n\r\n"));
    assert!(upgrade_response_complete(b"HTTP/1.1 101 x\r\n\r\n"));
    assert!(!upgrade_response_complete(b"HTTP/1.1 101 x\r\n"));
}

#[test]
fn client_frames_choose_their_length_field() {
    let mask = [1, 2, 3, 4];
    assert_eq!(
        client_text_frame(b"ab", mask).unwrap(),
        vec![0x81, 0x82, 1, 2, 3, 4, b'a' ^ 1, b'b' ^ 2]
    );
    let f = client_text_frame(&[0u8; 200], mask).unwrap();
    assert_eq!(&f[..4], &[0x81, 0xfe, 0x00, 200]);
    let f = client_text_frame(&vec![0u8; 70000], mask).unwrap();
    assert_eq!(&f[..10], &[0x81, 0xff, 0, 0, 0, 0, 0, 0x01, 0x11, 0x70]);
    assert_eq!(f.len(), 70000 + 14);
    assert_eq!(
        client_text_frame(&vec![0u8; 64 * 1024 * 1024 + 1], mask),
        Err(SendError::TooLarge)
    );
}

#[test]
fn control_frames_are_masked_and_short() {
    assert_eq!(
        control_frame(0x8, &[]).unwrap(),
        vec![0x88, 0x80, 0x13, 0x57, 0x9b, 0xdf]
    );
    assert_eq!(
        control_frame(0xA, b"p").unwrap(),
        vec![0x8a, 0x81, 0x13, 0x57, 0x9b, 0xdf, b'p' ^ 0x13]
    );
    assert_eq!(control_frame(0x9, &[0u8; 126]), Err(SendError::ControlTooLarge));
}

#[test]
fn frame_headers_are_read_and_checked() {
    let s = frame_start(0x81, 0x05).unwrap();
    assert!(s.fin && !s.masked);
    assert_eq!((s.opcode, s.extended, s.short_len), (1, 0, 5));
    assert_eq!(payload_length(s, &[]), Ok(5));
    let s = frame_start(0x01, 0xfe).unwrap();
    assert!(!s.fin && s.masked);
    assert_eq!(payload_length(s, &[0x01, 0x00]), Ok(256));
    let s = frame_start(0x82, 0x7f).unwrap();
    assert_eq!(s.extended, 8);
    assert_eq!(
        payload_length(s, &[0, 0, 0, 0, 0x04, 0, 0, 1]),
        Err(ReadError::TooLarge)
    );
    assert_eq!(frame_start(0xC1, 0x00), Err(ReadError::ReservedBits));
    let mut p = vec![1u8, 2, 3, 4, 5];
    unmask_payload(&mut p, [1, 2, 3, 4]);
    assert_eq!(p, vec![0, 0, 0, 0, 4]);
}

#[test]
fn messages_are_reassembled_from_fragments() {
    let mut a = Assembler::new();
    assert!(matches!(a.push(false, 1, b"{\"id\"".to_vec()), Ok(Assembly::More)));
    assert!(matches!(a.push(true, 9, b"hi".to_vec()), Ok(Assembly::Ping(ref p)) if p == b"hi"));
    assert!(matches!(a.push(true, 10, vec![]), Ok(Assembly::More)));
    match a.push(true, 0, b":7}".to_vec()) {
        Ok(Assembly::Message(JsonValue::Object(fields))) => {
            assert_eq!(fields.len(), 1);
            assert_eq!(fields[0].0, "id");
            assert!(matches!(&fields[0].1, JsonValue::Number(n) if n == "7"));
        }
        other => panic!("unexpected {other:?}"),
    }
    let mut c = Assembler::new();
    assert!(matches!(c.push(true, 1, b"not json".to_vec()), Err(ReadError::InvalidJson)));
    assert_eq!(ReadError::InvalidJson.message(), "control socket returned invalid JSON");
    let mut b = Assembler::new();
    assert!(matches!(b.push(true, 0, b"x".to_vec()), Ok(Assembly::More)));
    assert!(matches!(b.push(true, 8, vec![]), Err(ReadError::Closed)));
    assert_eq!(ReadError::Closed.message(), "control socket closed websocket");
}

#[test]
fn replies_are_matched_by_id() {
    let m = parse_json(br#"{"id":3,"result":{"ok":true}}"#).unwrap();
    assert!(matches!(classify_reply(m, 3), ReplyMatch::Answer(_)));
    let m = parse_json(br#"{"id":2,"result":{}}"#).unwrap();
    assert!(matches!(classify_reply(m, 3), ReplyMatch::Other));
    let m = parse_json(br#"{"method":"turn/started"}"#).unwrap();
    assert!(matches!(classify_reply(m, 3), ReplyMatch::Other));
    let m = parse_json(br#"{"id":3,"error":{"code":-32600,"message":"busy"}}"#).unwrap();
    match classify_reply(m, 3) {
        ReplyMatch::Remote { code, message } => {
            assert_eq!(code, -32600);
            assert_eq!(message, "busy");
        }
        other => panic!("unexpected {other:?}"),
    }
    let m = parse_json(br#"{"id":3,"error":{}}"#).unwrap();
    match classify_reply(m, 3) {
        ReplyMatch::Remote { code, message } => {
            assert_eq!(code, 0);
            assert_eq!(message, "unknown JSON-RPC error");
        }
        other => panic!("unexpected {other:?}"),
    }
    let m = parse_json(br#"{"id":3}"#).unwrap();
    assert!(matches!(classify_reply(m, 3), ReplyMatch::MissingResult));
}

fn to_library(v: serde_json::Value) -> JsonValue {
    match v {
        serde_json::Value::Null => JsonValue::Null,
        serde_json::Value::Bool(b) => JsonValue::Bool(b),
        serde_json::Value::Number(n) => JsonValue::Number(n.to_string()),
        serde_json::Value::String(s) => JsonValue::String(s),
        serde_json::Value::Array(items) => {
            JsonValue::Array(items.into_iter().map(to_library).collect())
        }
        serde_json::Value::Object(fields) => {
            JsonValue::Object(fields.into_iter().map(|(k, v)| (k, to_library(v))).collect())
        }
    }
}

fn parse_json(bytes: &[u8]) -> Option<JsonValue> {
    serde_json::from_slice(bytes).ok().map(to_library)
}
