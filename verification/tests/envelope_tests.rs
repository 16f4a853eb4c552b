use simplefetch::bridge::{AppConnectionStatus, Bridge};
use simplefetch::envelope::{handshake_timer_value, heartbeat_timer_value, message_value};
use simplefetch::http::HeaderMap;
use simplefetch::json::{get, get_str, get_u64, JsonNumber, JsonValue};
use simplefetch::protocol::{handle_timer_payload, OutMessage};
use simplefetch::response::ResponseFrame;

fn frame(chunk: usize, total: usize, body: &str, first: bool) -> ResponseFrame {
    ResponseFrame { chunk, total_chunks: total, body: body.to_string(), first }
}

#[test]
fn handshake_ack_envelope() {
    let v = message_value(OutMessage::HandshakeAck);
    assert_eq!(get_str(&v, "type").as_deref(), Some("SF_HANDSHAKE_ACK"));
    assert_eq!(get_str(&v, "status").as_deref(), Some("OK"));
    assert!(matches!(get(&v, "data"), Some(JsonValue::Object(m, _)) if m.is_empty()));
    let v = message_value(OutMessage::Handshake);
    assert!(get(&v, "status").is_none());
}

#[test]
fn first_chunk_carries_status_and_headers_only() {
    let mut h = HeaderMap::new();
    h.insert("content-type".to_string(), "text/plain".to_string());
    let first = message_value(OutMessage::Response { id: "r".to_string(), head: Some((200, h)), frame: frame(1, 2, "AAAA", true) });
    let data = get(&first, "data").unwrap();
    assert_eq!(get_u64(data, "statusCode"), Some(200));
    assert_eq!(get_u64(data, "chunk"), Some(1));
    assert_eq!(get_u64(data, "totalChunks"), Some(2));
    assert_eq!(get_str(get(data, "headers").unwrap(), "content-type").as_deref(), Some("text/plain"));
    let later = message_value(OutMessage::Response { id: "r".to_string(), head: None, frame: frame(2, 2, "BB==", false) });
    let data = get(&later, "data").unwrap();
    assert!(get(data, "statusCode").is_none());
    assert!(get(data, "headers").is_none());
    assert_eq!(get_str(data, "body").as_deref(), Some("BB=="));
    assert_eq!(get_str(data, "id").as_deref(), Some("r"));
}

#[test]
fn error_status_is_the_error() {
    let v = message_value(OutMessage::Error { id: "x".to_string(), status_code: 0, error: "请求超时".to_string() });
    assert_eq!(get_str(&v, "type").as_deref(), Some("SF_RESPONSE"));
    assert_eq!(get_str(&v, "status").as_deref(), Some("请求超时"));
    let data = get(&v, "data").unwrap();
    assert_eq!(get_u64(data, "statusCode"), Some(0));
    assert_eq!(get_str(data, "error").as_deref(), Some("请求超时"));
}

#[test]
fn pong_carries_ts() {
    let v = message_value(OutMessage::Pong(JsonValue::Number(JsonNumber::PosInt(17))));
    assert_eq!(get_str(&v, "type").as_deref(), Some("SF_PONG"));
    assert_eq!(get_u64(get(&v, "data").unwrap(), "ts"), Some(17));
}

#[test]
fn stream_messages() {
    let v = message_value(OutMessage::SseEvent { id: "s".to_string(), event: "message".to_string(), data: "d".to_string() });
    assert_eq!(get_str(get(&v, "data").unwrap(), "event").as_deref(), Some("message"));
    let v = message_value(OutMessage::SseError { id: "s".to_string(), error: "e".to_string() });
    assert_eq!(get_str(&v, "status").as_deref(), Some("e"));
    let v = message_value(OutMessage::SseEnd { id: "s".to_string() });
    assert_eq!(get_str(get(&v, "data").unwrap(), "id").as_deref(), Some("s"));
}

#[test]
fn timer_payloads_read_back() {
    let mut b = Bridge::new();
    b.set_connection_status("A", "p", AppConnectionStatus::Handshaking, 0);
    b.insert_pending_handshake("A", "p", 4);
    let v = handshake_timer_value("A", "p");
    let acts = handle_timer_payload(&mut b, Some(&v), 1);
    assert_eq!(acts.len(), 2);
    assert_eq!(b.connection_status("A", "p"), AppConnectionStatus::Failed);
    b.set_connection_status("A", "q", AppConnectionStatus::Connected, 0);
    let acts = handle_timer_payload(&mut b, Some(&heartbeat_timer_value()), 100_000);
    assert_eq!(acts.len(), 3);
    assert_eq!(b.connection_status("A", "q"), AppConnectionStatus::Disconnected);
}
