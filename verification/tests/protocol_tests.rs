use base64::Engine;

use simplefetch::bridge::{AppConnectionStatus, Bridge};
use simplefetch::http::{HeaderMap, HttpResponse};
use simplefetch::json::{JsonNumber, JsonValue};
use simplefetch::protocol::{
    disconnect_app, execute_and_respond, handle_interconnect_message, handle_sf_message, handle_timer_payload, parse_message,
    plan_request, stream_event, stream_finished, timer_payload_text, Action, OutMessage,
};
use simplefetch::sse::SseEvent;
use simplefetch::state::{InstalledApp, PluginState};
use simplefetch::streams::SseRegistry;

fn s(t: &str) -> JsonValue {
    JsonValue::Str(t.to_string())
}

fn obj(members: Vec<(&str, JsonValue)>) -> JsonValue {
    JsonValue::Object(
        members.into_iter().map(|(k, v)| (k.to_string(), v)).collect(),
        String::new(),
    )
}

fn world() -> (PluginState, Bridge, SseRegistry) {
    (PluginState::new(), Bridge::new(), SseRegistry::new())
}

fn sent(a: &Action) -> Option<&OutMessage> {
    match a {
        Action::Send { message, .. } => Some(message),
        _ => None,
    }
}

#[test]
fn handshake_from_app_connects_and_acks() {
    let (mut st, mut br, mut reg) = world();
    let msg = obj(vec![("type", s("SF_HANDSHAKE")), ("data", obj(vec![]))]);
    let acts = handle_sf_message(&mut st, &mut br, &mut reg, "AA:BB", "com.demo", msg, 1000);
    assert_eq!(br.connection_status("AA:BB", "com.demo"), AppConnectionStatus::Connected);
    assert!(!br.is_handshake_pending("AA:BB", "com.demo"));
    assert!(matches!(acts[0], Action::RegisterReceiver { .. }));
    assert!(matches!(acts[1], Action::Persist));
    assert!(matches!(sent(&acts[2]), Some(OutMessage::HandshakeAck)));
    assert!(matches!(acts[3], Action::Render));
    assert_eq!(acts.len(), 4);
    assert!(simplefetch::state::is_monitored(&st, "com.demo"));
}

#[test]
fn handshake_settles_pending_timer() {
    let (mut st, mut br, mut reg) = world();
    assert_eq!(br.insert_pending_handshake("A", "p", 42), None);
    let msg = obj(vec![("type", s("SF_HANDSHAKE"))]);
    let acts = handle_sf_message(&mut st, &mut br, &mut reg, "A", "p", msg, 5);
    assert!(matches!(acts[0], Action::ClearTimer(42)));
    assert!(!br.is_handshake_pending("A", "p"));
}

#[test]
fn message_from_unconnected_app_is_dropped() {
    let (mut st, mut br, mut reg) = world();
    let msg = obj(vec![("type", s("SF_PING")), ("data", obj(vec![("ts", s("x"))]))]);
    let acts = handle_sf_message(&mut st, &mut br, &mut reg, "A", "p", msg, 5);
    assert!(acts.is_empty());
    assert_eq!(br.connection_status("A", "p"), AppConnectionStatus::Disconnected);
}

#[test]
fn ping_is_answered_with_its_ts() {
    let (mut st, mut br, mut reg) = world();
    br.set_connection_status("A", "p", AppConnectionStatus::Connected, 0);
    let msg = obj(vec![
        ("type", s("SF_PING")),
        ("data", obj(vec![("ts", JsonValue::Number(JsonNumber::PosInt(1234)))])),
    ]);
    let acts = handle_sf_message(&mut st, &mut br, &mut reg, "A", "p", msg, 99);
    match sent(&acts[0]) {
        Some(OutMessage::Pong(JsonValue::Number(JsonNumber::PosInt(1234)))) => {}
        _ => panic!("expected a pong with ts 1234"),
    }
    assert!(matches!(acts[1], Action::Render));
    assert_eq!(br.stale_connections(30000, 99 + 30000).len(), 0);
    assert_eq!(br.stale_connections(30000, 99 + 30001).len(), 1);
}

#[test]
fn ping_without_ts_answers_zero() {
    let (mut st, mut br, mut reg) = world();
    br.set_connection_status("A", "p", AppConnectionStatus::Connected, 0);
    let msg = obj(vec![("type", s("SF_PING"))]);
    let acts = handle_sf_message(&mut st, &mut br, &mut reg, "A", "p", msg, 1);
    assert!(matches!(sent(&acts[0]), Some(OutMessage::Pong(JsonValue::Number(JsonNumber::PosInt(0))))));
}

#[test]
fn ack_without_pending_does_nothing_but_redraw() {
    let (mut st, mut br, mut reg) = world();
    br.set_connection_status("A", "p", AppConnectionStatus::Handshaking, 0);
    let msg = obj(vec![("type", s("SF_HANDSHAKE_ACK")), ("status", s("OK"))]);
    let acts = handle_sf_message(&mut st, &mut br, &mut reg, "A", "p", msg, 1);
    assert_eq!(acts.len(), 1);
    assert!(matches!(acts[0], Action::Render));
    assert_eq!(br.connection_status("A", "p"), AppConnectionStatus::Handshaking);
}

#[test]
fn ack_with_pending_connects_and_alerts_with_label() {
    let (mut st, mut br, mut reg) = world();
    simplefetch::state::set_installed_apps(
        &mut st,
        vec![InstalledApp {
            addr: "A".to_string(),
            device_name: "Watch".to_string(),
            package_name: "p".to_string(),
            app_name: "Demo".to_string(),
            version_code: 3,
        }],
    );
    br.set_connection_status("A", "p", AppConnectionStatus::Handshaking, 0);
    br.insert_pending_handshake("A", "p", 7);
    let msg = obj(vec![("type", s("SF_HANDSHAKE_ACK")), ("status", s("OK"))]);
    let acts = handle_sf_message(&mut st, &mut br, &mut reg, "A", "p", msg, 1);
    assert!(matches!(acts[0], Action::ClearTimer(7)));
    match &acts[3] {
        Action::Alert { title, text } => {
            assert_eq!(title, "连接成功");
            assert_eq!(text, "Demo(p)");
        }
        _ => panic!("expected an alert"),
    }
    assert_eq!(br.connection_status("A", "p"), AppConnectionStatus::Connected);
}

#[test]
fn request_without_url_gets_error() {
    let (mut st, mut br, mut reg) = world();
    br.set_connection_status("A", "p", AppConnectionStatus::Connected, 0);
    let msg = obj(vec![("type", s("SF_REQUEST")), ("data", obj(vec![("id", s("sf_9"))]))]);
    let acts = handle_sf_message(&mut st, &mut br, &mut reg, "A", "p", msg, 1);
    match sent(&acts[0]) {
        Some(OutMessage::Error { id, status_code, error }) => {
            assert_eq!(id, "sf_9");
            assert_eq!(*status_code, 0);
            assert_eq!(error, "请求缺少url字段");
        }
        _ => panic!("expected an error"),
    }
}

#[test]
fn request_is_planned_with_defaults() {
    let data = obj(vec![("id", s("sf_1")), ("url", s("https://api.example.com/data"))]);
    let plan = plan_request(&data).ok().unwrap();
    assert_eq!(plan.id, "sf_1");
    assert_eq!(plan.method, "GET");
    assert!(!plan.sse);
    assert_eq!(plan.timeout_ms, 15000);
    assert!(plan.body.is_none());
    assert_eq!(plan.headers.len(), 0);
}

#[test]
fn request_plan_reads_every_field() {
    let data = obj(vec![
        ("id", s("sf_1")),
        ("url", s("https://api.example.com/data")),
        ("method", s("POST")),
        ("headers", obj(vec![("Content-Type", s("application/json")), ("X-N", JsonValue::Number(JsonNumber::PosInt(5)))])),
        ("body", s("{\"key\":\"value\"}")),
        ("sse", JsonValue::Bool(true)),
        ("timeout", JsonValue::Number(JsonNumber::PosInt(10000))),
    ]);
    let plan = plan_request(&data).ok().unwrap();
    assert_eq!(plan.method, "POST");
    assert!(plan.sse);
    assert_eq!(plan.timeout_ms, 10000);
    assert_eq!(plan.body.as_deref(), Some("{\"key\":\"value\"}".as_bytes()));
    assert_eq!(plan.headers.get("Content-Type"), Some("application/json".to_string()));
    assert_eq!(plan.headers.get("X-N"), Some("5".to_string()));
    assert_eq!(plan.headers.len(), 2);
}

#[test]
fn body_without_content_type_gets_one() {
    let json = obj(vec![("url", s("http://x/")), ("body", s("[1,2]"))]);
    let plan = plan_request(&json).ok().unwrap();
    assert_eq!(plan.headers.get("Content-Type"), Some("application/json".to_string()));
    let text = obj(vec![("url", s("http://x/")), ("body", s("hello"))]);
    let plan = plan_request(&text).ok().unwrap();
    assert_eq!(plan.headers.get("Content-Type"), Some("text/plain".to_string()));
    let named = obj(vec![
        ("url", s("http://x/")),
        ("body", s("{}")),
        ("headers", obj(vec![("content-type", s("text/csv"))])),
    ]);
    let plan = plan_request(&named).ok().unwrap();
    assert_eq!(plan.headers.len(), 1);
    assert_eq!(plan.headers.get("content-type"), Some("text/csv".to_string()));
}

#[test]
fn timeout_is_truncated_to_u32() {
    let data = obj(vec![("url", s("http://x/")), ("timeout", JsonValue::Number(JsonNumber::PosInt(4294967296 + 7)))]);
    assert_eq!(plan_request(&data).ok().unwrap().timeout_ms, 7);
}

#[test]
fn request_is_counted_and_fetched() {
    let (mut st, mut br, mut reg) = world();
    br.set_connection_status("A", "p", AppConnectionStatus::Connected, 0);
    let msg = obj(vec![("type", s("SF_REQUEST")), ("data", obj(vec![("id", s("r")), ("url", s("http://h/x"))]))]);
    let acts = handle_sf_message(&mut st, &mut br, &mut reg, "A", "p", msg, 77);
    assert!(matches!(acts[0], Action::Persist));
    match &acts[1] {
        Action::Fetch { addr, pkg, plan } => {
            assert_eq!(addr, "A");
            assert_eq!(pkg, "p");
            assert_eq!(plan.url, "http://h/x");
        }
        _ => panic!("expected a fetch"),
    }
    let apps = simplefetch::state::snapshot_apps(&st);
    assert_eq!(apps.len(), 1);
    assert_eq!(apps[0].request_count, 1);
    assert_eq!(apps[0].last_seen_unix_ms, Some(77));
    assert_eq!(apps[0].last_addr.as_deref(), Some("A"));
    assert_eq!(apps[0].last_url.as_deref(), Some("http://h/x"));
}

#[test]
fn close_bridge_ack_disconnects() {
    let (mut st, mut br, mut reg) = world();
    br.set_connection_status("A", "p", AppConnectionStatus::Connected, 0);
    let msg = obj(vec![("type", s("SF_CLOSE_BRIDGE_ACK"))]);
    let acts = handle_sf_message(&mut st, &mut br, &mut reg, "A", "p", msg, 1);
    assert!(matches!(acts[0], Action::Persist));
    assert_eq!(br.connection_status("A", "p"), AppConnectionStatus::Disconnected);
    assert!(!simplefetch::state::is_enabled(&st, "p"));
}

#[test]
fn close_cancels_the_stream() {
    let (mut st, mut br, mut reg) = world();
    br.set_connection_status("A", "p", AppConnectionStatus::Connected, 0);
    reg.register_sse("A", "p", "s1");
    let msg = obj(vec![("type", s("SF_CLOSE")), ("data", obj(vec![("id", s("s1"))]))]);
    handle_sf_message(&mut st, &mut br, &mut reg, "A", "p", msg, 1);
    assert!(reg.is_cancelled("s1"));
}

#[test]
fn envelope_is_read() {
    let env = obj(vec![("payloadText", s("{\"type\":\"SF_PING\"}")), ("pkgName", s("p")), ("addr", s("A"))]);
    let m = parse_message(Some(&env), "raw");
    assert_eq!(m.data, "{\"type\":\"SF_PING\"}");
    assert_eq!(m.pkg_name, "p");
    assert_eq!(m.addr, "A");
    assert!(m.has_source());
    let m = parse_message(None, "raw");
    assert_eq!(m.data, "raw");
    assert!(!m.has_source());
}

#[test]
fn timer_payload_is_unwrapped() {
    let env = obj(vec![("timerId", JsonValue::Number(JsonNumber::PosInt(1))), ("payload", s("{\"kind\":\"heartbeat\"}"))]);
    assert_eq!(timer_payload_text(Some(&env), "raw"), "{\"kind\":\"heartbeat\"}");
    assert_eq!(timer_payload_text(None, "raw"), "raw");
}

#[test]
fn handshake_timeout_fails_pending_link() {
    let mut br = Bridge::new();
    br.set_connection_status("A", "p", AppConnectionStatus::Handshaking, 0);
    br.insert_pending_handshake("A", "p", 3);
    let payload = obj(vec![("kind", s("hs_timeout")), ("addr", s("A")), ("pkg", s("p"))]);
    let acts = handle_timer_payload(&mut br, Some(&payload), 10);
    assert_eq!(br.connection_status("A", "p"), AppConnectionStatus::Failed);
    assert_eq!(br.failure_reason("A", "p").as_deref(), Some("握手超时，未收到响应"));
    match &acts[1] {
        Action::Alert { title, text } => {
            assert_eq!(title, "连接失败");
            assert_eq!(text, "握手超时，未收到响应");
        }
        _ => panic!("expected an alert"),
    }
    let again = handle_timer_payload(&mut br, Some(&payload), 11);
    assert!(again.is_empty());
}

#[test]
fn heartbeat_closes_silent_links_only() {
    let mut br = Bridge::new();
    br.set_connection_status("A", "old", AppConnectionStatus::Connected, 0);
    br.set_connection_status("A", "fresh", AppConnectionStatus::Connected, 0);
    br.record_ping("A", "fresh", 20000);
    let payload = obj(vec![("kind", s("heartbeat"))]);
    let acts = handle_timer_payload(&mut br, Some(&payload), 40000);
    assert_eq!(br.connection_status("A", "old"), AppConnectionStatus::Disconnected);
    assert_eq!(br.connection_status("A", "fresh"), AppConnectionStatus::Connected);
    assert_eq!(acts.len(), 3);
    assert!(matches!(sent(&acts[0]), Some(OutMessage::CloseBridge)));
    assert!(matches!(acts[1], Action::Persist));
    assert!(matches!(acts[2], Action::Render));
}

#[test]
fn unknown_timer_is_ignored() {
    let mut br = Bridge::new();
    let payload = obj(vec![("kind", s("other"))]);
    assert!(handle_timer_payload(&mut br, Some(&payload), 1).is_empty());
    assert!(handle_timer_payload(&mut br, None, 1).is_empty());
}

#[test]
fn disconnect_closes_connected_app() {
    let (mut st, mut br, mut reg) = world();
    let app = InstalledApp {
        addr: "A".to_string(),
        device_name: "W".to_string(),
        package_name: "p".to_string(),
        app_name: "".to_string(),
        version_code: 1,
    };
    br.set_connection_status("A", "p", AppConnectionStatus::Connected, 0);
    br.insert_pending_handshake("A", "p", 9);
    reg.register_sse("A", "p", "s1");
    reg.register_sse("A", "q", "s2");
    let acts = disconnect_app(&mut st, &mut br, &mut reg, &app, 5);
    assert!(matches!(acts[0], Action::ClearTimer(9)));
    assert!(matches!(sent(&acts[1]), Some(OutMessage::CloseBridge)));
    assert!(matches!(acts[2], Action::Persist));
    assert!(matches!(acts[3], Action::Render));
    assert!(reg.is_cancelled("s1"));
    assert!(!reg.is_cancelled("s2"));
    assert_eq!(br.connection_status("A", "p"), AppConnectionStatus::Disconnected);
    assert!(!br.is_handshake_pending("A", "p"));
}

#[test]
fn disconnect_of_handshaking_app_sends_nothing() {
    let (mut st, mut br, mut reg) = world();
    let app = InstalledApp {
        addr: "A".to_string(),
        device_name: "W".to_string(),
        package_name: "p".to_string(),
        app_name: "".to_string(),
        version_code: 1,
    };
    br.set_connection_status("A", "p", AppConnectionStatus::Handshaking, 0);
    let acts = disconnect_app(&mut st, &mut br, &mut reg, &app, 5);
    assert_eq!(acts.len(), 2);
    assert!(acts.iter().all(|a| sent(a).is_none()));
}

fn headers(pairs: &[(&str, &str)]) -> HeaderMap {
    let mut h = HeaderMap::new();
    for (k, v) in pairs {
        h.insert(k.to_string(), v.to_string());
    }
    h
}

#[test]
fn small_response_is_sent_whole() {
    let mut st = PluginState::new();
    let resp = HttpResponse {
        status_code: 200,
        headers: headers(&[("content-type", "application/json"), ("content-length", "15"), ("connection", "close")]),
        body: b"{\"result\":\"ok\"}".to_vec(),
    };
    let acts = execute_and_respond(&mut st, "A", "p", "sf_1", Ok(resp));
    assert_eq!(acts.len(), 2);
    assert!(matches!(acts[0], Action::Persist));
    match sent(&acts[1]) {
        Some(OutMessage::Response { id, head, frame }) => {
            assert_eq!(id, "sf_1");
            let (status_code, h) = head.as_ref().unwrap();
            assert_eq!(*status_code, 200);
            assert_eq!(h.len(), 1);
            assert_eq!(h.get("content-type"), Some("application/json".to_string()));
            assert_eq!(frame.body, "{\"result\":\"ok\"}");
            assert_eq!(frame.chunk, 0);
            assert_eq!(frame.total_chunks, 0);
        }
        _ => panic!("expected a response"),
    }
    let apps = simplefetch::state::snapshot_apps(&st);
    assert_eq!(apps[0].success_count, 1);
    assert_eq!(apps[0].last_status.as_deref(), Some("HTTP 200"));
}

#[test]
fn large_response_is_chunked_in_base64() {
    let mut st = PluginState::new();
    let body: Vec<u8> = (0..40000u32).map(|i| (i % 251) as u8).collect();
    let resp = HttpResponse { status_code: 404, headers: HeaderMap::new(), body: body.clone() };
    let acts = execute_and_respond(&mut st, "A", "p", "big", Ok(resp));
    let encoded = base64::engine::general_purpose::STANDARD.encode(&body);
    let expected_chunks = (encoded.len() + 12287) / 12288;
    assert_eq!(acts.len(), expected_chunks + 1);
    assert!(matches!(acts[0], Action::Persist));
    let mut joined = String::new();
    for (i, a) in acts.iter().skip(1).enumerate() {
        match sent(a) {
            Some(OutMessage::Response { head, frame, .. }) => {
                assert_eq!(frame.chunk, i + 1);
                assert_eq!(frame.total_chunks, expected_chunks);
                assert_eq!(head.is_some(), i == 0);
                assert_eq!(frame.first, i == 0);
                joined.push_str(&frame.body);
            }
            _ => panic!("expected a response"),
        }
    }
    assert_eq!(joined, encoded);
    let apps = simplefetch::state::snapshot_apps(&st);
    assert_eq!(apps[0].error_count, 1);
    assert_eq!(apps[0].last_status.as_deref(), Some("HTTP 404"));
}

#[test]
fn failed_request_is_worded() {
    let mut st = PluginState::new();
    let acts = execute_and_respond(&mut st, "A", "p", "x", Err("connection timeout".to_string()));
    match sent(&acts[1]) {
        Some(OutMessage::Error { id, status_code, error }) => {
            assert_eq!(id, "x");
            assert_eq!(*status_code, 0);
            assert_eq!(error, "请求超时");
        }
        _ => panic!("expected an error"),
    }
    let apps = simplefetch::state::snapshot_apps(&st);
    assert_eq!(apps[0].last_status.as_deref(), Some("connection timeout"));
}

#[test]
fn stream_events_default_to_message() {
    let ev = SseEvent { event: String::new(), data: "hi".to_string() };
    match stream_event("A", "p", "s", &ev) {
        Action::Send { message: OutMessage::SseEvent { id, event, data }, .. } => {
            assert_eq!(id, "s");
            assert_eq!(event, "message");
            assert_eq!(data, "hi");
        }
        _ => panic!("expected an event"),
    }
}

#[test]
fn stream_end_cases() {
    let mut st = PluginState::new();
    let mut reg = SseRegistry::new();
    reg.register_sse("A", "p", "s");
    let acts = stream_finished(&mut st, &mut reg, "A", "p", "s", Ok(()));
    assert!(matches!(sent(&acts[0]), Some(OutMessage::SseEnd { .. })));
    assert_eq!(simplefetch::state::snapshot_apps(&st)[0].last_status.as_deref(), Some("SSE完成"));

    reg.register_sse("A", "p", "t");
    reg.cancel_sse("t");
    let acts = stream_finished(&mut st, &mut reg, "A", "p", "t", Err("broken".to_string()));
    assert!(matches!(sent(&acts[0]), Some(OutMessage::SseEnd { .. })));

    reg.register_sse("A", "p", "u");
    let acts = stream_finished(&mut st, &mut reg, "A", "p", "u", Err("broken".to_string()));
    assert!(matches!(acts[0], Action::Persist));
    match sent(&acts[1]) {
        Some(OutMessage::SseError { id, error }) => {
            assert_eq!(id, "u");
            assert_eq!(error, "broken");
        }
        _ => panic!("expected a stream error"),
    }
    assert!(!reg.is_cancelled("u"));
    assert_eq!(simplefetch::state::snapshot_apps(&st)[0].error_count, 1);
}

#[test]
fn message_without_source_is_dropped() {
    let (mut st, mut br, mut reg) = world();
    let env = obj(vec![("payloadText", s("{\"type\":\"SF_HANDSHAKE\"}")), ("pkgName", s("p"))]);
    let parsed = parse_message(Some(&env), "raw");
    let msg = obj(vec![("type", s("SF_HANDSHAKE"))]);
    let acts = handle_interconnect_message(&mut st, &mut br, &mut reg, &parsed, Some(msg), 1);
    assert!(acts.is_empty());
    let env = obj(vec![("payloadText", s("not json")), ("pkgName", s("p")), ("addr", s("A"))]);
    let parsed = parse_message(Some(&env), "raw");
    assert!(handle_interconnect_message(&mut st, &mut br, &mut reg, &parsed, None, 1).is_empty());
    let msg = obj(vec![("type", s("SF_HANDSHAKE"))]);
    let acts = handle_interconnect_message(&mut st, &mut br, &mut reg, &parsed, Some(msg), 1);
    assert_eq!(acts.len(), 4);
    assert_eq!(br.connection_status("A", "p"), AppConnectionStatus::Connected);
}
