use std::io::Write;

use simplefetch::bridge::{AppConnectionStatus, Bridge};
use simplefetch::http::{
    check_sse_status, classify_network_error, collect_response_headers, connect_timeout_ns,
    decompress_if_needed, filter_response_headers, header_entries, http_method, is_success_status,
    request_target, HeaderMap, HttpMethod, Scheme,
};
use simplefetch::icons;
use simplefetch::json::{decimal_string, parse_headers, JsonNumber, JsonValue};
use simplefetch::protocol::{begin_connect, handshake_timer_armed, launch_finished, reconnect_packages, relay_events, Action};
use simplefetch::refresh::{
    apply_device_list, apply_installed_apps, auto_refresh, begin_reconnect, reconnect_targets,
    sort_installed_apps,
};
use simplefetch::response::response_frames;
use simplefetch::sse::{extract_last_event_field, find_event_boundary, parse_sse_event, SseEvent, SseParser};
use simplefetch::state::{
    ensure_app, first_device_addr_for, install_loaded_apps, is_enabled, pkg_names, record_result,
    remove_app, set_connected_devices, set_enabled, set_installed_apps, snapshot_apps, switch_tab,
    take_pending_add, set_pending_add, AppEntry, InstalledApp, MainTab, PluginState,
};
use simplefetch::streams::SseRegistry;
use simplefetch::ui::{parse_index, render_status_card, ui_event_processor, UiCommand};

fn app(addr: &str, device: &str, pkg: &str, name: &str) -> InstalledApp {
    InstalledApp {
        addr: addr.to_string(),
        device_name: device.to_string(),
        package_name: pkg.to_string(),
        app_name: name.to_string(),
        version_code: 1,
    }
}

#[test]
fn icons_are_svg() {
    for svg in [
        icons::device_svg(),
        icons::connect_tab_svg(),
        icons::about_tab_svg(),
        icons::help_svg(),
        icons::qq_group_svg(),
        icons::more_link_svg(),
        icons::time_svg(),
        icons::user_svg(),
        icons::branch_svg(),
        icons::hash_svg(),
    ] {
        assert!(svg.starts_with("<svg"));
        assert!(svg.ends_with("</svg>"));
    }
}

#[test]
fn entries_are_added_once_and_removed() {
    let mut st = PluginState::new();
    assert!(ensure_app(&mut st, "b.pkg"));
    assert!(!ensure_app(&mut st, "b.pkg"));
    assert!(ensure_app(&mut st, "a.pkg"));
    assert_eq!(pkg_names(&st), vec!["a.pkg".to_string(), "b.pkg".to_string()]);
    assert!(remove_app(&mut st, "b.pkg"));
    assert!(!remove_app(&mut st, "b.pkg"));
    assert_eq!(pkg_names(&st), vec!["a.pkg".to_string()]);
}

#[test]
fn saved_list_reloads_as_it_was() {
    let mut st = PluginState::new();
    ensure_app(&mut st, "z");
    set_enabled(&mut st, "y", false);
    record_result(&mut st, "z", true, Some("HTTP 200".to_string()));
    let saved = snapshot_apps(&st);
    let mut fresh = PluginState::new();
    install_loaded_apps(&mut fresh, saved);
    let again = snapshot_apps(&fresh);
    assert_eq!(again.len(), 2);
    assert_eq!(again[0].pkg_name, "y");
    assert!(!again[0].enabled);
    assert_eq!(again[1].success_count, 1);
    assert!(!is_enabled(&fresh, "y"));
    assert!(is_enabled(&fresh, "unknown"));
}

#[test]
fn counters_saturate() {
    let mut st = PluginState::new();
    let mut e = AppEntry::new("p");
    e.error_count = u64::MAX;
    install_loaded_apps(&mut st, vec![e]);
    record_result(&mut st, "p", false, None);
    assert_eq!(snapshot_apps(&st)[0].error_count, u64::MAX);
}

#[test]
fn device_for_app_prefers_last_address() {
    let mut st = PluginState::new();
    assert_eq!(first_device_addr_for(&st, "p"), None);
    set_connected_devices(&mut st, vec![("D1".to_string(), "Watch".to_string())]);
    assert_eq!(first_device_addr_for(&st, "p"), Some("D1".to_string()));
    simplefetch::state::record_request_at(&mut st, "p", "D2", None, 5);
    assert_eq!(first_device_addr_for(&st, "p"), Some("D2".to_string()));
}

#[test]
fn pending_input_is_taken_once() {
    let mut st = PluginState::new();
    set_pending_add(&mut st, "com.x".to_string());
    assert_eq!(take_pending_add(&mut st), "com.x");
    assert_eq!(take_pending_add(&mut st), "");
    switch_tab(&mut st, MainTab::About);
    assert!(st.current_tab() == MainTab::About);
}

#[test]
fn auto_refresh_is_throttled() {
    let mut st = PluginState::new();
    assert!(auto_refresh(&mut st, 10_000));
    assert!(!auto_refresh(&mut st, 11_000));
    assert!(auto_refresh(&mut st, 11_500));
}

#[test]
fn hop_by_hop_headers_are_dropped() {
    let mut h = HeaderMap::new();
    for (k, v) in [("Content-Type", "text/html"), ("Transfer-Encoding", "chunked"), ("Keep-Alive", "5"), ("X-A", "1")] {
        h.insert(k.to_string(), v.to_string());
    }
    let f = filter_response_headers(&h);
    assert_eq!(f.len(), 2);
    assert_eq!(f.get("Content-Type"), Some("text/html".to_string()));
    assert_eq!(f.get("X-A"), Some("1".to_string()));
    assert_eq!(f.get("Transfer-Encoding"), None);
}

#[test]
fn header_insert_replaces() {
    let mut h = HeaderMap::new();
    h.insert("a".to_string(), "1".to_string());
    h.insert("a".to_string(), "2".to_string());
    assert_eq!(h.len(), 1);
    assert_eq!(h.get("a"), Some("2".to_string()));
    let e = header_entries(&h);
    assert_eq!(e, vec![("a".to_string(), b"2".to_vec())]);
}

#[test]
fn network_errors_are_worded() {
    assert_eq!(classify_network_error("Connection TIMEOUT"), "请求超时");
    assert_eq!(classify_network_error("请求超时了"), "请求超时");
    assert_eq!(classify_network_error("dns lookup failed"), "DNS解析失败");
    assert_eq!(classify_network_error("cannot resolve host"), "DNS解析失败");
    assert_eq!(classify_network_error("connection refused"), "连接被拒绝");
    assert_eq!(classify_network_error("host unreachable"), "网络不可达");
    assert_eq!(classify_network_error("Network down"), "网络不可达");
    assert_eq!(classify_network_error("boom"), "网络错误: boom");
}

#[test]
fn status_and_timeout_helpers() {
    assert!(is_success_status(200));
    assert!(is_success_status(299));
    assert!(!is_success_status(300));
    assert!(!is_success_status(199));
    assert_eq!(connect_timeout_ns(15000), 15_000_000_000);
    assert!(check_sse_status(204).is_ok());
    assert_eq!(check_sse_status(500), Err("SSE 连接失败，状态码: 500".to_string()));
}

#[test]
fn methods_are_matched_without_case() {
    assert!(matches!(http_method("get"), HttpMethod::Get));
    assert!(matches!(http_method("Patch"), HttpMethod::Patch));
    match http_method("purge") {
        HttpMethod::Other(m) => assert_eq!(m, "PURGE"),
        _ => panic!("expected another method"),
    }
}

#[test]
fn request_target_splits_the_url() {
    let t = request_target("post", "https://api.example.com:8443/v1/data?x=1&y=2").ok().unwrap();
    assert!(matches!(t.method, HttpMethod::Post));
    assert!(t.scheme == Scheme::Https);
    assert_eq!(t.authority, "api.example.com:8443");
    assert_eq!(t.path_with_query, "/v1/data?x=1&y=2");
    let t = request_target("GET", "http://h/").ok().unwrap();
    assert!(t.scheme == Scheme::Http);
    assert_eq!(t.path_with_query, "/");
    let e = request_target("GET", "not a url").err().unwrap();
    assert!(e.starts_with("URL解析失败: "));
}

#[test]
fn response_headers_are_lowercased() {
    let raw = vec![
        ("Content-Type".to_string(), b"text/plain".to_vec()),
        ("X-Bad".to_string(), vec![0xff, 0xfe]),
    ];
    let h = collect_response_headers(&raw);
    assert_eq!(h.get("content-type"), Some("text/plain".to_string()));
    assert_eq!(h.len(), 1);
}

#[test]
fn gzip_body_is_decompressed() {
    let mut enc = flate2::write::GzEncoder::new(Vec::new(), flate2::Compression::default());
    enc.write_all(b"hello world").unwrap();
    let gz = enc.finish().unwrap();
    let h = HeaderMap::new();
    assert_eq!(decompress_if_needed(&gz, &h), b"hello world".to_vec());
    assert_eq!(decompress_if_needed(b"plain", &h), b"plain".to_vec());
}

#[test]
fn deflate_body_is_decompressed_when_named() {
    let mut enc = flate2::write::DeflateEncoder::new(Vec::new(), flate2::Compression::default());
    enc.write_all(b"deflated").unwrap();
    let raw = enc.finish().unwrap();
    let mut h = HeaderMap::new();
    h.insert("content-encoding".to_string(), "deflate".to_string());
    assert_eq!(decompress_if_needed(&raw, &h), b"deflated".to_vec());
    assert_eq!(decompress_if_needed(&raw, &HeaderMap::new()), raw);
}

#[test]
fn frames_of_small_and_binary_bodies() {
    let f = response_frames(b"ok");
    assert_eq!(f.len(), 1);
    assert_eq!(f[0].body, "ok");
    assert_eq!(f[0].chunk, 0);
    let f = response_frames(&[0xff, 0x00]);
    assert_eq!(f.len(), 1);
    assert_eq!(f[0].body, "/wA=");
    assert_eq!(f[0].chunk, 1);
    assert_eq!(f[0].total_chunks, 1);
    let big = vec![b'a'; 16385];
    let f = response_frames(&big);
    assert_eq!(f.len(), 2);
}

#[test]
fn headers_from_json_object() {
    let v = JsonValue::Object(
        vec![
            ("A".to_string(), JsonValue::Str("x".to_string())),
            ("B".to_string(), JsonValue::Bool(true)),
            ("C".to_string(), JsonValue::Number(JsonNumber::NegInt(-12))),
            ("D".to_string(), JsonValue::Null),
        ],
        String::new(),
    );
    let h = parse_headers(Some(&v));
    assert_eq!(h.get("A"), Some("x".to_string()));
    assert_eq!(h.get("B"), Some("true".to_string()));
    assert_eq!(h.get("C"), Some("-12".to_string()));
    assert_eq!(h.get("D"), Some("null".to_string()));
    assert_eq!(parse_headers(Some(&JsonValue::Str("x".to_string()))).len(), 0);
    assert_eq!(parse_headers(None).len(), 0);
    assert_eq!(decimal_string(0), "0");
    assert_eq!(decimal_string(1234567890), "1234567890");
}

#[test]
fn sse_boundaries() {
    assert_eq!(find_event_boundary(b"data: a\n\nrest"), Some(9));
    assert_eq!(find_event_boundary(b"data: a\r\n\r\nrest"), Some(11));
    assert_eq!(find_event_boundary(b"data: a\n"), None);
    assert_eq!(find_event_boundary(b""), None);
}

#[test]
fn sse_event_fields() {
    assert_eq!(
        parse_sse_event(b"event: update\ndata: one\ndata:two\n\n", "message"),
        Some(("update".to_string(), "one\ntwo".to_string()))
    );
    assert_eq!(parse_sse_event(b"id: 3\nretry: 10\n\n", "message"), None);
    assert_eq!(parse_sse_event(b"data: x\r\n\r\n", "ping"), Some(("ping".to_string(), "x".to_string())));
    assert_eq!(extract_last_event_field(b"event: a\nevent:  b \ndata: x"), Some("b".to_string()));
    assert_eq!(extract_last_event_field(b"data: x"), None);
}

#[test]
fn sse_parser_handles_split_chunks() {
    let mut p = SseParser::new();
    let e1 = p.feed(b"event: tick\nda");
    assert!(e1.is_empty());
    let e2 = p.feed(b"ta: 1\n\ndata: 2\n\n");
    assert_eq!(e2.len(), 2);
    assert_eq!(e2[0].event, "tick");
    assert_eq!(e2[0].data, "1");
    assert_eq!(e2[1].event, "message");
    assert_eq!(e2[1].data, "2");
}

#[test]
fn bridge_pending_roundtrip() {
    let mut b = Bridge::new();
    assert!(b.auto_reconnect());
    assert_eq!(b.insert_pending_handshake("A", "p", 1), None);
    assert_eq!(b.insert_pending_handshake("A", "p", 2), Some(1));
    assert!(b.is_handshake_pending("A", "p"));
    assert!(!b.is_handshake_pending("A", "q"));
    assert_eq!(b.take_pending_handshake("A", "p"), Some(2));
    assert_eq!(b.take_pending_handshake("A", "p"), None);
    assert_eq!(b.set_heartbeat_timer(8), None);
    assert_eq!(b.set_heartbeat_timer(9), Some(8));
}

#[test]
fn gone_device_drops_its_handshakes() {
    let mut st = PluginState::new();
    let mut b = Bridge::new();
    set_connected_devices(&mut st, vec![("D1".to_string(), "W1".to_string()), ("D2".to_string(), "W2".to_string())]);
    b.set_connection_status("D1", "p", AppConnectionStatus::Handshaking, 0);
    b.insert_pending_handshake("D1", "p", 11);
    b.insert_pending_handshake("D2", "p", 12);
    let acts = apply_device_list(&mut st, &mut b, vec![("D2".to_string(), "W2".to_string())]);
    assert_eq!(acts.len(), 1);
    assert!(matches!(acts[0], Action::ClearTimer(11)));
    assert_eq!(b.connection_status("D1", "p"), AppConnectionStatus::Disconnected);
    assert!(b.is_handshake_pending("D2", "p"));
    assert_eq!(simplefetch::state::connected_devices(&st).len(), 1);
}

#[test]
fn installed_apps_are_sorted_stably_and_links_pruned() {
    let apps = vec![
        app("2", "W", "b", "Beta"),
        app("1", "W", "a", "Alpha"),
        app("3", "V", "z", "Zed"),
        app("4", "W", "a", "Alpha"),
    ];
    let sorted = sort_installed_apps(apps);
    let order: Vec<&str> = sorted.iter().map(|a| a.addr.as_str()).collect();
    assert_eq!(order, vec!["3", "1", "4", "2"]);

    let mut st = PluginState::new();
    let mut b = Bridge::new();
    b.set_connection_status("1", "a", AppConnectionStatus::Connected, 0);
    b.set_connection_status("9", "gone", AppConnectionStatus::Connected, 0);
    apply_installed_apps(&mut st, &mut b, vec![app("1", "W", "a", "Alpha")]);
    assert_eq!(b.stale_connections(0, 100).len(), 1);
    assert_eq!(simplefetch::state::installed_apps(&st).len(), 1);
}

#[test]
fn reconnect_flow() {
    let mut st = PluginState::new();
    set_enabled(&mut st, "keep", true);
    set_enabled(&mut st, "off", false);
    let pkgs = reconnect_packages(&st);
    assert_eq!(pkgs, vec!["keep".to_string()]);
    set_installed_apps(&mut st, vec![app("A", "W", "keep", "K"), app("A", "W", "other", "O")]);
    let targets = reconnect_targets(&st, &pkgs);
    assert_eq!(targets.len(), 1);
    let mut b = Bridge::new();
    let acts = begin_reconnect(&mut b, &targets, 0);
    assert_eq!(acts.len(), 2);
    assert!(matches!(acts[0], Action::Render));
    assert_eq!(b.connection_status("A", "keep"), AppConnectionStatus::Handshaking);
}

#[test]
fn connect_flow() {
    let mut b = Bridge::new();
    let a = app("A", "W", "p", "P");
    let acts = begin_connect(&mut b, &a, 0);
    assert_eq!(acts.len(), 2);
    assert_eq!(b.connection_status("A", "p"), AppConnectionStatus::Handshaking);
    let acts = launch_finished(&mut b, "A", "p", true);
    assert_eq!(acts.len(), 1);
    assert!(handshake_timer_armed(&mut b, "A", "p", 5).is_empty());
    assert!(matches!(handshake_timer_armed(&mut b, "A", "p", 6)[0], Action::ClearTimer(5)));
    let acts = launch_finished(&mut b, "A", "q", false);
    assert_eq!(b.connection_status("A", "q"), AppConnectionStatus::Failed);
    assert_eq!(b.failure_reason("A", "q").as_deref(), Some("启动快应用失败"));
    match &acts[1] {
        Action::Alert { text, .. } => assert_eq!(text, "启动快应用失败，请确认应用已安装"),
        _ => panic!("expected an alert"),
    }
}

#[test]
fn registry_cancels_by_app() {
    let mut r = SseRegistry::new();
    r.register_sse("A", "p", "1");
    r.register_sse("A", "p", "2");
    r.register_sse("B", "p", "3");
    assert!(!r.is_cancelled("1"));
    r.cancel_all_sse_for_app("A", "p");
    assert!(r.is_cancelled("1") && r.is_cancelled("2"));
    assert!(!r.is_cancelled("3"));
    assert!(r.unregister_sse("A", "p", "1"));
    assert!(!r.is_cancelled("1"));
    assert!(!r.unregister_sse("B", "p", "3"));
    r.cancel_sse("nope");
    assert!(!r.is_cancelled("nope"));
}

#[test]
fn indexes_parse_like_usize() {
    let p = |s: &str| parse_index(&s.chars().collect::<Vec<char>>());
    assert_eq!(p("0"), Some(0));
    assert_eq!(p("+12"), Some(12));
    assert_eq!(p("007"), Some(7));
    assert_eq!(p(""), None);
    assert_eq!(p("+"), None);
    assert_eq!(p("-1"), None);
    assert_eq!(p("1a"), None);
    assert_eq!(p("99999999999999999999999"), None);
    assert_eq!(p(&usize::MAX.to_string()), Some(usize::MAX));
}

#[test]
fn ui_events_are_read() {
    let mut st = PluginState::new();
    set_installed_apps(&mut st, vec![app("A", "W", "p", "P")]);
    assert!(matches!(ui_event_processor(&st, "app:connect:0", None), UiCommand::Connect(a) if a.package_name == "p"));
    assert!(matches!(ui_event_processor(&st, "app:disconnect:0", None), UiCommand::Disconnect(_)));
    assert!(matches!(ui_event_processor(&st, "app:connect:1", None), UiCommand::Nothing));
    assert!(matches!(ui_event_processor(&st, "tab_about", None), UiCommand::ShowTab(MainTab::About)));
    assert!(matches!(ui_event_processor(&st, "tab_connect", None), UiCommand::ShowTab(MainTab::Connect)));
    assert!(matches!(ui_event_processor(&st, "action:devices.refresh", None), UiCommand::RefreshDevices));
    let off = JsonValue::Object(vec![("checked".to_string(), JsonValue::Bool(false))], String::new());
    assert!(matches!(ui_event_processor(&st, "toggle:auto_reconnect", Some(&off)), UiCommand::SetAutoReconnect(false)));
    assert!(matches!(ui_event_processor(&st, "toggle:auto_reconnect", None), UiCommand::SetAutoReconnect(true)));
    assert!(matches!(ui_event_processor(&st, "open_help_doc", None), UiCommand::OpenUrl(u) if u == "https://docs.b4qaq.cn/docs/simplefetch"));
    assert!(matches!(ui_event_processor(&st, "what", None), UiCommand::Nothing));
}

#[test]
fn status_card_counts() {
    let mut st = PluginState::new();
    set_connected_devices(&mut st, vec![("D".to_string(), "W".to_string())]);
    simplefetch::state::record_request_at(&mut st, "a", "D", None, 1);
    simplefetch::state::record_request_at(&mut st, "a", "D", None, 2);
    simplefetch::state::record_request_at(&mut st, "b", "D", None, 3);
    set_enabled(&mut st, "b", false);
    assert_eq!(render_status_card(&st), "设备: 1 台  ·  监听: 1 个  ·  总请求: 3");
}

#[test]
fn cancelling_twice_changes_nothing() {
    let mut r = SseRegistry::new();
    r.register_sse("A", "p", "1");
    r.cancel_sse("1");
    r.cancel_sse("1");
    assert!(r.is_cancelled("1"));
    assert!(r.unregister_sse("A", "p", "1"));
}

#[test]
fn links_are_independent() {
    let mut b = Bridge::new();
    b.set_connection_status("A", "p", AppConnectionStatus::Connected, 0);
    b.set_connection_failed("A", "q", "why");
    assert_eq!(b.connection_status("A", "p"), AppConnectionStatus::Connected);
    assert_eq!(b.failure_reason("A", "p"), None);
    assert_eq!(b.connection_status("A", "q"), AppConnectionStatus::Failed);
    assert_eq!(b.connection_status("B", "p"), AppConnectionStatus::Disconnected);
    b.set_connection_status("A", "q", AppConnectionStatus::Handshaking, 1);
    assert_eq!(b.failure_reason("A", "q"), None);
}

#[test]
fn names_match_snapshot() {
    let mut st = PluginState::new();
    ensure_app(&mut st, "m");
    ensure_app(&mut st, "b");
    ensure_app(&mut st, "x");
    let names: Vec<String> = snapshot_apps(&st).iter().map(|e| e.pkg_name.clone()).collect();
    assert_eq!(pkg_names(&st), names);
}

#[test]
fn claims_are_spaced() {
    let mut st = PluginState::new();
    let mut last_ok: Option<u128> = None;
    for t in [0u128, 500, 1500, 1600, 2999, 3000, 3000, 9000] {
        if simplefetch::state::try_claim_auto_refresh_at(&mut st, 1500, t) {
            if let Some(p) = last_ok {
                assert!(t - p >= 1500);
            }
            last_ok = Some(t);
        }
    }
    assert_eq!(last_ok, Some(9000));
}

#[test]
fn world_is_made_once_then_shared() {
    let mut slot: Option<simplefetch::world::World> = None;
    {
        let w = simplefetch::world::shared_world(&mut slot);
        assert_eq!(w.state.render_tick(), 0);
        assert!(pkg_names(&w.state).is_empty());
        ensure_app(&mut w.state, "com.example");
    }
    let w = simplefetch::world::shared_world(&mut slot);
    assert_eq!(pkg_names(&w.state), vec!["com.example".to_string()]);
}

#[test]
fn zero_interval_always_claims() {
    let mut st = PluginState::new();
    for t in [0u128, 0, 7, 7, 3, 100] {
        assert!(simplefetch::state::try_claim_auto_refresh_at(&mut st, 0, t));
    }
}

#[test]
fn binary_body_chunk_count_follows_base64_length() {
    let body = vec![0xffu8; 20000];
    let f = response_frames(&body);
    let enc_len = (20000 + 2) / 3 * 4;
    assert_eq!(f.len(), (enc_len + 12287) / 12288);
    let total: usize = f.iter().map(|x| x.body.len()).sum();
    assert_eq!(total, enc_len);
    assert!(f.iter().all(|x| x.total_chunks == f.len()));
}

#[test]
fn relayed_events_stop_with_the_stream() {
    let mut r = SseRegistry::new();
    r.register_sse("A", "p", "s");
    let evs = vec![
        SseEvent { event: "a".to_string(), data: "1".to_string() },
        SseEvent { event: "".to_string(), data: "2".to_string() },
    ];
    let (acts, go) = relay_events(&r, "A", "p", "s", &evs);
    assert_eq!(acts.len(), 2);
    assert!(go);
    r.cancel_sse("s");
    let (acts, go) = relay_events(&r, "A", "p", "s", &evs);
    assert_eq!(acts.len(), 1);
    assert!(!go);
}
