//! The messages of the bridge protocol and the actions the plugin asks of
//! its host: what to send to a quick app, which timer to clear, what to
//! fetch, when to save and redraw.

use vstd::prelude::*;

use crate::bridge::{
    failed, is_stale, link_of, pair_key, pending_set, pending_taken, pinged, status_set,
    AppConnectionStatus, Bridge, BridgeView, LinkView,
};
use crate::http::{
    classified_error, classify_network_error, filter_response_headers, forwarded, lowercase,
    HeaderMap, HttpResponse,
};
use crate::json::{
    as_count, as_flag, as_text, get, get_bool, get_str, get_u64, json_get, parse_headers, take_member,
    decimal, decimal_string, JsonNumber, JsonValue,
};
use crate::response::{base64_standard, chunk_at, chunk_count, response_frames, sent_whole, ResponseFrame};
use crate::sse::{message_name, SseEvent};
use crate::state::{
    enabled_set, entries_map, entries_view, installed_apps, installed_view, opt_view, record_request_at,
    record_result, requested, result_recorded, set_enabled, snapshot_apps, sorted_keys, str_lt,
    InstalledApp, InstalledAppView,
    PluginState, PluginStateView,
};
use crate::streams::{all_cancelled, cancelled, stream_cancelled, SseRegistry, SseRegistryView};
use crate::text::chars_of;

verus! {

/// A message to a quick app.
pub enum OutMessage {
    /// `SF_HANDSHAKE`: the plugin asks to connect.
    Handshake,
    /// `SF_HANDSHAKE_ACK` with status `OK`: the plugin accepts a handshake.
    HandshakeAck,
    /// `SF_PONG`: the answer to a ping, with the ping's `ts`.
    Pong(JsonValue),
    /// `SF_CLOSE_BRIDGE`: the plugin closes the bridge.
    CloseBridge,
    /// `SF_RESPONSE` with status `OK`: one frame of a response; the first
    /// frame carries the status code and headers (`head`), the others none.
    Response { id: String, head: Option<(u16, HeaderMap)>, frame: ResponseFrame },
    /// `SF_RESPONSE` whose status is the error text.
    Error { id: String, status_code: u16, error: String },
    /// `SF_SSE_EVENT`: one event of a stream.
    SseEvent { id: String, event: String, data: String },
    /// `SF_SSE_END`: the stream ended.
    SseEnd { id: String },
    /// `SF_SSE_ERROR`: the stream failed.
    SseError { id: String, error: String },
}

/// The value an `OutMessage` holds.
pub enum MessageView {
    Handshake,
    HandshakeAck,
    Pong(JsonValue),
    CloseBridge,
    Response {
        id: Seq<char>,
        head: Option<(u16, Map<Seq<char>, Seq<char>>)>,
        chunk: usize,
        total_chunks: usize,
        body: Seq<char>,
        first: bool,
    },
    Error { id: Seq<char>, status_code: u16, error: Seq<char> },
    SseEvent { id: Seq<char>, event: Seq<char>, data: Seq<char> },
    SseEnd { id: Seq<char> },
    SseError { id: Seq<char>, error: Seq<char> },
}

/// The status code and headers of a frame, where it carries them.
pub open spec fn opt_head(h: Option<(u16, HeaderMap)>) -> Option<(u16, Map<Seq<char>, Seq<char>>)> {
    match h {
        Some((c, m)) => Some((c, m@)),
        None => None,
    }
}

impl View for OutMessage {
    type V = MessageView;

    open spec fn view(&self) -> MessageView {
        match self {
            OutMessage::Handshake => MessageView::Handshake,
            OutMessage::HandshakeAck => MessageView::HandshakeAck,
            OutMessage::Pong(ts) => MessageView::Pong(*ts),
            OutMessage::CloseBridge => MessageView::CloseBridge,
            OutMessage::Response { id, head, frame } => MessageView::Response {
                id: id@,
                head: opt_head(*head),
                chunk: frame.chunk,
                total_chunks: frame.total_chunks,
                body: frame.body@,
                first: frame.first,
            },
            OutMessage::Error { id, status_code, error } => MessageView::Error {
                id: id@,
                status_code: *status_code,
                error: error@,
            },
            OutMessage::SseEvent { id, event, data } => MessageView::SseEvent {
                id: id@,
                event: event@,
                data: data@,
            },
            OutMessage::SseEnd { id } => MessageView::SseEnd { id: id@ },
            OutMessage::SseError { id, error } => MessageView::SseError { id: id@, error: error@ },
        }
    }
}

/// A request a quick app asked for, ready to send.
pub struct RequestPlan {
    pub id: String,
    pub url: String,
    pub method: String,
    pub sse: bool,
    pub timeout_ms: u32,
    pub headers: HeaderMap,
    pub body: Option<Vec<u8>>,
}

/// The value a `RequestPlan` holds.
pub struct PlanView {
    pub id: Seq<char>,
    pub url: Seq<char>,
    pub method: Seq<char>,
    pub sse: bool,
    pub timeout_ms: u32,
    pub headers: Map<Seq<char>, Seq<char>>,
    pub body: Option<Seq<u8>>,
}

impl View for RequestPlan {
    type V = PlanView;

    open spec fn view(&self) -> PlanView {
        PlanView {
            id: self.id@,
            url: self.url@,
            method: self.method@,
            sse: self.sse,
            timeout_ms: self.timeout_ms,
            headers: self.headers@,
            body: match self.body {
                Some(b) => Some(b@),
                None => None,
            },
        }
    }
}

/// Something the plugin asks its host to do.
pub enum Action {
    /// Send `message` to `pkg` on the device `addr`.
    Send { addr: String, pkg: String, message: OutMessage },
    /// Clear the timer `0`.
    ClearTimer(u64),
    /// Register to receive the messages of `pkg` on `addr`.
    RegisterReceiver { addr: String, pkg: String },
    /// Show an alert.
    Alert { title: String, text: String },
    /// Carry out the request `plan` for `pkg` on `addr`.
    Fetch { addr: String, pkg: String, plan: RequestPlan },
    /// Save the monitored apps.
    Persist,
    /// Redraw the page.
    Render,
}

/// The value an `Action` holds.
pub enum ActionView {
    Send(Seq<char>, Seq<char>, MessageView),
    ClearTimer(u64),
    RegisterReceiver(Seq<char>, Seq<char>),
    Alert(Seq<char>, Seq<char>),
    Fetch(Seq<char>, Seq<char>, PlanView),
    Persist,
    Render,
}

impl View for Action {
    type V = ActionView;

    open spec fn view(&self) -> ActionView {
        match self {
            Action::Send { addr, pkg, message } => ActionView::Send(addr@, pkg@, message@),
            Action::ClearTimer(t) => ActionView::ClearTimer(*t),
            Action::RegisterReceiver { addr, pkg } => ActionView::RegisterReceiver(addr@, pkg@),
            Action::Alert { title, text } => ActionView::Alert(title@, text@),
            Action::Fetch { addr, pkg, plan } => ActionView::Fetch(addr@, pkg@, plan@),
            Action::Persist => ActionView::Persist,
            Action::Render => ActionView::Render,
        }
    }
}

/// The values of a list of actions.
pub open spec fn actions_view(v: Seq<Action>) -> Seq<ActionView> {
    v.map_values(|a: Action| a@)
}

/// Sends `message` to `pkg` on `addr`.
pub fn send(addr: &str, pkg: &str, message: OutMessage) -> (a: Action)
    ensures
        a@ == ActionView::Send(addr@, pkg@, message@),
{
    Action::Send { addr: addr.to_owned(), pkg: pkg.to_owned(), message }
}

/// Shows an alert titled `title` with `message`.
pub fn alert(title: &str, message: &str) -> (a: Action)
    ensures
        a@ == ActionView::Alert(title@, message@),
{
    Action::Alert { title: title.to_owned(), text: message.to_owned() }
}

/// Where an interconnect message came from, and its text.
pub struct ParsedMessage {
    pub addr: String,
    pub pkg_name: String,
    pub data: String,
}

/// The text of a string member, or the empty text.
pub open spec fn text_or_empty(v: Option<JsonValue>) -> Seq<char> {
    match as_text(v) {
        Some(t) => t,
        None => Seq::empty(),
    }
}

fn member_text(v: &JsonValue, key: &str) -> (r: String)
    ensures
        r@ == text_or_empty(json_get(*v, key@)),
{
    match get_str(v, key) {
        Some(s) => s,
        None => String::new(),
    }
}

/// Reads the host's envelope of an interconnect message: the `payloadText`,
/// `pkgName` and `addr` members where the payload parsed as JSON
/// (`envelope`), else the payload itself as text with no source.
pub fn parse_message(envelope: Option<&JsonValue>, payload: &str) -> (m: ParsedMessage)
    ensures
        m.data@ == match envelope {
            Some(e) => match as_text(json_get(*e, "payloadText"@)) {
                Some(t) => t,
                None => payload@,
            },
            None => payload@,
        },
        m.pkg_name@ == match envelope {
            Some(e) => text_or_empty(json_get(*e, "pkgName"@)),
            None => Seq::empty(),
        },
        m.addr@ == match envelope {
            Some(e) => text_or_empty(json_get(*e, "addr"@)),
            None => Seq::empty(),
        },
{
    match envelope {
        Some(e) => {
            let data = match get_str(e, "payloadText") {
                Some(t) => t,
                None => payload.to_owned(),
            };
            ParsedMessage { addr: member_text(e, "addr"), pkg_name: member_text(e, "pkgName"), data }
        },
        None => ParsedMessage { addr: String::new(), pkg_name: String::new(), data: payload.to_owned() },
    }
}

/// The `Content-Type` a body is sent with when the request names none: JSON
/// where the body starts with `{` or `[`, else plain text.
pub open spec fn default_content_type(body: Seq<char>) -> Seq<char> {
    if body.len() > 0 && (body[0] == '{' || body[0] == '[') {
        "application/json"@
    } else {
        "text/plain"@
    }
}

/// Some header of `h` is named `Content-Type`, in any case.
pub open spec fn names_content_type(h: Map<Seq<char>, Seq<char>>) -> bool {
    exists|k: Seq<char>| #[trigger] h.dom().contains(k) && lowercase(k) == "content-type"@
}

/// The headers a request is sent with: those it names, and a
/// `Content-Type` by the body's first character where it has a body and
/// names none.
pub open spec fn request_headers(h: Map<Seq<char>, Seq<char>>, body: Option<Seq<char>>) -> Map<
    Seq<char>,
    Seq<char>,
> {
    match body {
        Some(b) => if names_content_type(h) {
            h
        } else {
            h.insert("Content-Type"@, default_content_type(b))
        },
        None => h,
    }
}

/// The text of the `body` member where it is a string.
pub open spec fn body_text(data: JsonValue) -> Option<Seq<char>> {
    as_text(json_get(data, "body"@))
}

/// The request that the `data` of an `SF_REQUEST` asks for; the request id
/// (or the empty text) where it names no URL.
pub open spec fn planned(data: JsonValue) -> Result<PlanView, Seq<char>> {
    let id = text_or_empty(json_get(data, "id"@));
    match as_text(json_get(data, "url"@)) {
        None => Err(id),
        Some(url) => Ok(
            PlanView {
                id,
                url,
                method: match as_text(json_get(data, "method"@)) {
                    Some(m) => m,
                    None => "GET"@,
                },
                sse: match as_flag(json_get(data, "sse"@)) {
                    Some(b) => b,
                    None => false,
                },
                timeout_ms: match as_count(json_get(data, "timeout"@)) {
                    Some(n) => n as u32,
                    None => 15000,
                },
                headers: request_headers(
                    match json_get(data, "headers"@) {
                        Some(JsonValue::Object(members, _)) => crate::json::headers_from(members@),
                        _ => Map::empty(),
                    },
                    body_text(data),
                ),
                body: match body_text(data) {
                    Some(b) => Some(vstd::utf8::encode_utf8(b)),
                    None => None,
                },
            },
        ),
    }
}

/// Reads the `data` of an `SF_REQUEST`: the request to send, or the
/// request id where it names no URL.
pub fn plan_request(data: &JsonValue) -> (r: Result<RequestPlan, String>)
    ensures
        match (r, planned(*data)) {
            (Ok(p), Ok(v)) => p@ == v,
            (Err(id), Err(v)) => id@ == v,
            _ => false,
        },
{
    let id = member_text(data, "id");
    let url = match get_str(data, "url") {
        Some(u) => u,
        None => {
            return Err(id);
        },
    };
    let method = match get_str(data, "method") {
        Some(m) => m,
        None => "GET".to_owned(),
    };
    let sse = match get_bool(data, "sse") {
        Some(b) => b,
        None => false,
    };
    let timeout_ms: u32 = match get_u64(data, "timeout") {
        Some(n) => n as u32,
        None => 15000,
    };
    let mut headers = parse_headers(get(data, "headers"));
    let text = get_str(data, "body");
    let body = match &text {
        Some(t) => {
            if !headers.has_lowercased_name("content-type") {
                let c = chars_of(t.as_str());
                let json = c.len() > 0 && (c[0] == '{' || c[0] == '[');
                let kind = if json {
                    "application/json".to_owned()
                } else {
                    "text/plain".to_owned()
                };
                headers.insert("Content-Type".to_owned(), kind);
            }
            Some(t.as_str().as_bytes_vec())
        },
        None => None,
    };
    Ok(RequestPlan { id, url, method, sse, timeout_ms, headers, body })
}

/// The first app of `apps` that is `pkg` on the device `addr`.
pub open spec fn find_app(apps: Seq<InstalledAppView>, addr: Seq<char>, pkg: Seq<char>) -> Option<
    InstalledAppView,
>
    decreases apps.len(),
{
    if apps.len() == 0 {
        None
    } else if apps[0].addr == addr && apps[0].package_name == pkg {
        Some(apps[0])
    } else {
        find_app(apps.drop_first(), addr, pkg)
    }
}

/// How an app is named to the user: `name(package)`, or the package alone
/// where the app has no name or is not among `apps`.
pub open spec fn app_label(apps: Seq<InstalledAppView>, addr: Seq<char>, pkg: Seq<char>) -> Seq<char> {
    match find_app(apps, addr, pkg) {
        Some(a) => if a.app_name.len() == 0 {
            a.package_name
        } else {
            a.app_name + "("@ + a.package_name + ")"@
        },
        None => pkg,
    }
}

/// How the app `pkg` on `addr` is named to the user.
pub fn label_for(state: &PluginState, addr: &str, pkg: &str) -> (r: String)
    ensures
        r@ == app_label(state@.installed_apps, addr@, pkg@),
{
    let apps = installed_apps(state);
    let ghost v = crate::state::installed_view(apps@);
    let a = addr.to_owned();
    let p = pkg.to_owned();
    let mut i: usize = 0;
    assert(v.skip(0) == v);
    while i < apps.len()
        invariant
            v == crate::state::installed_view(apps@),
            v == state@.installed_apps,
            a@ == addr@ && p@ == pkg@,
            i <= apps@.len(),
            find_app(v, addr@, pkg@) == find_app(v.skip(i as int), addr@, pkg@),
        decreases apps@.len() - i,
    {
        assert(v.skip(i as int).drop_first() == v.skip(i + 1));
        assert(v.skip(i as int)[0] == apps@[i as int]@);
        let app = &apps[i];
        if app.addr == a && app.package_name == p {
            if app.app_name.as_str().unicode_len() == 0 {
                return app.package_name.clone();
            }
            let mut s = app.app_name.clone();
            s.append("(");
            s.append(app.package_name.as_str());
            s.append(")");
            return s;
        }
        i = i + 1;
    }
    p
}

/// The link of `pkg` on `addr` takes messages: it is handshaking or
/// connected, or awaits an answer to a handshake.
pub open spec fn accepting(b: BridgeView, addr: Seq<char>, pkg: Seq<char>) -> bool {
    let l = link_of(b, addr, pkg);
    !(l.status == AppConnectionStatus::Disconnected || l.status == AppConnectionStatus::Failed)
        || l.pending is Some
}

/// The actions that clear the timer `t`, where there is one.
pub open spec fn clear_opt(t: Option<u64>) -> Seq<ActionView> {
    match t {
        Some(id) => seq![ActionView::ClearTimer(id)],
        None => seq![],
    }
}

/// What a handshake from the quick app does: the plugin's own awaited
/// handshake is settled, the app is connected and remembered, and the
/// handshake is acknowledged.
pub open spec fn handshake_accepted(
    s: PluginStateView,
    b: BridgeView,
    addr: Seq<char>,
    pkg: Seq<char>,
    now_ms: u128,
) -> (PluginStateView, BridgeView, Seq<ActionView>) {
    (
        enabled_set(s, pkg, true),
        pinged(
            status_set(pending_taken(b, addr, pkg), addr, pkg, AppConnectionStatus::Connected, now_ms),
            addr,
            pkg,
            now_ms,
        ),
        clear_opt(link_of(b, addr, pkg).pending) + seq![
            ActionView::RegisterReceiver(addr, pkg),
            ActionView::Persist,
            ActionView::Send(addr, pkg, MessageView::HandshakeAck),
        ],
    )
}

fn push_clear(v: &mut Vec<Action>, t: Option<u64>)
    ensures
        actions_view(final(v)@) == actions_view(old(v)@) + clear_opt(t),
{
    let ghost before = v@;
    match t {
        Some(id) => {
            v.push(Action::ClearTimer(id));
            assert(actions_view(v@) =~= actions_view(before) + clear_opt(t));
        },
        None => {
            assert(actions_view(v@) =~= actions_view(before) + clear_opt(t));
        },
    }
}

/// Answers a handshake from the quick app `pkg` on `addr`.
pub fn accept_handshake(
    state: &mut PluginState,
    bridge: &mut Bridge,
    addr: &str,
    pkg: &str,
    now_ms: u128,
) -> (actions: Vec<Action>)
    ensures
        (final(state)@, final(bridge)@, actions_view(actions@)) == handshake_accepted(
            old(state)@,
            old(bridge)@,
            addr@,
            pkg@,
            now_ms,
        ),
{
    let mut actions: Vec<Action> = Vec::new();
    let t = bridge.take_pending_handshake(addr, pkg);
    push_clear(&mut actions, t);
    let ghost before = actions@;
    actions.push(Action::RegisterReceiver { addr: addr.to_owned(), pkg: pkg.to_owned() });
    bridge.set_connection_status(addr, pkg, AppConnectionStatus::Connected, now_ms);
    bridge.record_ping(addr, pkg, now_ms);
    set_enabled(state, pkg, true);
    actions.push(Action::Persist);
    actions.push(send(addr, pkg, OutMessage::HandshakeAck));
    assert(actions_view(actions@) =~= actions_view(before) + seq![
        ActionView::RegisterReceiver(addr@, pkg@),
        ActionView::Persist,
        ActionView::Send(addr@, pkg@, MessageView::HandshakeAck),
    ]);
    actions
}

/// What an acknowledgement of the plugin's handshake does: where one was
/// awaited, the app is connected and remembered and the user told; else
/// nothing.
pub open spec fn ack_received(
    s: PluginStateView,
    b: BridgeView,
    addr: Seq<char>,
    pkg: Seq<char>,
    now_ms: u128,
) -> (PluginStateView, BridgeView, Seq<ActionView>) {
    match link_of(b, addr, pkg).pending {
        None => (s, b, seq![]),
        Some(t) => (
            enabled_set(s, pkg, true),
            status_set(pending_taken(b, addr, pkg), addr, pkg, AppConnectionStatus::Connected, now_ms),
            seq![
                ActionView::ClearTimer(t),
                ActionView::Persist,
                ActionView::Render,
                ActionView::Alert("连接成功"@, app_label(s.installed_apps, addr, pkg)),
            ],
        ),
    }
}

/// Takes the quick app's acknowledgement of the plugin's handshake.
pub fn handshake_acked(
    state: &mut PluginState,
    bridge: &mut Bridge,
    addr: &str,
    pkg: &str,
    now_ms: u128,
) -> (actions: Vec<Action>)
    ensures
        (final(state)@, final(bridge)@, actions_view(actions@)) == ack_received(
            old(state)@,
            old(bridge)@,
            addr@,
            pkg@,
            now_ms,
        ),
{
    let mut actions: Vec<Action> = Vec::new();
    if !bridge.is_handshake_pending(addr, pkg) {
        assert(actions_view(actions@) =~= seq![]);
        return actions;
    }
    let label = label_for(state, addr, pkg);
    let t = bridge.take_pending_handshake(addr, pkg);
    let id = t.unwrap();
    actions.push(Action::ClearTimer(id));
    bridge.set_connection_status(addr, pkg, AppConnectionStatus::Connected, now_ms);
    set_enabled(state, pkg, true);
    actions.push(Action::Persist);
    actions.push(Action::Render);
    actions.push(alert("连接成功", label.as_str()));
    assert(actions_view(actions@) =~= seq![
        ActionView::ClearTimer(id),
        ActionView::Persist,
        ActionView::Render,
        ActionView::Alert("连接成功"@, label@),
    ]);
    actions
}

/// The `ts` of a ping's data, or 0.
pub open spec fn ping_ts(data: Option<JsonValue>) -> JsonValue {
    match data {
        Some(d) => match json_get(d, "ts"@) {
            Some(v) => v,
            None => JsonValue::Number(JsonNumber::PosInt(0)),
        },
        None => JsonValue::Number(JsonNumber::PosInt(0)),
    }
}

/// Takes a ping: a sign of life, answered with its `ts`.
pub fn answer_ping(bridge: &mut Bridge, addr: &str, pkg: &str, data: Option<JsonValue>, now_ms: u128) -> (actions: Vec<Action>)
    ensures
        final(bridge)@ == pinged(old(bridge)@, addr@, pkg@, now_ms),
        actions_view(actions@) == seq![ActionView::Send(addr@, pkg@, MessageView::Pong(ping_ts(data)))],
{
    bridge.record_ping(addr, pkg, now_ms);
    let ts = match data {
        Some(d) => match take_member(d, "ts") {
            Some(v) => v,
            None => JsonValue::Number(JsonNumber::PosInt(0)),
        },
        None => JsonValue::Number(JsonNumber::PosInt(0)),
    };
    let mut actions: Vec<Action> = Vec::new();
    actions.push(send(addr, pkg, OutMessage::Pong(ts)));
    assert(actions_view(actions@) =~= seq![ActionView::Send(addr@, pkg@, MessageView::Pong(ping_ts(data)))]);
    actions
}

/// What a request from the quick app does: one that names no URL is
/// answered with an error; any other is counted, the count saved, and the
/// request handed to the host.
pub open spec fn request_received(
    s: PluginStateView,
    addr: Seq<char>,
    pkg: Seq<char>,
    data: JsonValue,
    now_ms: u128,
) -> (PluginStateView, Seq<ActionView>) {
    match planned(data) {
        Err(id) => (
            s,
            seq![
                ActionView::Send(
                    addr,
                    pkg,
                    MessageView::Error { id, status_code: 0, error: "请求缺少url字段"@ },
                ),
            ],
        ),
        Ok(p) => (
            requested(s, pkg, addr, Some(p.url), now_ms),
            seq![ActionView::Persist, ActionView::Fetch(addr, pkg, p)],
        ),
    }
}

/// Takes a request from the quick app `pkg` on `addr`.
pub fn take_request(
    state: &mut PluginState,
    addr: &str,
    pkg: &str,
    data: &JsonValue,
    now_ms: u128,
) -> (actions: Vec<Action>)
    ensures
        (final(state)@, actions_view(actions@)) == request_received(old(state)@, addr@, pkg@, *data, now_ms),
{
    let mut actions: Vec<Action> = Vec::new();
    match plan_request(data) {
        Err(id) => {
            actions.push(
                send(
                    addr,
                    pkg,
                    OutMessage::Error { id, status_code: 0, error: "请求缺少url字段".to_owned() },
                ),
            );
        },
        Ok(plan) => {
            let u = Some(plan.url.as_str());
            assert(opt_view(u) == Some(plan@.url));
            record_request_at(state, pkg, addr, u, now_ms);
            actions.push(Action::Persist);
            actions.push(Action::Fetch { addr: addr.to_owned(), pkg: pkg.to_owned(), plan });
        },
    }
    assert(actions_view(actions@) =~= request_received(old(state)@, addr@, pkg@, *data, now_ms).1);
    actions
}

/// What a message of the bridge protocol from the quick app `pkg` on
/// `addr` does. A handshake is always taken; any other message only from a
/// link that is handshaking, connected or awaiting an answer, and is
/// otherwise dropped. Every message taken ends with a redraw.
pub open spec fn sf_outcome(
    s: PluginStateView,
    b: BridgeView,
    r: SseRegistryView,
    addr: Seq<char>,
    pkg: Seq<char>,
    msg: JsonValue,
    now_ms: u128,
) -> (PluginStateView, BridgeView, SseRegistryView, Seq<ActionView>) {
    let ty = text_or_empty(json_get(msg, "type"@));
    let status = text_or_empty(json_get(msg, "status"@));
    let data = json_get(msg, "data"@);
    if ty == "SF_HANDSHAKE"@ {
        let (s2, b2, a) = handshake_accepted(s, b, addr, pkg, now_ms);
        (s2, b2, r, a.push(ActionView::Render))
    } else if !accepting(b, addr, pkg) {
        (s, b, r, seq![])
    } else if ty == "SF_HANDSHAKE_ACK"@ && status == "OK"@ {
        let (s2, b2, a) = ack_received(s, b, addr, pkg, now_ms);
        (s2, b2, r, a.push(ActionView::Render))
    } else if ty == "SF_PING"@ {
        (
            s,
            pinged(b, addr, pkg, now_ms),
            r,
            seq![ActionView::Send(addr, pkg, MessageView::Pong(ping_ts(data))), ActionView::Render],
        )
    } else if ty == "SF_REQUEST"@ && data is Some {
        let (s2, a) = request_received(s, addr, pkg, data.unwrap(), now_ms);
        (s2, b, r, a.push(ActionView::Render))
    } else if ty == "SF_CLOSE_BRIDGE_ACK"@ {
        (
            enabled_set(s, pkg, false),
            status_set(b, addr, pkg, AppConnectionStatus::Disconnected, now_ms),
            r,
            seq![ActionView::Persist, ActionView::Render],
        )
    } else if ty == "SF_CLOSE"@ && data is Some && as_text(json_get(data.unwrap(), "id"@)) is Some {
        (s, b, stream_cancelled(r, as_text(json_get(data.unwrap(), "id"@)).unwrap()), seq![ActionView::Render])
    } else {
        (s, b, r, seq![ActionView::Render])
    }
}

/// Handles a message of the bridge protocol from the quick app `pkg` on
/// `addr`, received at `now_ms`.
pub fn handle_sf_message(
    state: &mut PluginState,
    bridge: &mut Bridge,
    streams: &mut SseRegistry,
    addr: &str,
    pkg: &str,
    msg: JsonValue,
    now_ms: u128,
) -> (actions: Vec<Action>)
    ensures
        (final(state)@, final(bridge)@, final(streams)@, actions_view(actions@)) == sf_outcome(
            old(state)@,
            old(bridge)@,
            old(streams)@,
            addr@,
            pkg@,
            msg,
            now_ms,
        ),
{
    let ty = member_text(&msg, "type");
    let status = member_text(&msg, "status");
    let ghost m = msg;
    let data = take_member(msg, "data");
    let mut actions: Vec<Action>;
    if ty == "SF_HANDSHAKE".to_owned() {
        actions = accept_handshake(state, bridge, addr, pkg, now_ms);
    } else {
        let st = bridge.connection_status(addr, pkg);
        if (st == AppConnectionStatus::Disconnected || st == AppConnectionStatus::Failed)
            && !bridge.is_handshake_pending(addr, pkg) {
            let none: Vec<Action> = Vec::new();
            assert(actions_view(none@) =~= seq![]);
            return none;
        }
        if ty == "SF_HANDSHAKE_ACK".to_owned() && status == "OK".to_owned() {
            actions = handshake_acked(state, bridge, addr, pkg, now_ms);
        } else if ty == "SF_PING".to_owned() {
            actions = answer_ping(bridge, addr, pkg, data, now_ms);
        } else if ty == "SF_REQUEST".to_owned() && data.is_some() {
            let d = data.unwrap();
            actions = take_request(state, addr, pkg, &d, now_ms);
        } else if ty == "SF_CLOSE_BRIDGE_ACK".to_owned() {
            bridge.set_connection_status(addr, pkg, AppConnectionStatus::Disconnected, now_ms);
            set_enabled(state, pkg, false);
            actions = Vec::new();
            actions.push(Action::Persist);
            assert(actions_view(actions@) =~= seq![ActionView::Persist]);
        } else {
            actions = Vec::new();
            assert(actions_view(actions@) =~= seq![]);
            if ty == "SF_CLOSE".to_owned() {
                match data {
                    Some(d) => match get_str(&d, "id") {
                        Some(id) => {
                            streams.cancel_sse(id.as_str());
                        },
                        None => {},
                    },
                    None => {},
                }
            }
        }
    }
    let ghost before = actions@;
    actions.push(Action::Render);
    assert(actions_view(actions@) =~= actions_view(before).push(ActionView::Render));
    actions
}

/// How long a handshake is awaited: 5 s.
pub const HANDSHAKE_TIMEOUT_MS: u64 = 5000;

/// How long a quick app is given to start before the handshake: 2 s.
pub const LAUNCH_READY_WAIT_MS: u64 = 2000;

/// How often the links' signs of life are checked: every 3 s.
pub const HEARTBEAT_INTERVAL_MS: u64 = 3000;

/// How long a connected link may stay silent: 30 s.
pub const HEARTBEAT_TIMEOUT_MS: u128 = 30000;

/// The `kind` of the timer that guards a handshake.
pub const HS_TIMEOUT_KIND: &'static str = "hs_timeout";

/// The `kind` of the heartbeat timer.
pub const HEARTBEAT_KIND: &'static str = "heartbeat";

/// Why a handshake failed when its timer fired.
pub open spec fn timeout_reason() -> Seq<char> {
    "握手超时，未收到响应"@
}

/// What the timer guarding the handshake of `pkg` on `addr` does when it
/// fires: where the handshake is still awaited, the link fails and the
/// user is told; else nothing.
pub open spec fn timeout_outcome(b: BridgeView, addr: Seq<char>, pkg: Seq<char>) -> (BridgeView, Seq<ActionView>) {
    if link_of(b, addr, pkg).pending is None {
        (b, seq![])
    } else {
        (
            failed(pending_taken(b, addr, pkg), addr, pkg, timeout_reason()),
            seq![ActionView::Render, ActionView::Alert("连接失败"@, timeout_reason())],
        )
    }
}

/// The timer guarding the handshake of `pkg` on `addr` fired.
pub fn handshake_timed_out(bridge: &mut Bridge, addr: &str, pkg: &str) -> (actions: Vec<Action>)
    ensures
        (final(bridge)@, actions_view(actions@)) == timeout_outcome(old(bridge)@, addr@, pkg@),
{
    let mut actions: Vec<Action> = Vec::new();
    if !bridge.is_handshake_pending(addr, pkg) {
        assert(actions_view(actions@) =~= seq![]);
        return actions;
    }
    let _ = bridge.take_pending_handshake(addr, pkg);
    let reason = "握手超时，未收到响应";
    bridge.set_connection_failed(addr, pkg, reason);
    actions.push(Action::Render);
    actions.push(alert("连接失败", reason));
    assert(actions_view(actions@) =~= seq![ActionView::Render, ActionView::Alert("连接失败"@, timeout_reason())]);
    actions
}

/// A link closed for silence: disconnected, everything else kept.
pub open spec fn closed_link(l: LinkView) -> LinkView {
    LinkView { status: AppConnectionStatus::Disconnected, failure: None, ..l }
}

/// The table with the links among `keys` closed for silence.
pub open spec fn closed_among(b: BridgeView, keys: Seq<(Seq<char>, Seq<char>)>) -> BridgeView {
    BridgeView {
        links: Map::new(
            |k: (Seq<char>, Seq<char>)| b.links.dom().contains(k),
            |k: (Seq<char>, Seq<char>)| if keys.contains(k) {
                closed_link(b.links[k])
            } else {
                b.links[k]
            },
        ),
        ..b
    }
}

/// The table with every link silent for too long at `now_ms` closed.
pub open spec fn heartbeat_checked(b: BridgeView, now_ms: u128) -> BridgeView {
    BridgeView {
        links: Map::new(
            |k: (Seq<char>, Seq<char>)| b.links.dom().contains(k),
            |k: (Seq<char>, Seq<char>)| if is_stale(b.links[k], 30000, now_ms) {
                closed_link(b.links[k])
            } else {
                b.links[k]
            },
        ),
        ..b
    }
}

/// The messages closing the links `keys`, each followed by a save.
pub open spec fn close_actions(keys: Seq<(Seq<char>, Seq<char>)>) -> Seq<ActionView>
    decreases keys.len(),
{
    if keys.len() == 0 {
        seq![]
    } else {
        close_actions(keys.drop_last()) + seq![
            ActionView::Send(keys.last().0, keys.last().1, MessageView::CloseBridge),
            ActionView::Persist,
        ]
    }
}

/// `keys` are the links of `b` silent for too long at `now_ms`, each once.
pub open spec fn stale_keys(b: BridgeView, now_ms: u128, keys: Seq<(Seq<char>, Seq<char>)>) -> bool {
    &&& forall|i: int| 0 <= i < keys.len() ==> b.links.dom().contains(#[trigger] keys[i]) && is_stale(b.links[keys[i]], 30000, now_ms)
    &&& forall|k: (Seq<char>, Seq<char>)| #[trigger] b.links.dom().contains(k) && is_stale(b.links[k], 30000, now_ms) ==> keys.contains(k)
    &&& keys.no_duplicates()
}

/// The heartbeat check: every connected link silent for more than 30 s is
/// told the bridge is closed and disconnected, and the page redrawn where
/// any was.
pub fn check_heartbeat_timeout(bridge: &mut Bridge, now_ms: u128) -> (actions: Vec<Action>)
    ensures
        final(bridge)@ == heartbeat_checked(old(bridge)@, now_ms),
        exists|keys: Seq<(Seq<char>, Seq<char>)>|
            stale_keys(old(bridge)@, now_ms, keys) && actions_view(actions@) == #[trigger] close_actions(keys) + if keys.len() > 0 {
                seq![ActionView::Render]
            } else {
                seq![]
            },
{
    let stale = bridge.stale_connections(HEARTBEAT_TIMEOUT_MS, now_ms);
    let ghost b0 = bridge@;
    let ghost keys = stale@.map_values(|p: (String, String)| pair_key(p));
    proof {
        assert forall|i: int, j: int| 0 <= i < keys.len() && 0 <= j < keys.len() && i != j implies keys[i] != keys[j] by {
            if i < j {
                assert(pair_key(stale@[i]) != pair_key(stale@[j]));
            } else {
                assert(pair_key(stale@[j]) != pair_key(stale@[i]));
            }
        }
        assert forall|k: (Seq<char>, Seq<char>)| #[trigger] b0.links.dom().contains(k) && is_stale(b0.links[k], 30000, now_ms) implies keys.contains(k) by {
            let i = choose|i: int| 0 <= i < stale@.len() && #[trigger] pair_key(stale@[i]) == k;
            assert(keys[i] == k);
        }
        assert forall|i: int| 0 <= i < keys.len() implies b0.links.dom().contains(#[trigger] keys[i]) && is_stale(b0.links[keys[i]], 30000, now_ms) by {
            assert(keys[i] == pair_key(stale@[i]));
        }
    }
    let mut actions: Vec<Action> = Vec::new();
    let mut i: usize = 0;
    assert(closed_among(b0, keys.take(0)).links =~= b0.links);
    while i < stale.len()
        invariant
            i <= stale@.len(),
            keys == stale@.map_values(|p: (String, String)| pair_key(p)),
            stale_keys(b0, now_ms, keys),
            bridge@ == closed_among(b0, keys.take(i as int)),
            actions_view(actions@) == close_actions(keys.take(i as int)),
        decreases stale@.len() - i,
    {
        let (a, p) = (&stale[i].0, &stale[i].1);
        let ghost k = keys[i as int];
        let ghost before = bridge@;
        let ghost acts = actions@;
        proof {
            assert(k == (a@, p@));
            assert(!keys.take(i as int).contains(k)) by {
                if keys.take(i as int).contains(k) {
                    let j = choose|j: int| 0 <= j < i && #[trigger] keys.take(i as int)[j] == k;
                    assert(keys[j] == keys[i as int]);
                }
            }
            assert(link_of(before, a@, p@) == b0.links[k]);
        }
        actions.push(send(a.as_str(), p.as_str(), OutMessage::CloseBridge));
        bridge.set_connection_status(a.as_str(), p.as_str(), AppConnectionStatus::Disconnected, now_ms);
        actions.push(Action::Persist);
        proof {
            assert(keys.take(i + 1).drop_last() =~= keys.take(i as int));
            assert(keys.take(i + 1).last() == k);
            assert(actions_view(actions@) =~= actions_view(acts) + seq![
                ActionView::Send(k.0, k.1, MessageView::CloseBridge),
                ActionView::Persist,
            ]);
            assert forall|q: (Seq<char>, Seq<char>)| #[trigger] keys.take(i + 1).contains(q) <==> keys.take(i as int).contains(q) || q == k by {
                if keys.take(i + 1).contains(q) {
                    let j = choose|j: int| 0 <= j < i + 1 && #[trigger] keys.take(i + 1)[j] == q;
                    if j < i {
                        assert(keys.take(i as int)[j] == q);
                    }
                }
                if keys.take(i as int).contains(q) {
                    let j = choose|j: int| 0 <= j < i && #[trigger] keys.take(i as int)[j] == q;
                    assert(keys.take(i + 1)[j] == q);
                }
                if q == k {
                    assert(keys.take(i + 1)[i as int] == q);
                }
            }
            assert(bridge@.links =~= closed_among(b0, keys.take(i + 1)).links);
        }
        i = i + 1;
    }
    proof {
        assert(keys.take(stale@.len() as int) =~= keys);
        assert(bridge@.links =~= heartbeat_checked(b0, now_ms).links);
    }
    if stale.len() > 0 {
        let ghost acts = actions@;
        actions.push(Action::Render);
        assert(actions_view(actions@) =~= actions_view(acts) + seq![ActionView::Render]);
    } else {
        assert(actions_view(actions@) =~= actions_view(actions@) + seq![]);
    }
    assert(stale_keys(old(bridge)@, now_ms, keys));
    actions
}

/// The fields `kind`, `addr` and `pkg` of a timer's payload.
pub open spec fn timer_field(payload: JsonValue, key: Seq<char>) -> Seq<char> {
    text_or_empty(json_get(payload, key))
}

/// What a timer does by the payload it was set with (`None` where the
/// payload is not JSON): the handshake guard fails a handshake still
/// awaited, the heartbeat closes the silent links, anything else is
/// ignored.
pub open spec fn timer_kind_handled(payload: Option<JsonValue>) -> Seq<char> {
    match payload {
        Some(p) => timer_field(p, "kind"@),
        None => Seq::empty(),
    }
}

/// Handles a timer whose payload is `payload` (`None` where it is not
/// JSON), fired at `now_ms`.
pub fn handle_timer_payload(bridge: &mut Bridge, payload: Option<&JsonValue>, now_ms: u128) -> (actions: Vec<Action>)
    ensures
        match payload {
            Some(p) => {
                let kind = timer_field(*p, "kind"@);
                let addr = timer_field(*p, "addr"@);
                let pkg = timer_field(*p, "pkg"@);
                if kind == "hs_timeout"@ && addr.len() > 0 && pkg.len() > 0 {
                    (final(bridge)@, actions_view(actions@)) == timeout_outcome(old(bridge)@, addr, pkg)
                } else if kind == "heartbeat"@ {
                    final(bridge)@ == heartbeat_checked(old(bridge)@, now_ms) && exists|keys: Seq<(Seq<char>, Seq<char>)>|
                        stale_keys(old(bridge)@, now_ms, keys) && actions_view(actions@) == #[trigger] close_actions(keys) + if keys.len() > 0 {
                            seq![ActionView::Render]
                        } else {
                            seq![]
                        }
                } else {
                    final(bridge)@ == old(bridge)@ && actions@.len() == 0
                }
            },
            None => final(bridge)@ == old(bridge)@ && actions@.len() == 0,
        },
{
    match payload {
        Some(p) => {
            let kind = member_text(p, "kind");
            proof {
                reveal_strlit("hs_timeout");
                reveal_strlit("heartbeat");
            }
            if kind == "hs_timeout".to_owned() {
                let addr = member_text(p, "addr");
                let pkg = member_text(p, "pkg");
                if addr.as_str().unicode_len() > 0 && pkg.as_str().unicode_len() > 0 {
                    return handshake_timed_out(bridge, addr.as_str(), pkg.as_str());
                }
                assert("hs_timeout"@.len() != "heartbeat"@.len());
            } else if kind == "heartbeat".to_owned() {
                return check_heartbeat_timeout(bridge, now_ms);
            }
            Vec::new()
        },
        None => Vec::new(),
    }
}

/// The payload text of a timer event: the `payload` member of the host's
/// envelope where it has a string one, else the whole text.
pub fn timer_payload_text(envelope: Option<&JsonValue>, raw: &str) -> (t: String)
    ensures
        t@ == match envelope {
            Some(e) => match as_text(json_get(*e, "payload"@)) {
                Some(p) => p,
                None => raw@,
            },
            None => raw@,
        },
{
    match envelope {
        Some(e) => match get_str(e, "payload") {
            Some(p) => p,
            None => raw.to_owned(),
        },
        None => raw.to_owned(),
    }
}

impl ParsedMessage {
    /// The message names the device and the package it came from.
    pub fn has_source(&self) -> (b: bool)
        ensures
            b == (self.addr@.len() > 0 && self.pkg_name@.len() > 0),
    {
        self.addr.as_str().unicode_len() > 0 && self.pkg_name.as_str().unicode_len() > 0
    }
}

/// Handles an interconnect message read from the host's envelope, with its
/// data parsed as JSON (`None` where it is not JSON). A message that does
/// not name its device and package, or whose data is not JSON, is dropped:
/// nothing changes and nothing is done. Any other is a message of the
/// bridge protocol.
pub fn handle_interconnect_message(
    state: &mut PluginState,
    bridge: &mut Bridge,
    streams: &mut SseRegistry,
    parsed: &ParsedMessage,
    msg: Option<JsonValue>,
    now_ms: u128,
) -> (actions: Vec<Action>)
    ensures
        !(parsed.addr@.len() > 0 && parsed.pkg_name@.len() > 0) || msg is None ==> final(state)@ == old(state)@
            && final(bridge)@ == old(bridge)@ && final(streams)@ == old(streams)@ && actions@.len() == 0,
        (parsed.addr@.len() > 0 && parsed.pkg_name@.len() > 0) && msg is Some ==> (
        final(state)@,
        final(bridge)@,
        final(streams)@,
        actions_view(actions@),
        ) == sf_outcome(
            old(state)@,
            old(bridge)@,
            old(streams)@,
            parsed.addr@,
            parsed.pkg_name@,
            msg.unwrap(),
            now_ms,
        ),
{
    if !parsed.has_source() {
        return Vec::new();
    }
    match msg {
        Some(m) => handle_sf_message(
            state,
            bridge,
            streams,
            parsed.addr.as_str(),
            parsed.pkg_name.as_str(),
            m,
            now_ms,
        ),
        None => Vec::new(),
    }
}

/// The first step of connecting to `app`: its link is handshaking, and the
/// host registers to receive its messages (then launches it).
pub fn begin_connect(bridge: &mut Bridge, app: &InstalledApp, now_ms: u128) -> (actions: Vec<Action>)
    ensures
        final(bridge)@ == status_set(old(bridge)@, app.addr@, app.package_name@, AppConnectionStatus::Handshaking, now_ms),
        actions_view(actions@) == seq![ActionView::Render, ActionView::RegisterReceiver(app.addr@, app.package_name@)],
{
    bridge.set_connection_status(app.addr.as_str(), app.package_name.as_str(), AppConnectionStatus::Handshaking, now_ms);
    let mut actions: Vec<Action> = Vec::new();
    actions.push(Action::Render);
    actions.push(Action::RegisterReceiver { addr: app.addr.clone(), pkg: app.package_name.clone() });
    assert(actions_view(actions@) =~= seq![ActionView::Render, ActionView::RegisterReceiver(app.addr@, app.package_name@)]);
    actions
}

/// Why a connection failed when the quick app could not be launched.
pub open spec fn launch_reason() -> Seq<char> {
    "启动快应用失败"@
}

/// The step after launching the quick app `pkg` on `addr` (and, where it
/// started, waiting for it): where it started, the handshake is sent (the
/// host then arms the timer that guards it); else the link fails and the
/// user is told.
pub fn launch_finished(bridge: &mut Bridge, addr: &str, pkg: &str, launched: bool) -> (actions: Vec<Action>)
    ensures
        launched ==> final(bridge)@ == old(bridge)@ && actions_view(actions@) == seq![ActionView::Send(addr@, pkg@, MessageView::Handshake)],
        !launched ==> final(bridge)@ == failed(old(bridge)@, addr@, pkg@, launch_reason()) && actions_view(actions@) == seq![
            ActionView::Render,
            ActionView::Alert("连接失败"@, "启动快应用失败，请确认应用已安装"@),
        ],
{
    let mut actions: Vec<Action> = Vec::new();
    if launched {
        actions.push(send(addr, pkg, OutMessage::Handshake));
        assert(actions_view(actions@) =~= seq![ActionView::Send(addr@, pkg@, MessageView::Handshake)]);
    } else {
        bridge.set_connection_failed(addr, pkg, "启动快应用失败");
        actions.push(Action::Render);
        actions.push(alert("连接失败", "启动快应用失败，请确认应用已安装"));
        assert(actions_view(actions@) =~= seq![
            ActionView::Render,
            ActionView::Alert("连接失败"@, "启动快应用失败，请确认应用已安装"@),
        ]);
    }
    actions
}

/// The timer `timer_id` now guards the handshake of `pkg` on `addr`; a
/// timer that guarded an earlier one is cleared.
pub fn handshake_timer_armed(bridge: &mut Bridge, addr: &str, pkg: &str, timer_id: u64) -> (actions: Vec<Action>)
    ensures
        final(bridge)@ == pending_set(old(bridge)@, addr@, pkg@, timer_id),
        actions_view(actions@) == clear_opt(link_of(old(bridge)@, addr@, pkg@).pending),
{
    let old_timer = bridge.insert_pending_handshake(addr, pkg, timer_id);
    let mut actions: Vec<Action> = Vec::new();
    push_clear(&mut actions, old_timer);
    assert(actions_view(actions@) =~= clear_opt(link_of(old(bridge)@, addr@, pkg@).pending));
    actions
}

/// What disconnecting the quick app `pkg` on `addr` does: its awaited
/// handshake is dropped, its streams are asked to stop, a connected app is
/// told the bridge is closed, and the link is disconnected and forgotten
/// for reconnection.
pub open spec fn disconnected(
    s: PluginStateView,
    b: BridgeView,
    r: SseRegistryView,
    addr: Seq<char>,
    pkg: Seq<char>,
    now_ms: u128,
) -> (PluginStateView, BridgeView, SseRegistryView, Seq<ActionView>) {
    let l = link_of(b, addr, pkg);
    (
        enabled_set(s, pkg, false),
        status_set(pending_taken(b, addr, pkg), addr, pkg, AppConnectionStatus::Disconnected, now_ms),
        all_cancelled(r, addr, pkg),
        clear_opt(l.pending) + (if l.status == AppConnectionStatus::Connected {
            seq![ActionView::Send(addr, pkg, MessageView::CloseBridge)]
        } else {
            seq![]
        }) + seq![ActionView::Persist, ActionView::Render],
    )
}

/// Disconnects the quick app `app`.
pub fn disconnect_app(
    state: &mut PluginState,
    bridge: &mut Bridge,
    streams: &mut SseRegistry,
    app: &InstalledApp,
    now_ms: u128,
) -> (actions: Vec<Action>)
    ensures
        (final(state)@, final(bridge)@, final(streams)@, actions_view(actions@)) == disconnected(
            old(state)@,
            old(bridge)@,
            old(streams)@,
            app.addr@,
            app.package_name@,
            now_ms,
        ),
{
    let addr = app.addr.as_str();
    let pkg = app.package_name.as_str();
    let mut actions: Vec<Action> = Vec::new();
    let t = bridge.take_pending_handshake(addr, pkg);
    push_clear(&mut actions, t);
    streams.cancel_all_sse_for_app(addr, pkg);
    let ghost a1 = actions@;
    if bridge.connection_status(addr, pkg) == AppConnectionStatus::Connected {
        actions.push(send(addr, pkg, OutMessage::CloseBridge));
        assert(actions_view(actions@) =~= actions_view(a1) + seq![ActionView::Send(addr@, pkg@, MessageView::CloseBridge)]);
    } else {
        assert(actions_view(actions@) =~= actions_view(a1) + seq![]);
    }
    bridge.set_connection_status(addr, pkg, AppConnectionStatus::Disconnected, now_ms);
    set_enabled(state, pkg, false);
    let ghost a2 = actions@;
    actions.push(Action::Persist);
    actions.push(Action::Render);
    assert(actions_view(actions@) =~= actions_view(a2) + seq![ActionView::Persist, ActionView::Render]);
    actions
}

/// The packages reconnected at start-up: the monitored apps still marked
/// for serving, in increasing order of name.
pub fn reconnect_packages(state: &PluginState) -> (names: Vec<String>)
    ensures
        forall|i: int| 0 <= i < names@.len() ==> state@.apps.dom().contains(#[trigger] names@[i]@) && state@.apps[names@[i]@].enabled,
        forall|k: Seq<char>| #[trigger] state@.apps.dom().contains(k) && state@.apps[k].enabled ==> exists|i: int| 0 <= i < names@.len() && #[trigger] names@[i]@ == k,
        forall|i: int, j: int| 0 <= i < j < names@.len() ==> str_lt(#[trigger] names@[i]@, #[trigger] names@[j]@),
{
    let list = snapshot_apps(state);
    let ghost es = entries_view(list@);
    let mut names: Vec<String> = Vec::new();
    let ghost mut idx: Seq<int> = Seq::empty();
    let mut i: usize = 0;
    while i < list.len()
        invariant
            i <= list@.len(),
            es == entries_view(list@),
            sorted_keys(es),
            entries_map(es) == state@.apps,
            idx.len() == names@.len(),
            forall|m: int| 0 <= m < idx.len() ==> 0 <= #[trigger] idx[m] < i && names@[m]@ == es[idx[m]].pkg_name && es[idx[m]].enabled,
            forall|a: int, b: int| 0 <= a < b < idx.len() ==> #[trigger] idx[a] < #[trigger] idx[b],
            forall|j: int| 0 <= j < i && (#[trigger] es[j]).enabled ==> exists|m: int| 0 <= m < idx.len() && idx[m] == j,
        decreases list@.len() - i,
    {
        let ghost old_idx = idx;
        if list[i].enabled {
            names.push(list[i].pkg_name.clone());
            proof {
                idx = idx.push(i as int);
            }
        }
        proof {
            assert forall|j: int| 0 <= j < i + 1 && (#[trigger] es[j]).enabled implies exists|m: int| 0 <= m < idx.len() && idx[m] == j by {
                if j == i {
                    assert(idx[idx.len() - 1] == i);
                } else {
                    let m = choose|m: int| 0 <= m < old_idx.len() && old_idx[m] == j;
                    assert(idx[m] == old_idx[m]);
                }
            }
        }
        i = i + 1;
    }
    proof {
        assert forall|m: int| 0 <= m < names@.len() implies state@.apps.dom().contains(#[trigger] names@[m]@) && state@.apps[names@[m]@].enabled by {
            crate::state::lemma_map_at(es, idx[m]);
        }
        assert forall|k: Seq<char>| #[trigger] state@.apps.dom().contains(k) && state@.apps[k].enabled implies exists|m: int| 0 <= m < names@.len() && #[trigger] names@[m]@ == k by {
            let j = choose|j: int| 0 <= j < es.len() && #[trigger] es[j].pkg_name == k;
            crate::state::lemma_map_at(es, j);
            let m = choose|m: int| 0 <= m < idx.len() && idx[m] == j;
            assert(names@[m]@ == k);
        }
        assert forall|a: int, b: int| 0 <= a < b < names@.len() implies str_lt(#[trigger] names@[a]@, #[trigger] names@[b]@) by {
            assert(idx[a] < idx[b]);
        }
    }
    names
}

/// The frames that carry a response of status `code`, headers `headers`
/// and body `body` for the request `id` to `pkg` on `addr`: only the first
/// frame carries the status code and the headers.
pub open spec fn response_actions(
    addr: Seq<char>,
    pkg: Seq<char>,
    id: Seq<char>,
    code: u16,
    headers: Map<Seq<char>, Seq<char>>,
    body: Seq<u8>,
) -> Seq<ActionView> {
    if sent_whole(body) {
        seq![
            ActionView::Send(
                addr,
                pkg,
                MessageView::Response {
                    id,
                    head: Some((code, headers)),
                    chunk: 0,
                    total_chunks: 0,
                    body: vstd::utf8::decode_utf8(body),
                    first: true,
                },
            ),
        ]
    } else {
        let enc = base64_standard(body);
        let n = chunk_count(enc.len() as int);
        Seq::new(
            n as nat,
            |i: int|
                ActionView::Send(
                    addr,
                    pkg,
                    MessageView::Response {
                        id,
                        head: if i == 0 {
                            Some((code, headers))
                        } else {
                            None
                        },
                        chunk: (i + 1) as usize,
                        total_chunks: n as usize,
                        body: chunk_at(enc, i),
                        first: i == 0,
                    },
                ),
        )
    }
}

/// The status recorded for a completed request: `HTTP` and the code.
pub open spec fn http_status_text(code: u16) -> Seq<char> {
    "HTTP "@ + decimal(code as nat)
}

/// What the outcome of the request `id` of `pkg` on `addr` does: a
/// response is counted (a success for codes 200 to 299), the count saved,
/// and the response sent back in frames with its forwarded headers; a
/// failure is counted, the count saved, and the failure sent back as an
/// error in words the user can read.
pub open spec fn request_outcome(
    s: PluginStateView,
    addr: Seq<char>,
    pkg: Seq<char>,
    id: Seq<char>,
    result: Result<(u16, Map<Seq<char>, Seq<char>>, Seq<u8>), Seq<char>>,
) -> (PluginStateView, Seq<ActionView>) {
    match result {
        Ok((code, headers, body)) => (
            result_recorded(s, pkg, 200 <= code < 300, Some(http_status_text(code))),
            seq![ActionView::Persist] + response_actions(addr, pkg, id, code, forwarded(headers), body),
        ),
        Err(e) => (
            result_recorded(s, pkg, false, Some(e)),
            seq![
                ActionView::Persist,
                ActionView::Send(
                    addr,
                    pkg,
                    MessageView::Error { id, status_code: 0, error: classified_error(e) },
                ),
            ],
        ),
    }
}

/// The value of a request's outcome.
pub open spec fn result_view(r: Result<HttpResponse, String>) -> Result<(u16, Map<Seq<char>, Seq<char>>, Seq<u8>), Seq<char>> {
    match r {
        Ok(resp) => Ok((resp.status_code, resp.headers@, resp.body@)),
        Err(e) => Err(e@),
    }
}

/// Answers the request `id` of `pkg` on `addr` with its outcome.
pub fn execute_and_respond(
    state: &mut PluginState,
    addr: &str,
    pkg: &str,
    id: &str,
    result: Result<HttpResponse, String>,
) -> (actions: Vec<Action>)
    requires
        result matches Ok(resp) ==> resp.body@.len() <= usize::MAX / 4 * 3,
    ensures
        (final(state)@, actions_view(actions@)) == request_outcome(old(state)@, addr@, pkg@, id@, result_view(result)),
{
    let ghost rv = result_view(result);
    let mut actions: Vec<Action> = Vec::new();
    match result {
        Ok(resp) => {
            let code = resp.status_code;
            let ok = 200 <= code && code < 300;
            let mut status = "HTTP ".to_owned();
            status.append(decimal_string(code as u64).as_str());
            record_result(state, pkg, ok, Some(status));
            actions.push(Action::Persist);
            let headers = filter_response_headers(&resp.headers);
            let ghost h = headers@;
            let frames = response_frames(resp.body.as_slice());
            let mut first_headers = Some(headers);
            let ghost want = response_actions(addr@, pkg@, id@, code, h, resp.body@);
            assert(want.len() == frames@.len()) by {
                if !sent_whole(resp.body@) {
                    assert(want.len() == chunk_count(base64_standard(resp.body@).len() as int));
                }
            }
            let ghost fs = frames@;
            let mut i: usize = 0;
            while i < frames.len()
                invariant
                    want == response_actions(addr@, pkg@, id@, code, h, resp.body@),
                    want.len() == fs.len(),
                    fs == frames@,
                    i <= fs.len(),
                    actions@.len() == i + 1,
                    actions@[0]@ == ActionView::Persist,
                    forall|j: int| 0 <= j < i ==> #[trigger] actions@[j + 1]@ == want[j],
                    first_headers matches Some(hh) ==> hh@ == h && i == 0,
                    i == 0 ==> first_headers is Some,
                    sent_whole(resp.body@) ==> fs.len() == 1 && fs[0].chunk == 0 && fs[0].total_chunks == 0
                        && fs[0].body@ == vstd::utf8::decode_utf8(resp.body@) && fs[0].first,
                    !sent_whole(resp.body@) ==> forall|j: int|
                        0 <= j < fs.len() ==> (#[trigger] fs[j]).chunk == j + 1 && fs[j].total_chunks == fs.len()
                            && fs[j].body@ == chunk_at(base64_standard(resp.body@), j) && fs[j].first == (j == 0),
                decreases fs.len() - i,
            {
                let f = &frames[i];
                let frame = ResponseFrame { chunk: f.chunk, total_chunks: f.total_chunks, body: f.body.clone(), first: f.first };
                let head = match first_headers.take() {
                    Some(h) => Some((code, h)),
                    None => None,
                };
                let message = OutMessage::Response { id: id.to_owned(), head, frame };
                actions.push(send(addr, pkg, message));
                proof {
                    if !sent_whole(resp.body@) {
                        assert(want[i as int] == actions@[i + 1]@);
                    }
                }
                i = i + 1;
            }
            assert(actions_view(actions@) =~= seq![ActionView::Persist] + want);
        },
        Err(e) => {
            let words = classify_network_error(e.as_str());
            record_result(state, pkg, false, Some(e));
            actions.push(Action::Persist);
            actions.push(
                send(addr, pkg, OutMessage::Error { id: id.to_owned(), status_code: 0, error: words }),
            );
            assert(actions_view(actions@) =~= request_outcome(old(state)@, addr@, pkg@, id@, rv).1);
        },
    }
    actions
}

/// The message carrying the event `ev` of the stream `id`: an event with no
/// type is a `message`.
pub open spec fn event_message(id: Seq<char>, ev: (Seq<char>, Seq<char>)) -> MessageView {
    MessageView::SseEvent {
        id,
        event: if ev.0.len() == 0 {
            message_name()
        } else {
            ev.0
        },
        data: ev.1,
    }
}

/// Sends the event `ev` of the stream `id` to `pkg` on `addr`.
pub fn stream_event(addr: &str, pkg: &str, id: &str, ev: &SseEvent) -> (a: Action)
    ensures
        a@ == ActionView::Send(addr@, pkg@, event_message(id@, ev@)),
{
    let event = if ev.event.as_str().unicode_len() == 0 {
        crate::sse::message_string()
    } else {
        ev.event.clone()
    };
    send(addr, pkg, OutMessage::SseEvent { id: id.to_owned(), event, data: ev.data.clone() })
}

/// How many of `n` events of a stream are relayed: all while the stream is
/// not asked to stop; once it is, only the first, since each event is sent
/// before the stop is looked at.
pub open spec fn relayed_count(stopped: bool, n: int) -> int {
    if stopped && n > 1 {
        1
    } else {
        n
    }
}

/// Relays the events that a chunk of the stream `id` delivered to `pkg` on
/// `addr`; says whether to read on, which is so while the stream is not
/// asked to stop.
pub fn relay_events(
    streams: &SseRegistry,
    addr: &str,
    pkg: &str,
    id: &str,
    events: &Vec<SseEvent>,
) -> (r: (Vec<Action>, bool))
    ensures
        r.1 == !cancelled(streams@, id@),
        actions_view(r.0@) == events@.take(relayed_count(cancelled(streams@, id@), events@.len() as int)).map_values(
            |e: SseEvent| ActionView::Send(addr@, pkg@, event_message(id@, e@)),
        ),
{
    let stopped = streams.is_cancelled(id);
    let n: usize = if stopped && events.len() > 1 {
        1
    } else {
        events.len()
    };
    let ghost f = |e: SseEvent| ActionView::Send(addr@, pkg@, event_message(id@, e@));
    let mut actions: Vec<Action> = Vec::new();
    let mut i: usize = 0;
    while i < n
        invariant
            n <= events@.len(),
            i <= n,
            f == (|e: SseEvent| ActionView::Send(addr@, pkg@, event_message(id@, e@))),
            actions_view(actions@) == events@.take(i as int).map_values(f),
        decreases n - i,
    {
        let ghost prev = actions@;
        actions.push(stream_event(addr, pkg, id, &events[i]));
        assert(actions_view(actions@) =~= actions_view(prev).push(f(events@[i as int])));
        assert(events@.take(i + 1).map_values(f) =~= events@.take(i as int).map_values(f).push(f(events@[i as int])));
        i = i + 1;
    }
    (actions, !stopped)
}

/// What the end of the stream `id` of `pkg` on `addr` does, with the
/// stream's result: the stream is no longer tracked; one that ended, or
/// failed after it was asked to stop, is reported ended (the former counted
/// a success); one that failed otherwise is counted a failure and reported
/// with its error. A count is saved; the page is redrawn.
pub open spec fn stream_outcome(
    s: PluginStateView,
    r: SseRegistryView,
    addr: Seq<char>,
    pkg: Seq<char>,
    id: Seq<char>,
    result: Result<(), Seq<char>>,
) -> (PluginStateView, SseRegistryView, Seq<ActionView>) {
    let r2 = SseRegistryView { flags: r.flags.remove(id), members: r.members.remove((addr, pkg, id)) };
    let end = ActionView::Send(addr, pkg, MessageView::SseEnd { id });
    match result {
        Ok(()) => (
            result_recorded(s, pkg, true, Some("SSE完成"@)),
            r2,
            seq![end, ActionView::Persist, ActionView::Render],
        ),
        Err(e) => if cancelled(r, id) {
            (s, r2, seq![end, ActionView::Render])
        } else {
            (
                result_recorded(s, pkg, false, Some(e)),
                r2,
                seq![
                    ActionView::Persist,
                    ActionView::Send(addr, pkg, MessageView::SseError { id, error: e }),
                    ActionView::Render,
                ],
            )
        },
    }
}

/// The value of a stream's result.
pub open spec fn end_view(r: Result<(), String>) -> Result<(), Seq<char>> {
    match r {
        Ok(()) => Ok(()),
        Err(e) => Err(e@),
    }
}

/// The stream `id` of `pkg` on `addr` ended with `result`.
pub fn stream_finished(
    state: &mut PluginState,
    streams: &mut SseRegistry,
    addr: &str,
    pkg: &str,
    id: &str,
    result: Result<(), String>,
) -> (actions: Vec<Action>)
    ensures
        (final(state)@, final(streams)@, actions_view(actions@)) == stream_outcome(
            old(state)@,
            old(streams)@,
            addr@,
            pkg@,
            id@,
            end_view(result),
        ),
{
    let ghost rv = end_view(result);
    let was_cancelled = streams.unregister_sse(addr, pkg, id);
    let mut actions: Vec<Action> = Vec::new();
    match result {
        Ok(()) => {
            actions.push(send(addr, pkg, OutMessage::SseEnd { id: id.to_owned() }));
            record_result(state, pkg, true, Some("SSE完成".to_owned()));
            actions.push(Action::Persist);
        },
        Err(e) => {
            if was_cancelled {
                actions.push(send(addr, pkg, OutMessage::SseEnd { id: id.to_owned() }));
            } else {
                record_result(state, pkg, false, Some(e.clone()));
                actions.push(Action::Persist);
                actions.push(send(addr, pkg, OutMessage::SseError { id: id.to_owned(), error: e }));
            }
        },
    }
    actions.push(Action::Render);
    proof {
        assert(final(streams)@ == stream_outcome(old(state)@, old(streams)@, addr@, pkg@, id@, rv).1);
        assert(actions_view(actions@) =~= stream_outcome(old(state)@, old(streams)@, addr@, pkg@, id@, rv).2);
    }
    actions
}

} // verus!
