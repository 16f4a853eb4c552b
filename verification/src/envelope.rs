//! The JSON form of the bridge's messages: every message is an object
//! `{ type, status, data }` (`status` where the message has one), and the
//! payloads of the plugin's timers.

use vstd::prelude::*;

use crate::json::{
    as_count, as_text, field, is_count, is_text, is_text_object, json_get, member_at, members_of, names_of,
    object, JsonNumber, JsonValue,
};
use crate::protocol::{timer_field, MessageView, OutMessage};

verus! {

/// `v` is an object `{ type: ty, status: st, data }` (without `status`
/// where `status` is none), whose `data` is an object with the member names
/// `fields`.
pub open spec fn enveloped(v: JsonValue, ty: Seq<char>, status: Option<Seq<char>>, fields: Seq<Seq<char>>) -> bool {
    &&& v is Object
    &&& match status {
        Some(st) => names_of(v) == seq!["type"@, "status"@, "data"@] && is_text(member_at(v, 1), st),
        None => names_of(v) == seq!["type"@, "data"@],
    }
    &&& is_text(member_at(v, 0), ty)
    &&& data_of(v) is Object
    &&& names_of(data_of(v)) == fields
}

/// The `data` member of a message: its last member.
pub open spec fn data_of(v: JsonValue) -> JsonValue {
    member_at(v, members_of(v).len() - 1)
}

/// The `i`-th member of a message's `data`.
pub open spec fn field_at(v: JsonValue, i: int) -> JsonValue {
    member_at(data_of(v), i)
}

/// `v` is the JSON form of the message `m`.
pub open spec fn message_shape(m: MessageView, v: JsonValue) -> bool {
    match m {
        MessageView::Handshake => enveloped(v, "SF_HANDSHAKE"@, None, seq![]),
        MessageView::HandshakeAck => enveloped(v, "SF_HANDSHAKE_ACK"@, Some("OK"@), seq![]),
        MessageView::Pong(ts) => enveloped(v, "SF_PONG"@, Some("OK"@), seq!["ts"@]) && field_at(v, 0) == ts,
        MessageView::CloseBridge => enveloped(v, "SF_CLOSE_BRIDGE"@, None, seq![]),
        MessageView::Response { id, head, chunk, total_chunks, body, first } => match head {
            Some((code, headers)) => {
                &&& enveloped(
                    v,
                    "SF_RESPONSE"@,
                    Some("OK"@),
                    seq!["id"@, "statusCode"@, "headers"@, "body"@, "chunk"@, "totalChunks"@],
                )
                &&& is_text(field_at(v, 0), id)
                &&& is_count(field_at(v, 1), code as int)
                &&& is_text_object(field_at(v, 2), headers)
                &&& is_text(field_at(v, 3), body)
                &&& is_count(field_at(v, 4), chunk as int)
                &&& is_count(field_at(v, 5), total_chunks as int)
            },
            None => {
                &&& enveloped(v, "SF_RESPONSE"@, Some("OK"@), seq!["id"@, "body"@, "chunk"@, "totalChunks"@])
                &&& is_text(field_at(v, 0), id)
                &&& is_text(field_at(v, 1), body)
                &&& is_count(field_at(v, 2), chunk as int)
                &&& is_count(field_at(v, 3), total_chunks as int)
            },
        },
        MessageView::Error { id, status_code, error } => {
            &&& enveloped(v, "SF_RESPONSE"@, Some(error), seq!["id"@, "statusCode"@, "error"@])
            &&& is_text(field_at(v, 0), id)
            &&& is_count(field_at(v, 1), status_code as int)
            &&& is_text(field_at(v, 2), error)
        },
        MessageView::SseEvent { id, event, data } => {
            &&& enveloped(v, "SF_SSE_EVENT"@, None, seq!["id"@, "event"@, "data"@])
            &&& is_text(field_at(v, 0), id)
            &&& is_text(field_at(v, 1), event)
            &&& is_text(field_at(v, 2), data)
        },
        MessageView::SseEnd { id } => enveloped(v, "SF_SSE_END"@, None, seq!["id"@]) && is_text(field_at(v, 0), id),
        MessageView::SseError { id, error } => {
            &&& enveloped(v, "SF_SSE_ERROR"@, Some(error), seq!["id"@, "error"@])
            &&& is_text(field_at(v, 0), id)
            &&& is_text(field_at(v, 1), error)
        },
    }
}

/// The member `k` of a message's `data` object, looked up by name.
pub open spec fn data_field(v: JsonValue, k: Seq<char>) -> Option<JsonValue> {
    match json_get(v, "data"@) {
        Some(d) => json_get(d, k),
        None => None,
    }
}

proof fn lemma_field_at(ms: Seq<(String, JsonValue)>, i: int, k: Seq<char>)
    requires
        0 <= i < ms.len(),
        ms[i].0@ == k,
        forall|j: int| 0 <= j < i ==> ms[j].0@ != k,
    ensures
        field(ms, k) == Some(ms[i].1),
    decreases i,
{
    if i > 0 {
        assert forall|j: int| 0 <= j < i - 1 implies ms.drop_first()[j].0@ != k by {
            assert(ms.drop_first()[j] == ms[j + 1]);
        }
        lemma_field_at(ms.drop_first(), i - 1, k);
    }
}

proof fn lemma_field_absent(ms: Seq<(String, JsonValue)>, k: Seq<char>)
    requires
        forall|j: int| 0 <= j < ms.len() ==> ms[j].0@ != k,
    ensures
        field(ms, k) is None,
    decreases ms.len(),
{
    if ms.len() > 0 {
        assert forall|j: int| 0 <= j < ms.len() - 1 implies ms.drop_first()[j].0@ != k by {
            assert(ms.drop_first()[j] == ms[j + 1]);
        }
        lemma_field_absent(ms.drop_first(), k);
    }
}

/// The `i`-th member of the object `v` is the one named `names_of(v)[i]`
/// when no earlier member has that name.
proof fn lemma_get_at(v: JsonValue, i: int)
    requires
        v is Object,
        0 <= i < names_of(v).len(),
        forall|j: int| 0 <= j < i ==> names_of(v)[j] != names_of(v)[i],
    ensures
        json_get(v, names_of(v)[i]) == Some(member_at(v, i)),
{
    let ms = members_of(v);
    assert forall|j: int| 0 <= j < i implies ms[j].0@ != names_of(v)[i] by {
        assert(names_of(v)[j] == ms[j].0@);
    }
    lemma_field_at(ms, i, names_of(v)[i]);
}

/// The object `v` has no member named `k`.
proof fn lemma_get_absent(v: JsonValue, k: Seq<char>)
    requires
        v is Object,
        !names_of(v).contains(k),
    ensures
        json_get(v, k) is None,
{
    let ms = members_of(v);
    assert forall|j: int| 0 <= j < ms.len() implies ms[j].0@ != k by {
        assert(names_of(v)[j] == ms[j].0@);
    }
    lemma_field_absent(ms, k);
}

/// Every message read by member name: its `type` is the protocol's name
/// for its kind, its `status` is `"OK"` for an answer that went through,
/// the error text for one that failed, and absent otherwise, and each
/// member of its `data` holds the field of the same name: a response's
/// `chunk` its chunk number, `totalChunks` its number of chunks, and its
/// `statusCode` and `headers` only on the message that carries the head.
pub proof fn law_message_members(m: MessageView, v: JsonValue)
    requires
        message_shape(m, v),
    ensures
        as_text(json_get(v, "type"@)) == Some(
            match m {
                MessageView::Handshake => "SF_HANDSHAKE"@,
                MessageView::HandshakeAck => "SF_HANDSHAKE_ACK"@,
                MessageView::Pong(_) => "SF_PONG"@,
                MessageView::CloseBridge => "SF_CLOSE_BRIDGE"@,
                MessageView::Response { .. } => "SF_RESPONSE"@,
                MessageView::Error { .. } => "SF_RESPONSE"@,
                MessageView::SseEvent { .. } => "SF_SSE_EVENT"@,
                MessageView::SseEnd { .. } => "SF_SSE_END"@,
                MessageView::SseError { .. } => "SF_SSE_ERROR"@,
            },
        ),
        as_text(json_get(v, "status"@)) == match m {
            MessageView::HandshakeAck => Some("OK"@),
            MessageView::Pong(_) => Some("OK"@),
            MessageView::Response { .. } => Some("OK"@),
            MessageView::Error { error, .. } => Some(error),
            MessageView::SseError { error, .. } => Some(error),
            _ => None::<Seq<char>>,
        },
        json_get(v, "data"@) matches Some(d) && d is Object,
        match m {
            MessageView::Pong(ts) => data_field(v, "ts"@) == Some(ts),
            MessageView::Response { id, head, chunk, total_chunks, body, .. } => {
                &&& as_text(data_field(v, "id"@)) == Some(id)
                &&& as_text(data_field(v, "body"@)) == Some(body)
                &&& as_count(data_field(v, "chunk"@)) == Some(chunk as u64)
                &&& as_count(data_field(v, "totalChunks"@)) == Some(total_chunks as u64)
                &&& match head {
                    Some((code, headers)) => {
                        &&& as_count(data_field(v, "statusCode"@)) == Some(code as u64)
                        &&& data_field(v, "headers"@) matches Some(h) && is_text_object(h, headers)
                    },
                    None => data_field(v, "statusCode"@) is None && data_field(v, "headers"@) is None,
                }
            },
            MessageView::Error { id, status_code, error } => {
                &&& as_text(data_field(v, "id"@)) == Some(id)
                &&& as_count(data_field(v, "statusCode"@)) == Some(status_code as u64)
                &&& as_text(data_field(v, "error"@)) == Some(error)
            },
            MessageView::SseEvent { id, event, data } => {
                &&& as_text(data_field(v, "id"@)) == Some(id)
                &&& as_text(data_field(v, "event"@)) == Some(event)
                &&& as_text(data_field(v, "data"@)) == Some(data)
            },
            MessageView::SseEnd { id } => as_text(data_field(v, "id"@)) == Some(id),
            MessageView::SseError { id, error } => {
                &&& as_text(data_field(v, "id"@)) == Some(id)
                &&& as_text(data_field(v, "error"@)) == Some(error)
            },
            _ => true,
        },
{
    reveal_strlit("type");
    reveal_strlit("status");
    reveal_strlit("data");
    reveal_strlit("ts");
    reveal_strlit("id");
    reveal_strlit("statusCode");
    reveal_strlit("headers");
    reveal_strlit("body");
    reveal_strlit("chunk");
    reveal_strlit("totalChunks");
    reveal_strlit("error");
    reveal_strlit("event");
    assert("type"@[0] != "data"@[0]);
    assert("id"@.len() == 2 && "ts"@.len() == 2 && "body"@.len() == 4 && "data"@.len() == 4);
    assert("chunk"@.len() == 5 && "error"@.len() == 5 && "event"@.len() == 5 && "headers"@.len() == 7);
    assert("statusCode"@.len() == 10 && "totalChunks"@.len() == 11 && "status"@.len() == 6);
    let n = names_of(v);
    lemma_get_at(v, 0);
    if n.len() == 3 {
        lemma_get_at(v, 1);
        lemma_get_at(v, 2);
    } else {
        lemma_get_at(v, 1);
        assert(!n.contains("status"@));
        lemma_get_absent(v, "status"@);
    }
    let d = data_of(v);
    let f = names_of(d);
    assert(json_get(v, "data"@) == Some(d));
    match m {
        MessageView::Pong(_) => {
            lemma_get_at(d, 0);
        },
        MessageView::Response { head, .. } => {
            match head {
                Some(_) => {
                    assert(f == seq!["id"@, "statusCode"@, "headers"@, "body"@, "chunk"@, "totalChunks"@]);
                    lemma_get_at(d, 0);
                    lemma_get_at(d, 1);
                    lemma_get_at(d, 2);
                    lemma_get_at(d, 3);
                    lemma_get_at(d, 4);
                    lemma_get_at(d, 5);
                },
                None => {
                    assert(f == seq!["id"@, "body"@, "chunk"@, "totalChunks"@]);
                    lemma_get_at(d, 0);
                    lemma_get_at(d, 1);
                    lemma_get_at(d, 2);
                    lemma_get_at(d, 3);
                    lemma_get_absent(d, "statusCode"@);
                    lemma_get_absent(d, "headers"@);
                },
            }
        },
        MessageView::Error { .. } => {
            assert(f == seq!["id"@, "statusCode"@, "error"@]);
            lemma_get_at(d, 0);
            lemma_get_at(d, 1);
            lemma_get_at(d, 2);
        },
        MessageView::SseEvent { .. } => {
            assert(f == seq!["id"@, "event"@, "data"@]);
            lemma_get_at(d, 0);
            lemma_get_at(d, 1);
            lemma_get_at(d, 2);
        },
        MessageView::SseEnd { .. } => {
            lemma_get_at(d, 0);
        },
        MessageView::SseError { .. } => {
            assert(f == seq!["id"@, "error"@]);
            lemma_get_at(d, 0);
            lemma_get_at(d, 1);
        },
        _ => {},
    }
}

fn text(s: String) -> (v: JsonValue)
    ensures
        is_text(v, s@),
{
    JsonValue::Str(s)
}

fn count(n: u64) -> (v: JsonValue)
    ensures
        is_count(v, n as int),
{
    JsonValue::Number(JsonNumber::PosInt(n))
}

fn envelope(ty: &str, status: Option<String>, data: JsonValue) -> (v: JsonValue)
    requires
        data is Object,
    ensures
        v is Object,
        match status {
            Some(st) => names_of(v) == seq!["type"@, "status"@, "data"@] && is_text(member_at(v, 1), st@),
            None => names_of(v) == seq!["type"@, "data"@],
        },
        is_text(member_at(v, 0), ty@),
        data_of(v) == data,
{
    let mut ms: Vec<(String, JsonValue)> = Vec::new();
    ms.push(("type".to_owned(), text(ty.to_owned())));
    let ghost st = status;
    match status {
        Some(s) => {
            ms.push(("status".to_owned(), text(s)));
        },
        None => {},
    }
    ms.push(("data".to_owned(), data));
    let v = object(ms);
    proof {
        match st {
            Some(s) => {
                assert(names_of(v) =~= seq!["type"@, "status"@, "data"@]);
            },
            None => {
                assert(names_of(v) =~= seq!["type"@, "data"@]);
            },
        }
    }
    v
}

/// The JSON form of a message to a quick app.
pub fn message_value(m: OutMessage) -> (v: JsonValue)
    ensures
        message_shape(m@, v),
{
    let ghost mv = m@;
    match m {
        OutMessage::Handshake => {
            let d = object(Vec::new());
            assert(names_of(d) =~= seq![]);
            envelope("SF_HANDSHAKE", None, d)
        },
        OutMessage::HandshakeAck => {
            let d = object(Vec::new());
            assert(names_of(d) =~= seq![]);
            envelope("SF_HANDSHAKE_ACK", Some("OK".to_owned()), d)
        },
        OutMessage::Pong(ts) => {
            let ghost t = ts;
            let mut ms: Vec<(String, JsonValue)> = Vec::new();
            ms.push(("ts".to_owned(), ts));
            let d = object(ms);
            assert(names_of(d) =~= seq!["ts"@]);
            assert(member_at(d, 0) == t);
            envelope("SF_PONG", Some("OK".to_owned()), d)
        },
        OutMessage::CloseBridge => {
            let d = object(Vec::new());
            assert(names_of(d) =~= seq![]);
            envelope("SF_CLOSE_BRIDGE", None, d)
        },
        OutMessage::Response { id, head, frame } => {
            let mut ms: Vec<(String, JsonValue)> = Vec::new();
            ms.push(("id".to_owned(), text(id)));
            match head {
                Some((code, headers)) => {
                    ms.push(("statusCode".to_owned(), count(code as u64)));
                    ms.push(("headers".to_owned(), headers.to_json()));
                    ms.push(("body".to_owned(), text(frame.body)));
                    ms.push(("chunk".to_owned(), count(frame.chunk as u64)));
                    ms.push(("totalChunks".to_owned(), count(frame.total_chunks as u64)));
                    let d = object(ms);
                    assert(names_of(d) =~= seq!["id"@, "statusCode"@, "headers"@, "body"@, "chunk"@, "totalChunks"@]);
                    envelope("SF_RESPONSE", Some("OK".to_owned()), d)
                },
                None => {
                    ms.push(("body".to_owned(), text(frame.body)));
                    ms.push(("chunk".to_owned(), count(frame.chunk as u64)));
                    ms.push(("totalChunks".to_owned(), count(frame.total_chunks as u64)));
                    let d = object(ms);
                    assert(names_of(d) =~= seq!["id"@, "body"@, "chunk"@, "totalChunks"@]);
                    envelope("SF_RESPONSE", Some("OK".to_owned()), d)
                },
            }
        },
        OutMessage::Error { id, status_code, error } => {
            let mut ms: Vec<(String, JsonValue)> = Vec::new();
            ms.push(("id".to_owned(), text(id)));
            ms.push(("statusCode".to_owned(), count(status_code as u64)));
            ms.push(("error".to_owned(), text(error.clone())));
            let d = object(ms);
            assert(names_of(d) =~= seq!["id"@, "statusCode"@, "error"@]);
            envelope("SF_RESPONSE", Some(error), d)
        },
        OutMessage::SseEvent { id, event, data } => {
            let mut ms: Vec<(String, JsonValue)> = Vec::new();
            ms.push(("id".to_owned(), text(id)));
            ms.push(("event".to_owned(), text(event)));
            ms.push(("data".to_owned(), text(data)));
            let d = object(ms);
            assert(names_of(d) =~= seq!["id"@, "event"@, "data"@]);
            envelope("SF_SSE_EVENT", None, d)
        },
        OutMessage::SseEnd { id } => {
            let mut ms: Vec<(String, JsonValue)> = Vec::new();
            ms.push(("id".to_owned(), text(id)));
            let d = object(ms);
            assert(names_of(d) =~= seq!["id"@]);
            envelope("SF_SSE_END", None, d)
        },
        OutMessage::SseError { id, error } => {
            let mut ms: Vec<(String, JsonValue)> = Vec::new();
            ms.push(("id".to_owned(), text(id)));
            ms.push(("error".to_owned(), text(error.clone())));
            let d = object(ms);
            assert(names_of(d) =~= seq!["id"@, "error"@]);
            envelope("SF_SSE_ERROR", Some(error), d)
        },
    }
}

/// The payload of the timer that guards the handshake of `pkg` on `addr`:
/// `{ kind: "hs_timeout", addr, pkg }`, which the timer handler reads back.
pub fn handshake_timer_value(addr: &str, pkg: &str) -> (v: JsonValue)
    ensures
        names_of(v) == seq!["kind"@, "addr"@, "pkg"@],
        timer_field(v, "kind"@) == "hs_timeout"@,
        timer_field(v, "addr"@) == addr@,
        timer_field(v, "pkg"@) == pkg@,
{
    let mut ms: Vec<(String, JsonValue)> = Vec::new();
    ms.push(("kind".to_owned(), text("hs_timeout".to_owned())));
    ms.push(("addr".to_owned(), text(addr.to_owned())));
    ms.push(("pkg".to_owned(), text(pkg.to_owned())));
    let v = object(ms);
    proof {
        reveal_strlit("kind");
        reveal_strlit("addr");
        reveal_strlit("pkg");
        reveal_with_fuel(crate::json::field, 4);
        assert(names_of(v) =~= seq!["kind"@, "addr"@, "pkg"@]);
        let m = members_of(v);
        assert("kind"@[0] != "addr"@[0] && "kind"@ != "addr"@);
        assert("kind"@.len() != "pkg"@.len() && "addr"@.len() != "pkg"@.len());
        assert(m[0].0@ == "kind"@ && m[1].0@ == "addr"@ && m[2].0@ == "pkg"@);
        assert(m.drop_first()[0] == m[1]);
        assert(m.drop_first().drop_first()[0] == m[2]);
        assert(json_get(v, "kind"@) == Some(m[0].1));
        assert(json_get(v, "addr"@) == Some(m[1].1));
        assert(json_get(v, "pkg"@) == Some(m[2].1));
    }
    v
}

/// The payload of the heartbeat timer: `{ kind: "heartbeat" }`, which the
/// timer handler reads back.
pub fn heartbeat_timer_value() -> (v: JsonValue)
    ensures
        names_of(v) == seq!["kind"@],
        timer_field(v, "kind"@) == "heartbeat"@,
{
    let mut ms: Vec<(String, JsonValue)> = Vec::new();
    ms.push(("kind".to_owned(), text("heartbeat".to_owned())));
    let v = object(ms);
    proof {
        reveal_with_fuel(crate::json::field, 2);
        assert(names_of(v) =~= seq!["kind"@]);
        assert(json_get(v, "kind"@) == Some(members_of(v)[0].1));
    }
    v
}

} // verus!
