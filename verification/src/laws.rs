//! Properties of the bridge that hold across its operations.

use vstd::prelude::*;

use crate::bridge::{
    is_stale, link_of, pending_set, pending_taken, status_set, AppConnectionStatus, BridgeView, LinkView,
};
use crate::json::{as_text, decimal, digit, json_get, JsonValue};
use crate::protocol::{
    ack_received, accepting, disconnected, request_received, handshake_accepted, heartbeat_checked, ping_ts, sf_outcome,
    text_or_empty, timeout_outcome, timeout_reason, ActionView, MessageView,
};
use crate::state::{
    enabled_set, entries_map, lemma_lt_irrefl, lemma_lt_trans, sorted_keys, str_lt, AppEntryView,
    PluginStateView,
};
use crate::streams::{all_cancelled, cancelled, stream_cancelled, SseRegistryView};
use crate::ui::{all_digits, digits_value, is_digit, parsed_index, unsigned_digits};

verus! {

/// A handshake timer that was armed is the one taken back, and taking it
/// leaves no handshake awaited; the links of other apps are untouched.
pub proof fn law_pending_roundtrip(b: BridgeView, addr: Seq<char>, pkg: Seq<char>, t: u64, other: (Seq<char>, Seq<char>))
    requires
        other != (addr, pkg),
    ensures
        link_of(pending_set(b, addr, pkg, t), addr, pkg).pending == Some(t),
        link_of(pending_taken(pending_set(b, addr, pkg, t), addr, pkg), addr, pkg).pending is None,
        link_of(pending_taken(pending_set(b, addr, pkg, t), addr, pkg), other.0, other.1) == link_of(b, other.0, other.1),
{
}

/// Changing the state of one link leaves every other link as it was.
pub proof fn law_links_independent(
    b: BridgeView,
    addr: Seq<char>,
    pkg: Seq<char>,
    st: AppConnectionStatus,
    now_ms: u128,
    other: (Seq<char>, Seq<char>),
)
    requires
        other != (addr, pkg),
    ensures
        link_of(status_set(b, addr, pkg, st, now_ms), other.0, other.1) == link_of(b, other.0, other.1),
        link_of(status_set(b, addr, pkg, st, now_ms), addr, pkg).status == st,
{
}

/// A handshake from a quick app always connects it: its link is connected
/// with no handshake awaited, it is remembered for reconnection, and it is
/// sent an acknowledgement.
pub proof fn law_handshake_connects(s: PluginStateView, b: BridgeView, addr: Seq<char>, pkg: Seq<char>, now_ms: u128)
    ensures
        ({
            let (s2, b2, acts) = handshake_accepted(s, b, addr, pkg, now_ms);
            &&& link_of(b2, addr, pkg).status == AppConnectionStatus::Connected
            &&& link_of(b2, addr, pkg).pending is None
            &&& link_of(b2, addr, pkg).last_ping_ms == Some(now_ms)
            &&& s2.apps.dom().contains(pkg) && s2.apps[pkg].enabled
            &&& acts.last() == ActionView::Send(addr, pkg, MessageView::HandshakeAck)
        }),
{
}

/// An acknowledgement settles only a handshake the plugin awaits: with none
/// awaited nothing changes and nothing is done; with one awaited the app is
/// connected and no handshake is awaited any more.
pub proof fn law_ack_needs_pending(s: PluginStateView, b: BridgeView, addr: Seq<char>, pkg: Seq<char>, now_ms: u128)
    ensures
        link_of(b, addr, pkg).pending is None ==> ack_received(s, b, addr, pkg, now_ms) == (s, b, Seq::<ActionView>::empty()),
        link_of(b, addr, pkg).pending is Some ==> ({
            let (s2, b2, acts) = ack_received(s, b, addr, pkg, now_ms);
            &&& link_of(b2, addr, pkg).status == AppConnectionStatus::Connected
            &&& link_of(b2, addr, pkg).pending is None
            &&& acts[0] == ActionView::ClearTimer(link_of(b, addr, pkg).pending.unwrap())
        }),
{
}

/// A message other than a handshake from an app whose link is
/// disconnected or failed, and that awaits no handshake, is dropped: it
/// changes nothing and causes nothing.
pub proof fn law_unconnected_dropped(
    s: PluginStateView,
    b: BridgeView,
    r: SseRegistryView,
    addr: Seq<char>,
    pkg: Seq<char>,
    msg: JsonValue,
    now_ms: u128,
)
    requires
        text_or_empty(json_get(msg, "type"@)) != "SF_HANDSHAKE"@,
        link_of(b, addr, pkg).status == AppConnectionStatus::Disconnected
            || link_of(b, addr, pkg).status == AppConnectionStatus::Failed,
        link_of(b, addr, pkg).pending is None,
    ensures
        sf_outcome(s, b, r, addr, pkg, msg, now_ms) == (s, b, r, Seq::<ActionView>::empty()),
{
}

/// A message from an app whose link is handshaking or connected, or that
/// awaits an answer to a handshake, is never dropped: it ends with a redraw.
pub proof fn law_live_link_heard(
    s: PluginStateView,
    b: BridgeView,
    r: SseRegistryView,
    addr: Seq<char>,
    pkg: Seq<char>,
    msg: JsonValue,
    now_ms: u128,
)
    requires
        (link_of(b, addr, pkg).status == AppConnectionStatus::Handshaking
            || link_of(b, addr, pkg).status == AppConnectionStatus::Connected)
            || link_of(b, addr, pkg).pending is Some,
    ensures
        sf_outcome(s, b, r, addr, pkg, msg, now_ms).3.last() == ActionView::Render,
{
}

/// On a link that takes messages, each message type of the protocol does
/// its own thing: an `SF_REQUEST` with data is counted and fetched, an
/// `SF_CLOSE_BRIDGE_ACK` disables the app and disconnects its link, an
/// `SF_CLOSE` with an id cancels that stream, an `SF_HANDSHAKE_ACK` with
/// status `OK` settles the handshake; each ends with a redraw.
pub proof fn law_live_dispatch(
    s: PluginStateView,
    b: BridgeView,
    r: SseRegistryView,
    addr: Seq<char>,
    pkg: Seq<char>,
    msg: JsonValue,
    now_ms: u128,
)
    requires
        accepting(b, addr, pkg),
    ensures
        ({
            let ty = text_or_empty(json_get(msg, "type"@));
            let data = json_get(msg, "data"@);
            let out = sf_outcome(s, b, r, addr, pkg, msg, now_ms);
            &&& ty == "SF_REQUEST"@ && data is Some ==> ({
                let (s2, a) = request_received(s, addr, pkg, data.unwrap(), now_ms);
                out == (s2, b, r, a.push(ActionView::Render))
            })
            &&& ty == "SF_CLOSE_BRIDGE_ACK"@ ==> out == (
                enabled_set(s, pkg, false),
                status_set(b, addr, pkg, AppConnectionStatus::Disconnected, now_ms),
                r,
                seq![ActionView::Persist, ActionView::Render],
            )
            &&& (ty == "SF_CLOSE"@ && data is Some && as_text(json_get(data.unwrap(), "id"@)) is Some) ==> out == (
                s,
                b,
                stream_cancelled(r, as_text(json_get(data.unwrap(), "id"@)).unwrap()),
                seq![ActionView::Render],
            )
            &&& ty == "SF_HANDSHAKE_ACK"@ && text_or_empty(json_get(msg, "status"@)) == "OK"@ ==> ({
                let (s2, b2, a) = ack_received(s, b, addr, pkg, now_ms);
                out == (s2, b2, r, a.push(ActionView::Render))
            })
        }),
{
    reveal_strlit("SF_HANDSHAKE");
    reveal_strlit("SF_HANDSHAKE_ACK");
    reveal_strlit("SF_PING");
    reveal_strlit("SF_REQUEST");
    reveal_strlit("SF_CLOSE_BRIDGE_ACK");
    reveal_strlit("SF_CLOSE");
    assert("SF_HANDSHAKE"@.len() == 12 && "SF_HANDSHAKE_ACK"@.len() == 16 && "SF_PING"@.len() == 7);
    assert("SF_REQUEST"@.len() == 10 && "SF_CLOSE_BRIDGE_ACK"@.len() == 19 && "SF_CLOSE"@.len() == 8);
}

/// A ping from a link that takes messages is answered with the ping's own
/// `ts`, and counts as a sign of life.
pub proof fn law_ping_echoes_ts(
    s: PluginStateView,
    b: BridgeView,
    r: SseRegistryView,
    addr: Seq<char>,
    pkg: Seq<char>,
    msg: JsonValue,
    ts: JsonValue,
    now_ms: u128,
)
    requires
        text_or_empty(json_get(msg, "type"@)) == "SF_PING"@,
        accepting(b, addr, pkg),
        json_get(msg, "data"@) matches Some(d) && json_get(d, "ts"@) == Some(ts),
    ensures
        ({
            let (s2, b2, r2, acts) = sf_outcome(s, b, r, addr, pkg, msg, now_ms);
            &&& acts[0] == ActionView::Send(addr, pkg, MessageView::Pong(ts))
            &&& link_of(b2, addr, pkg).last_ping_ms == Some(now_ms)
            &&& s2 == s && r2 == r
        }),
{
    reveal_strlit("SF_PING");
    reveal_strlit("SF_HANDSHAKE");
    reveal_strlit("SF_HANDSHAKE_ACK");
    assert(ping_ts(json_get(msg, "data"@)) == ts);
    assert("SF_PING"@ != "SF_HANDSHAKE"@) by {
        assert("SF_PING"@.len() != "SF_HANDSHAKE"@.len());
    }
    assert("SF_PING"@ != "SF_HANDSHAKE_ACK"@) by {
        assert("SF_PING"@.len() != "SF_HANDSHAKE_ACK"@.len());
    }
}

/// Disconnecting an app leaves its link disconnected with no handshake
/// awaited, asks every one of its streams to stop, and forgets it for
/// reconnection.
pub proof fn law_disconnect(
    s: PluginStateView,
    b: BridgeView,
    r: SseRegistryView,
    addr: Seq<char>,
    pkg: Seq<char>,
    id: Seq<char>,
    now_ms: u128,
)
    ensures
        ({
            let (s2, b2, r2, acts) = disconnected(s, b, r, addr, pkg, now_ms);
            &&& link_of(b2, addr, pkg).status == AppConnectionStatus::Disconnected
            &&& link_of(b2, addr, pkg).pending is None
            &&& s2.apps.dom().contains(pkg) && !s2.apps[pkg].enabled
            &&& (r.flags.dom().contains(id) && r.members.contains((addr, pkg, id)) ==> cancelled(r2, id))
            &&& (!r.members.contains((addr, pkg, id)) ==> cancelled(r2, id) == cancelled(r, id))
        }),
{
}

/// The handshake guard fails only a handshake still awaited: with none
/// awaited nothing changes; with one awaited the link fails for the
/// timeout and no handshake is awaited any more.
pub proof fn law_timeout_needs_pending(b: BridgeView, addr: Seq<char>, pkg: Seq<char>)
    ensures
        link_of(b, addr, pkg).pending is None ==> timeout_outcome(b, addr, pkg) == (b, Seq::<ActionView>::empty()),
        link_of(b, addr, pkg).pending is Some ==> ({
            let (b2, acts) = timeout_outcome(b, addr, pkg);
            &&& link_of(b2, addr, pkg).status == AppConnectionStatus::Failed
            &&& link_of(b2, addr, pkg).failure == Some(timeout_reason())
            &&& link_of(b2, addr, pkg).pending is None
        }),
{
}

/// After the heartbeat check no link is left connected and silent for more
/// than 30 s, and every link that was not is unchanged.
pub proof fn law_heartbeat_clears_stale(b: BridgeView, now_ms: u128, k: (Seq<char>, Seq<char>))
    requires
        b.links.dom().contains(k),
    ensures
        !is_stale(heartbeat_checked(b, now_ms).links[k], 30000, now_ms),
        !is_stale(b.links[k], 30000, now_ms) ==> heartbeat_checked(b, now_ms).links[k] == b.links[k],
        heartbeat_checked(b, now_ms).links.dom() == b.links.dom(),
{
    assert(heartbeat_checked(b, now_ms).links.dom() =~= b.links.dom());
}

/// A stream asked to stop reads as asked, where it is tracked; asking it
/// again changes nothing.
pub proof fn law_cancel_idempotent(r: SseRegistryView, id: Seq<char>)
    ensures
        r.flags.dom().contains(id) ==> cancelled(stream_cancelled(r, id), id),
        stream_cancelled(stream_cancelled(r, id), id) == stream_cancelled(r, id),
{
    if r.flags.dom().contains(id) {
        assert(stream_cancelled(r, id).flags.insert(id, true) =~= stream_cancelled(r, id).flags);
    }
}

/// Stopping all streams of an app touches no stream of another app.
pub proof fn law_cancel_all_scoped(r: SseRegistryView, addr: Seq<char>, pkg: Seq<char>, id: Seq<char>)
    requires
        r.flags.dom().contains(id),
    ensures
        r.members.contains((addr, pkg, id)) ==> cancelled(all_cancelled(r, addr, pkg), id),
        !r.members.contains((addr, pkg, id)) ==> cancelled(all_cancelled(r, addr, pkg), id) == cancelled(r, id),
{
}

proof fn lemma_digit_code(d: int)
    requires
        0 <= d < 10,
    ensures
        digit(d) as int == 48 + d,
        is_digit(digit(d)),
{
    vstd::utf8::char_u32_cast(digit(d), (48 + d) as u32);
}

proof fn lemma_decimal_digits(n: nat)
    ensures
        all_digits(decimal(n)),
        digits_value(decimal(n)) == n,
        decimal(n).len() > 0,
        decimal(n)[0] != '+',
    decreases n,
{
    lemma_digit_code((n % 10) as int);
    if n < 10 {
        assert(decimal(n) == seq![digit(n as int)]);
        assert(decimal(n).drop_last() =~= Seq::<char>::empty());
        assert(decimal(n).last() == digit(n as int));
        assert(digits_value(decimal(n)) == digits_value(decimal(n).drop_last()) * 10 + ((decimal(n).last() as int - 48) as nat));
    } else {
        lemma_decimal_digits(n / 10);
        let d = decimal(n);
        assert(d == decimal(n / 10).push(digit((n % 10) as int)));
        assert(d.drop_last() == decimal(n / 10));
        assert(d.last() == digit((n % 10) as int));
        assert(n == (n / 10) * 10 + n % 10);
        assert forall|i: int| 0 <= i < d.len() implies is_digit(#[trigger] d[i]) by {
            if i < d.len() - 1 {
                assert(d[i] == decimal(n / 10)[i]);
            }
        }
        assert(d[0] == decimal(n / 10)[0]);
    }
}

/// The index written in decimal reads back as itself: the page's controls
/// name an app by its index, and the event names that index.
pub proof fn law_index_roundtrip(n: nat)
    requires
        n <= usize::MAX,
    ensures
        parsed_index(decimal(n)) == Some(n),
{
    lemma_decimal_digits(n);
    assert(unsigned_digits(decimal(n)) == decimal(n));
}

/// The names strictly increase.
pub open spec fn strictly_sorted(s: Seq<Seq<char>>) -> bool {
    forall|i: int, j: int| 0 <= i < j < s.len() ==> str_lt(#[trigger] s[i], #[trigger] s[j])
}

proof fn lemma_sorted_unique(a: Seq<Seq<char>>, b: Seq<Seq<char>>)
    requires
        strictly_sorted(a),
        strictly_sorted(b),
        forall|x: Seq<char>| a.contains(x) <==> b.contains(x),
    ensures
        a == b,
    decreases a.len(),
{
    if a.len() == 0 {
        if b.len() > 0 {
            assert(b.contains(b[0]));
        }
        assert(a =~= b);
    } else if b.len() == 0 {
        assert(a.contains(a[0]));
    } else {
        assert(a.contains(a[0]));
        assert(b.contains(b[0]));
        let j = choose|j: int| 0 <= j < b.len() && b[j] == a[0];
        let i = choose|i: int| 0 <= i < a.len() && a[i] == b[0];
        if a[0] != b[0] {
            assert(i > 0 && j > 0);
            assert(str_lt(a[0], a[i]));
            assert(str_lt(b[0], b[j]));
            lemma_lt_trans(a[0], b[0], a[0]);
            lemma_lt_irrefl(a[0]);
        }
        let ra = a.drop_first();
        let rb = b.drop_first();
        assert forall|x: Seq<char>| ra.contains(x) <==> rb.contains(x) by {
            if ra.contains(x) {
                let p = choose|p: int| 0 <= p < ra.len() && ra[p] == x;
                assert(a[p + 1] == x);
                assert(str_lt(a[0], a[p + 1]));
                if x == b[0] {
                    lemma_lt_irrefl(x);
                }
                assert(a.contains(x));
                let q = choose|q: int| 0 <= q < b.len() && b[q] == x;
                assert(rb[q - 1] == x);
            }
            if rb.contains(x) {
                let p = choose|p: int| 0 <= p < rb.len() && rb[p] == x;
                assert(b[p + 1] == x);
                assert(str_lt(b[0], b[p + 1]));
                if x == a[0] {
                    lemma_lt_irrefl(x);
                }
                assert(b.contains(x));
                let q = choose|q: int| 0 <= q < a.len() && a[q] == x;
                assert(ra[q - 1] == x);
            }
        }
        assert(strictly_sorted(ra)) by {
            assert forall|p: int, q: int| 0 <= p < q < ra.len() implies str_lt(#[trigger] ra[p], #[trigger] ra[q]) by {
                assert(ra[p] == a[p + 1] && ra[q] == a[q + 1]);
            }
        }
        assert(strictly_sorted(rb)) by {
            assert forall|p: int, q: int| 0 <= p < q < rb.len() implies str_lt(#[trigger] rb[p], #[trigger] rb[q]) by {
                assert(rb[p] == b[p + 1] && rb[q] == b[q + 1]);
            }
        }
        lemma_sorted_unique(ra, rb);
        assert(a =~= seq![a[0]] + ra);
        assert(b =~= seq![b[0]] + rb);
    }
}

/// The package names listed in increasing order, each monitored app once
/// (what `pkg_names` gives) are the names, in order, of the monitored
/// entries listed in increasing order of name (what `snapshot_apps` gives).
pub proof fn law_names_of_snapshot(m: Map<Seq<char>, AppEntryView>, es: Seq<AppEntryView>, names: Seq<Seq<char>>)
    requires
        sorted_keys(es),
        entries_map(es) == m,
        strictly_sorted(names),
        forall|i: int| 0 <= i < names.len() ==> m.dom().contains(#[trigger] names[i]),
        forall|k: Seq<char>| #[trigger] m.dom().contains(k) ==> exists|i: int| 0 <= i < names.len() && names[i] == k,
    ensures
        names == es.map_values(|e: AppEntryView| e.pkg_name),
{
    let ns = es.map_values(|e: AppEntryView| e.pkg_name);
    assert(strictly_sorted(ns)) by {
        assert forall|p: int, q: int| 0 <= p < q < ns.len() implies str_lt(#[trigger] ns[p], #[trigger] ns[q]) by {
            assert(ns[p] == es[p].pkg_name && ns[q] == es[q].pkg_name);
        }
    }
    assert forall|x: Seq<char>| names.contains(x) <==> ns.contains(x) by {
        if names.contains(x) {
            let i = choose|i: int| 0 <= i < names.len() && names[i] == x;
            assert(m.dom().contains(names[i]));
            let j = choose|j: int| 0 <= j < es.len() && #[trigger] es[j].pkg_name == x;
            assert(ns[j] == x);
        }
        if ns.contains(x) {
            let j = choose|j: int| 0 <= j < ns.len() && ns[j] == x;
            assert(es[j].pkg_name == x);
            assert(m.dom().contains(x));
            let i = choose|i: int| 0 <= i < names.len() && names[i] == x;
        }
    }
    lemma_sorted_unique(names, ns);
}

} // verus!
