//! The page's events and the status card: what each control of the page
//! asks for, and the one-line summary the card shows.

use vstd::prelude::*;

use crate::json::{as_flag, decimal, get_bool, json_get, wide_decimal_string, JsonValue};
use crate::state::{
    entries_map, entries_view, installed_apps, snapshot_apps, sorted_keys, AppEntryView, InstalledApp,
    InstalledAppView, MainTab, PluginState,
};
use crate::text::{chars_of, has_prefix, starts_with, string_of, sub_chars};

verus! {

/// A decimal digit.
pub open spec fn is_digit(c: char) -> bool {
    '0' <= c <= '9'
}

/// The number the decimal digits `s` write.
pub open spec fn digits_value(s: Seq<char>) -> nat
    decreases s.len(),
{
    if s.len() == 0 {
        0
    } else {
        digits_value(s.drop_last()) * 10 + ((s.last() as int - 48) as nat)
    }
}

/// Every character of `d` is a decimal digit.
pub open spec fn all_digits(d: Seq<char>) -> bool {
    forall|i: int| 0 <= i < d.len() ==> is_digit(#[trigger] d[i])
}

/// `s` without a leading `+`.
pub open spec fn unsigned_digits(s: Seq<char>) -> Seq<char> {
    if s.len() > 0 && s[0] == '+' {
        s.skip(1)
    } else {
        s
    }
}

/// The index `s` writes as `usize::from_str` reads it: an optional `+`,
/// then one or more decimal digits, of a value that fits `usize`.
pub open spec fn parsed_index(s: Seq<char>) -> Option<nat> {
    let d = unsigned_digits(s);
    if d.len() > 0 && all_digits(d) && digits_value(d) <= usize::MAX {
        Some(digits_value(d))
    } else {
        None
    }
}

/// A prefix of a run of digits writes no more than the whole run.
pub proof fn lemma_digits_prefix(d: Seq<char>, i: int)
    requires
        0 <= i <= d.len(),
        all_digits(d),
    ensures
        digits_value(d.take(i)) <= digits_value(d),
    decreases d.len() - i,
{
    if i < d.len() {
        lemma_digits_prefix(d, i + 1);
        assert(d.take(i + 1).drop_last() == d.take(i));
        assert(d.take(i + 1).last() == d[i]);
    } else {
        assert(d.take(i) == d);
    }
}

/// Reads an index as `usize::from_str` does.
pub fn parse_index(s: &[char]) -> (r: Option<usize>)
    ensures
        match parsed_index(s@) {
            Some(n) => r == Some(n as usize),
            None => r is None,
        },
{
    let start: usize = if s.len() > 0 && s[0] == '+' {
        1
    } else {
        0
    };
    let ghost d = unsigned_digits(s@);
    assert(d == s@.skip(start as int));
    if start >= s.len() {
        return None;
    }
    let mut acc: usize = 0;
    let mut i: usize = start;
    while i < s.len()
        invariant
            start <= i <= s@.len(),
            start < s@.len(),
            d == s@.skip(start as int),
            d == unsigned_digits(s@),
            forall|j: int| start <= j < i ==> is_digit(#[trigger] s@[j]),
            acc == digits_value(d.take(i - start)),
        decreases s@.len() - i,
    {
        let c = s[i];
        if !('0' <= c && c <= '9') {
            proof {
                assert(d[i - start] == c);
                assert(!is_digit(d[i - start]));
            }
            return None;
        }
        let v = (c as u32 - 48) as usize;
        proof {
            assert(d.take(i - start + 1).drop_last() == d.take(i - start));
            assert(d.take(i - start + 1).last() == c);
        }
        let next = match acc.checked_mul(10) {
            Some(m) => m.checked_add(v),
            None => None,
        };
        match next {
            Some(n) => {
                acc = n;
            },
            None => {
                proof {
                    assert(digits_value(d.take(i - start + 1)) > usize::MAX);
                    if all_digits(d) {
                        lemma_digits_prefix(d, i - start + 1);
                    }
                }
                return None;
            },
        }
        i = i + 1;
    }
    proof {
        assert(d.take(d.len() as int) == d);
        assert forall|j: int| 0 <= j < d.len() implies is_digit(#[trigger] d[j]) by {
            assert(d[j] == s@[j + start]);
        }
    }
    Some(acc)
}

/// What a control of the page asks for.
pub enum UiCommand {
    Nothing,
    Connect(InstalledApp),
    Disconnect(InstalledApp),
    ShowTab(MainTab),
    RefreshDevices,
    SetAutoReconnect(bool),
    OpenUrl(String),
}

/// The value a `UiCommand` holds.
pub enum UiCommandView {
    Nothing,
    Connect(InstalledAppView),
    Disconnect(InstalledAppView),
    ShowTab(MainTab),
    RefreshDevices,
    SetAutoReconnect(bool),
    OpenUrl(Seq<char>),
}

impl View for UiCommand {
    type V = UiCommandView;

    open spec fn view(&self) -> UiCommandView {
        match self {
            UiCommand::Nothing => UiCommandView::Nothing,
            UiCommand::Connect(a) => UiCommandView::Connect(a@),
            UiCommand::Disconnect(a) => UiCommandView::Disconnect(a@),
            UiCommand::ShowTab(t) => UiCommandView::ShowTab(*t),
            UiCommand::RefreshDevices => UiCommandView::RefreshDevices,
            UiCommand::SetAutoReconnect(b) => UiCommandView::SetAutoReconnect(*b),
            UiCommand::OpenUrl(u) => UiCommandView::OpenUrl(u@),
        }
    }
}

/// The page of the plugin's help.
pub const HELP_DOC_URL: &'static str = "https://docs.b4qaq.cn/docs/simplefetch";

/// The page that joins the users' chat group.
pub const QQ_GROUP_URL: &'static str = "http://qm.qq.com/cgi-bin/qm/qr?_wv=1027&k=1vc4XKmAyGeJJTmXumfkaaxRcQl1hMaK";

/// The app at the index that follows `prefix` in `id`, among `apps`.
pub open spec fn indexed_app(apps: Seq<InstalledAppView>, id: Seq<char>, prefix: Seq<char>) -> Option<InstalledAppView> {
    match parsed_index(id.skip(prefix.len() as int)) {
        Some(n) => if n < apps.len() {
            Some(apps[n as int])
        } else {
            None
        },
        None => None,
    }
}

/// The switch's new state: the `checked` member of the event's payload
/// (`None` where it is not JSON), on by default.
pub open spec fn checked_of(payload: Option<JsonValue>) -> bool {
    match payload {
        Some(p) => match as_flag(json_get(p, "checked"@)) {
            Some(b) => b,
            None => true,
        },
        None => true,
    }
}

/// What the control `id` asks for, with the installed apps `apps`.
pub open spec fn ui_command(apps: Seq<InstalledAppView>, id: Seq<char>, payload: Option<JsonValue>) -> UiCommandView {
    if has_prefix(id, "app:connect:"@) {
        match indexed_app(apps, id, "app:connect:"@) {
            Some(a) => UiCommandView::Connect(a),
            None => UiCommandView::Nothing,
        }
    } else if has_prefix(id, "app:disconnect:"@) {
        match indexed_app(apps, id, "app:disconnect:"@) {
            Some(a) => UiCommandView::Disconnect(a),
            None => UiCommandView::Nothing,
        }
    } else if id == "tab_connect"@ {
        UiCommandView::ShowTab(MainTab::Connect)
    } else if id == "tab_about"@ {
        UiCommandView::ShowTab(MainTab::About)
    } else if id == "action:devices.refresh"@ {
        UiCommandView::RefreshDevices
    } else if id == "toggle:auto_reconnect"@ {
        UiCommandView::SetAutoReconnect(checked_of(payload))
    } else if id == "open_help_doc"@ {
        UiCommandView::OpenUrl(HELP_DOC_URL@)
    } else if id == "open_qq_group"@ {
        UiCommandView::OpenUrl(QQ_GROUP_URL@)
    } else {
        UiCommandView::Nothing
    }
}

fn app_at(state: &PluginState, id: &[char], skip: usize) -> (r: Option<InstalledApp>)
    requires
        skip <= id@.len(),
    ensures
        match r {
            Some(a) => match parsed_index(id@.skip(skip as int)) {
                Some(n) => n < state@.installed_apps.len() && a@ == state@.installed_apps[n as int],
                None => false,
            },
            None => match parsed_index(id@.skip(skip as int)) {
                Some(n) => n >= state@.installed_apps.len(),
                None => true,
            },
        },
{
    let rest = sub_chars(id, skip, id.len());
    assert(rest@ == id@.skip(skip as int));
    match parse_index(rest.as_slice()) {
        Some(n) => {
            let apps = installed_apps(state);
            if n < apps.len() {
                assert(apps@[n as int]@ == state@.installed_apps[n as int]);
                Some(apps[n].copy())
            } else {
                None
            }
        },
        None => None,
    }
}

/// Reads an event of the page: what the control `event_id` asks for, with
/// the event's payload (`None` where it is not JSON).
pub fn ui_event_processor(state: &PluginState, event_id: &str, payload: Option<&JsonValue>) -> (c: UiCommand)
    ensures
        c@ == ui_command(
            state@.installed_apps,
            event_id@,
            match payload {
                Some(p) => Some(*p),
                None => None,
            },
        ),
{
    let id = chars_of(event_id);
    let connect = chars_of("app:connect:");
    let disconnect = chars_of("app:disconnect:");
    proof {
        reveal_strlit("app:connect:");
        reveal_strlit("app:disconnect:");
    }
    if starts_with(id.as_slice(), connect.as_slice()) {
        return match app_at(state, id.as_slice(), connect.len()) {
            Some(a) => UiCommand::Connect(a),
            None => UiCommand::Nothing,
        };
    }
    if starts_with(id.as_slice(), disconnect.as_slice()) {
        return match app_at(state, id.as_slice(), disconnect.len()) {
            Some(a) => UiCommand::Disconnect(a),
            None => UiCommand::Nothing,
        };
    }
    let e = event_id.to_owned();
    if e == "tab_connect".to_owned() {
        UiCommand::ShowTab(MainTab::Connect)
    } else if e == "tab_about".to_owned() {
        UiCommand::ShowTab(MainTab::About)
    } else if e == "action:devices.refresh".to_owned() {
        UiCommand::RefreshDevices
    } else if e == "toggle:auto_reconnect".to_owned() {
        let checked = match payload {
            Some(p) => match get_bool(p, "checked") {
                Some(b) => b,
                None => true,
            },
            None => true,
        };
        UiCommand::SetAutoReconnect(checked)
    } else if e == "open_help_doc".to_owned() {
        UiCommand::OpenUrl(HELP_DOC_URL.to_owned())
    } else if e == "open_qq_group".to_owned() {
        UiCommand::OpenUrl(QQ_GROUP_URL.to_owned())
    } else {
        UiCommand::Nothing
    }
}

/// The number of entries of `es` marked for serving.
pub open spec fn count_enabled(es: Seq<AppEntryView>) -> nat
    decreases es.len(),
{
    if es.len() == 0 {
        0
    } else {
        count_enabled(es.drop_last()) + if es.last().enabled {
            1nat
        } else {
            0nat
        }
    }
}

/// The requests of the entries `es`, in all.
pub open spec fn total_requests(es: Seq<AppEntryView>) -> nat
    decreases es.len(),
{
    if es.len() == 0 {
        0
    } else {
        total_requests(es.drop_last()) + (es.last().request_count as nat)
    }
}

/// The status card's line: the connected devices, the apps served, and all
/// requests served.
pub open spec fn status_card_text(devices: nat, served: nat, requests: nat) -> Seq<char> {
    "设备: "@ + decimal(devices) + " 台  ·  监听: "@ + decimal(served) + " 个  ·  总请求: "@ + decimal(
        requests,
    )
}

/// The status card's line for the state.
pub fn render_status_card(state: &PluginState) -> (text: String)
    ensures
        exists|es: Seq<AppEntryView>|
            sorted_keys(es) && entries_map(es) == state@.apps && text@ == #[trigger] status_card_text(
                state@.connected_devices.len(),
                count_enabled(es),
                total_requests(es),
            ),
{
    let devices = crate::state::connected_devices(state);
    let apps = snapshot_apps(state);
    let ghost es = entries_view(apps@);
    let mut served: usize = 0;
    let mut total: u128 = 0;
    let mut i: usize = 0;
    while i < apps.len()
        invariant
            i <= apps@.len(),
            es == entries_view(apps@),
            served == count_enabled(es.take(i as int)),
            served <= i,
            total == total_requests(es.take(i as int)),
            total <= i * 18446744073709551615,
        decreases apps@.len() - i,
    {
        proof {
            assert(es.take(i + 1).drop_last() == es.take(i as int));
            assert(es.take(i + 1).last() == apps@[i as int]@);
        }
        if apps[i].enabled {
            served = served + 1;
        }
        total = total + apps[i].request_count as u128;
        i = i + 1;
    }
    assert(es.take(apps@.len() as int) == es);
    let mut text = "设备: ".to_owned();
    text.append(wide_decimal_string(devices.len() as u128).as_str());
    text.append(" 台  ·  监听: ");
    text.append(wide_decimal_string(served as u128).as_str());
    text.append(" 个  ·  总请求: ");
    text.append(wide_decimal_string(total).as_str());
    assert(devices@.len() == state@.connected_devices.len());
    assert(sorted_keys(es) && entries_map(es) == state@.apps && text@ == status_card_text(
        state@.connected_devices.len(),
        count_enabled(es),
        total_requests(es),
    ));
    text
}

} // verus!
