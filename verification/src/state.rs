//! The plugin's state: the monitored apps with their request counters, the
//! devices and apps seen on the watch, and the page's small UI state.

use vstd::prelude::*;

use crate::text::chars_of;

verus! {

/// The main tabs of the plugin page.
#[derive(Clone, Copy, Debug, PartialEq, Eq, Structural)]
pub enum MainTab {
    Connect,
    About,
}

/// The text of an optional string.
pub open spec fn opt_str(o: Option<String>) -> Option<Seq<char>> {
    match o {
        Some(s) => Some(s@),
        None => None,
    }
}

/// A copy of an optional string.
pub fn clone_opt_string(o: &Option<String>) -> (r: Option<String>)
    ensures
        opt_str(r) == opt_str(*o),
{
    match o {
        Some(s) => Some(s.clone()),
        None => None,
    }
}

/// A monitored quick app and what the bridge has done for it.
pub struct AppEntry {
    pub pkg_name: String,
    pub enabled: bool,
    pub request_count: u64,
    pub success_count: u64,
    pub error_count: u64,
    pub last_seen_unix_ms: Option<u128>,
    pub last_addr: Option<String>,
    pub last_status: Option<String>,
    pub last_url: Option<String>,
}

/// The value an `AppEntry` holds.
pub struct AppEntryView {
    pub pkg_name: Seq<char>,
    pub enabled: bool,
    pub request_count: u64,
    pub success_count: u64,
    pub error_count: u64,
    pub last_seen_unix_ms: Option<u128>,
    pub last_addr: Option<Seq<char>>,
    pub last_status: Option<Seq<char>>,
    pub last_url: Option<Seq<char>>,
}

impl View for AppEntry {
    type V = AppEntryView;

    open spec fn view(&self) -> AppEntryView {
        AppEntryView {
            pkg_name: self.pkg_name@,
            enabled: self.enabled,
            request_count: self.request_count,
            success_count: self.success_count,
            error_count: self.error_count,
            last_seen_unix_ms: self.last_seen_unix_ms,
            last_addr: opt_str(self.last_addr),
            last_status: opt_str(self.last_status),
            last_url: opt_str(self.last_url),
        }
    }
}

/// A fresh entry: enabled, with every counter at zero and nothing recorded.
pub open spec fn new_entry(pkg_name: Seq<char>) -> AppEntryView {
    AppEntryView {
        pkg_name,
        enabled: true,
        request_count: 0,
        success_count: 0,
        error_count: 0,
        last_seen_unix_ms: None,
        last_addr: None,
        last_status: None,
        last_url: None,
    }
}

impl AppEntry {
    /// A fresh entry for `pkg_name`.
    pub fn new(pkg_name: &str) -> (e: Self)
        ensures
            e@ == new_entry(pkg_name@),
    {
        AppEntry {
            pkg_name: pkg_name.to_owned(),
            enabled: true,
            request_count: 0,
            success_count: 0,
            error_count: 0,
            last_seen_unix_ms: None,
            last_addr: None,
            last_status: None,
            last_url: None,
        }
    }

    /// A copy of the entry.
    pub fn copy(&self) -> (e: Self)
        ensures
            e@ == self@,
    {
        AppEntry {
            pkg_name: self.pkg_name.clone(),
            enabled: self.enabled,
            request_count: self.request_count,
            success_count: self.success_count,
            error_count: self.error_count,
            last_seen_unix_ms: self.last_seen_unix_ms,
            last_addr: clone_opt_string(&self.last_addr),
            last_status: clone_opt_string(&self.last_status),
            last_url: clone_opt_string(&self.last_url),
        }
    }
}

/// A third-party quick app installed on a connected device.
pub struct InstalledApp {
    pub addr: String,
    pub device_name: String,
    pub package_name: String,
    pub app_name: String,
    pub version_code: u32,
}

/// The value an `InstalledApp` holds.
pub struct InstalledAppView {
    pub addr: Seq<char>,
    pub device_name: Seq<char>,
    pub package_name: Seq<char>,
    pub app_name: Seq<char>,
    pub version_code: u32,
}

impl View for InstalledApp {
    type V = InstalledAppView;

    open spec fn view(&self) -> InstalledAppView {
        InstalledAppView {
            addr: self.addr@,
            device_name: self.device_name@,
            package_name: self.package_name@,
            app_name: self.app_name@,
            version_code: self.version_code,
        }
    }
}

impl InstalledApp {
    /// A copy of the record.
    pub fn copy(&self) -> (a: Self)
        ensures
            a@ == self@,
    {
        InstalledApp {
            addr: self.addr.clone(),
            device_name: self.device_name.clone(),
            package_name: self.package_name.clone(),
            app_name: self.app_name.clone(),
            version_code: self.version_code,
        }
    }
}

/// The texts of a list of devices (address, name).
pub open spec fn devices_view(v: Seq<(String, String)>) -> Seq<(Seq<char>, Seq<char>)> {
    v.map_values(|d: (String, String)| (d.0@, d.1@))
}

/// The values of a list of installed apps.
pub open spec fn installed_view(v: Seq<InstalledApp>) -> Seq<InstalledAppView> {
    v.map_values(|a: InstalledApp| a@)
}

/// The values of a list of entries.
pub open spec fn entries_view(v: Seq<AppEntry>) -> Seq<AppEntryView> {
    v.map_values(|e: AppEntry| e@)
}

/// `a` sorts before `b`: the order of `String`'s `Ord` (byte order of the
/// UTF-8 encoding, which is the order of the code points).
pub open spec fn str_lt(a: Seq<char>, b: Seq<char>) -> bool
    decreases a.len(),
{
    if a.len() == 0 {
        b.len() > 0
    } else if b.len() == 0 {
        false
    } else if a[0] != b[0] {
        (a[0] as u32) < (b[0] as u32)
    } else {
        str_lt(a.drop_first(), b.drop_first())
    }
}

/// No text sorts before itself.
pub proof fn lemma_lt_irrefl(a: Seq<char>)
    ensures
        !str_lt(a, a),
    decreases a.len(),
{
    if a.len() > 0 {
        lemma_lt_irrefl(a.drop_first());
    }
}

/// The order of texts is transitive.
pub proof fn lemma_lt_trans(a: Seq<char>, b: Seq<char>, c: Seq<char>)
    requires
        str_lt(a, b),
        str_lt(b, c),
    ensures
        str_lt(a, c),
    decreases a.len(),
{
    if a.len() > 0 && b.len() > 0 && c.len() > 0 && a[0] == b[0] && b[0] == c[0] {
        lemma_lt_trans(a.drop_first(), b.drop_first(), c.drop_first());
    }
}

/// Of two different texts one sorts before the other.
pub proof fn lemma_lt_total(a: Seq<char>, b: Seq<char>)
    requires
        a != b,
    ensures
        str_lt(a, b) || str_lt(b, a),
    decreases a.len(),
{
    if a.len() > 0 && b.len() > 0 {
        if a[0] == b[0] {
            if a.drop_first() == b.drop_first() {
                assert(a == seq![a[0]] + a.drop_first());
                assert(b == seq![b[0]] + b.drop_first());
            }
            lemma_lt_total(a.drop_first(), b.drop_first());
        } else {
            vstd::utf8::char_u32_cast(a[0], a[0] as u32);
            vstd::utf8::char_u32_cast(b[0], b[0] as u32);
            assert((a[0] as u32) != (b[0] as u32));
        }
    } else if a.len() == 0 && b.len() == 0 {
        assert(a == b);
    }
}

/// `a` sorts before `b` in `String`'s order.
pub fn str_less(a: &[char], b: &[char]) -> (r: bool)
    ensures
        r == str_lt(a@, b@),
{
    let mut i: usize = 0;
    assert(a@.skip(0) == a@ && b@.skip(0) == b@);
    while i < a.len() && i < b.len() && a[i] == b[i]
        invariant
            i <= a@.len(),
            i <= b@.len(),
            str_lt(a@, b@) == str_lt(a@.skip(i as int), b@.skip(i as int)),
        decreases a@.len() - i,
    {
        assert(a@.skip(i as int).drop_first() == a@.skip(i + 1));
        assert(b@.skip(i as int).drop_first() == b@.skip(i + 1));
        i = i + 1;
    }
    if i == a.len() {
        i < b.len()
    } else if i == b.len() {
        false
    } else {
        (a[i] as u32) < (b[i] as u32)
    }
}

/// The entries' names are strictly increasing, hence distinct.
pub open spec fn sorted_keys(s: Seq<AppEntryView>) -> bool {
    forall|i: int, j: int|
        0 <= i < j < s.len() ==> str_lt(#[trigger] s[i].pkg_name, #[trigger] s[j].pkg_name)
}

/// Some entry of `s` is named `k`.
pub open spec fn has_key(s: Seq<AppEntryView>, k: Seq<char>) -> bool {
    exists|i: int| 0 <= i < s.len() && #[trigger] s[i].pkg_name == k
}

/// The entries of `s` by name.
pub open spec fn entries_map(s: Seq<AppEntryView>) -> Map<Seq<char>, AppEntryView> {
    Map::new(
        |k: Seq<char>| has_key(s, k),
        |k: Seq<char>| s[choose|i: int| 0 <= i < s.len() && #[trigger] s[i].pkg_name == k],
    )
}

proof fn lemma_sorted_distinct(s: Seq<AppEntryView>, i: int, j: int)
    requires
        sorted_keys(s),
        0 <= i < s.len(),
        0 <= j < s.len(),
        s[i].pkg_name == s[j].pkg_name,
    ensures
        i == j,
{
    if i < j {
        lemma_lt_irrefl(s[i].pkg_name);
    } else if j < i {
        lemma_lt_irrefl(s[i].pkg_name);
    }
}

/// The entry at `i` of sorted entries is what their map holds for its name.
pub proof fn lemma_map_at(s: Seq<AppEntryView>, i: int)
    requires
        sorted_keys(s),
        0 <= i < s.len(),
    ensures
        entries_map(s).dom().contains(s[i].pkg_name),
        entries_map(s)[s[i].pkg_name] == s[i],
{
    let k = s[i].pkg_name;
    assert(has_key(s, k));
    let j = choose|j: int| 0 <= j < s.len() && #[trigger] s[j].pkg_name == k;
    lemma_sorted_distinct(s, i, j);
}

/// Where `key` stands in the sorted `s`: its index, or the index it would be
/// inserted at.
pub open spec fn located(s: Seq<AppEntryView>, key: Seq<char>, r: (usize, bool)) -> bool {
    &&& r.0 <= s.len()
    &&& r.1 ==> r.0 < s.len() && s[r.0 as int].pkg_name == key
    &&& !r.1 ==> (forall|i: int| 0 <= i < r.0 ==> str_lt(#[trigger] s[i].pkg_name, key)) && (
    forall|i: int| r.0 <= i < s.len() ==> str_lt(key, #[trigger] s[i].pkg_name))
}

fn locate(apps: &Vec<AppEntry>, key: &[char]) -> (r: (usize, bool))
    requires
        sorted_keys(entries_view(apps@)),
    ensures
        located(entries_view(apps@), key@, r),
{
    let ghost s = entries_view(apps@);
    let mut i: usize = 0;
    while i < apps.len()
        invariant
            i <= apps@.len(),
            s == entries_view(apps@),
            sorted_keys(s),
            forall|j: int| 0 <= j < i ==> str_lt(#[trigger] s[j].pkg_name, key@),
        decreases apps@.len() - i,
    {
        let name = chars_of(apps[i].pkg_name.as_str());
        assert(name@ == s[i as int].pkg_name);
        if !str_less(name.as_slice(), key) {
            if vec_chars_eq(name.as_slice(), key) {
                return (i, true);
            }
            proof {
                lemma_lt_total(name@, key@);
                assert forall|j: int| i <= j < s.len() implies str_lt(key@, #[trigger] s[j].pkg_name) by {
                    if j > i {
                        lemma_lt_trans(key@, s[i as int].pkg_name, s[j].pkg_name);
                    }
                }
            }
            return (i, false);
        }
        i = i + 1;
    }
    (i, false)
}

/// The two character sequences are equal.
pub fn vec_chars_eq(a: &[char], b: &[char]) -> (r: bool)
    ensures
        r == (a@ == b@),
{
    if a.len() != b.len() {
        return false;
    }
    let mut i: usize = 0;
    while i < a.len()
        invariant
            a@.len() == b@.len(),
            i <= a@.len(),
            forall|j: int| 0 <= j < i ==> a@[j] == b@[j],
        decreases a@.len() - i,
    {
        if a[i] != b[i] {
            return false;
        }
        i = i + 1;
    }
    assert(a@ =~= b@);
    true
}


proof fn lemma_map_absent(s: Seq<AppEntryView>, key: Seq<char>, p: usize)
    requires
        sorted_keys(s),
        located(s, key, (p, false)),
    ensures
        !entries_map(s).dom().contains(key),
{
    if has_key(s, key) {
        let i = choose|i: int| 0 <= i < s.len() && #[trigger] s[i].pkg_name == key;
        lemma_lt_irrefl(key);
        if i < p {
            assert(str_lt(s[i].pkg_name, key));
        } else {
            assert(str_lt(key, s[i].pkg_name));
        }
    }
}

proof fn lemma_map_insert_new(s: Seq<AppEntryView>, p: int, e: AppEntryView)
    requires
        sorted_keys(s),
        0 <= p <= s.len(),
        forall|i: int| 0 <= i < p ==> str_lt(#[trigger] s[i].pkg_name, e.pkg_name),
        forall|i: int| p <= i < s.len() ==> str_lt(e.pkg_name, #[trigger] s[i].pkg_name),
    ensures
        sorted_keys(s.insert(p, e)),
        entries_map(s.insert(p, e)) == entries_map(s).insert(e.pkg_name, e),
{
    let t = s.insert(p, e);
    assert forall|i: int, j: int| 0 <= i < j < t.len() implies str_lt(
        #[trigger] t[i].pkg_name,
        #[trigger] t[j].pkg_name,
    ) by {
        if j < p {
        } else if j == p {
        } else if i < p {
            lemma_lt_trans(s[i].pkg_name, e.pkg_name, s[j - 1].pkg_name);
        } else if i == p {
        } else {
        }
    }
    if has_key(s, e.pkg_name) {
        let i = choose|i: int| 0 <= i < s.len() && #[trigger] s[i].pkg_name == e.pkg_name;
        lemma_lt_irrefl(e.pkg_name);
        if i < p {
            assert(str_lt(s[i].pkg_name, e.pkg_name));
        } else {
            assert(str_lt(e.pkg_name, s[i].pkg_name));
        }
    }
    let m = entries_map(s).insert(e.pkg_name, e);
    assert forall|k: Seq<char>| #[trigger] entries_map(t).dom().contains(k) <==> m.dom().contains(k) by {
        if has_key(t, k) {
            let i = choose|i: int| 0 <= i < t.len() && #[trigger] t[i].pkg_name == k;
            if i < p {
                assert(s[i].pkg_name == k);
            } else if i > p {
                assert(s[i - 1].pkg_name == k);
            }
        }
        if has_key(s, k) {
            let i = choose|i: int| 0 <= i < s.len() && #[trigger] s[i].pkg_name == k;
            if i < p {
                assert(t[i].pkg_name == k);
            } else {
                assert(t[i + 1].pkg_name == k);
            }
        }
        if k == e.pkg_name {
            assert(t[p].pkg_name == k);
        }
    }
    assert forall|k: Seq<char>| #[trigger] entries_map(t).dom().contains(k) implies entries_map(t)[k]
        == m[k] by {
        let i = choose|i: int| 0 <= i < t.len() && #[trigger] t[i].pkg_name == k;
        lemma_map_at(t, i);
        lemma_lt_irrefl(e.pkg_name);
        assert(entries_map(t)[k] == t[i]);
        if i < p {
            lemma_map_at(s, i);
            assert(t[i] == s[i]);
            assert(str_lt(s[i].pkg_name, e.pkg_name));
            assert(k != e.pkg_name);
            assert(m[k] == entries_map(s)[k]);
            assert(entries_map(t)[k] == m[k]);
        } else if i > p {
            lemma_map_at(s, i - 1);
            assert(t[i] == s[i - 1]);
            assert(str_lt(e.pkg_name, s[i - 1].pkg_name));
            assert(k != e.pkg_name);
            assert(m[k] == entries_map(s)[k]);
            assert(entries_map(t)[k] == m[k]);
        } else {
            assert(t[i] == e);
            assert(entries_map(t)[k] == m[k]);
        }
        assert(entries_map(t)[k] == m[k]);
    }
    assert(entries_map(t) =~= m);
}

proof fn lemma_map_update(s: Seq<AppEntryView>, p: int, e: AppEntryView)
    requires
        sorted_keys(s),
        0 <= p < s.len(),
        s[p].pkg_name == e.pkg_name,
    ensures
        sorted_keys(s.update(p, e)),
        entries_map(s.update(p, e)) == entries_map(s).insert(e.pkg_name, e),
{
    let t = s.update(p, e);
    assert forall|i: int, j: int| 0 <= i < j < t.len() implies str_lt(
        #[trigger] t[i].pkg_name,
        #[trigger] t[j].pkg_name,
    ) by {
        assert(s[i].pkg_name == t[i].pkg_name && s[j].pkg_name == t[j].pkg_name);
    }
    let m = entries_map(s).insert(e.pkg_name, e);
    lemma_map_at(s, p);
    assert forall|k: Seq<char>| #[trigger] entries_map(t).dom().contains(k) <==> m.dom().contains(k) by {
        if has_key(t, k) {
            let i = choose|i: int| 0 <= i < t.len() && #[trigger] t[i].pkg_name == k;
            assert(s[i].pkg_name == k);
        }
        if has_key(s, k) {
            let i = choose|i: int| 0 <= i < s.len() && #[trigger] s[i].pkg_name == k;
            assert(t[i].pkg_name == k);
        }
    }
    assert forall|k: Seq<char>| #[trigger] entries_map(t).dom().contains(k) implies entries_map(t)[k]
        == m[k] by {
        let i = choose|i: int| 0 <= i < t.len() && #[trigger] t[i].pkg_name == k;
        lemma_map_at(t, i);
        if i != p {
            lemma_map_at(s, i);
            assert(t[i] == s[i]);
            if k == e.pkg_name {
                lemma_sorted_distinct(s, i, p);
            }
        } else {
            assert(t[i] == e);
        }
    }
    assert(entries_map(t) =~= m);
}

proof fn lemma_map_remove(s: Seq<AppEntryView>, p: int)
    requires
        sorted_keys(s),
        0 <= p < s.len(),
    ensures
        sorted_keys(s.remove(p)),
        entries_map(s.remove(p)) == entries_map(s).remove(s[p].pkg_name),
{
    let t = s.remove(p);
    let key = s[p].pkg_name;
    assert forall|i: int, j: int| 0 <= i < j < t.len() implies str_lt(
        #[trigger] t[i].pkg_name,
        #[trigger] t[j].pkg_name,
    ) by {
        let si = if i < p {
            i
        } else {
            i + 1
        };
        let sj = if j < p {
            j
        } else {
            j + 1
        };
        assert(t[i] == s[si] && t[j] == s[sj]);
    }
    let m = entries_map(s).remove(key);
    assert forall|k: Seq<char>| #[trigger] entries_map(t).dom().contains(k) <==> m.dom().contains(k) by {
        if has_key(t, k) {
            let i = choose|i: int| 0 <= i < t.len() && #[trigger] t[i].pkg_name == k;
            let si = if i < p {
                i
            } else {
                i + 1
            };
            assert(s[si].pkg_name == k);
            if k == key {
                lemma_sorted_distinct(s, si, p);
            }
        }
        if has_key(s, k) && k != key {
            let i = choose|i: int| 0 <= i < s.len() && #[trigger] s[i].pkg_name == k;
            if i < p {
                assert(t[i].pkg_name == k);
            } else {
                assert(t[i - 1].pkg_name == k);
            }
        }
    }
    assert forall|k: Seq<char>| #[trigger] entries_map(t).dom().contains(k) implies entries_map(t)[k]
        == m[k] by {
        let i = choose|i: int| 0 <= i < t.len() && #[trigger] t[i].pkg_name == k;
        lemma_map_at(t, i);
        if i < p {
            lemma_map_at(s, i);
        } else {
            lemma_map_at(s, i + 1);
        }
    }
    assert(entries_map(t) =~= m);
}

/// `t + 1`, wrapping to 0 after `u64::MAX`: the render sequence number
/// after a change.
pub open spec fn bump(t: u64) -> u64 {
    if t == u64::MAX {
        0
    } else {
        (t + 1) as u64
    }
}

/// `x + 1`, staying at `u64::MAX`.
pub open spec fn sat_inc(x: u64) -> u64 {
    if x == u64::MAX {
        x
    } else {
        (x + 1) as u64
    }
}

/// The plugin's whole state.
pub struct PluginState {
    current_tab: MainTab,
    apps: Vec<AppEntry>,
    root_element_id: Option<String>,
    last_notice: Option<String>,
    pending_add_pkg: String,
    connected_devices: Vec<(String, String)>,
    installed_apps: Vec<InstalledApp>,
    last_auto_refresh_ms: u128,
    render_tick: u64,
    devices_loading: bool,
    apps_loading: bool,
}

/// The value a `PluginState` holds; the monitored apps by package name.
pub struct PluginStateView {
    pub current_tab: MainTab,
    pub apps: Map<Seq<char>, AppEntryView>,
    pub root_element_id: Option<Seq<char>>,
    pub last_notice: Option<Seq<char>>,
    pub pending_add_pkg: Seq<char>,
    pub connected_devices: Seq<(Seq<char>, Seq<char>)>,
    pub installed_apps: Seq<InstalledAppView>,
    pub last_auto_refresh_ms: u128,
    pub render_tick: u64,
    pub devices_loading: bool,
    pub apps_loading: bool,
}

impl View for PluginState {
    type V = PluginStateView;

    closed spec fn view(&self) -> PluginStateView {
        PluginStateView {
            current_tab: self.current_tab,
            apps: entries_map(entries_view(self.apps@)),
            root_element_id: opt_str(self.root_element_id),
            last_notice: opt_str(self.last_notice),
            pending_add_pkg: self.pending_add_pkg@,
            connected_devices: devices_view(self.connected_devices@),
            installed_apps: installed_view(self.installed_apps@),
            last_auto_refresh_ms: self.last_auto_refresh_ms,
            render_tick: self.render_tick,
            devices_loading: self.devices_loading,
            apps_loading: self.apps_loading,
        }
    }
}

/// The state the plugin starts with.
pub open spec fn initial_state() -> PluginStateView {
    PluginStateView {
        current_tab: MainTab::Connect,
        apps: Map::empty(),
        root_element_id: None,
        last_notice: None,
        pending_add_pkg: seq![],
        connected_devices: seq![],
        installed_apps: seq![],
        last_auto_refresh_ms: 0,
        render_tick: 0,
        devices_loading: false,
        apps_loading: false,
    }
}

impl PluginState {
    #[verifier::type_invariant]
    spec fn inv(self) -> bool {
        sorted_keys(entries_view(self.apps@))
    }

    /// The state the plugin starts with.
    pub fn new() -> (s: Self)
        ensures
            s@ == initial_state(),
    {
        let s = PluginState {
            current_tab: MainTab::Connect,
            apps: Vec::new(),
            root_element_id: None,
            last_notice: None,
            pending_add_pkg: String::new(),
            connected_devices: Vec::new(),
            installed_apps: Vec::new(),
            last_auto_refresh_ms: 0,
            render_tick: 0,
            devices_loading: false,
            apps_loading: false,
        };
        assert(entries_map(entries_view(s.apps@)) =~= Map::<Seq<char>, AppEntryView>::empty());
        assert(devices_view(s.connected_devices@) =~= seq![]);
        assert(installed_view(s.installed_apps@) =~= seq![]);
        s
    }

    /// The tab on show.
    pub fn current_tab(&self) -> (t: MainTab)
        ensures
            t == self@.current_tab,
    {
        self.current_tab
    }

    /// The pending input of the add-package box.
    pub fn pending_add_pkg(&self) -> (s: String)
        ensures
            s@ == self@.pending_add_pkg,
    {
        self.pending_add_pkg.clone()
    }

    /// The notice on show.
    pub fn last_notice(&self) -> (n: Option<String>)
        ensures
            opt_str(n) == self@.last_notice,
    {
        clone_opt_string(&self.last_notice)
    }

    /// The render sequence number.
    pub fn render_tick(&self) -> (t: u64)
        ensures
            t == self@.render_tick,
    {
        self.render_tick
    }
}

/// Shows the tab `tab` (the state part of switching tabs).
pub fn switch_tab(state: &mut PluginState, tab: MainTab)
    ensures
        final(state)@ == (PluginStateView { current_tab: tab, ..old(state)@ }),
{
    proof {
        use_type_invariant(&*state);
    }
    state.current_tab = tab;
}

/// The entry for `k`: the stored one, else a fresh one.
pub open spec fn entry_or_new(m: Map<Seq<char>, AppEntryView>, k: Seq<char>) -> AppEntryView {
    if m.dom().contains(k) {
        m[k]
    } else {
        new_entry(k)
    }
}

/// A copy of a list of entries.
pub fn copy_entries(v: &Vec<AppEntry>) -> (r: Vec<AppEntry>)
    ensures
        entries_view(r@) == entries_view(v@),
{
    let mut r: Vec<AppEntry> = Vec::new();
    let mut i: usize = 0;
    while i < v.len()
        invariant
            i <= v@.len(),
            r@.len() == i,
            forall|j: int| 0 <= j < i ==> #[trigger] r@[j]@ == v@[j]@,
        decreases v@.len() - i,
    {
        r.push(v[i].copy());
        i = i + 1;
    }
    assert(entries_view(r@) =~= entries_view(v@));
    r
}

/// Finds the entry for `pkg`, adding a fresh one where there is none.
fn entry_index(state: &mut PluginState, pkg: &str) -> (i: usize)
    ensures
        i < final(state).apps@.len(),
        final(state).apps@[i as int]@.pkg_name == pkg@,
        final(state).apps@[i as int]@ == entry_or_new(old(state)@.apps, pkg@),
        final(state)@ == (PluginStateView {
            apps: old(state)@.apps.insert(pkg@, entry_or_new(old(state)@.apps, pkg@)),
            ..old(state)@
        }),
{
    proof {
        use_type_invariant(&*state);
    }
    let key = chars_of(pkg);
    let (p, found) = locate(&state.apps, key.as_slice());
    let ghost s = entries_view(state.apps@);
    if found {
        proof {
            lemma_map_at(s, p as int);
            assert(entries_map(s).insert(pkg@, entries_map(s)[pkg@]) =~= entries_map(s));
        }
        p
    } else {
        let e = AppEntry::new(pkg);
        proof {
            lemma_map_absent(s, pkg@, p);
            lemma_map_insert_new(s, p as int, e@);
        }
        let mut apps = copy_entries(&state.apps);
        apps.insert(p, e);
        assert(entries_view(apps@) == s.insert(p as int, e@));
        state.apps = apps;
        p
    }
}

/// Replaces the entry at `i` by one with the same name.
fn put_entry(state: &mut PluginState, i: usize, e: AppEntry)
    requires
        i < old(state).apps@.len(),
        old(state).apps@[i as int]@.pkg_name == e@.pkg_name,
    ensures
        final(state)@ == (PluginStateView {
            apps: old(state)@.apps.insert(e@.pkg_name, e@),
            ..old(state)@
        }),
{
    proof {
        use_type_invariant(&*state);
    }
    let ghost s = entries_view(state.apps@);
    proof {
        lemma_map_update(s, i as int, e@);
    }
    let mut apps = copy_entries(&state.apps);
    apps.set(i, e);
    assert(entries_view(apps@) == s.update(i as int, e@));
    state.apps = apps;
}


/// Where the entry for `pkg` stands, if there is one.
fn lookup(state: &PluginState, pkg: &str) -> (r: Option<usize>)
    ensures
        match r {
            Some(i) => i < state.apps@.len() && state@.apps.dom().contains(pkg@) && state.apps@[i as int]@
                == state@.apps[pkg@],
            None => !state@.apps.dom().contains(pkg@),
        },
{
    proof {
        use_type_invariant(state);
    }
    let key = chars_of(pkg);
    let (p, found) = locate(&state.apps, key.as_slice());
    let ghost s = entries_view(state.apps@);
    if found {
        proof {
            lemma_map_at(s, p as int);
        }
        Some(p)
    } else {
        proof {
            lemma_map_absent(s, pkg@, p);
        }
        None
    }
}

/// The state with a fresh entry for `pkg` where there was none.
pub open spec fn app_ensured(s: PluginStateView, pkg: Seq<char>) -> PluginStateView {
    PluginStateView {
        apps: if s.apps.dom().contains(pkg) {
            s.apps
        } else {
            s.apps.insert(pkg, new_entry(pkg))
        },
        ..s
    }
}

/// The state without the entry for `pkg`.
pub open spec fn app_removed(s: PluginStateView, pkg: Seq<char>) -> PluginStateView {
    PluginStateView { apps: s.apps.remove(pkg), render_tick: bump(s.render_tick), ..s }
}

/// Adds a fresh entry for `pkg_name` where there is none; says whether it
/// did (the caller then saves the list).
pub fn ensure_app(state: &mut PluginState, pkg_name: &str) -> (inserted: bool)
    ensures
        inserted == !old(state)@.apps.dom().contains(pkg_name@),
        final(state)@ == app_ensured(old(state)@, pkg_name@),
{
    let before = lookup(state, pkg_name).is_some();
    let _ = entry_index(state, pkg_name);
    proof {
        if before {
            assert(old(state)@.apps.insert(pkg_name@, old(state)@.apps[pkg_name@]) =~= old(
                state,
            )@.apps);
        }
    }
    !before
}

/// Every entry of `es` put in turn into `m`, a later one replacing an
/// earlier one of the same name.
pub open spec fn insert_all(m: Map<Seq<char>, AppEntryView>, es: Seq<AppEntryView>) -> Map<
    Seq<char>,
    AppEntryView,
>
    decreases es.len(),
{
    if es.len() == 0 {
        m
    } else {
        insert_all(m, es.drop_last()).insert(es.last().pkg_name, es.last())
    }
}

/// Installs entries loaded at start-up, each replacing any entry of the
/// same name.
pub fn install_loaded_apps(state: &mut PluginState, entries: Vec<AppEntry>)
    ensures
        final(state)@ == (PluginStateView {
            apps: insert_all(old(state)@.apps, entries_view(entries@)),
            render_tick: bump(old(state)@.render_tick),
            ..old(state)@
        }),
{
    let ghost es = entries_view(entries@);
    let mut k: usize = 0;
    while k < entries.len()
        invariant
            k <= entries@.len(),
            es == entries_view(entries@),
            state@ == (PluginStateView {
                apps: insert_all(old(state)@.apps, es.take(k as int)),
                ..old(state)@
            }),
        decreases entries@.len() - k,
    {
        let e = entries[k].copy();
        let ghost before = state@.apps;
        let i = entry_index(state, e.pkg_name.as_str());
        put_entry(state, i, e);
        proof {
            assert(es.take(k + 1).drop_last() == es.take(k as int));
            assert(es.take(k + 1).last() == e@);
            assert(before.insert(e@.pkg_name, entry_or_new(before, e@.pkg_name)).insert(
                e@.pkg_name,
                e@,
            ) =~= before.insert(e@.pkg_name, e@));
        }
        k = k + 1;
    }
    assert(es.take(entries@.len() as int) == es);
    proof {
        use_type_invariant(&*state);
    }
    state.render_tick = state.render_tick.wrapping_add(1);
}

/// Whether requests of `pkg_name` are served: its entry's flag, and yes for
/// an app with no entry.
pub fn is_enabled(state: &PluginState, pkg_name: &str) -> (r: bool)
    ensures
        r == (if state@.apps.dom().contains(pkg_name@) {
            state@.apps[pkg_name@].enabled
        } else {
            true
        }),
{
    match lookup(state, pkg_name) {
        Some(i) => state.apps[i].enabled,
        None => true,
    }
}

/// The text of an optional string slice.
pub open spec fn opt_view(o: Option<&str>) -> Option<Seq<char>> {
    match o {
        Some(s) => Some(s@),
        None => None,
    }
}

/// An entry after one more request from `addr` at `now_ms`, for `url`
/// where one is given.
pub open spec fn after_request(
    e: AppEntryView,
    addr: Seq<char>,
    url: Option<Seq<char>>,
    now_ms: u128,
) -> AppEntryView {
    AppEntryView {
        request_count: sat_inc(e.request_count),
        last_seen_unix_ms: Some(now_ms),
        last_addr: Some(addr),
        last_url: if url is Some {
            url
        } else {
            e.last_url
        },
        ..e
    }
}

/// The state after a request of `pkg` from `addr` at `now_ms`.
pub open spec fn requested(
    s: PluginStateView,
    pkg: Seq<char>,
    addr: Seq<char>,
    url: Option<Seq<char>>,
    now_ms: u128,
) -> PluginStateView {
    PluginStateView {
        apps: s.apps.insert(pkg, after_request(entry_or_new(s.apps, pkg), addr, url, now_ms)),
        render_tick: bump(s.render_tick),
        ..s
    }
}

/// The current time in milliseconds since the Unix epoch, or 0 where the
/// clock reads before the epoch (`SystemTime::now`). Nothing is stated of
/// the value: it is the clock's.
#[verifier::external_body]
pub fn now_unix_ms() -> u128 {
    std::time::SystemTime::now().duration_since(std::time::UNIX_EPOCH).map(|d| d.as_millis()).unwrap_or(0)
}

/// Records a request of `pkg_name` from `addr` at `now_ms`.
pub fn record_request_at(
    state: &mut PluginState,
    pkg_name: &str,
    addr: &str,
    url: Option<&str>,
    now_ms: u128,
)
    ensures
        final(state)@ == requested(old(state)@, pkg_name@, addr@, opt_view(url), now_ms),
{
    let ghost s0 = state@;
    let i = entry_index(state, pkg_name);
    let mut e = state.apps[i].copy();
    e.request_count = e.request_count.saturating_add(1);
    e.last_seen_unix_ms = Some(now_ms);
    e.last_addr = Some(addr.to_owned());
    match url {
        Some(u) => {
            e.last_url = Some(u.to_owned());
        },
        None => {},
    }
    put_entry(state, i, e);
    proof {
        use_type_invariant(&*state);
        let eon = entry_or_new(s0.apps, pkg_name@);
        assert(e@ == after_request(eon, addr@, opt_view(url), now_ms));
        assert(s0.apps.insert(pkg_name@, eon).insert(pkg_name@, e@) =~= s0.apps.insert(
            pkg_name@,
            e@,
        ));
    }
    state.render_tick = state.render_tick.wrapping_add(1);
}

/// Records a request of `pkg_name` from `addr`, stamped with the clock.
pub fn record_request(state: &mut PluginState, pkg_name: &str, addr: &str, url: Option<&str>)
    ensures
        exists|now_ms: u128|
            final(state)@ == #[trigger] requested(
                old(state)@,
                pkg_name@,
                addr@,
                opt_view(url),
                now_ms,
            ),
{
    let now = now_unix_ms();
    record_request_at(state, pkg_name, addr, url, now);
}

/// An entry after one more result, successful or not, with `status` as the
/// last status where one is given.
pub open spec fn after_result(e: AppEntryView, ok: bool, status: Option<Seq<char>>) -> AppEntryView {
    AppEntryView {
        success_count: if ok {
            sat_inc(e.success_count)
        } else {
            e.success_count
        },
        error_count: if ok {
            e.error_count
        } else {
            sat_inc(e.error_count)
        },
        last_status: if status is Some {
            status
        } else {
            e.last_status
        },
        ..e
    }
}

/// The state after the outcome of a request of `pkg` was recorded.
pub open spec fn result_recorded(s: PluginStateView, pkg: Seq<char>, ok: bool, status: Option<Seq<char>>) -> PluginStateView {
    PluginStateView {
        apps: s.apps.insert(pkg, after_result(entry_or_new(s.apps, pkg), ok, status)),
        render_tick: bump(s.render_tick),
        ..s
    }
}

/// Records the outcome of a request of `pkg_name`.
pub fn record_result(state: &mut PluginState, pkg_name: &str, ok: bool, status: Option<String>)
    ensures
        final(state)@ == result_recorded(old(state)@, pkg_name@, ok, opt_str(status)),
{
    let ghost s0 = state@;
    let i = entry_index(state, pkg_name);
    let mut e = state.apps[i].copy();
    if ok {
        e.success_count = e.success_count.saturating_add(1);
    } else {
        e.error_count = e.error_count.saturating_add(1);
    }
    match status {
        Some(st) => {
            e.last_status = Some(st);
        },
        None => {},
    }
    put_entry(state, i, e);
    proof {
        use_type_invariant(&*state);
        let eon = entry_or_new(s0.apps, pkg_name@);
        assert(s0.apps.insert(pkg_name@, eon).insert(pkg_name@, e@) =~= s0.apps.insert(
            pkg_name@,
            e@,
        ));
    }
    state.render_tick = state.render_tick.wrapping_add(1);
}

/// The state with the flag of `pkg` set to `enabled`, its entry added where
/// needed.
pub open spec fn enabled_set(s: PluginStateView, pkg: Seq<char>, enabled: bool) -> PluginStateView {
    PluginStateView {
        apps: s.apps.insert(pkg, AppEntryView { enabled, ..entry_or_new(s.apps, pkg) }),
        render_tick: bump(s.render_tick),
        ..s
    }
}

/// Turns serving of `pkg_name` on or off, adding its entry where needed.
pub fn set_enabled(state: &mut PluginState, pkg_name: &str, enabled: bool)
    ensures
        final(state)@ == enabled_set(old(state)@, pkg_name@, enabled),
{
    let ghost s0 = state@;
    let i = entry_index(state, pkg_name);
    let mut e = state.apps[i].copy();
    e.enabled = enabled;
    put_entry(state, i, e);
    proof {
        use_type_invariant(&*state);
        let eon = entry_or_new(s0.apps, pkg_name@);
        assert(s0.apps.insert(pkg_name@, eon).insert(pkg_name@, e@) =~= s0.apps.insert(
            pkg_name@,
            e@,
        ));
    }
    state.render_tick = state.render_tick.wrapping_add(1);
}

/// Stops monitoring `pkg_name`; says whether it was monitored (the caller
/// then saves the list).
pub fn remove_app(state: &mut PluginState, pkg_name: &str) -> (removed: bool)
    ensures
        removed == old(state)@.apps.dom().contains(pkg_name@),
        final(state)@ == app_removed(old(state)@, pkg_name@),
{
    proof {
        use_type_invariant(&*state);
    }
    let found = lookup(state, pkg_name);
    match found {
        Some(i) => {
            let ghost s = entries_view(state.apps@);
            proof {
                lemma_map_remove(s, i as int);
            }
            let mut apps = copy_entries(&state.apps);
            apps.remove(i);
            assert(entries_view(apps@) == s.remove(i as int));
            state.apps = apps;
        },
        None => {
            assert(old(state)@.apps.remove(pkg_name@) =~= old(state)@.apps);
        },
    }
    state.render_tick = state.render_tick.wrapping_add(1);
    found.is_some()
}

/// The monitored apps, in increasing order of package name.
pub fn snapshot_apps(state: &PluginState) -> (list: Vec<AppEntry>)
    ensures
        sorted_keys(entries_view(list@)),
        entries_map(entries_view(list@)) == state@.apps,
{
    proof {
        use_type_invariant(state);
    }
    copy_entries(&state.apps)
}

/// The package names of the monitored apps, in increasing order.
pub fn pkg_names(state: &PluginState) -> (names: Vec<String>)
    ensures
        forall|i: int, j: int| 0 <= i < j < names@.len() ==> str_lt(#[trigger] names@[i]@, #[trigger] names@[j]@),
        forall|i: int| 0 <= i < names@.len() ==> state@.apps.dom().contains(#[trigger] names@[i]@),
        forall|k: Seq<char>| #[trigger] state@.apps.dom().contains(k) ==> exists|i: int| 0 <= i < names@.len() && #[trigger] names@[i]@ == k,
{
    proof {
        use_type_invariant(state);
    }
    let ghost s = entries_view(state.apps@);
    let mut names: Vec<String> = Vec::new();
    let mut i: usize = 0;
    while i < state.apps.len()
        invariant
            i <= state.apps@.len(),
            s == entries_view(state.apps@),
            names@.len() == i,
            forall|j: int| 0 <= j < i ==> #[trigger] names@[j]@ == s[j].pkg_name,
        decreases state.apps@.len() - i,
    {
        names.push(state.apps[i].pkg_name.clone());
        i = i + 1;
    }
    proof {
        assert forall|a: int| 0 <= a < names@.len() implies state@.apps.dom().contains(#[trigger] names@[a]@) by {
            lemma_map_at(s, a);
        }
        assert forall|k: Seq<char>| #[trigger] state@.apps.dom().contains(k) implies exists|a: int| 0 <= a < names@.len() && #[trigger] names@[a]@ == k by {
            let a = choose|a: int| 0 <= a < s.len() && #[trigger] s[a].pkg_name == k;
            assert(names@[a]@ == k);
        }
    }
    names
}

/// Shows `msg` as the notice.
pub fn set_notice(state: &mut PluginState, msg: String)
    ensures
        final(state)@ == (PluginStateView {
            last_notice: Some(msg@),
            render_tick: bump(old(state)@.render_tick),
            ..old(state)@
        }),
{
    proof {
        use_type_invariant(&*state);
    }
    state.last_notice = Some(msg);
    state.render_tick = state.render_tick.wrapping_add(1);
}

/// Hides the notice.
pub fn clear_notice(state: &mut PluginState)
    ensures
        final(state)@ == (PluginStateView { last_notice: None, ..old(state)@ }),
{
    proof {
        use_type_invariant(&*state);
    }
    state.last_notice = None;
}

/// Keeps the typed text of the add-package box.
pub fn set_pending_add(state: &mut PluginState, value: String)
    ensures
        final(state)@ == (PluginStateView { pending_add_pkg: value@, ..old(state)@ }),
{
    proof {
        use_type_invariant(&*state);
    }
    state.pending_add_pkg = value;
}

/// Takes the typed text of the add-package box, leaving it empty.
pub fn take_pending_add(state: &mut PluginState) -> (value: String)
    ensures
        value@ == old(state)@.pending_add_pkg,
        final(state)@ == (PluginStateView { pending_add_pkg: seq![], ..old(state)@ }),
{
    proof {
        use_type_invariant(&*state);
    }
    let value = state.pending_add_pkg.clone();
    state.pending_add_pkg = String::new();
    value
}

/// Remembers the id of the page's root element.
pub fn set_root(state: &mut PluginState, element_id: &str)
    ensures
        final(state)@ == (PluginStateView { root_element_id: Some(element_id@), ..old(state)@ }),
{
    proof {
        use_type_invariant(&*state);
    }
    state.root_element_id = Some(element_id.to_owned());
}

/// The id of the page's root element, once known.
pub fn root(state: &PluginState) -> (r: Option<String>)
    ensures
        opt_str(r) == state@.root_element_id,
{
    clone_opt_string(&state.root_element_id)
}

/// A copy of a list of devices.
fn copy_devices(v: &Vec<(String, String)>) -> (r: Vec<(String, String)>)
    ensures
        devices_view(r@) == devices_view(v@),
{
    let mut r: Vec<(String, String)> = Vec::new();
    let mut i: usize = 0;
    while i < v.len()
        invariant
            i <= v@.len(),
            r@.len() == i,
            forall|j: int| 0 <= j < i ==> #[trigger] r@[j].0@ == v@[j].0@ && r@[j].1@ == v@[j].1@,
        decreases v@.len() - i,
    {
        let d = &v[i];
        r.push((d.0.clone(), d.1.clone()));
        i = i + 1;
    }
    assert(devices_view(r@) =~= devices_view(v@));
    r
}

/// A copy of a list of installed apps.
fn copy_installed(v: &Vec<InstalledApp>) -> (r: Vec<InstalledApp>)
    ensures
        installed_view(r@) == installed_view(v@),
{
    let mut r: Vec<InstalledApp> = Vec::new();
    let mut i: usize = 0;
    while i < v.len()
        invariant
            i <= v@.len(),
            r@.len() == i,
            forall|j: int| 0 <= j < i ==> #[trigger] r@[j]@ == v@[j]@,
        decreases v@.len() - i,
    {
        r.push(v[i].copy());
        i = i + 1;
    }
    assert(installed_view(r@) =~= installed_view(v@));
    r
}

/// Stores the connected devices (address, name); they are no longer loading.
pub fn set_connected_devices(state: &mut PluginState, devices: Vec<(String, String)>)
    ensures
        final(state)@ == (PluginStateView {
            connected_devices: devices_view(devices@),
            devices_loading: false,
            render_tick: bump(old(state)@.render_tick),
            ..old(state)@
        }),
{
    proof {
        use_type_invariant(&*state);
    }
    state.connected_devices = devices;
    state.devices_loading = false;
    state.render_tick = state.render_tick.wrapping_add(1);
}

/// The connected devices (address, name).
pub fn connected_devices(state: &PluginState) -> (r: Vec<(String, String)>)
    ensures
        devices_view(r@) == state@.connected_devices,
{
    copy_devices(&state.connected_devices)
}

/// Stores the installed third-party apps; they are no longer loading.
pub fn set_installed_apps(state: &mut PluginState, apps: Vec<InstalledApp>)
    ensures
        final(state)@ == (PluginStateView {
            installed_apps: installed_view(apps@),
            apps_loading: false,
            render_tick: bump(old(state)@.render_tick),
            ..old(state)@
        }),
{
    proof {
        use_type_invariant(&*state);
    }
    state.installed_apps = apps;
    state.apps_loading = false;
    state.render_tick = state.render_tick.wrapping_add(1);
}

/// The installed third-party apps.
pub fn installed_apps(state: &PluginState) -> (r: Vec<InstalledApp>)
    ensures
        installed_view(r@) == state@.installed_apps,
{
    copy_installed(&state.installed_apps)
}

/// Whether `pkg` is monitored.
pub fn is_monitored(state: &PluginState, pkg: &str) -> (r: bool)
    ensures
        r == state@.apps.dom().contains(pkg@),
{
    lookup(state, pkg).is_some()
}

/// A refresh may run at `now_ms` when at least `min_interval_ms` have
/// passed since the one that ran at `last_ms` (no time has passed where the
/// clock reads earlier).
pub open spec fn claim_allowed(last_ms: u128, min_interval_ms: u128, now_ms: u128) -> bool {
    !(now_ms.saturating_sub(last_ms) < min_interval_ms)
}

/// One claim of the automatic refresh at `now_ms` on the state `s`: whether
/// it succeeds, and the state after it (where it succeeds, `now_ms` becomes
/// the time of the last refresh; nothing else changes).
pub open spec fn claim_step(s: PluginStateView, min_interval_ms: u128, now_ms: u128) -> (bool, PluginStateView) {
    let ok = claim_allowed(s.last_auto_refresh_ms, min_interval_ms, now_ms);
    (ok, PluginStateView { last_auto_refresh_ms: if ok { now_ms } else { s.last_auto_refresh_ms }, ..s })
}

/// The state after a run of claims, one at each clock reading of `ts`, in
/// order, starting from `s`.
pub open spec fn claims_run(s: PluginStateView, min_interval_ms: u128, ts: Seq<u128>) -> PluginStateView
    decreases ts.len(),
{
    if ts.len() == 0 {
        s
    } else {
        claim_step(claims_run(s, min_interval_ms, ts.drop_last()), min_interval_ms, ts.last()).1
    }
}

/// What the `k`-th claim of that run returns.
pub open spec fn claim_result(s: PluginStateView, min_interval_ms: u128, ts: Seq<u128>, k: int) -> bool {
    claim_step(claims_run(s, min_interval_ms, ts.take(k)), min_interval_ms, ts[k]).0
}

/// Whether an automatic refresh may run at `now_ms`: at least
/// `min_interval_ms` after the last one (a clock that went back counts as
/// no time passed). Where it may, `now_ms` becomes the last one. A run of
/// calls is thus `claims_run`, and the `k`-th returns `claim_result`.
pub fn try_claim_auto_refresh_at(state: &mut PluginState, min_interval_ms: u128, now_ms: u128) -> (claimed: bool)
    ensures
        (claimed, final(state)@) == claim_step(old(state)@, min_interval_ms, now_ms),
        claimed == claim_allowed(old(state)@.last_auto_refresh_ms, min_interval_ms, now_ms),
        final(state)@ == (PluginStateView {
            last_auto_refresh_ms: if claimed {
                now_ms
            } else {
                old(state)@.last_auto_refresh_ms
            },
            ..old(state)@
        }),
{
    proof {
        use_type_invariant(&*state);
    }
    if now_ms.saturating_sub(state.last_auto_refresh_ms) < min_interval_ms {
        return false;
    }
    state.last_auto_refresh_ms = now_ms;
    true
}

proof fn lemma_last_refresh_between(s: PluginStateView, m: u128, ts: Seq<u128>, i: int, k: int)
    requires
        forall|p: int, q: int| 0 <= p <= q < ts.len() ==> ts[p] <= ts[q],
        0 <= i < k <= ts.len(),
        claim_result(s, m, ts, i),
    ensures
        ts[i] <= claims_run(s, m, ts.take(k)).last_auto_refresh_ms <= ts[k - 1],
    decreases k - i,
{
    assert(ts.take(k).drop_last() == ts.take(k - 1));
    assert(ts.take(k).last() == ts[k - 1]);
    if k > i + 1 {
        lemma_last_refresh_between(s, m, ts, i, k - 1);
    }
}

/// Over any run of claims with one interval, on a clock that never goes
/// back, two claims that succeed are at least the interval apart; so with
/// a positive interval two claims at one clock reading never both succeed.
pub proof fn lemma_claims_spaced(s: PluginStateView, min_interval_ms: u128, ts: Seq<u128>, i: int, j: int)
    requires
        forall|p: int, q: int| 0 <= p <= q < ts.len() ==> ts[p] <= ts[q],
        0 <= i < j < ts.len(),
        claim_result(s, min_interval_ms, ts, i),
        claim_result(s, min_interval_ms, ts, j),
    ensures
        ts[j] - ts[i] >= min_interval_ms,
        min_interval_ms > 0 ==> ts[i] != ts[j],
{
    lemma_last_refresh_between(s, min_interval_ms, ts, i, j);
    assert(ts[j - 1] <= ts[j]);
}

/// With no interval, every claim of any run succeeds.
pub proof fn lemma_zero_interval_always_claims(s: PluginStateView, ts: Seq<u128>, k: int)
    requires
        0 <= k < ts.len(),
    ensures
        claim_result(s, 0, ts, k),
{
}

/// Whether an automatic refresh may run now, by the clock.
pub fn try_claim_auto_refresh(state: &mut PluginState, min_interval_ms: u128) -> (claimed: bool)
    ensures
        exists|now_ms: u128|
            #![trigger claim_step(old(state)@, min_interval_ms, now_ms)]
            (claimed, final(state)@) == claim_step(old(state)@, min_interval_ms, now_ms),
{
    let now = now_unix_ms();
    try_claim_auto_refresh_at(state, min_interval_ms, now)
}

/// Marks the device list as loading or not.
pub fn set_devices_loading(state: &mut PluginState, loading: bool)
    ensures
        final(state)@ == (PluginStateView { devices_loading: loading, ..old(state)@ }),
{
    proof {
        use_type_invariant(&*state);
    }
    state.devices_loading = loading;
}

/// Marks the app list as loading or not.
pub fn set_apps_loading(state: &mut PluginState, loading: bool)
    ensures
        final(state)@ == (PluginStateView { apps_loading: loading, ..old(state)@ }),
{
    proof {
        use_type_invariant(&*state);
    }
    state.apps_loading = loading;
}

/// Whether the device list is loading.
pub fn is_devices_loading(state: &PluginState) -> (r: bool)
    ensures
        r == state@.devices_loading,
{
    state.devices_loading
}

/// Whether the app list is loading.
pub fn is_apps_loading(state: &PluginState) -> (r: bool)
    ensures
        r == state@.apps_loading,
{
    state.apps_loading
}

/// The device address to reach `pkg_name` at: the one its last request came
/// from, else the first connected device's.
pub open spec fn device_for(s: PluginStateView, pkg: Seq<char>) -> Option<Seq<char>> {
    if s.apps.dom().contains(pkg) && s.apps[pkg].last_addr is Some {
        s.apps[pkg].last_addr
    } else if s.connected_devices.len() > 0 {
        Some(s.connected_devices[0].0)
    } else {
        None
    }
}

/// The device address to reach `pkg_name` at.
pub fn first_device_addr_for(state: &PluginState, pkg_name: &str) -> (r: Option<String>)
    ensures
        opt_str(r) == device_for(state@, pkg_name@),
{
    match lookup(state, pkg_name) {
        Some(i) => {
            match &state.apps[i].last_addr {
                Some(a) => {
                    return Some(a.clone());
                },
                None => {},
            }
        },
        None => {},
    }
    if state.connected_devices.len() > 0 {
        Some(state.connected_devices[0].0.clone())
    } else {
        None
    }
}


/// The version of the saved list this plugin writes and reads.
pub const CURRENT_VERSION: u32 = 1;

/// The entries of a saved list of version `version`: all of them where the
/// version is the current one, none otherwise.
pub fn loaded_entries(version: u32, entries: Vec<AppEntry>) -> (r: Vec<AppEntry>)
    ensures
        version == CURRENT_VERSION ==> entries_view(r@) == entries_view(entries@),
        version != CURRENT_VERSION ==> r@.len() == 0,
{
    if version == CURRENT_VERSION {
        entries
    } else {
        Vec::new()
    }
}

/// Adding an app that is already monitored changes nothing.
pub proof fn law_ensure_app_idempotent(s: PluginStateView, pkg: Seq<char>)
    ensures
        app_ensured(app_ensured(s, pkg), pkg) == app_ensured(s, pkg),
{
}

/// After adding an app it is monitored and after removing it it is not;
/// adding then removing leaves every other app's entry as it was.
pub proof fn law_add_then_remove(s: PluginStateView, pkg: Seq<char>)
    ensures
        app_ensured(s, pkg).apps.dom().contains(pkg),
        !app_removed(s, pkg).apps.dom().contains(pkg),
        app_removed(app_ensured(s, pkg), pkg).apps == s.apps.remove(pkg),
{
    assert(app_removed(app_ensured(s, pkg), pkg).apps =~= s.apps.remove(pkg));
}

/// Loading a saved snapshot into an empty list restores exactly the saved
/// entries: `install_loaded_apps` after `snapshot_apps` gives back the map.
pub proof fn law_reload_snapshot(es: Seq<AppEntryView>)
    requires
        sorted_keys(es),
    ensures
        insert_all(Map::empty(), es) == entries_map(es),
    decreases es.len(),
{
    if es.len() == 0 {
        assert(entries_map(es) =~= Map::<Seq<char>, AppEntryView>::empty());
    } else {
        let dl = es.drop_last();
        assert(sorted_keys(dl));
        law_reload_snapshot(dl);
        let last = es.last();
        assert forall|i: int| 0 <= i < dl.len() implies str_lt(#[trigger] dl[i].pkg_name, last.pkg_name) by {
            assert(es[i] == dl[i]);
        }
        lemma_map_insert_new(dl, dl.len() as int, last);
        assert(dl.insert(dl.len() as int, last) == es);
    }
}

} // verus!
