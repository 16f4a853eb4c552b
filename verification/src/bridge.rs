//! The bridge's connection table: for each (device address, package) the
//! state of its link, the handshake awaiting an answer and the last sign of
//! life; and the table of running event streams.

use vstd::prelude::*;

use crate::assoc::{
    assoc_map, distinct_keys, has_key, lemma_assoc_at, lemma_assoc_map_values, lemma_assoc_push,
    lemma_assoc_update,
};
use crate::state::{clone_opt_string, installed_view, opt_str, InstalledApp, InstalledAppView};

verus! {

/// The state of the link to one quick app.
#[derive(Clone, Copy, Debug, PartialEq, Eq, Structural)]
pub enum AppConnectionStatus {
    Disconnected,
    Handshaking,
    Connected,
    Failed,
}

/// What the bridge knows of one link.
pub struct LinkView {
    pub status: AppConnectionStatus,
    pub failure: Option<Seq<char>>,
    pub pending: Option<u64>,
    pub last_ping_ms: Option<u128>,
}

/// A link the bridge has never touched.
pub open spec fn idle_link() -> LinkView {
    LinkView { status: AppConnectionStatus::Disconnected, failure: None, pending: None, last_ping_ms: None }
}

struct Link {
    addr: String,
    pkg: String,
    status: AppConnectionStatus,
    failure: Option<String>,
    pending: Option<u64>,
    last_ping_ms: Option<u128>,
}

spec fn link_view(l: Link) -> LinkView {
    LinkView {
        status: l.status,
        failure: opt_str(l.failure),
        pending: l.pending,
        last_ping_ms: l.last_ping_ms,
    }
}

spec fn link_entries(s: Seq<Link>) -> Seq<((Seq<char>, Seq<char>), LinkView)> {
    s.map_values(|l: Link| ((l.addr@, l.pkg@), link_view(l)))
}

impl Link {
    fn copy(&self) -> (r: Link)
        ensures
            r.addr@ == self.addr@,
            r.pkg@ == self.pkg@,
            link_view(r) == link_view(*self),
    {
        Link {
            addr: self.addr.clone(),
            pkg: self.pkg.clone(),
            status: self.status,
            failure: clone_opt_string(&self.failure),
            pending: self.pending,
            last_ping_ms: self.last_ping_ms,
        }
    }
}

/// The connection table and the bridge's settings.
pub struct Bridge {
    links: Vec<Link>,
    auto_reconnect: bool,
    heartbeat_timer: Option<u64>,
}

/// The value a `Bridge` holds: the links by (device address, package).
pub struct BridgeView {
    pub links: Map<(Seq<char>, Seq<char>), LinkView>,
    pub auto_reconnect: bool,
    pub heartbeat_timer: Option<u64>,
}

impl View for Bridge {
    type V = BridgeView;

    closed spec fn view(&self) -> BridgeView {
        BridgeView {
            links: assoc_map(link_entries(self.links@)),
            auto_reconnect: self.auto_reconnect,
            heartbeat_timer: self.heartbeat_timer,
        }
    }
}

/// The link of `pkg` on the device `addr`.
pub open spec fn link_of(b: BridgeView, addr: Seq<char>, pkg: Seq<char>) -> LinkView {
    if b.links.dom().contains((addr, pkg)) {
        b.links[(addr, pkg)]
    } else {
        idle_link()
    }
}

/// `b` with the link of `pkg` on `addr` replaced by `l`.
pub open spec fn with_link(b: BridgeView, addr: Seq<char>, pkg: Seq<char>, l: LinkView) -> BridgeView {
    BridgeView { links: b.links.insert((addr, pkg), l), ..b }
}

/// The table after the link is put in the state `status` at `now_ms`; a
/// link that becomes connected counts that moment as its last sign of
/// life, and any failure reason is dropped.
pub open spec fn status_set(
    b: BridgeView,
    addr: Seq<char>,
    pkg: Seq<char>,
    status: AppConnectionStatus,
    now_ms: u128,
) -> BridgeView {
    let l = link_of(b, addr, pkg);
    with_link(
        b,
        addr,
        pkg,
        LinkView {
            status,
            failure: None,
            last_ping_ms: if status == AppConnectionStatus::Connected {
                Some(now_ms)
            } else {
                l.last_ping_ms
            },
            ..l
        },
    )
}

/// The table after the link failed for `reason`.
pub open spec fn failed(b: BridgeView, addr: Seq<char>, pkg: Seq<char>, reason: Seq<char>) -> BridgeView {
    let l = link_of(b, addr, pkg);
    with_link(b, addr, pkg, LinkView { status: AppConnectionStatus::Failed, failure: Some(reason), ..l })
}

/// The table with `t` as the timer of the link's awaited handshake.
pub open spec fn pending_set(b: BridgeView, addr: Seq<char>, pkg: Seq<char>, t: u64) -> BridgeView {
    let l = link_of(b, addr, pkg);
    with_link(b, addr, pkg, LinkView { pending: Some(t), ..l })
}

/// The table with no handshake awaited on the link.
pub open spec fn pending_taken(b: BridgeView, addr: Seq<char>, pkg: Seq<char>) -> BridgeView {
    let l = link_of(b, addr, pkg);
    with_link(b, addr, pkg, LinkView { pending: None, ..l })
}

/// The table after a sign of life from the link at `now_ms`.
pub open spec fn pinged(b: BridgeView, addr: Seq<char>, pkg: Seq<char>, now_ms: u128) -> BridgeView {
    let l = link_of(b, addr, pkg);
    with_link(b, addr, pkg, LinkView { last_ping_ms: Some(now_ms), ..l })
}

/// A connected link with no sign of life for more than `timeout_ms`.
pub open spec fn is_stale(l: LinkView, timeout_ms: u128, now_ms: u128) -> bool {
    l.status == AppConnectionStatus::Connected && match l.last_ping_ms {
        Some(t) => (if now_ms >= t {
            now_ms - t
        } else {
            0
        }) > timeout_ms,
        None => true,
    }
}

/// The link `l` of key `k` after the device `addr` went away: where it
/// awaited a handshake on that device, no longer awaiting, and disconnected.
pub open spec fn drained_link(addr: Seq<char>, k: (Seq<char>, Seq<char>), l: LinkView) -> LinkView {
    if k.0 == addr && l.pending is Some {
        LinkView { status: AppConnectionStatus::Disconnected, pending: None, ..l }
    } else {
        l
    }
}

/// The table after the device `addr` went away.
pub open spec fn drained(b: BridgeView, addr: Seq<char>) -> BridgeView {
    BridgeView {
        links: Map::new(
            |k: (Seq<char>, Seq<char>)| b.links.dom().contains(k),
            |k: (Seq<char>, Seq<char>)| drained_link(addr, k, b.links[k]),
        ),
        ..b
    }
}

/// Some app of `apps` is `pkg` on the device `addr`.
pub open spec fn installed_on(apps: Seq<InstalledAppView>, addr: Seq<char>, pkg: Seq<char>) -> bool {
    exists|i: int| 0 <= i < apps.len() && #[trigger] apps[i].addr == addr && apps[i].package_name == pkg
}

/// The table keeping only the links of apps among `apps`.
pub open spec fn pruned(b: BridgeView, apps: Seq<InstalledAppView>) -> BridgeView {
    BridgeView {
        links: Map::new(
            |k: (Seq<char>, Seq<char>)| b.links.dom().contains(k) && installed_on(apps, k.0, k.1),
            |k: (Seq<char>, Seq<char>)| b.links[k],
        ),
        ..b
    }
}

/// The key of a pair of strings.
pub open spec fn pair_key(p: (String, String)) -> (Seq<char>, Seq<char>) {
    (p.0@, p.1@)
}

spec fn key_of(l: Link) -> (Seq<char>, Seq<char>) {
    (l.addr@, l.pkg@)
}

fn stale_now(status: AppConnectionStatus, last: Option<u128>, timeout_ms: u128, now_ms: u128) -> (b: bool)
    ensures
        b == is_stale(
            LinkView { status, failure: None, pending: None, last_ping_ms: last },
            timeout_ms,
            now_ms,
        ),
{
    status == AppConnectionStatus::Connected && match last {
        Some(t) => (if now_ms >= t {
            now_ms - t
        } else {
            0
        }) > timeout_ms,
        None => true,
    }
}

fn installed(apps: &Vec<InstalledApp>, addr: &String, pkg: &String) -> (b: bool)
    ensures
        b == installed_on(installed_view(apps@), addr@, pkg@),
{
    let mut i: usize = 0;
    while i < apps.len()
        invariant
            i <= apps@.len(),
            forall|j: int| 0 <= j < i ==> !(#[trigger] installed_view(apps@)[j].addr == addr@ && installed_view(apps@)[j].package_name == pkg@),
        decreases apps@.len() - i,
    {
        if apps[i].addr == *addr && apps[i].package_name == *pkg {
            assert(installed_view(apps@)[i as int] == apps@[i as int]@);
            assert(installed_view(apps@)[i as int].addr == addr@ && installed_view(apps@)[i as int].package_name == pkg@);
            return true;
        }
        i = i + 1;
    }
    false
}

proof fn lemma_entries_index(s: Seq<Link>, i: int)
    requires
        0 <= i < s.len(),
    ensures
        link_entries(s)[i] == ((s[i].addr@, s[i].pkg@), link_view(s[i])),
        link_entries(s).len() == s.len(),
{
}

impl Bridge {
    #[verifier::type_invariant]
    spec fn inv(self) -> bool {
        distinct_keys(link_entries(self.links@))
    }

    /// An empty table, with automatic reconnection on and no heartbeat timer.
    pub fn new() -> (b: Self)
        ensures
            b@.links == Map::<(Seq<char>, Seq<char>), LinkView>::empty(),
            b@.auto_reconnect,
            b@.heartbeat_timer is None,
    {
        let b = Bridge { links: Vec::new(), auto_reconnect: true, heartbeat_timer: None };
        assert(link_entries(b.links@) =~= seq![]);
        assert(assoc_map(link_entries(b.links@)) =~= Map::<(Seq<char>, Seq<char>), LinkView>::empty());
        b
    }

    fn position(&self, addr: &String, pkg: &String) -> (r: Option<usize>)
        ensures
            match r {
                Some(i) => i < self.links@.len() && self.links@[i as int].addr@ == addr@
                    && self.links@[i as int].pkg@ == pkg@,
                None => !self@.links.dom().contains((addr@, pkg@)),
            },
    {
        let mut i: usize = 0;
        while i < self.links.len()
            invariant
                i <= self.links@.len(),
                forall|j: int|
                    0 <= j < i ==> !(#[trigger] self.links@[j].addr@ == addr@ && self.links@[j].pkg@
                        == pkg@),
            decreases self.links@.len() - i,
        {
            if self.links[i].addr == *addr && self.links[i].pkg == *pkg {
                return Some(i);
            }
            i = i + 1;
        }
        proof {
            let s = link_entries(self.links@);
            if has_key(s, (addr@, pkg@)) {
                let j = choose|j: int| 0 <= j < s.len() && #[trigger] s[j].0 == (addr@, pkg@);
                lemma_entries_index(self.links@, j);
                assert(self.links@[j].addr@ == addr@ && self.links@[j].pkg@ == pkg@);
            }
        }
        None
    }

    /// The link of `pkg` on `addr`, as values.
    fn current(&self, addr: &String, pkg: &String) -> (r: (
        AppConnectionStatus,
        Option<String>,
        Option<u64>,
        Option<u128>,
    ))
        ensures
            (LinkView { status: r.0, failure: opt_str(r.1), pending: r.2, last_ping_ms: r.3 })
                == link_of(self@, addr@, pkg@),
    {
        proof {
            use_type_invariant(self);
        }
        match self.position(addr, pkg) {
            Some(i) => {
                proof {
                    lemma_entries_index(self.links@, i as int);
                    lemma_assoc_at(link_entries(self.links@), i as int);
                }
                let l = &self.links[i];
                (l.status, clone_opt_string(&l.failure), l.pending, l.last_ping_ms)
            },
            None => (AppConnectionStatus::Disconnected, None, None, None),
        }
    }

    /// Replaces the link of `pkg` on `addr`.
    fn put(
        &mut self,
        addr: &String,
        pkg: &String,
        status: AppConnectionStatus,
        failure: Option<String>,
        pending: Option<u64>,
        last_ping_ms: Option<u128>,
    )
        ensures
            final(self)@ == with_link(
                old(self)@,
                addr@,
                pkg@,
                LinkView { status, failure: opt_str(failure), pending, last_ping_ms },
            ),
    {
        proof {
            use_type_invariant(&*self);
        }
        let ghost s = link_entries(self.links@);
        let l = Link { addr: addr.clone(), pkg: pkg.clone(), status, failure, pending, last_ping_ms };
        let ghost lv = link_view(l);
        let p = self.position(addr, pkg);
        let mut links: Vec<Link> = Vec::new();
        let mut j: usize = 0;
        while j < self.links.len()
            invariant
                j <= self.links@.len(),
                links@.len() == j,
                forall|m: int|
                    0 <= m < j ==> (#[trigger] links@[m]).addr@ == self.links@[m].addr@ && links@[m].pkg@
                        == self.links@[m].pkg@ && link_view(links@[m]) == link_view(self.links@[m]),
            decreases self.links@.len() - j,
        {
            let c = self.links[j].copy();
            links.push(c);
            j = j + 1;
        }
        assert forall|m: int| 0 <= m < s.len() implies #[trigger] link_entries(links@)[m] == s[m] by {
            lemma_entries_index(links@, m);
            lemma_entries_index(self.links@, m);
        }
        assert(link_entries(links@) =~= s);
        match p {
            Some(i) => {
                proof {
                    lemma_entries_index(self.links@, i as int);
                    lemma_assoc_update(s, i as int, lv);
                }
                links.set(i, l);
                assert(link_entries(links@) =~= s.update(i as int, (s[i as int].0, lv)));
            },
            None => {
                proof {
                    lemma_assoc_push(s, (addr@, pkg@), lv);
                }
                links.push(l);
                assert(link_entries(links@) =~= s.push(((addr@, pkg@), lv)));
            },
        }
        self.links = links;
    }

    /// The state of the link of `pkg` on `addr`.
    pub fn connection_status(&self, addr: &str, pkg: &str) -> (st: AppConnectionStatus)
        ensures
            st == link_of(self@, addr@, pkg@).status,
    {
        let (st, _, _, _) = self.current(&addr.to_owned(), &pkg.to_owned());
        st
    }

    /// Why the link of `pkg` on `addr` failed, where it did.
    pub fn failure_reason(&self, addr: &str, pkg: &str) -> (r: Option<String>)
        ensures
            opt_str(r) == link_of(self@, addr@, pkg@).failure,
    {
        let (_, f, _, _) = self.current(&addr.to_owned(), &pkg.to_owned());
        f
    }

    /// Puts the link in the state `status` at `now_ms`.
    pub fn set_connection_status(&mut self, addr: &str, pkg: &str, status: AppConnectionStatus, now_ms: u128)
        ensures
            final(self)@ == status_set(old(self)@, addr@, pkg@, status, now_ms),
    {
        let a = addr.to_owned();
        let p = pkg.to_owned();
        let (_, _, pending, last) = self.current(&a, &p);
        let ping = if status == AppConnectionStatus::Connected {
            Some(now_ms)
        } else {
            last
        };
        self.put(&a, &p, status, None, pending, ping);
    }

    /// Marks the link as failed for `reason`.
    pub fn set_connection_failed(&mut self, addr: &str, pkg: &str, reason: &str)
        ensures
            final(self)@ == failed(old(self)@, addr@, pkg@, reason@),
    {
        let a = addr.to_owned();
        let p = pkg.to_owned();
        let (_, _, pending, last) = self.current(&a, &p);
        self.put(&a, &p, AppConnectionStatus::Failed, Some(reason.to_owned()), pending, last);
    }

    /// Whether the link awaits an answer to a handshake.
    pub fn is_handshake_pending(&self, addr: &str, pkg: &str) -> (b: bool)
        ensures
            b == link_of(self@, addr@, pkg@).pending is Some,
    {
        let (_, _, pending, _) = self.current(&addr.to_owned(), &pkg.to_owned());
        pending.is_some()
    }

    /// Stops awaiting the link's handshake; gives the timer that guarded it.
    pub fn take_pending_handshake(&mut self, addr: &str, pkg: &str) -> (t: Option<u64>)
        ensures
            t == link_of(old(self)@, addr@, pkg@).pending,
            final(self)@ == pending_taken(old(self)@, addr@, pkg@),
    {
        let a = addr.to_owned();
        let p = pkg.to_owned();
        let (st, f, pending, last) = self.current(&a, &p);
        self.put(&a, &p, st, f, None, last);
        pending
    }

    /// Awaits the link's handshake, guarded by the timer `timer_id`; gives
    /// the timer of a handshake awaited before, which the caller clears.
    pub fn insert_pending_handshake(&mut self, addr: &str, pkg: &str, timer_id: u64) -> (old_timer: Option<u64>)
        ensures
            old_timer == link_of(old(self)@, addr@, pkg@).pending,
            final(self)@ == pending_set(old(self)@, addr@, pkg@, timer_id),
    {
        let a = addr.to_owned();
        let p = pkg.to_owned();
        let (st, f, pending, last) = self.current(&a, &p);
        self.put(&a, &p, st, f, Some(timer_id), last);
        pending
    }

    /// Records a sign of life from the link at `now_ms`.
    pub fn record_ping(&mut self, addr: &str, pkg: &str, now_ms: u128)
        ensures
            final(self)@ == pinged(old(self)@, addr@, pkg@, now_ms),
    {
        let a = addr.to_owned();
        let p = pkg.to_owned();
        let (st, f, pending, _) = self.current(&a, &p);
        self.put(&a, &p, st, f, pending, Some(now_ms));
    }

    /// Whether apps last connected are reconnected at start-up.
    pub fn auto_reconnect(&self) -> (b: bool)
        ensures
            b == self@.auto_reconnect,
    {
        self.auto_reconnect
    }

    /// Turns automatic reconnection on or off.
    pub fn set_auto_reconnect(&mut self, enabled: bool)
        ensures
            final(self)@ == (BridgeView { auto_reconnect: enabled, ..old(self)@ }),
    {
        proof {
            use_type_invariant(&*self);
        }
        self.auto_reconnect = enabled;
    }

    /// Keeps the id of the heartbeat timer; gives the one kept before.
    pub fn set_heartbeat_timer(&mut self, timer_id: u64) -> (old_timer: Option<u64>)
        ensures
            old_timer == old(self)@.heartbeat_timer,
            final(self)@ == (BridgeView { heartbeat_timer: Some(timer_id), ..old(self)@ }),
    {
        proof {
            use_type_invariant(&*self);
        }
        let old_timer = self.heartbeat_timer;
        self.heartbeat_timer = Some(timer_id);
        old_timer
    }

    /// The connected links with no sign of life for more than `timeout_ms`
    /// at `now_ms`, each once.
    pub fn stale_connections(&self, timeout_ms: u128, now_ms: u128) -> (r: Vec<(String, String)>)
        ensures
            forall|i: int|
                0 <= i < r@.len() ==> self@.links.dom().contains(#[trigger] pair_key(r@[i])) && is_stale(
                    self@.links[pair_key(r@[i])],
                    timeout_ms,
                    now_ms,
                ),
            forall|k: (Seq<char>, Seq<char>)|
                #[trigger] self@.links.dom().contains(k) && is_stale(self@.links[k], timeout_ms, now_ms)
                    ==> exists|i: int| 0 <= i < r@.len() && #[trigger] pair_key(r@[i]) == k,
            forall|i: int, j: int| 0 <= i < j < r@.len() ==> pair_key(#[trigger] r@[i]) != pair_key(#[trigger] r@[j]),
    {
        proof {
            use_type_invariant(self);
        }
        let ghost s = link_entries(self.links@);
        let ghost mut idx: Seq<int> = Seq::empty();
        let mut r: Vec<(String, String)> = Vec::new();
        let mut i: usize = 0;
        while i < self.links.len()
            invariant
                i <= self.links@.len(),
                s == link_entries(self.links@),
                distinct_keys(s),
                idx.len() == r@.len(),
                forall|m: int|
                    0 <= m < idx.len() ==> 0 <= #[trigger] idx[m] < i && pair_key(r@[m]) == key_of(
                        self.links@[idx[m]],
                    ) && is_stale(link_view(self.links@[idx[m]]), timeout_ms, now_ms),
                forall|a: int, b: int| 0 <= a < b < idx.len() ==> #[trigger] idx[a] < #[trigger] idx[b],
                forall|j: int|
                    0 <= j < i && is_stale(link_view(#[trigger] self.links@[j]), timeout_ms, now_ms) ==> exists|m: int|
                        0 <= m < idx.len() && idx[m] == j,
            decreases self.links@.len() - i,
        {
            let l = &self.links[i];
            let ghost old_idx = idx;
            if stale_now(l.status, l.last_ping_ms, timeout_ms, now_ms) {
                r.push((l.addr.clone(), l.pkg.clone()));
                proof {
                    idx = idx.push(i as int);
                    assert(idx[idx.len() - 1] == i);
                }
            }
            proof {
                assert forall|j: int|
                    0 <= j < i + 1 && is_stale(link_view(#[trigger] self.links@[j]), timeout_ms, now_ms) implies exists|m: int|
                        0 <= m < idx.len() && idx[m] == j by {
                    if j == i {
                        assert(idx[idx.len() - 1] == i);
                    } else {
                        let m = choose|m: int| 0 <= m < old_idx.len() && old_idx[m] == j;
                        assert(idx[m] == old_idx[m]);
                    }
                }
            }
            i = i + 1;
        }
        proof {
            assert forall|m: int| 0 <= m < r@.len() implies self@.links.dom().contains(#[trigger] pair_key(r@[m])) && is_stale(
                self@.links[pair_key(r@[m])],
                timeout_ms,
                now_ms,
            ) by {
                let j = idx[m];
                lemma_entries_index(self.links@, j);
                lemma_assoc_at(s, j);
            }
            assert forall|k: (Seq<char>, Seq<char>)|
                #[trigger] self@.links.dom().contains(k) && is_stale(self@.links[k], timeout_ms, now_ms)
                    implies exists|m: int| 0 <= m < r@.len() && #[trigger] pair_key(r@[m]) == k by {
                let j = choose|j: int| 0 <= j < s.len() && #[trigger] s[j].0 == k;
                lemma_entries_index(self.links@, j);
                lemma_assoc_at(s, j);
                assert(is_stale(link_view(self.links@[j]), timeout_ms, now_ms));
                let m = choose|m: int| 0 <= m < idx.len() && idx[m] == j;
                assert(pair_key(r@[m]) == k);
            }
            assert forall|a: int, b: int| 0 <= a < b < r@.len() implies pair_key(#[trigger] r@[a]) != pair_key(#[trigger] r@[b]) by {
                assert(idx[a] < idx[b]);
                lemma_entries_index(self.links@, idx[a]);
                lemma_entries_index(self.links@, idx[b]);
                assert(s[idx[a]].0 != s[idx[b]].0);
            }
        }
        r
    }

    /// The device `addr` went away: its links that awaited a handshake stop
    /// awaiting and are disconnected; gives the timers that guarded them.
    pub fn drain_pending_for_device(&mut self, addr: &str) -> (timers: Vec<u64>)
        ensures
            final(self)@ == drained(old(self)@, addr@),
            forall|t: u64|
                timers@.contains(t) <==> exists|k: (Seq<char>, Seq<char>)|
                    #[trigger] old(self)@.links.dom().contains(k) && k.0 == addr@ && old(self)@.links[k].pending
                        == Some(t),
    {
        proof {
            use_type_invariant(&*self);
        }
        let a = addr.to_owned();
        let ghost s = link_entries(self.links@);
        let ghost f = |k: (Seq<char>, Seq<char>), v: LinkView| drained_link(addr@, k, v);
        let ghost mut idx: Seq<int> = Seq::empty();
        let mut links: Vec<Link> = Vec::new();
        let mut timers: Vec<u64> = Vec::new();
        let mut i: usize = 0;
        while i < self.links.len()
            invariant
                i <= self.links@.len(),
                a@ == addr@,
                s == link_entries(self.links@),
                links@.len() == i,
                forall|m: int|
                    0 <= m < i ==> key_of(#[trigger] links@[m]) == key_of(self.links@[m]) && link_view(links@[m])
                        == drained_link(addr@, key_of(self.links@[m]), link_view(self.links@[m])),
                idx.len() == timers@.len(),
                forall|m: int|
                    0 <= m < idx.len() ==> 0 <= #[trigger] idx[m] < i && self.links@[idx[m]].addr@ == addr@
                        && self.links@[idx[m]].pending == Some(timers@[m]),
                forall|j: int|
                    0 <= j < i && (#[trigger] self.links@[j]).addr@ == addr@ && self.links@[j].pending is Some
                        ==> exists|m: int| 0 <= m < idx.len() && idx[m] == j,
            decreases self.links@.len() - i,
        {
            let l = self.links[i].copy();
            let ghost old_idx = idx;
            let ghost old_links = links@;
            if l.addr == a && l.pending.is_some() {
                let t = l.pending.unwrap();
                timers.push(t);
                links.push(
                    Link {
                        addr: l.addr,
                        pkg: l.pkg,
                        status: AppConnectionStatus::Disconnected,
                        failure: l.failure,
                        pending: None,
                        last_ping_ms: l.last_ping_ms,
                    },
                );
                proof {
                    idx = idx.push(i as int);
                    assert(idx[idx.len() - 1] == i);
                }
            } else {
                links.push(l);
            }
            proof {
                assert forall|j: int|
                    0 <= j < i + 1 && (#[trigger] self.links@[j]).addr@ == addr@ && self.links@[j].pending is Some
                        implies exists|m: int| 0 <= m < idx.len() && idx[m] == j by {
                    if j == i {
                        assert(idx[idx.len() - 1] == i);
                    } else {
                        let m = choose|m: int| 0 <= m < old_idx.len() && old_idx[m] == j;
                        assert(idx[m] == old_idx[m]);
                    }
                }
                assert forall|m: int| 0 <= m < i + 1 implies key_of(#[trigger] links@[m]) == key_of(self.links@[m]) && link_view(links@[m])
                        == drained_link(addr@, key_of(self.links@[m]), link_view(self.links@[m])) by {
                    if m < i {
                        assert(links@[m] == old_links[m]);
                    } else {
                        let v = link_view(self.links@[m]);
                        let k = key_of(self.links@[m]);
                        if k.0 == addr@ && v.pending is Some {
                            assert(link_view(links@[m]) == LinkView { status: AppConnectionStatus::Disconnected, pending: None, ..v });
                        } else {
                            assert(link_view(links@[m]) == v);
                        }
                    }
                }
            }
            i = i + 1;
        }
        proof {
            let t = link_entries(links@);
            assert forall|m: int| 0 <= m < s.len() implies #[trigger] t[m] == (s[m].0, f(s[m].0, s[m].1)) by {
                lemma_entries_index(links@, m);
                lemma_entries_index(self.links@, m);
            }
            lemma_assoc_map_values(s, t, f);
            assert(assoc_map(t) =~= drained(old(self)@, addr@).links);
            assert forall|u: u64| timers@.contains(u) <==> exists|k: (Seq<char>, Seq<char>)|
                #[trigger] old(self)@.links.dom().contains(k) && k.0 == addr@ && old(self)@.links[k].pending
                    == Some(u) by {
                if timers@.contains(u) {
                    let m = choose|m: int| 0 <= m < timers@.len() && timers@[m] == u;
                    let j = idx[m];
                    lemma_entries_index(self.links@, j);
                    lemma_assoc_at(s, j);
                    assert(old(self)@.links.dom().contains(key_of(self.links@[j])));
                }
                if exists|k: (Seq<char>, Seq<char>)| #[trigger] old(self)@.links.dom().contains(k) && k.0 == addr@ && old(self)@.links[k].pending == Some(u) {
                    let k = choose|k: (Seq<char>, Seq<char>)| #[trigger] old(self)@.links.dom().contains(k) && k.0 == addr@ && old(self)@.links[k].pending == Some(u);
                    let j = choose|j: int| 0 <= j < s.len() && #[trigger] s[j].0 == k;
                    lemma_entries_index(self.links@, j);
                    lemma_assoc_at(s, j);
                    assert(self.links@[j].addr@ == addr@);
                    let m = choose|m: int| 0 <= m < idx.len() && idx[m] == j;
                    assert(timers@[m] == u);
                }
            }
        }
        self.links = links;
        timers
    }

    /// Drops the links of apps no longer among `apps` (the apps on the
    /// connected devices).
    pub fn prune_stale_connections(&mut self, apps: &Vec<InstalledApp>)
        ensures
            final(self)@ == pruned(old(self)@, installed_view(apps@)),
    {
        proof {
            use_type_invariant(&*self);
        }
        let ghost s = link_entries(self.links@);
        let mut links: Vec<Link> = Vec::new();
        let mut i: usize = 0;
        while i < self.links.len()
            invariant
                i <= self.links@.len(),
                s == link_entries(self.links@),
                distinct_keys(s),
                distinct_keys(link_entries(links@)),
                forall|k: (Seq<char>, Seq<char>)|
                    #[trigger] assoc_map(link_entries(links@)).dom().contains(k) <==> (exists|j: int|
                        0 <= j < i && #[trigger] s[j].0 == k) && installed_on(installed_view(apps@), k.0, k.1),
                forall|k: (Seq<char>, Seq<char>)|
                    #[trigger] assoc_map(link_entries(links@)).dom().contains(k) ==> assoc_map(link_entries(links@))[k]
                        == assoc_map(s)[k],
            decreases self.links@.len() - i,
        {
            let l = &self.links[i];
            proof {
                lemma_entries_index(self.links@, i as int);
            }
            let ghost t = link_entries(links@);
            if installed(apps, &l.addr, &l.pkg) {
                let c = l.copy();
                proof {
                    assert(!has_key(t, s[i as int].0)) by {
                        if has_key(t, s[i as int].0) {
                            let q = choose|q: int| 0 <= q < t.len() && #[trigger] t[q].0 == s[i as int].0;
                            lemma_assoc_at(t, q);
                            let j = choose|j: int| 0 <= j < i && #[trigger] s[j].0 == s[i as int].0;
                        }
                    }
                    lemma_assoc_push(t, s[i as int].0, s[i as int].1);
                    lemma_assoc_at(s, i as int);
                }
                links.push(c);
                proof {
                    assert(link_entries(links@) =~= t.push(s[i as int]));
                    assert forall|k: (Seq<char>, Seq<char>)|
                        #[trigger] assoc_map(link_entries(links@)).dom().contains(k) <==> (exists|j: int|
                            0 <= j < i + 1 && #[trigger] s[j].0 == k) && installed_on(installed_view(apps@), k.0, k.1) by {
                        if exists|j: int| 0 <= j < i + 1 && #[trigger] s[j].0 == k {
                            let j = choose|j: int| 0 <= j < i + 1 && #[trigger] s[j].0 == k;
                            if j < i {
                                assert(exists|j2: int| 0 <= j2 < i && #[trigger] s[j2].0 == k);
                            }
                        }
                        if (exists|j: int| 0 <= j < i && #[trigger] s[j].0 == k) {
                            let j = choose|j: int| 0 <= j < i && #[trigger] s[j].0 == k;
                            assert(exists|j2: int| 0 <= j2 < i + 1 && #[trigger] s[j2].0 == k);
                        }
                    }
                }
            } else {
                proof {
                    assert forall|k: (Seq<char>, Seq<char>)|
                        #[trigger] assoc_map(link_entries(links@)).dom().contains(k) <==> (exists|j: int|
                            0 <= j < i + 1 && #[trigger] s[j].0 == k) && installed_on(installed_view(apps@), k.0, k.1) by {
                        if (exists|j: int| 0 <= j < i + 1 && #[trigger] s[j].0 == k) && installed_on(installed_view(apps@), k.0, k.1) {
                            let j = choose|j: int| 0 <= j < i + 1 && #[trigger] s[j].0 == k;
                            if j == i {
                                assert(!installed_on(installed_view(apps@), k.0, k.1));
                            }
                            assert(exists|j2: int| 0 <= j2 < i && #[trigger] s[j2].0 == k);
                        }
                        if (exists|j: int| 0 <= j < i && #[trigger] s[j].0 == k) {
                            let j = choose|j: int| 0 <= j < i && #[trigger] s[j].0 == k;
                            assert(exists|j2: int| 0 <= j2 < i + 1 && #[trigger] s[j2].0 == k);
                        }
                    }
                }
            }
            i = i + 1;
        }
        proof {
            let t = link_entries(links@);
            assert forall|k: (Seq<char>, Seq<char>)| #[trigger] assoc_map(t).dom().contains(k) <==> pruned(old(self)@, installed_view(apps@)).links.dom().contains(k) by {
                if has_key(s, k) {
                    let j = choose|j: int| 0 <= j < s.len() && #[trigger] s[j].0 == k;
                }
            }
            assert(assoc_map(t) =~= pruned(old(self)@, installed_view(apps@)).links);
        }
        self.links = links;
    }
}

} // verus!
