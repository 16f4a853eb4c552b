//! Refreshing the devices and the apps on them, and reconnecting the apps
//! connected before.

use vstd::prelude::*;

use crate::bridge::{drained_link, pruned, status_set, AppConnectionStatus, Bridge, BridgeView};
use crate::protocol::{actions_view, Action, ActionView};
use crate::state::{
    devices_view, installed_view, lemma_lt_irrefl, lemma_lt_total, lemma_lt_trans, set_connected_devices,
    set_installed_apps, str_less, str_lt, bump, try_claim_auto_refresh_at, InstalledApp, InstalledAppView,
    PluginState, PluginStateView,
};
use crate::text::chars_of;

verus! {

/// The device `addr` was connected before (among `old`) and is not any
/// more (not among `new`).
pub open spec fn device_gone(old: Seq<(Seq<char>, Seq<char>)>, new: Seq<(Seq<char>, Seq<char>)>, addr: Seq<char>) -> bool {
    (exists|i: int| 0 <= i < old.len() && #[trigger] old[i].0 == addr) && !(exists|j: int|
        0 <= j < new.len() && #[trigger] new[j].0 == addr)
}

/// The table after the devices whose addresses satisfy `gone` went away.
pub open spec fn drained_where(b: BridgeView, gone: spec_fn(Seq<char>) -> bool) -> BridgeView {
    BridgeView {
        links: Map::new(
            |k: (Seq<char>, Seq<char>)| b.links.dom().contains(k),
            |k: (Seq<char>, Seq<char>)| if gone(k.0) {
                drained_link(k.0, k, b.links[k])
            } else {
                b.links[k]
            },
        ),
        ..b
    }
}

/// Some action of `actions` clears the timer `t`.
pub open spec fn clears(actions: Seq<ActionView>, t: u64) -> bool {
    exists|i: int| 0 <= i < actions.len() && #[trigger] actions[i] == ActionView::ClearTimer(t)
}

/// The timer `t` guards a handshake awaited on a link of `b` whose device
/// satisfies `gone`.
pub open spec fn guards_gone(b: BridgeView, gone: spec_fn(Seq<char>) -> bool, t: u64) -> bool {
    exists|k: (Seq<char>, Seq<char>)| #[trigger] b.links.dom().contains(k) && gone(k.0) && b.links[k].pending == Some(t)
}

/// `actions` clear exactly the timers of the handshakes awaited on the links
/// of `b` whose device satisfies `gone`.
pub open spec fn clears_gone_timers(actions: Seq<ActionView>, b: BridgeView, gone: spec_fn(Seq<char>) -> bool) -> bool {
    &&& forall|i: int| 0 <= i < actions.len() ==> (#[trigger] actions[i]) is ClearTimer
    &&& forall|t: u64| #![trigger clears(actions, t)] #![trigger guards_gone(b, gone, t)] clears(actions, t) <==> guards_gone(b, gone, t)
}

fn listed(devices: &Vec<(String, String)>, addr: &String) -> (b: bool)
    ensures
        b == exists|j: int| 0 <= j < devices@.len() && #[trigger] devices_view(devices@)[j].0 == addr@,
{
    let mut i: usize = 0;
    while i < devices.len()
        invariant
            i <= devices@.len(),
            forall|j: int| 0 <= j < i ==> #[trigger] devices_view(devices@)[j].0 != addr@,
        decreases devices@.len() - i,
    {
        if devices[i].0 == *addr {
            assert(devices_view(devices@)[i as int].0 == addr@);
            return true;
        }
        i = i + 1;
    }
    false
}

/// Takes the list of connected devices: the handshakes awaited on the
/// devices that went away are dropped (their links disconnected, their
/// timers cleared), and the list is kept.
pub fn apply_device_list(state: &mut PluginState, bridge: &mut Bridge, devices: Vec<(String, String)>) -> (actions: Vec<Action>)
    ensures
        final(state)@ == (PluginStateView {
            connected_devices: devices_view(devices@),
            devices_loading: false,
            render_tick: bump(old(state)@.render_tick),
            ..old(state)@
        }),
        final(bridge)@ == drained_where(
            old(bridge)@,
            |a: Seq<char>| device_gone(old(state)@.connected_devices, devices_view(devices@), a),
        ),
        clears_gone_timers(
            actions_view(actions@),
            old(bridge)@,
            |a: Seq<char>| device_gone(old(state)@.connected_devices, devices_view(devices@), a),
        ),
{
    let olds = crate::state::connected_devices(state);
    let ghost ov = devices_view(olds@);
    let ghost nv = devices_view(devices@);
    let ghost b0 = bridge@;
    let mut actions: Vec<Action> = Vec::new();
    let mut i: usize = 0;
    assert(drained_where(b0, |a: Seq<char>| device_gone(ov.take(0), nv, a)).links =~= b0.links);
    while i < olds.len()
        invariant
            i <= olds@.len(),
            ov == devices_view(olds@),
            nv == devices_view(devices@),
            bridge@ == drained_where(b0, |a: Seq<char>| device_gone(ov.take(i as int), nv, a)),
            clears_gone_timers(actions_view(actions@), b0, |a: Seq<char>| device_gone(ov.take(i as int), nv, a)),
        decreases olds@.len() - i,
    {
        let addr = &olds[i].0;
        let ghost g0 = |a: Seq<char>| device_gone(ov.take(i as int), nv, a);
        let ghost g1 = |a: Seq<char>| device_gone(ov.take(i + 1), nv, a);
        proof {
            assert forall|a: Seq<char>| #[trigger] g1(a) == (g0(a) || (a == addr@ && !exists|j: int|
                0 <= j < nv.len() && #[trigger] nv[j].0 == a)) by {
                if exists|x: int| 0 <= x < ov.take(i + 1).len() && #[trigger] ov.take(i + 1)[x].0 == a {
                    let x = choose|x: int| 0 <= x < ov.take(i + 1).len() && #[trigger] ov.take(i + 1)[x].0 == a;
                    if x < i {
                        assert(ov.take(i as int)[x].0 == a);
                    } else {
                        assert(ov[i as int].0 == addr@);
                    }
                }
                if exists|x: int| 0 <= x < ov.take(i as int).len() && #[trigger] ov.take(i as int)[x].0 == a {
                    let x = choose|x: int| 0 <= x < ov.take(i as int).len() && #[trigger] ov.take(i as int)[x].0 == a;
                    assert(ov.take(i + 1)[x].0 == a);
                }
                if a == addr@ {
                    assert(ov.take(i + 1)[i as int].0 == a);
                }
            }
        }
        if !listed(&devices, addr) {
            let ghost b1 = bridge@;
            let ghost acts = actions_view(actions@);
            let timers = bridge.drain_pending_for_device(addr.as_str());
            let mut j: usize = 0;
            while j < timers.len()
                invariant
                    j <= timers@.len(),
                    actions_view(actions@) == acts + timers@.take(j as int).map_values(|t: u64| ActionView::ClearTimer(t)),
                decreases timers@.len() - j,
            {
                let ghost prev = actions@;
                actions.push(Action::ClearTimer(timers[j]));
                assert(actions_view(actions@) =~= actions_view(prev).push(ActionView::ClearTimer(timers@[j as int])));
                assert(timers@.take(j + 1).map_values(|t: u64| ActionView::ClearTimer(t)) =~= timers@.take(j as int).map_values(
                    |t: u64| ActionView::ClearTimer(t),
                ).push(ActionView::ClearTimer(timers@[j as int])));
                j = j + 1;
            }
            assert(timers@.take(timers@.len() as int) == timers@);
            proof {
                let av = actions_view(actions@);
                assert(bridge@.links =~= drained_where(b0, g1).links) by {
                    assert forall|k: (Seq<char>, Seq<char>)| #[trigger] bridge@.links.dom().contains(k) implies bridge@.links[k]
                        == drained_where(b0, g1).links[k] by {
                        if g0(k.0) && k.0 == addr@ {
                            assert(drained_link(k.0, k, b1.links[k]) == b1.links[k]);
                        }
                    }
                }
                assert forall|m: int| 0 <= m < av.len() implies (#[trigger] av[m]) is ClearTimer by {
                    if m >= acts.len() {
                        assert(av[m] == ActionView::ClearTimer(timers@[m - acts.len()]));
                    }
                }
                assert forall|t: u64| #[trigger] clears(av, t) <==> guards_gone(b0, g1, t) by {
                    if clears(av, t) {
                        let x = choose|x: int| 0 <= x < av.len() && #[trigger] av[x] == ActionView::ClearTimer(t);
                        if x < acts.len() {
                            assert(acts[x] == ActionView::ClearTimer(t));
                            assert(clears(acts, t));
                            assert(guards_gone(b0, g0, t));
                            let k = choose|k: (Seq<char>, Seq<char>)| #[trigger] b0.links.dom().contains(k) && g0(k.0) && b0.links[k].pending == Some(t);
                            assert(g1(k.0));
                        } else {
                            assert(av[x] == ActionView::ClearTimer(timers@[x - acts.len()]));
                            assert(timers@[x - acts.len()] == t);
                            assert(timers@.contains(t));
                            let k = choose|k: (Seq<char>, Seq<char>)| #[trigger] b1.links.dom().contains(k) && k.0 == addr@ && b1.links[k].pending == Some(t);
                            assert(b0.links.dom().contains(k));
                            if g0(k.0) {
                                assert(b1.links[k].pending is None);
                            }
                            assert(b1.links[k] == b0.links[k]);
                            assert(g1(k.0));
                        }
                    }
                    if guards_gone(b0, g1, t) {
                        let k = choose|k: (Seq<char>, Seq<char>)| #[trigger] b0.links.dom().contains(k) && g1(k.0) && b0.links[k].pending == Some(t);
                        if g0(k.0) {
                            assert(guards_gone(b0, g0, t));
                            assert(clears(acts, t));
                            let x = choose|x: int| 0 <= x < acts.len() && #[trigger] acts[x] == ActionView::ClearTimer(t);
                            assert(av[x] == ActionView::ClearTimer(t));
                        } else {
                            assert(k.0 == addr@);
                            assert(b1.links[k] == b0.links[k]);
                            assert(b1.links.dom().contains(k) && k.0 == addr@ && b1.links[k].pending == Some(t));
                            assert(timers@.contains(t));
                            let m = choose|m: int| 0 <= m < timers@.len() && timers@[m] == t;
                            assert(av[acts.len() + m] == ActionView::ClearTimer(t));
                        }
                    }
                }
            }
        } else {
            proof {
                assert(bridge@.links =~= drained_where(b0, g1).links) by {
                    assert forall|k: (Seq<char>, Seq<char>)| #[trigger] bridge@.links.dom().contains(k) implies bridge@.links[k]
                        == drained_where(b0, g1).links[k] by {
                        assert(g1(k.0) == g0(k.0));
                    }
                }
                assert forall|t: u64| #[trigger] clears(actions_view(actions@), t) <==> guards_gone(b0, g1, t) by {
                    assert(guards_gone(b0, g1, t) == guards_gone(b0, g0, t)) by {
                        if guards_gone(b0, g1, t) {
                            let k = choose|k: (Seq<char>, Seq<char>)| #[trigger] b0.links.dom().contains(k) && g1(k.0) && b0.links[k].pending == Some(t);
                            assert(g0(k.0));
                        }
                        if guards_gone(b0, g0, t) {
                            let k = choose|k: (Seq<char>, Seq<char>)| #[trigger] b0.links.dom().contains(k) && g0(k.0) && b0.links[k].pending == Some(t);
                            assert(g1(k.0));
                        }
                    }
                }
            }
        }
        i = i + 1;
    }
    proof {
        assert(ov.take(olds@.len() as int) == ov);
    }
    set_connected_devices(state, devices);
    actions
}

/// `a` is listed before `b`: by device name, then app name, then package
/// name, each in `String`'s order.
pub open spec fn app_before(a: InstalledAppView, b: InstalledAppView) -> bool {
    str_lt(a.device_name, b.device_name) || (a.device_name == b.device_name && (str_lt(a.app_name, b.app_name) || (
    a.app_name == b.app_name && str_lt(a.package_name, b.package_name))))
}

/// `out` is `input` sorted stably: `out[m]` is `input[perm[m]]`, `perm`
/// takes each index once, no app is listed before one that sorts before
/// it, and apps that sort alike keep their order.
pub open spec fn stable_sorted(input: Seq<InstalledAppView>, out: Seq<InstalledAppView>, perm: Seq<int>) -> bool {
    &&& out.len() == input.len()
    &&& perm.len() == input.len()
    &&& forall|m: int| 0 <= m < perm.len() ==> 0 <= #[trigger] perm[m] < input.len() && out[m] == input[perm[m]]
    &&& forall|a: int, b: int| 0 <= a < perm.len() && 0 <= b < perm.len() && a != b ==> #[trigger] perm[a] != #[trigger] perm[b]
    &&& forall|a: int, b: int| 0 <= a < b < out.len() ==> !app_before(#[trigger] out[b], #[trigger] out[a])
    &&& forall|a: int, b: int|
        0 <= a < b < out.len() && !app_before(#[trigger] out[a], #[trigger] out[b]) ==> perm[a] < perm[b]
}

proof fn lemma_before_irrefl(a: InstalledAppView)
    ensures
        !app_before(a, a),
{
    lemma_lt_irrefl(a.device_name);
    lemma_lt_irrefl(a.app_name);
    lemma_lt_irrefl(a.package_name);
}

proof fn lemma_before_trans(a: InstalledAppView, b: InstalledAppView, c: InstalledAppView)
    requires
        app_before(a, b),
        app_before(b, c),
    ensures
        app_before(a, c),
{
    if str_lt(a.device_name, b.device_name) && str_lt(b.device_name, c.device_name) {
        lemma_lt_trans(a.device_name, b.device_name, c.device_name);
    }
    if a.device_name == b.device_name && b.device_name == c.device_name {
        if str_lt(a.app_name, b.app_name) && str_lt(b.app_name, c.app_name) {
            lemma_lt_trans(a.app_name, b.app_name, c.app_name);
        }
        if a.app_name == b.app_name && b.app_name == c.app_name && str_lt(a.package_name, b.package_name)
            && str_lt(b.package_name, c.package_name) {
            lemma_lt_trans(a.package_name, b.package_name, c.package_name);
        }
    }
}

/// Where neither sorts before the other, they sort alike.
proof fn lemma_before_alike(a: InstalledAppView, b: InstalledAppView)
    requires
        !app_before(a, b),
        !app_before(b, a),
    ensures
        a.device_name == b.device_name,
        a.app_name == b.app_name,
        a.package_name == b.package_name,
{
    if a.device_name != b.device_name {
        lemma_lt_total(a.device_name, b.device_name);
    }
    if a.app_name != b.app_name {
        lemma_lt_total(a.app_name, b.app_name);
    }
    if a.package_name != b.package_name {
        lemma_lt_total(a.package_name, b.package_name);
    }
}

proof fn lemma_before_le(x: InstalledAppView, y: InstalledAppView, z: InstalledAppView)
    requires
        app_before(x, y),
        !app_before(z, y),
    ensures
        app_before(x, z),
{
    if app_before(y, z) {
        lemma_before_trans(x, y, z);
    } else {
        lemma_before_alike(y, z);
    }
}

fn app_precedes(a: &InstalledApp, b: &InstalledApp) -> (r: bool)
    ensures
        r == app_before(a@, b@),
{
    let ad = chars_of(a.device_name.as_str());
    let bd = chars_of(b.device_name.as_str());
    if str_less(ad.as_slice(), bd.as_slice()) {
        return true;
    }
    if a.device_name != b.device_name {
        return false;
    }
    let an = chars_of(a.app_name.as_str());
    let bn = chars_of(b.app_name.as_str());
    if str_less(an.as_slice(), bn.as_slice()) {
        return true;
    }
    if a.app_name != b.app_name {
        return false;
    }
    let ap = chars_of(a.package_name.as_str());
    let bp = chars_of(b.package_name.as_str());
    str_less(ap.as_slice(), bp.as_slice())
}

/// The apps listed by device name, then app name, then package name;
/// apps that sort alike keep their order.
pub fn sort_installed_apps(apps: Vec<InstalledApp>) -> (out: Vec<InstalledApp>)
    ensures
        exists|perm: Seq<int>| #[trigger] stable_sorted(installed_view(apps@), installed_view(out@), perm),
{
    let ghost input = installed_view(apps@);
    let mut out: Vec<InstalledApp> = Vec::new();
    let ghost mut perm: Seq<int> = Seq::empty();
    let mut i: usize = 0;
    while i < apps.len()
        invariant
            i <= apps@.len(),
            input == installed_view(apps@),
            stable_sorted(input.take(i as int), installed_view(out@), perm),
        decreases apps@.len() - i,
    {
        let x = apps[i].copy();
        let mut p: usize = 0;
        while p < out.len() && !app_precedes(&x, &out[p])
            invariant
                p <= out@.len(),
                forall|q: int| 0 <= q < p ==> !app_before(x@, #[trigger] out@[q]@),
            decreases out@.len() - p,
        {
            p = p + 1;
        }
        let ghost ov = installed_view(out@);
        let ghost op = perm;
        proof {
            assert(p < out@.len() ==> app_before(x@, ov[p as int]));
            assert forall|q: int| 0 <= q < p implies !app_before(x@, #[trigger] ov[q]) by {
                assert(ov[q] == out@[q]@);
            }
        }
        out.insert(p, x);
        proof {
            perm = perm.insert(p as int, i as int);
            let nv = installed_view(out@);
            let inp = input.take(i + 1);
            assert(nv =~= ov.insert(p as int, x@));
            assert(x@ == inp[i as int]);
            assert forall|m: int| 0 <= m < perm.len() implies 0 <= #[trigger] perm[m] < inp.len() && nv[m] == inp[perm[m]] by {
                if m < p {
                    assert(perm[m] == op[m]);
                    assert(input.take(i as int)[op[m]] == inp[op[m]]);
                } else if m > p {
                    assert(perm[m] == op[m - 1]);
                    assert(input.take(i as int)[op[m - 1]] == inp[op[m - 1]]);
                }
            }
            assert forall|a: int, b: int| 0 <= a < perm.len() && 0 <= b < perm.len() && a != b implies #[trigger] perm[a] != #[trigger] perm[b] by {
                let oa = if a < p { a } else { a - 1 };
                let ob = if b < p { b } else { b - 1 };
                if a != p && b != p {
                    assert(perm[a] == op[oa] && perm[b] == op[ob]);
                } else if a == p {
                    assert(perm[b] == op[ob]);
                } else {
                    assert(perm[a] == op[oa]);
                }
            }
            assert forall|a: int, b: int| 0 <= a < b < nv.len() implies !app_before(#[trigger] nv[b], #[trigger] nv[a]) by {
                if b < p {
                    assert(nv[a] == ov[a] && nv[b] == ov[b]);
                } else if a > p {
                    assert(nv[a] == ov[a - 1] && nv[b] == ov[b - 1]);
                } else if b == p {
                    assert(nv[a] == ov[a]);
                } else if a == p {
                    assert(nv[b] == ov[b - 1]);
                    if app_before(ov[b - 1], x@) {
                        lemma_before_trans(ov[b - 1], x@, ov[p as int]);
                        if b - 1 == p {
                            lemma_before_irrefl(ov[p as int]);
                        }
                    }
                } else {
                    assert(a < p && b > p);
                    assert(nv[a] == ov[a] && nv[b] == ov[b - 1]);
                }
            }
            assert forall|a: int, b: int|
                0 <= a < b < nv.len() && !app_before(#[trigger] nv[a], #[trigger] nv[b]) implies perm[a] < perm[b] by {
                if b < p {
                    assert(nv[a] == ov[a] && nv[b] == ov[b]);
                    assert(perm[a] == op[a] && perm[b] == op[b]);
                } else if a > p {
                    assert(nv[a] == ov[a - 1] && nv[b] == ov[b - 1]);
                    assert(perm[a] == op[a - 1] && perm[b] == op[b - 1]);
                } else if b == p {
                    assert(perm[a] == op[a]);
                } else if a == p {
                    assert(nv[b] == ov[b - 1]);
                    lemma_before_le(x@, ov[p as int], ov[b - 1]);
                } else {
                    assert(nv[a] == ov[a] && nv[b] == ov[b - 1]);
                    assert(perm[a] == op[a] && perm[b] == op[b - 1]);
                }
            }
        }
        i = i + 1;
    }
    assert(input.take(apps@.len() as int) == input);
    out
}

/// Takes the apps found on the connected devices: they are kept, listed by
/// device name, then app name, then package name, and the links of apps no
/// longer among them are dropped.
pub fn apply_installed_apps(state: &mut PluginState, bridge: &mut Bridge, apps: Vec<InstalledApp>)
    ensures
        exists|perm: Seq<int>| #[trigger] stable_sorted(installed_view(apps@), final(state)@.installed_apps, perm),
        final(state)@ == (PluginStateView {
            installed_apps: final(state)@.installed_apps,
            apps_loading: false,
            render_tick: bump(old(state)@.render_tick),
            ..old(state)@
        }),
        final(bridge)@ == pruned(old(bridge)@, final(state)@.installed_apps),
{
    let sorted = sort_installed_apps(apps);
    bridge.prune_stale_connections(&sorted);
    set_installed_apps(state, sorted);
}

/// The names of a list of packages.
pub open spec fn names_view(v: Seq<String>) -> Seq<Seq<char>> {
    v.map_values(|s: String| s@)
}

/// The installed apps whose package is among `names`, in order.
pub open spec fn targets_of(apps: Seq<InstalledAppView>, names: Seq<Seq<char>>) -> Seq<InstalledAppView> {
    apps.filter(|a: InstalledAppView| names.contains(a.package_name))
}

fn named(packages: &Vec<String>, pkg: &String) -> (b: bool)
    ensures
        b == names_view(packages@).contains(pkg@),
{
    let mut i: usize = 0;
    while i < packages.len()
        invariant
            i <= packages@.len(),
            forall|j: int| 0 <= j < i ==> #[trigger] names_view(packages@)[j] != pkg@,
        decreases packages@.len() - i,
    {
        if packages[i] == *pkg {
            assert(names_view(packages@)[i as int] == pkg@);
            return true;
        }
        i = i + 1;
    }
    false
}

/// The apps to reconnect: the installed apps whose package is among
/// `packages`, in order.
pub fn reconnect_targets(state: &PluginState, packages: &Vec<String>) -> (targets: Vec<InstalledApp>)
    ensures
        installed_view(targets@) == targets_of(state@.installed_apps, names_view(packages@)),
{
    let apps = crate::state::installed_apps(state);
    let ghost v = installed_view(apps@);
    let ghost names = names_view(packages@);
    let mut out: Vec<InstalledApp> = Vec::new();
    let mut i: usize = 0;
    proof {
        reveal(Seq::filter);
        assert(targets_of(v.take(0), names) =~= Seq::<InstalledAppView>::empty());
    }
    while i < apps.len()
        invariant
            i <= apps@.len(),
            v == installed_view(apps@),
            v == state@.installed_apps,
            names == names_view(packages@),
            installed_view(out@) == targets_of(v.take(i as int), names),
        decreases apps@.len() - i,
    {
        let ghost prev = out@;
        proof {
            reveal(Seq::filter);
            assert(v.take(i + 1).drop_last() =~= v.take(i as int));
            assert(v.take(i + 1).last() == apps@[i as int]@);
        }
        if named(packages, &apps[i].package_name) {
            out.push(apps[i].copy());
            assert(installed_view(out@) =~= installed_view(prev).push(apps@[i as int]@));
        }
        i = i + 1;
    }
    assert(v.take(apps@.len() as int) =~= v);
    out
}

/// The table after the links of `targets` were put in turn into the
/// handshaking state at `now_ms`.
pub open spec fn handshaking_all(b: BridgeView, targets: Seq<InstalledAppView>, now_ms: u128) -> BridgeView
    decreases targets.len(),
{
    if targets.len() == 0 {
        b
    } else {
        status_set(
            handshaking_all(b, targets.drop_last(), now_ms),
            targets.last().addr,
            targets.last().package_name,
            AppConnectionStatus::Handshaking,
            now_ms,
        )
    }
}

/// The first step of reconnecting `targets`: their links are handshaking,
/// the page is redrawn, and the host registers to receive each one's
/// messages (then launches them).
pub fn begin_reconnect(bridge: &mut Bridge, targets: &Vec<InstalledApp>, now_ms: u128) -> (actions: Vec<Action>)
    ensures
        final(bridge)@ == handshaking_all(old(bridge)@, installed_view(targets@), now_ms),
        actions_view(actions@) == seq![ActionView::Render] + installed_view(targets@).map_values(
            |a: InstalledAppView| ActionView::RegisterReceiver(a.addr, a.package_name),
        ),
{
    let ghost tv = installed_view(targets@);
    let mut actions: Vec<Action> = Vec::new();
    actions.push(Action::Render);
    let mut i: usize = 0;
    assert(tv.take(0) =~= Seq::<InstalledAppView>::empty());
    assert(actions_view(actions@) =~= seq![ActionView::Render] + tv.take(0).map_values(
        |a: InstalledAppView| ActionView::RegisterReceiver(a.addr, a.package_name),
    ));
    while i < targets.len()
        invariant
            i <= targets@.len(),
            tv == installed_view(targets@),
            bridge@ == handshaking_all(old(bridge)@, tv.take(i as int), now_ms),
            actions_view(actions@) == seq![ActionView::Render] + tv.take(i as int).map_values(
                |a: InstalledAppView| ActionView::RegisterReceiver(a.addr, a.package_name),
            ),
        decreases targets@.len() - i,
    {
        let t = &targets[i];
        let ghost prev = actions@;
        proof {
            assert(tv.take(i + 1).drop_last() =~= tv.take(i as int));
            assert(tv.take(i + 1).last() == t@);
        }
        bridge.set_connection_status(t.addr.as_str(), t.package_name.as_str(), AppConnectionStatus::Handshaking, now_ms);
        actions.push(Action::RegisterReceiver { addr: t.addr.clone(), pkg: t.package_name.clone() });
        assert(actions_view(actions@) =~= actions_view(prev).push(ActionView::RegisterReceiver(t@.addr, t@.package_name)));
        assert(tv.take(i + 1).map_values(|a: InstalledAppView| ActionView::RegisterReceiver(a.addr, a.package_name))
            =~= tv.take(i as int).map_values(|a: InstalledAppView| ActionView::RegisterReceiver(a.addr, a.package_name)).push(
            ActionView::RegisterReceiver(t@.addr, t@.package_name),
        ));
        assert(actions_view(actions@) =~= seq![ActionView::Render] + tv.take(i + 1).map_values(
            |a: InstalledAppView| ActionView::RegisterReceiver(a.addr, a.package_name),
        ));
        i = i + 1;
    }
    assert(tv.take(targets@.len() as int) =~= tv);
    actions
}

/// The least time between two automatic refreshes: 1.5 s.
pub const AUTO_REFRESH_INTERVAL_MS: u128 = 1500;

/// Whether an automatic refresh may run at `now_ms`: not within 1.5 s of
/// the last one; where it may, `now_ms` becomes the last one.
pub fn auto_refresh(state: &mut PluginState, now_ms: u128) -> (claimed: bool)
    ensures
        claimed == !(now_ms.saturating_sub(old(state)@.last_auto_refresh_ms) < 1500),
        final(state)@ == (PluginStateView {
            last_auto_refresh_ms: if claimed {
                now_ms
            } else {
                old(state)@.last_auto_refresh_ms
            },
            ..old(state)@
        }),
{
    try_claim_auto_refresh_at(state, AUTO_REFRESH_INTERVAL_MS, now_ms)
}

} // verus!
