//! The running event streams: for each request id whether its stream was
//! asked to stop, and which app each stream serves, so that all streams of
//! an app can be stopped when it disconnects.

use vstd::prelude::*;

use crate::assoc::{
    assoc_map, distinct_keys, has_key, lemma_assoc_at, lemma_assoc_map_values, lemma_assoc_push,
    lemma_assoc_remove, lemma_assoc_update,
};

verus! {

/// The registry of running streams.
pub struct SseRegistry {
    flags: Vec<(String, bool)>,
    members: Vec<(String, String, String)>,
}

/// The value an `SseRegistry` holds: whether each stream, by request id,
/// was asked to stop; and the (device address, package, request id) of the
/// streams each app runs.
pub struct SseRegistryView {
    pub flags: Map<Seq<char>, bool>,
    pub members: Set<(Seq<char>, Seq<char>, Seq<char>)>,
}

spec fn flag_entries(s: Seq<(String, bool)>) -> Seq<(Seq<char>, bool)> {
    s.map_values(|p: (String, bool)| (p.0@, p.1))
}

spec fn member_key(t: (String, String, String)) -> (Seq<char>, Seq<char>, Seq<char>) {
    (t.0@, t.1@, t.2@)
}

spec fn member_set(s: Seq<(String, String, String)>) -> Set<(Seq<char>, Seq<char>, Seq<char>)> {
    Set::new(|k: (Seq<char>, Seq<char>, Seq<char>)| exists|i: int| 0 <= i < s.len() && #[trigger] member_key(s[i]) == k)
}

impl View for SseRegistry {
    type V = SseRegistryView;

    closed spec fn view(&self) -> SseRegistryView {
        SseRegistryView { flags: assoc_map(flag_entries(self.flags@)), members: member_set(self.members@) }
    }
}

/// Whether the stream `id` was asked to stop.
pub open spec fn cancelled(r: SseRegistryView, id: Seq<char>) -> bool {
    r.flags.dom().contains(id) && r.flags[id]
}

/// The registry after the stream `id` was asked to stop, where it is
/// tracked.
pub open spec fn stream_cancelled(r: SseRegistryView, id: Seq<char>) -> SseRegistryView {
    if r.flags.dom().contains(id) {
        SseRegistryView { flags: r.flags.insert(id, true), ..r }
    } else {
        r
    }
}

/// The registry after every stream of `pkg` on `addr` was asked to stop.
pub open spec fn all_cancelled(r: SseRegistryView, addr: Seq<char>, pkg: Seq<char>) -> SseRegistryView {
    SseRegistryView {
        flags: Map::new(
            |k: Seq<char>| r.flags.dom().contains(k),
            |k: Seq<char>| r.flags[k] || r.members.contains((addr, pkg, k)),
        ),
        ..r
    }
}

fn copy_flags(v: &Vec<(String, bool)>) -> (r: Vec<(String, bool)>)
    ensures
        flag_entries(r@) == flag_entries(v@),
{
    let mut r: Vec<(String, bool)> = Vec::new();
    let mut i: usize = 0;
    while i < v.len()
        invariant
            i <= v@.len(),
            r@.len() == i,
            forall|j: int| 0 <= j < i ==> (#[trigger] r@[j]).0@ == v@[j].0@ && r@[j].1 == v@[j].1,
        decreases v@.len() - i,
    {
        r.push((v[i].0.clone(), v[i].1));
        i = i + 1;
    }
    assert(flag_entries(r@) =~= flag_entries(v@));
    r
}

fn copy_members(v: &Vec<(String, String, String)>) -> (r: Vec<(String, String, String)>)
    ensures
        r@.len() == v@.len(),
        forall|j: int| 0 <= j < v@.len() ==> member_key(#[trigger] r@[j]) == member_key(v@[j]),
{
    let mut r: Vec<(String, String, String)> = Vec::new();
    let mut i: usize = 0;
    while i < v.len()
        invariant
            i <= v@.len(),
            r@.len() == i,
            forall|j: int| 0 <= j < i ==> member_key(#[trigger] r@[j]) == member_key(v@[j]),
        decreases v@.len() - i,
    {
        r.push((v[i].0.clone(), v[i].1.clone(), v[i].2.clone()));
        i = i + 1;
    }
    r
}

impl SseRegistry {
    #[verifier::type_invariant]
    spec fn inv(self) -> bool {
        distinct_keys(flag_entries(self.flags@))
    }

    /// A registry with no stream.
    pub fn new() -> (r: Self)
        ensures
            r@.flags == Map::<Seq<char>, bool>::empty(),
            r@.members == Set::<(Seq<char>, Seq<char>, Seq<char>)>::empty(),
    {
        let r = SseRegistry { flags: Vec::new(), members: Vec::new() };
        assert(flag_entries(r.flags@) =~= seq![]);
        assert(assoc_map(flag_entries(r.flags@)) =~= Map::<Seq<char>, bool>::empty());
        assert(member_set(r.members@) =~= Set::<(Seq<char>, Seq<char>, Seq<char>)>::empty());
        r
    }

    fn flag_position(&self, id: &String) -> (r: Option<usize>)
        ensures
            match r {
                Some(i) => i < self.flags@.len() && self.flags@[i as int].0@ == id@,
                None => !self@.flags.dom().contains(id@),
            },
    {
        let mut i: usize = 0;
        while i < self.flags.len()
            invariant
                i <= self.flags@.len(),
                forall|j: int| 0 <= j < i ==> (#[trigger] self.flags@[j]).0@ != id@,
            decreases self.flags@.len() - i,
        {
            if self.flags[i].0 == *id {
                return Some(i);
            }
            i = i + 1;
        }
        proof {
            let s = flag_entries(self.flags@);
            if has_key(s, id@) {
                let j = choose|j: int| 0 <= j < s.len() && #[trigger] s[j].0 == id@;
                assert(self.flags@[j].0@ == id@);
            }
        }
        None
    }

    fn put_flag(&mut self, id: &String, v: bool)
        ensures
            final(self)@ == (SseRegistryView { flags: old(self)@.flags.insert(id@, v), ..old(self)@ }),
    {
        proof {
            use_type_invariant(&*self);
        }
        let ghost s = flag_entries(self.flags@);
        let p = self.flag_position(id);
        let mut flags = copy_flags(&self.flags);
        match p {
            Some(i) => {
                proof {
                    lemma_assoc_update(s, i as int, v);
                }
                flags.set(i, (id.clone(), v));
                assert(flag_entries(flags@) =~= s.update(i as int, (s[i as int].0, v)));
            },
            None => {
                proof {
                    lemma_assoc_push(s, id@, v);
                }
                flags.push((id.clone(), v));
                assert(flag_entries(flags@) =~= s.push((id@, v)));
            },
        }
        self.flags = flags;
    }

    fn remove_flag(&mut self, id: &String)
        ensures
            final(self)@ == (SseRegistryView { flags: old(self)@.flags.remove(id@), ..old(self)@ }),
    {
        proof {
            use_type_invariant(&*self);
        }
        let ghost s = flag_entries(self.flags@);
        match self.flag_position(id) {
            Some(i) => {
                proof {
                    lemma_assoc_remove(s, i as int);
                }
                let mut flags = copy_flags(&self.flags);
                flags.remove(i);
                assert(flag_entries(flags@) =~= s.remove(i as int));
                self.flags = flags;
            },
            None => {
                assert(self@.flags.remove(id@) =~= self@.flags);
            },
        }
    }

    fn has_member(&self, addr: &String, pkg: &String, id: &String) -> (b: bool)
        ensures
            b == self@.members.contains((addr@, pkg@, id@)),
    {
        let mut i: usize = 0;
        while i < self.members.len()
            invariant
                i <= self.members@.len(),
                forall|j: int| 0 <= j < i ==> member_key(#[trigger] self.members@[j]) != (addr@, pkg@, id@),
            decreases self.members@.len() - i,
        {
            let m = &self.members[i];
            if m.0 == *addr && m.1 == *pkg && m.2 == *id {
                assert(member_key(self.members@[i as int]) == (addr@, pkg@, id@));
                return true;
            }
            i = i + 1;
        }
        false
    }

    /// Starts tracking the stream `id` of `pkg` on `addr`, not asked to stop.
    pub fn register_sse(&mut self, addr: &str, pkg: &str, id: &str)
        ensures
            final(self)@.flags == old(self)@.flags.insert(id@, false),
            final(self)@.members == old(self)@.members.insert((addr@, pkg@, id@)),
    {
        let a = addr.to_owned();
        let p = pkg.to_owned();
        let i = id.to_owned();
        self.put_flag(&i, false);
        if !self.has_member(&a, &p, &i) {
            proof {
                use_type_invariant(&*self);
            }
            let ghost before = self.members@;
            let mut members = copy_members(&self.members);
            members.push((a, p, i));
            assert(member_set(members@) =~= member_set(before).insert((addr@, pkg@, id@))) by {
                assert forall|k| #[trigger] member_set(members@).contains(k) <==> member_set(before).insert(
                    (addr@, pkg@, id@),
                ).contains(k) by {
                    if member_set(members@).contains(k) {
                        let j = choose|j: int| 0 <= j < members@.len() && #[trigger] member_key(members@[j]) == k;
                        if j < before.len() {
                            assert(member_key(before[j]) == k);
                        }
                    }
                    if member_set(before).contains(k) {
                        let j = choose|j: int| 0 <= j < before.len() && #[trigger] member_key(before[j]) == k;
                        assert(member_key(members@[j]) == k);
                    }
                    if k == (addr@, pkg@, id@) {
                        assert(member_key(members@[before.len() as int]) == k);
                    }
                }
            }
            self.members = members;
        } else {
            assert(self@.members.insert((addr@, pkg@, id@)) =~= self@.members);
        }
    }

    /// Stops tracking the stream `id` of `pkg` on `addr`; says whether it had
    /// been asked to stop.
    pub fn unregister_sse(&mut self, addr: &str, pkg: &str, id: &str) -> (was_cancelled: bool)
        ensures
            was_cancelled == cancelled(old(self)@, id@),
            final(self)@.flags == old(self)@.flags.remove(id@),
            final(self)@.members == old(self)@.members.remove((addr@, pkg@, id@)),
    {
        let was = self.is_cancelled(id);
        let a = addr.to_owned();
        let p = pkg.to_owned();
        let i = id.to_owned();
        self.remove_flag(&i);
        proof {
            use_type_invariant(&*self);
        }
        let ghost before = self.members@;
        let ghost gone = (addr@, pkg@, id@);
        let mut members: Vec<(String, String, String)> = Vec::new();
        let mut j: usize = 0;
        while j < self.members.len()
            invariant
                j <= self.members@.len(),
                before == self.members@,
                a@ == addr@ && p@ == pkg@ && i@ == id@,
                gone == (addr@, pkg@, id@),
                forall|k| #[trigger] member_set(members@).contains(k) <==> k != gone && exists|q: int|
                    0 <= q < j && #[trigger] member_key(before[q]) == k,
            decreases self.members@.len() - j,
        {
            let m = &self.members[j];
            let ghost prev = members@;
            let same = m.0 == a && m.1 == p && m.2 == i;
            assert(same == (member_key(before[j as int]) == gone));
            if !same {
                members.push((m.0.clone(), m.1.clone(), m.2.clone()));
                proof {
                    assert forall|k| #[trigger] member_set(members@).contains(k) <==> k != gone && exists|q: int|
                        0 <= q < j + 1 && #[trigger] member_key(before[q]) == k by {
                        if member_set(members@).contains(k) {
                            let x = choose|x: int| 0 <= x < members@.len() && #[trigger] member_key(members@[x]) == k;
                            if x < prev.len() {
                                assert(member_set(prev).contains(k));
                            } else {
                                assert(member_key(before[j as int]) == k);
                            }
                        }
                        if k != gone && exists|q: int| 0 <= q < j + 1 && #[trigger] member_key(before[q]) == k {
                            let q = choose|q: int| 0 <= q < j + 1 && #[trigger] member_key(before[q]) == k;
                            if q < j {
                                assert(member_set(prev).contains(k));
                                let x = choose|x: int| 0 <= x < prev.len() && #[trigger] member_key(prev[x]) == k;
                                assert(member_key(members@[x]) == k);
                            } else {
                                assert(member_key(members@[prev.len() as int]) == k);
                            }
                        }
                    }
                }
            } else {
                proof {
                    assert forall|k| #[trigger] member_set(members@).contains(k) <==> k != gone && exists|q: int|
                        0 <= q < j + 1 && #[trigger] member_key(before[q]) == k by {
                        if k != gone && exists|q: int| 0 <= q < j + 1 && #[trigger] member_key(before[q]) == k {
                            let q = choose|q: int| 0 <= q < j + 1 && #[trigger] member_key(before[q]) == k;
                            assert(q < j);
                        }
                    }
                }
            }
            j = j + 1;
        }
        assert(member_set(members@) =~= member_set(before).remove(gone));
        self.members = members;
        was
    }

    /// Whether the stream `id` was asked to stop.
    pub fn is_cancelled(&self, id: &str) -> (b: bool)
        ensures
            b == cancelled(self@, id@),
    {
        proof {
            use_type_invariant(self);
        }
        match self.flag_position(&id.to_owned()) {
            Some(i) => {
                proof {
                    lemma_assoc_at(flag_entries(self.flags@), i as int);
                }
                self.flags[i].1
            },
            None => false,
        }
    }

    /// Asks the stream `id` to stop, where it is tracked.
    pub fn cancel_sse(&mut self, id: &str)
        ensures
            final(self)@ == stream_cancelled(old(self)@, id@),
    {
        let i = id.to_owned();
        match self.flag_position(&i) {
            Some(k) => {
                proof {
                    use_type_invariant(&*self);
                    lemma_assoc_at(flag_entries(self.flags@), k as int);
                }
                self.put_flag(&i, true);
            },
            None => {},
        }
    }

    /// Asks every tracked stream of `pkg` on `addr` to stop.
    pub fn cancel_all_sse_for_app(&mut self, addr: &str, pkg: &str)
        ensures
            final(self)@ == all_cancelled(old(self)@, addr@, pkg@),
    {
        proof {
            use_type_invariant(&*self);
        }
        let a = addr.to_owned();
        let p = pkg.to_owned();
        let ghost s = flag_entries(self.flags@);
        let ghost mem = self@.members;
        let mut flags: Vec<(String, bool)> = Vec::new();
        let mut j: usize = 0;
        while j < self.flags.len()
            invariant
                j <= self.flags@.len(),
                s == flag_entries(self.flags@),
                mem == self@.members,
                a@ == addr@ && p@ == pkg@,
                flags@.len() == j,
                forall|m: int|
                    0 <= m < j ==> (#[trigger] flags@[m]).0@ == self.flags@[m].0@ && flags@[m].1 == (
                    self.flags@[m].1 || mem.contains((addr@, pkg@, self.flags@[m].0@))),
            decreases self.flags@.len() - j,
        {
            let f = &self.flags[j];
            let hit = self.has_member(&a, &p, &f.0);
            flags.push((f.0.clone(), f.1 || hit));
            j = j + 1;
        }
        proof {
            let t = flag_entries(flags@);
            let g = |k: Seq<char>, v: bool| v || mem.contains((addr@, pkg@, k));
            assert forall|m: int| 0 <= m < s.len() implies #[trigger] t[m] == (s[m].0, g(s[m].0, s[m].1)) by {
            }
            lemma_assoc_map_values(s, t, g);
            assert(assoc_map(t) =~= all_cancelled(old(self)@, addr@, pkg@).flags);
        }
        self.flags = flags;
    }
}

} // verus!
