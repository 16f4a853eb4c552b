//! HTTP helpers: header maps, response decoding, the request line, error
//! wording and the framing of responses sent back to the watch.

use vstd::prelude::*;

use crate::state::devices_view;
use crate::text::{chars_of, contains, contains_chars, string_of, sub_chars};
use vstd::utf8::{decode_utf8, valid_utf8};

verus! {

/// Header names with their values, each name once.
pub struct HeaderMap {
    entries: Vec<(String, String)>,
}

/// No name occurs twice among `s`.
pub open spec fn distinct_names(s: Seq<(Seq<char>, Seq<char>)>) -> bool {
    forall|i: int, j: int| 0 <= i < s.len() && 0 <= j < s.len() && i != j ==> #[trigger] s[i].0 != #[trigger] s[j].0
}

/// Some pair of `s` has the name `k`.
pub open spec fn has_name(s: Seq<(Seq<char>, Seq<char>)>, k: Seq<char>) -> bool {
    exists|i: int| 0 <= i < s.len() && #[trigger] s[i].0 == k
}

/// The pairs of `s` as a map from name to value.
pub open spec fn pairs_map(s: Seq<(Seq<char>, Seq<char>)>) -> Map<Seq<char>, Seq<char>> {
    Map::new(
        |k: Seq<char>| has_name(s, k),
        |k: Seq<char>| s[choose|i: int| 0 <= i < s.len() && #[trigger] s[i].0 == k].1,
    )
}

proof fn lemma_pairs_at(s: Seq<(Seq<char>, Seq<char>)>, i: int)
    requires
        distinct_names(s),
        0 <= i < s.len(),
    ensures
        pairs_map(s).dom().contains(s[i].0),
        pairs_map(s)[s[i].0] == s[i].1,
{
    assert(has_name(s, s[i].0));
}

proof fn lemma_pairs_push(s: Seq<(Seq<char>, Seq<char>)>, k: Seq<char>, v: Seq<char>)
    requires
        distinct_names(s),
        !has_name(s, k),
    ensures
        distinct_names(s.push((k, v))),
        pairs_map(s.push((k, v))) == pairs_map(s).insert(k, v),
{
    let t = s.push((k, v));
    let m = pairs_map(s).insert(k, v);
    assert forall|i: int, j: int| 0 <= i < t.len() && 0 <= j < t.len() && i != j implies #[trigger] t[i].0
        != #[trigger] t[j].0 by {
        if i == s.len() {
            assert(t[j] == s[j]);
        } else if j == s.len() {
            assert(t[i] == s[i]);
        } else {
            assert(t[i] == s[i] && t[j] == s[j]);
        }
    }
    assert forall|q: Seq<char>| #[trigger] pairs_map(t).dom().contains(q) <==> m.dom().contains(q) by {
        if has_name(t, q) {
            let i = choose|i: int| 0 <= i < t.len() && #[trigger] t[i].0 == q;
            if i < s.len() {
                assert(s[i].0 == q);
            }
        }
        if has_name(s, q) {
            let i = choose|i: int| 0 <= i < s.len() && #[trigger] s[i].0 == q;
            assert(t[i].0 == q);
        }
        if q == k {
            assert(t[s.len() as int].0 == q);
        }
    }
    assert forall|q: Seq<char>| #[trigger] pairs_map(t).dom().contains(q) implies pairs_map(t)[q] == m[q] by {
        let i = choose|i: int| 0 <= i < t.len() && #[trigger] t[i].0 == q;
        lemma_pairs_at(t, i);
        if i < s.len() {
            assert(t[i] == s[i]);
            lemma_pairs_at(s, i);
        }
    }
    assert(pairs_map(t) =~= m);
}

proof fn lemma_pairs_update(s: Seq<(Seq<char>, Seq<char>)>, p: int, v: Seq<char>)
    requires
        distinct_names(s),
        0 <= p < s.len(),
    ensures
        distinct_names(s.update(p, (s[p].0, v))),
        pairs_map(s.update(p, (s[p].0, v))) == pairs_map(s).insert(s[p].0, v),
{
    let t = s.update(p, (s[p].0, v));
    let k = s[p].0;
    let m = pairs_map(s).insert(k, v);
    assert forall|i: int, j: int| 0 <= i < t.len() && 0 <= j < t.len() && i != j implies #[trigger] t[i].0
        != #[trigger] t[j].0 by {
        assert(t[i].0 == s[i].0 && t[j].0 == s[j].0);
    }
    assert forall|q: Seq<char>| #[trigger] pairs_map(t).dom().contains(q) <==> m.dom().contains(q) by {
        if has_name(t, q) {
            let i = choose|i: int| 0 <= i < t.len() && #[trigger] t[i].0 == q;
            assert(s[i].0 == q);
        }
        if has_name(s, q) {
            let i = choose|i: int| 0 <= i < s.len() && #[trigger] s[i].0 == q;
            assert(t[i].0 == q);
        }
    }
    assert forall|q: Seq<char>| #[trigger] pairs_map(t).dom().contains(q) implies pairs_map(t)[q] == m[q] by {
        let i = choose|i: int| 0 <= i < t.len() && #[trigger] t[i].0 == q;
        lemma_pairs_at(t, i);
        if i != p {
            assert(t[i] == s[i]);
            lemma_pairs_at(s, i);
        }
    }
    assert(pairs_map(t) =~= m);
}

impl View for HeaderMap {
    type V = Map<Seq<char>, Seq<char>>;

    closed spec fn view(&self) -> Map<Seq<char>, Seq<char>> {
        pairs_map(devices_view(self.entries@))
    }
}

impl HeaderMap {
    #[verifier::type_invariant]
    spec fn inv(self) -> bool {
        distinct_names(devices_view(self.entries@))
    }

    /// The pairs, in the order they were first added.
    pub closed spec fn pairs(&self) -> Seq<(Seq<char>, Seq<char>)> {
        devices_view(self.entries@)
    }

    /// A map with no header.
    pub fn new() -> (h: Self)
        ensures
            h@ == Map::<Seq<char>, Seq<char>>::empty(),
            h.pairs() == Seq::<(Seq<char>, Seq<char>)>::empty(),
    {
        let h = HeaderMap { entries: Vec::new() };
        assert(devices_view(h.entries@) =~= seq![]);
        assert(pairs_map(devices_view(h.entries@)) =~= Map::<Seq<char>, Seq<char>>::empty());
        h
    }

    /// Where the header `name` stands among the pairs.
    fn position(&self, name: &str) -> (r: Option<usize>)
        ensures
            match r {
                Some(i) => i < self.pairs().len() && self.pairs()[i as int].0 == name@,
                None => !has_name(self.pairs(), name@),
            },
    {
        let key = name.to_owned();
        let mut i: usize = 0;
        while i < self.entries.len()
            invariant
                key@ == name@,
                i <= self.entries@.len(),
                forall|j: int| 0 <= j < i ==> #[trigger] self.entries@[j].0@ != name@,
            decreases self.entries@.len() - i,
        {
            if self.entries[i].0 == key {
                return Some(i);
            }
            i = i + 1;
        }
        proof {
            if has_name(self.pairs(), name@) {
                let j = choose|j: int| 0 <= j < self.pairs().len() && #[trigger] self.pairs()[j].0 == name@;
                assert(self.entries@[j].0@ == name@);
            }
        }
        None
    }

    /// Sets the header `name` to `value`, replacing an earlier value
    /// (`HashMap::insert`).
    #[verifier::spinoff_prover]
    pub fn insert(&mut self, name: String, value: String)
        ensures
            final(self)@ == old(self)@.insert(name@, value@),
            final(self).pairs() == if has_name(old(self).pairs(), name@) {
                old(self).pairs().update(
                    choose|i: int| 0 <= i < old(self).pairs().len() && #[trigger] old(self).pairs()[i].0 == name@,
                    (name@, value@),
                )
            } else {
                old(self).pairs().push((name@, value@))
            },
    {
        proof {
            use_type_invariant(&*self);
        }
        let ghost s = devices_view(self.entries@);
        match self.position(name.as_str()) {
            Some(i) => {
                proof {
                    lemma_pairs_update(s, i as int, value@);
                    let c = choose|j: int| 0 <= j < s.len() && #[trigger] s[j].0 == name@;
                    assert(c == i) by {
                        if c != i {
                            assert(s[c].0 != s[i as int].0);
                        }
                    }
                }
                let mut entries: Vec<(String, String)> = Vec::new();
                let mut j: usize = 0;
                while j < self.entries.len()
                    invariant
                        j <= self.entries@.len(),
                        i < self.entries@.len(),
                        entries@.len() == j,
                        forall|m: int| 0 <= m < j ==> #[trigger] entries@[m].0@ == (if m == i {
                            name@
                        } else {
                            self.entries@[m].0@
                        }) && entries@[m].1@ == (if m == i {
                            value@
                        } else {
                            self.entries@[m].1@
                        }),
                    decreases self.entries@.len() - j,
                {
                    if j == i {
                        entries.push((name.clone(), value.clone()));
                    } else {
                        entries.push((self.entries[j].0.clone(), self.entries[j].1.clone()));
                    }
                    j = j + 1;
                }
                assert(devices_view(entries@) =~= s.update(i as int, (name@, value@)));
                self.entries = entries;
            },
            None => {
                proof {
                    lemma_pairs_push(s, name@, value@);
                }
                let mut entries: Vec<(String, String)> = Vec::new();
                let mut j: usize = 0;
                while j < self.entries.len()
                    invariant
                        j <= self.entries@.len(),
                        entries@.len() == j,
                        forall|m: int| 0 <= m < j ==> #[trigger] entries@[m].0@ == self.entries@[m].0@ && entries@[m].1@ == self.entries@[m].1@,
                    decreases self.entries@.len() - j,
                {
                    entries.push((self.entries[j].0.clone(), self.entries[j].1.clone()));
                    j = j + 1;
                }
                entries.push((name, value));
                assert(devices_view(entries@) =~= s.push((name@, value@)));
                self.entries = entries;
            },
        }
    }

    /// The value of the header `name` (`HashMap::get`).
    pub fn get(&self, name: &str) -> (r: Option<String>)
        ensures
            match r {
                Some(v) => self@.dom().contains(name@) && self@[name@] == v@,
                None => !self@.dom().contains(name@),
            },
    {
        proof {
            use_type_invariant(self);
        }
        match self.position(name) {
            Some(i) => {
                proof {
                    lemma_pairs_at(self.pairs(), i as int);
                }
                Some(self.entries[i].1.clone())
            },
            None => None,
        }
    }

    /// The number of headers.
    pub fn len(&self) -> (n: usize)
        ensures
            n == self.pairs().len(),
    {
        self.entries.len()
    }

    /// Whether some header's name, lower-cased, is `target`.
    pub fn has_lowercased_name(&self, target: &str) -> (b: bool)
        ensures
            b == exists|k: Seq<char>| #[trigger] self@.dom().contains(k) && lowercase(k) == target@,
    {
        let t = target.to_owned();
        let mut i: usize = 0;
        while i < self.entries.len()
            invariant
                i <= self.entries@.len(),
                t@ == target@,
                forall|j: int| 0 <= j < i ==> lowercase(#[trigger] self.entries@[j].0@) != target@,
            decreases self.entries@.len() - i,
        {
            if to_lowercase(self.entries[i].0.as_str()) == t {
                proof {
                    use_type_invariant(self);
                    lemma_pairs_at(self.pairs(), i as int);
                    assert(self.pairs()[i as int].0 == self.entries@[i as int].0@);
                    let k = self.entries@[i as int].0@;
                    assert(self@.dom().contains(k) && lowercase(k) == target@);
                }
                return true;
            }
            i = i + 1;
        }
        proof {
            if exists|k: Seq<char>| #[trigger] self@.dom().contains(k) && lowercase(k) == target@ {
                let k = choose|k: Seq<char>| #[trigger] self@.dom().contains(k) && lowercase(k) == target@;
                let j = choose|j: int| 0 <= j < self.pairs().len() && #[trigger] self.pairs()[j].0 == k;
                assert(self.entries@[j].0@ == k);
            }
        }
        false
    }

    /// The headers as a JSON object of strings.
    pub fn to_json(&self) -> (v: crate::json::JsonValue)
        ensures
            crate::json::is_text_object(v, self@),
    {
        proof {
            use_type_invariant(self);
        }
        let ghost s = self.pairs();
        let mut ms: Vec<(String, crate::json::JsonValue)> = Vec::new();
        let mut i: usize = 0;
        while i < self.entries.len()
            invariant
                i <= self.entries@.len(),
                s == self.pairs(),
                distinct_names(s),
                ms@.len() == i,
                forall|j: int| 0 <= j < i ==> (#[trigger] ms@[j]).0@ == s[j].0 && crate::json::is_text(ms@[j].1, s[j].1),
            decreases self.entries@.len() - i,
        {
            let e = &self.entries[i];
            ms.push((e.0.clone(), crate::json::JsonValue::Str(e.1.clone())));
            i = i + 1;
        }
        let v = crate::json::object(ms);
        proof {
            let names = crate::json::names_of(v);
            assert(names.len() == s.len());
            assert forall|j: int| 0 <= j < s.len() implies #[trigger] names[j] == s[j].0 by {}
            assert(names.no_duplicates()) by {
                assert forall|a: int, b: int| 0 <= a < names.len() && 0 <= b < names.len() && a != b implies names[a] != names[b] by {
                    assert(names[a] == s[a].0 && names[b] == s[b].0);
                }
            }
            assert forall|k: Seq<char>| #[trigger] self@.dom().contains(k) <==> names.contains(k) by {
                if self@.dom().contains(k) {
                    let j = choose|j: int| 0 <= j < s.len() && #[trigger] s[j].0 == k;
                    assert(names[j] == k);
                }
                if names.contains(k) {
                    let j = choose|j: int| 0 <= j < names.len() && names[j] == k;
                    lemma_pairs_at(s, j);
                }
            }
            assert forall|j: int| 0 <= j < names.len() implies crate::json::is_text(#[trigger] crate::json::member_at(v, j), self@[names[j]]) by {
                lemma_pairs_at(s, j);
            }
        }
        v
    }

    /// The pair at `i`.
    pub fn entry(&self, i: usize) -> (r: (String, String))
        requires
            i < self.pairs().len(),
        ensures
            (r.0@, r.1@) == self.pairs()[i as int],
    {
        (self.entries[i].0.clone(), self.entries[i].1.clone())
    }
}

/// The text `str::to_lowercase` makes of `s` (Unicode lower case).
pub uninterp spec fn lowercase(s: Seq<char>) -> Seq<char>;

/// The lower case of an ASCII character: `A` to `Z` become `a` to `z`, the
/// rest stay.
pub open spec fn ascii_lower(c: char) -> char {
    if 'A' <= c && c <= 'Z' {
        ((c as int) + 32) as char
    } else {
        c
    }
}

/// Every character of `s` is ASCII.
pub open spec fn all_ascii(s: Seq<char>) -> bool {
    forall|i: int| 0 <= i < s.len() ==> (s[i] as int) < 128
}

/// `str::to_lowercase`: the result is named by `lowercase`; ASCII text
/// lower-cases character by character.
#[verifier::external_body]
pub(crate) fn to_lowercase(s: &str) -> (r: String)
    ensures
        r@ == lowercase(s@),
        all_ascii(s@) ==> r@ == s@.map_values(|c: char| ascii_lower(c)),
{
    s.to_lowercase()
}

/// A hop-by-hop header (or one the proxy recomputes), by lower-case name.
pub open spec fn is_hop_by_hop(k: Seq<char>) -> bool {
    ||| k == "connection"@
    ||| k == "keep-alive"@
    ||| k == "proxy-authenticate"@
    ||| k == "proxy-authorization"@
    ||| k == "te"@
    ||| k == "trailers"@
    ||| k == "transfer-encoding"@
    ||| k == "upgrade"@
    ||| k == "content-encoding"@
    ||| k == "content-length"@
}

fn hop_by_hop(k: &String) -> (b: bool)
    ensures
        b == is_hop_by_hop(k@),
{
    *k == "connection".to_owned() || *k == "keep-alive".to_owned() || *k
        == "proxy-authenticate".to_owned() || *k == "proxy-authorization".to_owned() || *k
        == "te".to_owned() || *k == "trailers".to_owned() || *k == "transfer-encoding".to_owned()
        || *k == "upgrade".to_owned() || *k == "content-encoding".to_owned() || *k
        == "content-length".to_owned()
}

/// The headers of `h` forwarded to the watch: all but the hop-by-hop ones,
/// the name compared in lower case.
pub open spec fn forwarded(h: Map<Seq<char>, Seq<char>>) -> Map<Seq<char>, Seq<char>> {
    h.restrict(h.dom().filter(|k: Seq<char>| !is_hop_by_hop(lowercase(k))))
}

/// The headers forwarded to the watch: all but the hop-by-hop ones, the
/// name compared in lower case.
pub fn filter_response_headers(headers: &HeaderMap) -> (r: HeaderMap)
    ensures
        r@ == forwarded(headers@),
{
    proof {
        use_type_invariant(headers);
    }
    let ghost s = headers.pairs();
    let mut out = HeaderMap::new();
    let mut i: usize = 0;
    while i < headers.len()
        invariant
            i <= s.len(),
            s == headers.pairs(),
            distinct_names(s),
            out@ == pairs_map(s.take(i as int)).restrict(
                pairs_map(s.take(i as int)).dom().filter(|k: Seq<char>| !is_hop_by_hop(lowercase(k))),
            ),
            forall|q: Seq<char>| #[trigger] out@.dom().contains(q) ==> has_name(s.take(i as int), q),
        decreases s.len() - i,
    {
        let (k, v) = headers.entry(i);
        let lower = to_lowercase(k.as_str());
        let ghost prev = out@;
        let ghost t = s.take(i as int);
        let ghost t1 = s.take(i + 1);
        proof {
            assert(t1 == t.push(s[i as int]));
            assert(!has_name(t, k@)) by {
                if has_name(t, k@) {
                    let j = choose|j: int| 0 <= j < t.len() && #[trigger] t[j].0 == k@;
                    assert(s[j].0 == s[i as int].0);
                }
            }
            assert(distinct_names(t)) by {
                assert forall|a: int, b: int| 0 <= a < t.len() && 0 <= b < t.len() && a != b implies #[trigger] t[a].0 != #[trigger] t[b].0 by {
                    assert(t[a] == s[a] && t[b] == s[b]);
                }
            }
            lemma_pairs_push(t, k@, v@);
        }
        if !hop_by_hop(&lower) {
            out.insert(k, v);
            proof {
                assert(out@ =~= pairs_map(t1).restrict(
                    pairs_map(t1).dom().filter(|q: Seq<char>| !is_hop_by_hop(lowercase(q))),
                ));
            }
        } else {
            proof {
                assert(out@ =~= pairs_map(t1).restrict(
                    pairs_map(t1).dom().filter(|q: Seq<char>| !is_hop_by_hop(lowercase(q))),
                ));
            }
        }
        proof {
            assert forall|q: Seq<char>| #[trigger] out@.dom().contains(q) implies has_name(t1, q) by {
                if prev.dom().contains(q) {
                    let j = choose|j: int| 0 <= j < t.len() && #[trigger] t[j].0 == q;
                    assert(t1[j].0 == q);
                } else {
                    assert(t1[i as int].0 == q);
                }
            }
        }
        i = i + 1;
    }
    assert(s.take(s.len() as int) == s);
    out
}


/// The wording the watch is shown for a failed request: a short phrase by
/// the kind of failure the lower-cased error names, else the error itself
/// after "网络错误: ".
pub open spec fn classified_error(e: Seq<char>) -> Seq<char> {
    let l = lowercase(e);
    if contains(l, "timeout"@) || contains(l, "超时"@) {
        "请求超时"@
    } else if contains(l, "dns"@) || contains(l, "resolve"@) {
        "DNS解析失败"@
    } else if contains(l, "refused"@) || contains(l, "拒绝"@) {
        "连接被拒绝"@
    } else if contains(l, "unreachable"@) || contains(l, "network"@) {
        "网络不可达"@
    } else {
        "网络错误: "@ + e
    }
}

fn mentions(lower: &Vec<char>, word: &str) -> (b: bool)
    ensures
        b == contains(lower@, word@),
{
    let w = chars_of(word);
    contains_chars(lower.as_slice(), w.as_slice())
}

/// Words a network error in terms the watch user can read.
pub fn classify_network_error(e: &str) -> (r: String)
    ensures
        r@ == classified_error(e@),
{
    let lower = chars_of(to_lowercase(e).as_str());
    if mentions(&lower, "timeout") || mentions(&lower, "超时") {
        "请求超时".to_owned()
    } else if mentions(&lower, "dns") || mentions(&lower, "resolve") {
        "DNS解析失败".to_owned()
    } else if mentions(&lower, "refused") || mentions(&lower, "拒绝") {
        "连接被拒绝".to_owned()
    } else if mentions(&lower, "unreachable") || mentions(&lower, "network") {
        "网络不可达".to_owned()
    } else {
        let mut s = "网络错误: ".to_owned();
        s.append(e);
        s
    }
}

/// The optional bytes of an optional vector.
pub open spec fn opt_bytes(o: Option<Vec<u8>>) -> Option<Seq<u8>> {
    match o {
        Some(v) => Some(v@),
        None => None,
    }
}

/// What a gzip decoder (`flate2::read::GzDecoder`) reads from `data`, or
/// none where it reports an error.
pub uninterp spec fn gzip_decoded(data: Seq<u8>) -> Option<Seq<u8>>;

/// What a raw deflate decoder (`flate2::read::DeflateDecoder`) reads from
/// `data`, or none where it reports an error.
pub uninterp spec fn deflate_decoded(data: Seq<u8>) -> Option<Seq<u8>>;

/// Reads `data` to its end through `flate2::read::GzDecoder`: the output is
/// named by `gzip_decoded`; none on an error.
#[verifier::external_body]
fn gunzip(data: &[u8]) -> (r: Option<Vec<u8>>)
    ensures
        opt_bytes(r) == gzip_decoded(data@),
{
    let mut decoder = flate2::read::GzDecoder::new(data);
    let mut out = Vec::new();
    match std::io::Read::read_to_end(&mut decoder, &mut out) {
        Ok(_) => Some(out),
        Err(_) => None,
    }
}

/// Reads `data` to its end through `flate2::read::DeflateDecoder`: the
/// output is named by `deflate_decoded`; none on an error.
#[verifier::external_body]
fn inflate(data: &[u8]) -> (r: Option<Vec<u8>>)
    ensures
        opt_bytes(r) == deflate_decoded(data@),
{
    let mut decoder = flate2::read::DeflateDecoder::new(data);
    let mut out = Vec::new();
    match std::io::Read::read_to_end(&mut decoder, &mut out) {
        Ok(_) => Some(out),
        Err(_) => None,
    }
}

/// The body as the watch gets it: gunzipped where it starts with the gzip
/// magic bytes and decodes, else inflated where the encoding names
/// `deflate` and it decodes, else as received.
pub open spec fn decompressed(body: Seq<u8>, encoding: Seq<char>) -> Seq<u8> {
    if body.len() >= 2 && body[0] == 0x1fu8 && body[1] == 0x8bu8 && gzip_decoded(body) is Some {
        gzip_decoded(body).unwrap()
    } else if contains(encoding, "deflate"@) && deflate_decoded(body) is Some {
        deflate_decoded(body).unwrap()
    } else {
        body
    }
}

/// The `content-encoding` header's value, or empty.
pub open spec fn encoding_of(headers: Map<Seq<char>, Seq<char>>) -> Seq<char> {
    if headers.dom().contains("content-encoding"@) {
        headers["content-encoding"@]
    } else {
        seq![]
    }
}

/// Undoes a gzip or deflate content encoding of a response body.
pub fn decompress_if_needed(body: &[u8], headers: &HeaderMap) -> (r: Vec<u8>)
    ensures
        r@ == decompressed(body@, encoding_of(headers@)),
{
    let encoding = match headers.get("content-encoding") {
        Some(v) => v,
        None => String::new(),
    };
    if body.len() >= 2 && body[0] == 0x1fu8 && body[1] == 0x8bu8 {
        match gunzip(body) {
            Some(out) => {
                return out;
            },
            None => {},
        }
    }
    let enc = chars_of(encoding.as_str());
    if mentions(&enc, "deflate") {
        match inflate(body) {
            Some(out) => {
                return out;
            },
            None => {},
        }
    }
    let mut out: Vec<u8> = Vec::new();
    let mut i: usize = 0;
    while i < body.len()
        invariant
            i <= body@.len(),
            out@ == body@.take(i as int),
        decreases body@.len() - i,
    {
        out.push(body[i]);
        assert(body@.take(i + 1) == body@.take(i as int).push(body@[i as int]));
        i = i + 1;
    }
    assert(body@.take(body@.len() as int) == body@);
    out
}

/// The text of valid UTF-8 `bytes` (`std::str::from_utf8`); none where the
/// bytes are not valid UTF-8.
#[verifier::external_body]
pub(crate) fn utf8_text(bytes: &[u8]) -> (r: Option<String>)
    ensures
        match r {
            Some(s) => valid_utf8(bytes@) && s@ == decode_utf8(bytes@),
            None => !valid_utf8(bytes@),
        },
{
    match std::str::from_utf8(bytes) {
        Ok(s) => Some(s.to_owned()),
        Err(_) => None,
    }
}

/// The headers of a response as received (name, raw value), each kept
/// under its lower-case name where its value is UTF-8, a later one
/// replacing an earlier one.
pub open spec fn response_headers_of(raw: Seq<(Seq<char>, Seq<u8>)>) -> Map<Seq<char>, Seq<char>>
    decreases raw.len(),
{
    if raw.len() == 0 {
        Map::empty()
    } else {
        let m = response_headers_of(raw.drop_last());
        let (k, v) = raw.last();
        if valid_utf8(v) {
            m.insert(lowercase(k), decode_utf8(v))
        } else {
            m
        }
    }
}

/// The names and raw values of received headers.
pub open spec fn raw_headers_view(raw: Seq<(String, Vec<u8>)>) -> Seq<(Seq<char>, Seq<u8>)> {
    raw.map_values(|h: (String, Vec<u8>)| (h.0@, h.1@))
}

/// Collects the headers of a response, keyed by lower-case name.
pub fn collect_response_headers(raw: &Vec<(String, Vec<u8>)>) -> (h: HeaderMap)
    ensures
        h@ == response_headers_of(raw_headers_view(raw@)),
{
    let ghost rv = raw_headers_view(raw@);
    let mut h = HeaderMap::new();
    let mut i: usize = 0;
    while i < raw.len()
        invariant
            i <= raw@.len(),
            rv == raw_headers_view(raw@),
            h@ == response_headers_of(rv.take(i as int)),
        decreases raw@.len() - i,
    {
        let (name, value) = &raw[i];
        assert(rv.take(i + 1).drop_last() == rv.take(i as int));
        assert(rv.take(i + 1).last() == (name@, value@));
        match utf8_text(value.as_slice()) {
            Some(text) => {
                let lower = to_lowercase(name.as_str());
                h.insert(lower, text);
            },
            None => {},
        }
        i = i + 1;
    }
    assert(rv.take(raw@.len() as int) == rv);
    h
}

/// A status code of success (200 to 299).
pub fn is_success_status(status_code: u16) -> (b: bool)
    ensures
        b == (200 <= status_code < 300),
{
    200 <= status_code && status_code < 300
}

/// The connect timeout in nanoseconds for one of `timeout_ms` milliseconds.
pub fn connect_timeout_ns(timeout_ms: u32) -> (ns: u64)
    ensures
        ns == timeout_ms * 1_000_000,
{
    (timeout_ms as u64) * 1_000_000
}

/// The request methods that have a name of their own.
pub enum HttpMethod {
    Get,
    Post,
    Put,
    Delete,
    Head,
    Patch,
    Options,
    Other(String),
}

/// `s` with ASCII letters upper-cased (`str::to_ascii_uppercase`).
pub open spec fn ascii_upper(s: Seq<char>) -> Seq<char> {
    s.map_values(|c: char| if 97 <= (c as u32) <= 122 { ((c as u32) - 32) as char } else { c })
}

fn to_ascii_upper(s: &str) -> (r: String)
    ensures
        r@ == ascii_upper(s@),
{
    let v = chars_of(s);
    let mut out: Vec<char> = Vec::new();
    let mut i: usize = 0;
    while i < v.len()
        invariant
            i <= v@.len(),
            out@ == ascii_upper(v@.take(i as int)),
        decreases v@.len() - i,
    {
        let c = v[i];
        let u = c as u32;
        let d = if 97 <= u && u <= 122 {
            ((u - 32) as u8) as char
        } else {
            c
        };
        assert(d == (if 97 <= (c as u32) <= 122 { ((c as u32) - 32) as char } else { c })) by {
            if 97 <= u && u <= 122 {
                assert(((u - 32) as u8) as u32 == u - 32);
            }
        }
        out.push(d);
        assert(ascii_upper(v@.take(i + 1)) =~= ascii_upper(v@.take(i as int)).push(d));
        i = i + 1;
    }
    assert(v@.take(v@.len() as int) == v@);
    string_of(out.as_slice())
}

/// `m` names the method that the upper-cased text `u` names.
pub open spec fn names_method(m: HttpMethod, u: Seq<char>) -> bool {
    match m {
        HttpMethod::Get => u == "GET"@,
        HttpMethod::Post => u == "POST"@,
        HttpMethod::Put => u == "PUT"@,
        HttpMethod::Delete => u == "DELETE"@,
        HttpMethod::Head => u == "HEAD"@,
        HttpMethod::Patch => u == "PATCH"@,
        HttpMethod::Options => u == "OPTIONS"@,
        HttpMethod::Other(s) => s@ == u && u != "GET"@ && u != "POST"@ && u != "PUT"@ && u
            != "DELETE"@ && u != "HEAD"@ && u != "PATCH"@ && u != "OPTIONS"@,
    }
}

/// Each standard method name is named by its own method and by no other;
/// any other name is carried as it is.
pub proof fn law_method_names(m: HttpMethod, u: Seq<char>)
    requires
        names_method(m, u),
    ensures
        (m is Get) <==> u == "GET"@,
        (m is Post) <==> u == "POST"@,
        (m is Put) <==> u == "PUT"@,
        (m is Delete) <==> u == "DELETE"@,
        (m is Head) <==> u == "HEAD"@,
        (m is Patch) <==> u == "PATCH"@,
        (m is Options) <==> u == "OPTIONS"@,
        m matches HttpMethod::Other(o) ==> o@ == u,
{
    reveal_strlit("GET");
    reveal_strlit("POST");
    reveal_strlit("PUT");
    reveal_strlit("DELETE");
    reveal_strlit("HEAD");
    reveal_strlit("PATCH");
    reveal_strlit("OPTIONS");
    assert("GET"@.len() == 3 && "PUT"@.len() == 3 && "POST"@.len() == 4 && "HEAD"@.len() == 4);
    assert("DELETE"@.len() == 6 && "PATCH"@.len() == 5 && "OPTIONS"@.len() == 7);
    assert("GET"@[0] != "PUT"@[0] && "POST"@[0] != "HEAD"@[0]);
}

/// The method a request names, compared without regard to ASCII case.
pub fn http_method(method: &str) -> (m: HttpMethod)
    ensures
        names_method(m, ascii_upper(method@)),
        (m is Get) <==> ascii_upper(method@) == "GET"@,
        (m is Post) <==> ascii_upper(method@) == "POST"@,
        (m is Put) <==> ascii_upper(method@) == "PUT"@,
        (m is Delete) <==> ascii_upper(method@) == "DELETE"@,
        (m is Head) <==> ascii_upper(method@) == "HEAD"@,
        (m is Patch) <==> ascii_upper(method@) == "PATCH"@,
        (m is Options) <==> ascii_upper(method@) == "OPTIONS"@,
{
    let m = http_method_named(method);
    proof {
        law_method_names(m, ascii_upper(method@));
    }
    m
}

fn http_method_named(method: &str) -> (m: HttpMethod)
    ensures
        names_method(m, ascii_upper(method@)),
{
    let u = to_ascii_upper(method);
    if u == "GET".to_owned() {
        HttpMethod::Get
    } else if u == "POST".to_owned() {
        HttpMethod::Post
    } else if u == "PUT".to_owned() {
        HttpMethod::Put
    } else if u == "DELETE".to_owned() {
        HttpMethod::Delete
    } else if u == "HEAD".to_owned() {
        HttpMethod::Head
    } else if u == "PATCH".to_owned() {
        HttpMethod::Patch
    } else if u == "OPTIONS".to_owned() {
        HttpMethod::Options
    } else {
        HttpMethod::Other(u)
    }
}

/// The scheme a request is sent with.
#[derive(Clone, Copy, Debug, PartialEq, Eq, Structural)]
pub enum Scheme {
    Http,
    Https,
}

/// The parts of a parsed URL that a request needs.
pub struct UrlParts {
    pub scheme: String,
    pub authority: String,
    pub path: String,
    pub query: Option<String>,
}

/// The scheme, authority, path and query that `url::Url::parse` finds in
/// `input`, or none where it refuses the input.
pub uninterp spec fn url_parts(input: Seq<char>) -> Option<(Seq<char>, Seq<char>, Seq<char>, Option<Seq<char>>)>;

/// The text of the error `url::Url::parse` reports on `input`.
pub uninterp spec fn url_error(input: Seq<char>) -> Seq<char>;

/// `url::Url::parse`, then `scheme`, `authority`, `path` and `query` of the
/// result: the parts are named by `url_parts`, and the error's text (its
/// `Display`) by `url_error`.
#[verifier::external_body]
fn parse_url(input: &str) -> (r: Result<UrlParts, String>)
    ensures
        match r {
            Ok(p) => url_parts(input@) == Some(
                (p.scheme@, p.authority@, p.path@, crate::state::opt_str(p.query)),
            ),
            Err(e) => url_parts(input@) is None && e@ == url_error(input@),
        },
{
    match url::Url::parse(input) {
        Ok(u) => Ok(
            UrlParts {
                scheme: u.scheme().to_string(),
                authority: u.authority().to_string(),
                path: u.path().to_string(),
                query: u.query().map(|q| q.to_string()),
            },
        ),
        Err(e) => Err(e.to_string()),
    }
}

/// Where and how a request is sent.
pub struct RequestTarget {
    pub method: HttpMethod,
    pub scheme: Scheme,
    pub authority: String,
    pub path_with_query: String,
}

/// The path, followed by `?` and the query where there is one.
pub open spec fn path_with_query(path: Seq<char>, query: Option<Seq<char>>) -> Seq<char> {
    match query {
        Some(q) => path + "?"@ + q,
        None => path,
    }
}

/// The method, scheme, authority and path of a request for `url`; an error
/// message where the URL does not parse.
pub fn request_target(method: &str, url: &str) -> (r: Result<RequestTarget, String>)
    ensures
        match url_parts(url@) {
            None => r matches Err(e) && e@ == "URL解析失败: "@ + url_error(url@),
            Some((scheme, authority, path, query)) => r matches Ok(t) && names_method(
                t.method,
                ascii_upper(method@),
            ) && t.scheme == (if scheme == "https"@ {
                Scheme::Https
            } else {
                Scheme::Http
            }) && t.authority@ == authority && t.path_with_query@ == path_with_query(path, query),
        },
{
    match parse_url(url) {
        Err(e) => {
            let mut msg = "URL解析失败: ".to_owned();
            msg.append(e.as_str());
            Err(msg)
        },
        Ok(parts) => {
            let scheme = if parts.scheme == "https".to_owned() {
                Scheme::Https
            } else {
                Scheme::Http
            };
            let mut pq = parts.path.clone();
            match &parts.query {
                Some(q) => {
                    pq.append("?");
                    pq.append(q.as_str());
                },
                None => {},
            }
            Ok(
                RequestTarget {
                    method: http_method(method),
                    scheme,
                    authority: parts.authority,
                    path_with_query: pq,
                },
            )
        },
    }
}

/// The request headers as (name, value bytes) pairs, as the host API takes
/// them.
pub fn header_entries(headers: &HeaderMap) -> (r: Vec<(String, Vec<u8>)>)
    ensures
        r@.len() == headers.pairs().len(),
        forall|i: int|
            0 <= i < r@.len() ==> (#[trigger] r@[i]).0@ == headers.pairs()[i].0 && r@[i].1@
                == vstd::utf8::encode_utf8(headers.pairs()[i].1),
{
    let mut r: Vec<(String, Vec<u8>)> = Vec::new();
    let mut i: usize = 0;
    while i < headers.len()
        invariant
            i <= headers.pairs().len(),
            r@.len() == i,
            forall|j: int|
                0 <= j < i ==> (#[trigger] r@[j]).0@ == headers.pairs()[j].0 && r@[j].1@
                    == vstd::utf8::encode_utf8(headers.pairs()[j].1),
        decreases headers.pairs().len() - i,
    {
        let (k, v) = headers.entry(i);
        let bytes = v.as_str().as_bytes_vec();
        r.push((k, bytes));
        i = i + 1;
    }
    r
}

/// The result of a plain HTTP request: the status code, the headers by
/// lower-case name, and the body (decompressed).
pub struct HttpResponse {
    pub status_code: u16,
    pub headers: HeaderMap,
    pub body: Vec<u8>,
}

/// Why an event stream is refused for its status code: any code but a
/// success.
pub open spec fn sse_status_error(status_code: u16) -> Option<Seq<char>> {
    if 200 <= status_code < 300 {
        None
    } else {
        Some("SSE 连接失败，状态码: "@ + crate::json::decimal(status_code as nat))
    }
}

/// Checks the status code of an event stream's response.
pub fn check_sse_status(status_code: u16) -> (r: Result<(), String>)
    ensures
        match sse_status_error(status_code) {
            None => r is Ok,
            Some(m) => r matches Err(e) && e@ == m,
        },
{
    if is_success_status(status_code) {
        Ok(())
    } else {
        let mut m = "SSE 连接失败，状态码: ".to_owned();
        m.append(crate::json::decimal_string(status_code as u64).as_str());
        Err(m)
    }
}

} // verus!
