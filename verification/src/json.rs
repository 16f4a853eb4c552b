//! The JSON values of the bridge protocol, as the protocol logic reads them.

use vstd::prelude::*;

use crate::http::HeaderMap;
use crate::text::string_of;

verus! {

/// A JSON number: an integer that fits `u64`, a negative one that fits
/// `i64`, or any other number with its text.
pub enum JsonNumber {
    PosInt(u64),
    NegInt(i64),
    Float(String),
}

/// A JSON value; an array or object also carries the JSON text it was read
/// from (empty for a value the library builds).
pub enum JsonValue {
    Null,
    Bool(bool),
    Number(JsonNumber),
    Str(String),
    Array(Vec<JsonValue>, String),
    Object(Vec<(String, JsonValue)>, String),
}

/// The value of the first member named `key`.
pub open spec fn field(members: Seq<(String, JsonValue)>, key: Seq<char>) -> Option<JsonValue>
    decreases members.len(),
{
    if members.len() == 0 {
        None
    } else if members[0].0@ == key {
        Some(members[0].1)
    } else {
        field(members.drop_first(), key)
    }
}

/// The member `key` of an object; none for any other value
/// (`serde_json::Value::get`).
pub open spec fn json_get(v: JsonValue, key: Seq<char>) -> Option<JsonValue> {
    match v {
        JsonValue::Object(members, _) => field(members@, key),
        _ => None,
    }
}

/// The text of a string value.
pub open spec fn as_text(v: Option<JsonValue>) -> Option<Seq<char>> {
    match v {
        Some(JsonValue::Str(s)) => Some(s@),
        _ => None,
    }
}

/// The value of a boolean.
pub open spec fn as_flag(v: Option<JsonValue>) -> Option<bool> {
    match v {
        Some(JsonValue::Bool(b)) => Some(b),
        _ => None,
    }
}

/// The value of a number that fits `u64`.
pub open spec fn as_count(v: Option<JsonValue>) -> Option<u64> {
    match v {
        Some(JsonValue::Number(JsonNumber::PosInt(n))) => Some(n),
        _ => None,
    }
}

/// The member `key` of `v`, where `v` is an object that has one.
pub fn get<'a>(v: &'a JsonValue, key: &str) -> (r: Option<&'a JsonValue>)
    ensures
        match r {
            Some(x) => json_get(*v, key@) == Some(*x),
            None => json_get(*v, key@) is None,
        },
{
    match v {
        JsonValue::Object(members, _) => {
            let k = key.to_owned();
            let mut i: usize = 0;
            assert(members@.skip(0) == members@);
            while i < members.len()
                invariant
                    k@ == key@,
                    *v matches JsonValue::Object(m2, _) && m2@ == members@,
                    i <= members@.len(),
                    field(members@, key@) == field(members@.skip(i as int), key@),
                decreases members@.len() - i,
            {
                assert(members@.skip(i as int).drop_first() == members@.skip(i + 1));
                assert(members@.skip(i as int)[0] == members@[i as int]);
                let m = &members[i];
                if m.0 == k {
                    let r = &m.1;
                    return Some(r);
                }
                i = i + 1;
            }
            None
        },
        _ => None,
    }
}

/// The member `key` of `v`, taken out of it, where `v` is an object that
/// has one.
pub fn take_member(v: JsonValue, key: &str) -> (r: Option<JsonValue>)
    ensures
        r == json_get(v, key@),
{
    match v {
        JsonValue::Object(members, _) => {
            let mut members = members;
            let ghost orig = members@;
            let k = key.to_owned();
            let mut i: usize = 0;
            assert(orig.skip(0) == orig);
            while i < members.len()
                invariant
                    members@ == orig,
                    v matches JsonValue::Object(m2, _) && m2@ == orig,
                    k@ == key@,
                    i <= orig.len(),
                    field(orig, key@) == field(orig.skip(i as int), key@),
                decreases orig.len() - i,
            {
                assert(orig.skip(i as int).drop_first() == orig.skip(i + 1));
                assert(orig.skip(i as int)[0] == orig[i as int]);
                if members[i].0 == k {
                    let (_, val) = members.remove(i);
                    return Some(val);
                }
                i = i + 1;
            }
            None
        },
        _ => None,
    }
}

/// The text of the string member `key`.
pub fn get_str(v: &JsonValue, key: &str) -> (r: Option<String>)
    ensures
        crate::state::opt_str(r) == as_text(json_get(*v, key@)),
{
    match get(v, key) {
        Some(JsonValue::Str(s)) => Some(s.clone()),
        _ => None,
    }
}

/// The value of the boolean member `key`.
pub fn get_bool(v: &JsonValue, key: &str) -> (r: Option<bool>)
    ensures
        r == as_flag(json_get(*v, key@)),
{
    match get(v, key) {
        Some(JsonValue::Bool(b)) => Some(*b),
        _ => None,
    }
}

/// The value of the member `key` where it is a number that fits `u64`.
pub fn get_u64(v: &JsonValue, key: &str) -> (r: Option<u64>)
    ensures
        r == as_count(json_get(*v, key@)),
{
    match get(v, key) {
        Some(JsonValue::Number(JsonNumber::PosInt(n))) => Some(*n),
        _ => None,
    }
}

/// The decimal digit `d`.
pub open spec fn digit(d: int) -> char {
    (48 + d) as char
}

/// The decimal text of `n`.
pub open spec fn decimal(n: nat) -> Seq<char>
    decreases n,
{
    if n < 10 {
        seq![digit(n as int)]
    } else {
        decimal(n / 10).push(digit((n % 10) as int))
    }
}

fn push_decimal(n: u128, out: &mut Vec<char>)
    ensures
        final(out)@ == old(out)@ + decimal(n as nat),
    decreases n,
{
    if n >= 10 {
        push_decimal(n / 10, out);
    }
    let d = (n % 10) as u8;
    let c = (48u8 + d) as char;
    assert(c == digit((n % 10) as int));
    out.push(c);
}

/// The decimal text of `n`.
pub fn decimal_string(n: u64) -> (s: String)
    ensures
        s@ == decimal(n as nat),
{
    wide_decimal_string(n as u128)
}

/// The decimal text of `n`.
pub fn wide_decimal_string(n: u128) -> (s: String)
    ensures
        s@ == decimal(n as nat),
{
    let mut v: Vec<char> = Vec::new();
    push_decimal(n, &mut v);
    assert(Seq::<char>::empty() + decimal(n as nat) == decimal(n as nat));
    string_of(v.as_slice())
}

/// The text a header value of the request takes: a string as it is, any
/// other value as its compact JSON text.
pub open spec fn header_text(v: JsonValue) -> Seq<char> {
    match v {
        JsonValue::Str(s) => s@,
        JsonValue::Null => "null"@,
        JsonValue::Bool(b) => if b {
            "true"@
        } else {
            "false"@
        },
        JsonValue::Number(JsonNumber::PosInt(n)) => decimal(n as nat),
        JsonValue::Number(JsonNumber::NegInt(n)) => if n < 0 {
            "-"@ + decimal((-n) as nat)
        } else {
            decimal(n as nat)
        },
        JsonValue::Number(JsonNumber::Float(t)) => t@,
        JsonValue::Array(_, t) => t@,
        JsonValue::Object(_, t) => t@,
    }
}

fn header_value(v: &JsonValue) -> (s: String)
    ensures
        s@ == header_text(*v),
{
    match v {
        JsonValue::Str(s) => s.clone(),
        JsonValue::Null => "null".to_owned(),
        JsonValue::Bool(b) => if *b {
            "true".to_owned()
        } else {
            "false".to_owned()
        },
        JsonValue::Number(JsonNumber::PosInt(n)) => decimal_string(*n),
        JsonValue::Number(JsonNumber::NegInt(n)) => {
            if *n < 0 {
                let m: u64 = if *n == i64::MIN {
                    9223372036854775808u64
                } else {
                    (-*n) as u64
                };
                let mut s = "-".to_owned();
                s.append(decimal_string(m).as_str());
                s
            } else {
                decimal_string(*n as u64)
            }
        },
        JsonValue::Number(JsonNumber::Float(t)) => t.clone(),
        JsonValue::Array(_, t) => t.clone(),
        JsonValue::Object(_, t) => t.clone(),
    }
}

/// The headers that the members of `members` set, a later member replacing
/// an earlier one of the same name.
pub open spec fn headers_from(members: Seq<(String, JsonValue)>) -> Map<Seq<char>, Seq<char>>
    decreases members.len(),
{
    if members.len() == 0 {
        Map::empty()
    } else {
        headers_from(members.drop_last()).insert(members.last().0@, header_text(members.last().1))
    }
}

/// The request headers a `headers` member gives: those of an object, none
/// for anything else.
pub fn parse_headers(value: Option<&JsonValue>) -> (h: HeaderMap)
    ensures
        h@ == match value {
            Some(JsonValue::Object(members, _)) => headers_from(members@),
            _ => Map::<Seq<char>, Seq<char>>::empty(),
        },
{
    let mut h = HeaderMap::new();
    match value {
        Some(JsonValue::Object(members, _)) => {
            let mut i: usize = 0;
            while i < members.len()
                invariant
                    i <= members@.len(),
                    h@ == headers_from(members@.take(i as int)),
                decreases members@.len() - i,
            {
                let m = &members[i];
                assert(members@.take(i + 1).drop_last() == members@.take(i as int));
                assert(members@.take(i + 1).last() == *m);
                h.insert(m.0.clone(), header_value(&m.1));
                i = i + 1;
            }
            assert(members@.take(members@.len() as int) == members@);
        },
        _ => {},
    }
    h
}

/// The members of an object, in order; none for any other value.
pub open spec fn members_of(v: JsonValue) -> Seq<(String, JsonValue)> {
    match v {
        JsonValue::Object(ms, _) => ms@,
        _ => Seq::empty(),
    }
}

/// The names of an object's members, in order.
pub open spec fn names_of(v: JsonValue) -> Seq<Seq<char>> {
    members_of(v).map_values(|m: (String, JsonValue)| m.0@)
}

/// The value of an object's `i`-th member.
pub open spec fn member_at(v: JsonValue, i: int) -> JsonValue {
    members_of(v)[i].1
}

/// `v` is the string `t`.
pub open spec fn is_text(v: JsonValue, t: Seq<char>) -> bool {
    v matches JsonValue::Str(s) && s@ == t
}

/// `v` is the non-negative integer `n`.
pub open spec fn is_count(v: JsonValue, n: int) -> bool {
    v matches JsonValue::Number(JsonNumber::PosInt(k)) && k == n
}

/// `v` is an object with a member named by each key of `h` and no other,
/// each once, whose value is the string `h` maps its name to.
pub open spec fn is_text_object(v: JsonValue, h: Map<Seq<char>, Seq<char>>) -> bool {
    &&& v is Object
    &&& names_of(v).no_duplicates()
    &&& forall|k: Seq<char>| #[trigger] h.dom().contains(k) <==> names_of(v).contains(k)
    &&& forall|i: int| 0 <= i < names_of(v).len() ==> is_text(#[trigger] member_at(v, i), h[names_of(v)[i]])
}

/// An object of the members `ms`, built by the library.
pub fn object(ms: Vec<(String, JsonValue)>) -> (v: JsonValue)
    ensures
        v is Object,
        members_of(v) == ms@,
{
    JsonValue::Object(ms, String::new())
}

} // verus!
