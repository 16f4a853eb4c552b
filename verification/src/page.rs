//! Values the plugin's page shows: times of day, build dates in Beijing
//! time, and short commit hashes.

use vstd::prelude::*;

use crate::json::{decimal, decimal_string, digit};
use crate::ui::{all_digits, digits_value, is_digit, lemma_digits_prefix};
use vstd::string::StringSliceAdditionalSpecFns;
use vstd::utf8::{decode_utf8, encode_utf8, is_char_boundary};
use crate::text::{chars_of, string_of, trim, trim_chars};

verus! {

/// A leap year of the Gregorian calendar.
pub open spec fn leap(y: int) -> bool {
    (y % 4 == 0 && y % 100 != 0) || y % 400 == 0
}

/// Whether `y` is a leap year.
#[verifier::spinoff_prover]
pub fn is_leap_year(y: i32) -> (b: bool)
    ensures
        b == leap(y as int),
{
    let u: u64 = if y < 0 {
        (0 - y as i64) as u64
    } else {
        y as u64
    };
    proof {
        let v = y as int;
        assert(v % 4 == 0 <==> (u as int) % 4 == 0);
        assert(v % 100 == 0 <==> (u as int) % 100 == 0);
        assert(v % 400 == 0 <==> (u as int) % 400 == 0);
    }
    (u % 4 == 0 && u % 100 != 0) || u % 400 == 0
}

/// The days of month `m` of year `y`; 30 for a number that names no month.
pub open spec fn month_days(y: int, m: int) -> int {
    if m == 1 || m == 3 || m == 5 || m == 7 || m == 8 || m == 10 || m == 12 {
        31
    } else if m == 2 {
        if leap(y) {
            29
        } else {
            28
        }
    } else {
        30
    }
}

/// The days of month `m` of year `y`.
pub fn days_in_month(y: i32, m: i32) -> (n: i32)
    ensures
        n == month_days(y as int, m as int),
{
    if m == 1 || m == 3 || m == 5 || m == 7 || m == 8 || m == 10 || m == 12 {
        31
    } else if m == 2 {
        if is_leap_year(y) {
            29
        } else {
            28
        }
    } else {
        30
    }
}

/// The day after day `d` of month `m` of year `y`: the next day of the
/// month, else the first of the next month, else the first of January of
/// the next year.
pub open spec fn next_day(y: int, m: int, d: int) -> (int, int, int) {
    if d + 1 > month_days(y, m) {
        if m + 1 > 12 {
            (y + 1, 1, 1)
        } else {
            (y, m + 1, 1)
        }
    } else {
        (y, m, d + 1)
    }
}

/// The day `n` days after day `d` of month `m` of year `y`.
pub open spec fn days_later(y: int, m: int, d: int, n: nat) -> (int, int, int)
    decreases n,
{
    if n == 0 {
        (y, m, d)
    } else {
        let p = days_later(y, m, d, (n - 1) as nat);
        next_day(p.0, p.1, p.2)
    }
}

/// Stepping `n` days from the date never takes a year, month or day past
/// `i32::MAX`.
pub open spec fn steps_fit(y: int, m: int, d: int, n: nat) -> bool {
    forall|k: nat| #![trigger days_later(y, m, d, k)]
        k < n ==> days_later(y, m, d, k).0 < i32::MAX && days_later(y, m, d, k).1 < i32::MAX && days_later(
            y,
            m,
            d,
            k,
        ).2 < i32::MAX
}

/// The date and hour `add` hours after hour `hh` of the date: each full day
/// past hour 24 moves the date on by one day.
pub open spec fn hours_added(y: int, m: int, d: int, hh: int, add: int) -> (int, int, int, int) {
    let t = hh + add;
    if t < 24 {
        (y, m, d, t)
    } else {
        let p = days_later(y, m, d, (t / 24) as nat);
        (p.0, p.1, p.2, t % 24)
    }
}

/// Adds `add` hours to hour `hh` of the date.
pub fn add_hours(y: i32, m: i32, d: i32, hh: i32, add: i32) -> (r: (i32, i32, i32, i32))
    requires
        i32::MIN <= hh + add <= i32::MAX,
        hh + add >= 24 ==> steps_fit(y as int, m as int, d as int, ((hh + add) / 24) as nat),
    ensures
        (r.0 as int, r.1 as int, r.2 as int, r.3 as int) == hours_added(y as int, m as int, d as int, hh as int, add as int),
{
    let ghost t = hh + add;
    let mut y = y;
    let mut m = m;
    let mut d = d;
    let mut hh = hh + add;
    let ghost y0 = y as int;
    let ghost m0 = m as int;
    let ghost d0 = d as int;
    let ghost mut k: nat = 0;
    while hh >= 24
        invariant
            t >= 24 ==> steps_fit(y0, m0, d0, (t / 24) as nat),
            hh == t - 24 * k,
            hh >= 0 || k == 0,
            k <= t / 24 || t < 24,
            t < 24 ==> k == 0,
            (y as int, m as int, d as int) == days_later(y0, m0, d0, k),
        decreases hh,
    {
        assert(k < t / 24);
        assert(days_later(y0, m0, d0, k).0 < i32::MAX);
        hh = hh - 24;
        d = d + 1;
        let dim = days_in_month(y, m);
        if d > dim {
            d = 1;
            m = m + 1;
            if m > 12 {
                m = 1;
                y = y + 1;
            }
        }
        proof {
            k = k + 1;
        }
    }
    proof {
        if t >= 24 {
            assert(k == t / 24);
            assert(hh == t % 24);
        }
    }
    (y, m, d, hh)
}

/// The two-digit text of `n` (below 100).
pub open spec fn two_digits(n: int) -> Seq<char> {
    seq![digit(n / 10), digit(n % 10)]
}

fn push_two_digits(out: &mut Vec<char>, n: u128)
    requires
        n < 100,
    ensures
        final(out)@ == old(out)@ + two_digits(n as int),
{
    let a = ((n / 10) as u8 + 48u8) as char;
    let b = ((n % 10) as u8 + 48u8) as char;
    assert(a == digit((n / 10) as int) && b == digit((n % 10) as int));
    out.push(a);
    out.push(b);
    assert(out@ =~= old(out)@ + two_digits(n as int));
}

/// The UTC time of day of a moment given in milliseconds since the epoch,
/// as `HH:MM:SS UTC`; a dash where there is none.
pub open spec fn time_text(unix_ms: Option<u128>) -> Seq<char> {
    match unix_ms {
        None => "—"@,
        Some(ms) => {
            let secs = ms / 1000;
            two_digits(((secs / 3600) % 24) as int) + ":"@ + two_digits(((secs / 60) % 60) as int) + ":"@
                + two_digits((secs % 60) as int) + " UTC"@
        },
    }
}

/// The time of day of a moment, as the page shows it.
pub fn format_time(unix_ms: Option<u128>) -> (s: String)
    ensures
        s@ == time_text(unix_ms),
{
    match unix_ms {
        None => "—".to_owned(),
        Some(ms) => {
            let secs = ms / 1000;
            let mut v: Vec<char> = Vec::new();
            push_two_digits(&mut v, (secs / 3600) % 24);
            v.push(':');
            push_two_digits(&mut v, (secs / 60) % 60);
            v.push(':');
            push_two_digits(&mut v, secs % 60);
            let mut s = string_of(v.as_slice());
            s.append(" UTC");
            proof {
                reveal_strlit(":");
            }
            assert(v@ =~= two_digits(((secs / 3600) % 24) as int) + ":"@ + two_digits(((secs / 60) % 60) as int)
                + ":"@ + two_digits((secs % 60) as int));
            s
        },
    }
}

/// The short form of a commit hash: its first seven characters once
/// trimmed, or `unknown` where it is empty or `unknown`.
pub open spec fn short_hash(hash: Seq<char>) -> Seq<char> {
    let t = trim(hash);
    if t.len() == 0 || t == "unknown"@ {
        "unknown"@
    } else if t.len() > 7 {
        t.take(7)
    } else {
        t
    }
}

/// The short form of a commit hash, as the page shows it.
pub fn short_git_hash(hash: &str) -> (s: String)
    ensures
        s@ == short_hash(hash@),
{
    let c = chars_of(hash);
    let t = trim_chars(c.as_slice());
    let u = chars_of("unknown");
    if t.len() == 0 || crate::state::vec_chars_eq(t.as_slice(), u.as_slice()) {
        return "unknown".to_owned();
    }
    let n: usize = if t.len() > 7 {
        7
    } else {
        t.len()
    };
    let r = crate::text::sub_chars(t.as_slice(), 0, n);
    assert(t@.len() <= 7 ==> t@.subrange(0, n as int) =~= t@);
    string_of(r.as_slice())
}

/// `s` without a leading sign.
pub open spec fn unsigned_part(s: Seq<char>) -> Seq<char> {
    if s.len() > 0 && (s[0] == '+' || s[0] == '-') {
        s.skip(1)
    } else {
        s
    }
}

/// The integer `s` writes as `i32::from_str` reads it: an optional `+` or
/// `-`, then one or more decimal digits, of a value that fits `i32`.
pub open spec fn parsed_i32(s: Seq<char>) -> Option<int> {
    let d = unsigned_part(s);
    if d.len() > 0 && all_digits(d) {
        let v = if s.len() > 0 && s[0] == '-' {
            -(digits_value(d) as int)
        } else {
            digits_value(d) as int
        };
        if i32::MIN <= v <= i32::MAX {
            Some(v)
        } else {
            None
        }
    } else {
        None
    }
}

/// Reads an integer as `i32::from_str` does.
pub fn parse_i32(s: &[char]) -> (r: Option<i32>)
    ensures
        match parsed_i32(s@) {
            Some(v) => r == Some(v as i32),
            None => r is None,
        },
{
    let signed = s.len() > 0 && (s[0] == '+' || s[0] == '-');
    let neg = s.len() > 0 && s[0] == '-';
    let start: usize = if signed {
        1
    } else {
        0
    };
    let ghost d = unsigned_part(s@);
    assert(d == s@.skip(start as int));
    if start >= s.len() {
        return None;
    }
    let mut acc: u64 = 0;
    let mut i: usize = start;
    while i < s.len()
        invariant
            start <= i <= s@.len(),
            start < s@.len(),
            d == s@.skip(start as int),
            d == unsigned_part(s@),
            neg == (s@.len() > 0 && s@[0] == '-'),
            forall|j: int| start <= j < i ==> is_digit(#[trigger] s@[j]),
            acc == digits_value(d.take(i - start)),
            acc <= 2147483648,
        decreases s@.len() - i,
    {
        let c = s[i];
        if !('0' <= c && c <= '9') {
            proof {
                assert(d[i - start] == c);
                assert(!is_digit(d[i - start]));
            }
            return None;
        }
        proof {
            assert(d.take(i - start + 1).drop_last() == d.take(i - start));
            assert(d.take(i - start + 1).last() == c);
        }
        let next = acc * 10 + (c as u32 - 48) as u64;
        if next > 2147483648 {
            proof {
                if all_digits(d) {
                    lemma_digits_prefix(d, i - start + 1);
                }
            }
            return None;
        }
        acc = next;
        i = i + 1;
    }
    proof {
        assert(d.take(d.len() as int) == d);
        assert forall|j: int| 0 <= j < d.len() implies is_digit(#[trigger] d[j]) by {
            assert(d[j] == s@[j + start]);
        }
    }
    if neg {
        Some((0 - acc as i64) as i32)
    } else if acc <= 2147483647 {
        Some(acc as i32)
    } else {
        None
    }
}

/// `c` first occurs in `s` at `i`.
pub open spec fn first_at(s: Seq<char>, c: char, i: int) -> bool {
    0 <= i < s.len() && s[i] == c && forall|j: int| 0 <= j < i ==> s[j] != c
}

/// `s` up to the first `c`, and what follows that `c` where there is one:
/// the first piece and the rest of `str::split`.
pub open spec fn split_once(s: Seq<char>, c: char) -> (Seq<char>, Option<Seq<char>>) {
    if exists|i: int| first_at(s, c, i) {
        let i = choose|i: int| first_at(s, c, i);
        (s.take(i), Some(s.skip(i + 1)))
    } else {
        (s, None)
    }
}

fn split_first(s: &[char], c: char) -> (r: (Vec<char>, Option<Vec<char>>))
    ensures
        r.0@ == split_once(s@, c).0,
        match (r.1, split_once(s@, c).1) {
            (Some(a), Some(b)) => a@ == b,
            (None, None) => true,
            _ => false,
        },
{
    let mut i: usize = 0;
    while i < s.len()
        invariant
            i <= s@.len(),
            forall|j: int| 0 <= j < i ==> s@[j] != c,
        decreases s@.len() - i,
    {
        if s[i] == c {
            proof {
                assert(first_at(s@, c, i as int));
                let k = choose|k: int| first_at(s@, c, k);
                if k < i {
                    assert(s@[k] != c);
                } else if k > i {
                    assert(s@[i as int] != c);
                }
            }
            let a = crate::text::sub_chars(s, 0, i);
            let b = crate::text::sub_chars(s, i + 1, s.len());
            assert(a@ == s@.take(i as int));
            assert(b@ == s@.skip(i + 1));
            return (a, Some(b));
        }
        i = i + 1;
    }
    let all = crate::text::sub_chars(s, 0, s.len());
    assert(all@ == s@);
    (all, None)
}

/// The first three pieces of `s` split at `c`, each read as an `i32`.
pub open spec fn three_fields(s: Seq<char>, c: char) -> Option<(int, int, int)> {
    let (a, r1) = split_once(s, c);
    match r1 {
        None => None,
        Some(r1) => {
            let (b, r2) = split_once(r1, c);
            match r2 {
                None => None,
                Some(r2) => {
                    let cc = split_once(r2, c).0;
                    match (parsed_i32(a), parsed_i32(b), parsed_i32(cc)) {
                        (Some(x), Some(y), Some(z)) => Some((x, y, z)),
                        _ => None,
                    }
                },
            }
        },
    }
}

fn read_three(s: &[char], c: char) -> (r: Option<(i32, i32, i32)>)
    ensures
        match three_fields(s@, c) {
            Some((x, y, z)) => r == Some((x as i32, y as i32, z as i32)),
            None => r is None,
        },
{
    let (a, r1) = split_first(s, c);
    let r1 = match r1 {
        Some(v) => v,
        None => {
            return None;
        },
    };
    let (b, r2) = split_first(r1.as_slice(), c);
    let r2 = match r2 {
        Some(v) => v,
        None => {
            return None;
        },
    };
    let (cc, _) = split_first(r2.as_slice(), c);
    let x = match parse_i32(a.as_slice()) {
        Some(v) => v,
        None => {
            return None;
        },
    };
    let y = match parse_i32(b.as_slice()) {
        Some(v) => v,
        None => {
            return None;
        },
    };
    let z = match parse_i32(cc.as_slice()) {
        Some(v) => v,
        None => {
            return None;
        },
    };
    Some((x, y, z))
}

/// The date and time at the start of an ISO 8601 UTC text: its first 19
/// bytes split into `date` `T` `time`, the date into year, month and day at
/// `-`, the time into hours, minutes and seconds at `:`.
pub open spec fn iso_fields(raw: Seq<char>) -> Option<(int, int, int, int, int, int)> {
    let bytes = encode_utf8(raw);
    if bytes.len() < 19 {
        None
    } else {
        let base = decode_utf8(bytes.subrange(0, 19));
        let (date, r) = split_once(base, 'T');
        match r {
            None => None,
            Some(r) => {
                let time = split_once(r, 'T').0;
                match (three_fields(date, '-'), three_fields(time, ':')) {
                    (Some((y, m, d)), Some((hh, mm, ss))) => Some((y, m, d, hh, mm, ss)),
                    _ => None,
                }
            },
        }
    }
}

/// The first 19 bytes of `raw` end on a character, where it has that many
/// (the text is cut there).
pub open spec fn cut_ok(raw: Seq<char>) -> bool {
    encode_utf8(raw).len() >= 19 ==> is_char_boundary(encode_utf8(raw), 19)
}

/// Reads the date and time at the start of an ISO 8601 UTC text.
pub fn parse_iso_utc(raw: &str) -> (r: Option<(i32, i32, i32, i32, i32, i32)>)
    requires
        cut_ok(raw@),
    ensures
        match iso_fields(raw@) {
            Some((y, m, d, hh, mm, ss)) => r == Some((y as i32, m as i32, d as i32, hh as i32, mm as i32, ss as i32)),
            None => r is None,
        },
{
    if raw.as_bytes().len() < 19 {
        return None;
    }
    let (base, _) = raw.split_at(19);
    proof {
        vstd::utf8::encode_utf8_decode_utf8(base@);
        assert(base.spec_bytes() == encode_utf8(raw@).subrange(0, 19));
        assert(base@ == decode_utf8(encode_utf8(raw@).subrange(0, 19)));
    }
    let b = chars_of(base);
    let (date, rest) = split_first(b.as_slice(), 'T');
    let rest = match rest {
        Some(v) => v,
        None => {
            return None;
        },
    };
    let (time, _) = split_first(rest.as_slice(), 'T');
    let (y, m, d) = match read_three(date.as_slice(), '-') {
        Some(t) => t,
        None => {
            return None;
        },
    };
    let (hh, mm, ss) = match read_three(time.as_slice(), ':') {
        Some(t) => t,
        None => {
            return None;
        },
    };
    Some((y, m, d, hh, mm, ss))
}

/// `n` in decimal, with a minus sign where it is negative, padded with
/// zeros after the sign to at least `w` characters (`{:0w}`).
pub open spec fn zero_padded(n: int, w: int) -> Seq<char> {
    let digits = decimal((if n < 0 {
        -n
    } else {
        n
    }) as nat);
    let sign: Seq<char> = if n < 0 {
        seq!['-']
    } else {
        seq![]
    };
    let pad = w - sign.len() - digits.len();
    sign + Seq::new(
        if pad > 0 {
            pad as nat
        } else {
            0
        },
        |i: int| '0',
    ) + digits
}

fn push_padded(out: &mut Vec<char>, n: i32, w: usize)
    ensures
        final(out)@ == old(out)@ + zero_padded(n as int, w as int),
{
    let mag: u64 = if n < 0 {
        (0 - n as i64) as u64
    } else {
        n as u64
    };
    let ds = chars_of(decimal_string(mag).as_str());
    let ghost before = out@;
    let sign_len: usize = if n < 0 {
        1
    } else {
        0
    };
    if n < 0 {
        out.push('-');
    }
    let ghost signed = out@;
    let z: usize = if w > sign_len && w - sign_len > ds.len() {
        w - sign_len - ds.len()
    } else {
        0
    };
    let mut k: usize = 0;
    while k < z
        invariant
            k <= z,
            out@ == signed + Seq::new(k as nat, |i: int| '0'),
        decreases z - k,
    {
        out.push('0');
        assert(out@ =~= signed + Seq::new((k + 1) as nat, |i: int| '0'));
        k = k + 1;
    }
    let mut j: usize = 0;
    let ghost padded = out@;
    while j < ds.len()
        invariant
            j <= ds@.len(),
            out@ == padded + ds@.take(j as int),
        decreases ds@.len() - j,
    {
        out.push(ds[j]);
        assert(out@ =~= padded + ds@.take(j + 1));
        j = j + 1;
    }
    proof {
        assert(ds@.take(ds@.len() as int) == ds@);
        let sign: Seq<char> = if n < 0 {
            seq!['-']
        } else {
            seq![]
        };
        assert(signed == before + sign);
        let pad = w - sign.len() - ds@.len();
        assert(Seq::new(k as nat, |i: int| '0') =~= Seq::new(
            if pad > 0 {
                pad as nat
            } else {
                0
            },
            |i: int| '0',
        ));
        assert(out@ =~= before + zero_padded(n as int, w as int));
    }
}

/// Adding 8 hours to the date and time that `raw` starts with stays within
/// `i32`, where it starts with one.
pub open spec fn beijing_fits(raw: Seq<char>) -> bool {
    match iso_fields(raw) {
        Some((y, m, d, hh, mm, ss)) => hh + 8 <= i32::MAX && (hh + 8 >= 24 ==> steps_fit(
            y,
            m,
            d,
            ((hh + 8) / 24) as nat,
        )),
        None => true,
    }
}

/// The build time as the page shows it: the UTC date and time that `raw`
/// starts with, moved 8 hours on to Beijing time, as
/// `YYYY‑MM‑DD_HH:MM:SS`; `raw` itself where it starts with none.
pub open spec fn beijing_text(raw: Seq<char>) -> Seq<char> {
    match iso_fields(raw) {
        Some((y, m, d, hh, mm, ss)) => {
            let t = hours_added(y, m, d, hh, 8);
            zero_padded(t.0, 4) + seq!['\u{2011}'] + zero_padded(t.1, 2) + seq!['\u{2011}'] + zero_padded(t.2, 2)
                + seq!['_'] + zero_padded(t.3, 2) + seq![':'] + zero_padded(mm, 2) + seq![':'] + zero_padded(ss, 2)
        },
        None => raw,
    }
}

/// The build time in Beijing time, as the page shows it.
pub fn format_beijing_time(raw: &str) -> (s: String)
    requires
        cut_ok(raw@),
        beijing_fits(raw@),
    ensures
        s@ == beijing_text(raw@),
{
    match parse_iso_utc(raw) {
        Some((y, m, d, hh, mm, ss)) => {
            let (y2, m2, d2, hh2) = add_hours(y, m, d, hh, 8);
            let mut v: Vec<char> = Vec::new();
            push_padded(&mut v, y2, 4);
            v.push('\u{2011}');
            push_padded(&mut v, m2, 2);
            v.push('\u{2011}');
            push_padded(&mut v, d2, 2);
            v.push('_');
            push_padded(&mut v, hh2, 2);
            v.push(':');
            push_padded(&mut v, mm, 2);
            v.push(':');
            push_padded(&mut v, ss, 2);
            let ghost t = hours_added(y as int, m as int, d as int, hh as int, 8);
            assert(v@ =~= zero_padded(t.0, 4) + seq!['\u{2011}'] + zero_padded(t.1, 2) + seq!['\u{2011}'] + zero_padded(
                t.2,
                2,
            ) + seq!['_'] + zero_padded(t.3, 2) + seq![':'] + zero_padded(mm as int, 2) + seq![':'] + zero_padded(
                ss as int,
                2,
            ));
            string_of(v.as_slice())
        },
        None => raw.to_owned(),
    }
}

} // verus!
