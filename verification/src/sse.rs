//! Server-sent events: splitting a byte stream into event blocks and reading
//! the `event:` and `data:` fields of each block.

use vstd::prelude::*;
use vstd::utf8::{decode_utf8, valid_utf8};

use crate::text::{
    chars_of, has_prefix, join_lines, lines, lines_of, starts_with, string_of, sub_chars, trim,
    trim_chars, trim_start, trim_start_chars,
};

verus! {

/// A `"\n\n"` starts at `i`.
pub open spec fn nn_at(s: Seq<u8>, i: int) -> bool {
    i + 1 < s.len() && s[i] == 10u8 && s[i + 1] == 10u8
}

/// A `"\r\n\r\n"` starts at `i`.
pub open spec fn crlf2_at(s: Seq<u8>, i: int) -> bool {
    i + 3 < s.len() && s[i] == 13u8 && s[i + 1] == 10u8 && s[i + 2] == 13u8 && s[i + 3] == 10u8
}

/// The end of the first event separator that starts at or after `i`.
pub open spec fn boundary_from(s: Seq<u8>, i: int) -> Option<int>
    decreases s.len() - i,
{
    if i < 0 || i + 1 >= s.len() {
        None
    } else if nn_at(s, i) {
        Some(i + 2)
    } else if crlf2_at(s, i) {
        Some(i + 4)
    } else {
        boundary_from(s, i + 1)
    }
}

/// The end of the first event separator (`"\n\n"` or `"\r\n\r\n"`) in `s`:
/// the length of the first complete event block.
pub open spec fn event_boundary(s: Seq<u8>) -> Option<int> {
    boundary_from(s, 0)
}

/// Finds where the first complete event block of `buffer` ends.
pub fn find_event_boundary(buffer: &[u8]) -> (r: Option<usize>)
    ensures
        match r {
            Some(b) => event_boundary(buffer@) == Some(b as int),
            None => event_boundary(buffer@) is None,
        },
{
    let n = buffer.len();
    let end: usize = if n > 0 {
        n - 1
    } else {
        0
    };
    let mut i: usize = 0;
    while i < end
        invariant
            n == buffer@.len(),
            end == (if n > 0 {
                n - 1
            } else {
                0
            }),
            i <= end,
            boundary_from(buffer@, 0) == boundary_from(buffer@, i as int),
        decreases end - i,
    {
        if buffer[i] == 10u8 && buffer[i + 1] == 10u8 {
            return Some(i + 2);
        }
        if buffer[i] == 13u8 && n - i > 3 && buffer[i + 1] == 10u8 && buffer[i + 2] == 13u8
            && buffer[i + 3] == 10u8 {
            return Some(i + 4);
        }
        i = i + 1;
    }
    None
}

proof fn lemma_boundary_range(s: Seq<u8>, i: int)
    ensures
        boundary_from(s, i) matches Some(b) ==> 0 <= i && i + 2 <= b <= s.len(),
    decreases s.len() - i,
{
    if !(i < 0 || i + 1 >= s.len()) && !nn_at(s, i) && !crlf2_at(s, i) {
        lemma_boundary_range(s, i + 1);
    }
}

/// The complete event blocks at the front of `s`, in order, and the bytes
/// after the last of them.
pub open spec fn split_blocks(s: Seq<u8>) -> (Seq<Seq<u8>>, Seq<u8>)
    decreases s.len(),
{
    match event_boundary(s) {
        Some(b) => if 0 < b <= s.len() {
            let r = split_blocks(s.skip(b));
            (seq![s.take(b)] + r.0, r.1)
        } else {
            (seq![], s)
        },
        None => (seq![], s),
    }
}

/// The text that `String::from_utf8_lossy` makes of `bytes`.
pub uninterp spec fn utf8_lossy(bytes: Seq<u8>) -> Seq<char>;

/// `String::from_utf8_lossy`: the result is named by `utf8_lossy`; bytes
/// that are valid UTF-8 come back as the text they encode.
#[verifier::external_body]
fn decode_lossy(bytes: &[u8]) -> (s: String)
    ensures
        s@ == utf8_lossy(bytes@),
        valid_utf8(bytes@) ==> s@ == decode_utf8(bytes@),
{
    String::from_utf8_lossy(bytes).into_owned()
}

/// `"event:"`.
pub open spec fn event_prefix() -> Seq<char> {
    seq!['e', 'v', 'e', 'n', 't', ':']
}

/// `"data:"`.
pub open spec fn data_prefix() -> Seq<char> {
    seq!['d', 'a', 't', 'a', ':']
}

/// `"message"`, the event type of a block that names none.
pub open spec fn message_name() -> Seq<char> {
    seq!['m', 'e', 's', 's', 'a', 'g', 'e']
}

fn event_prefix_chars() -> (v: Vec<char>)
    ensures
        v@ == event_prefix(),
{
    let v = vec!['e', 'v', 'e', 'n', 't', ':'];
    assert(v@ == event_prefix());
    v
}

fn data_prefix_chars() -> (v: Vec<char>)
    ensures
        v@ == data_prefix(),
{
    let v = vec!['d', 'a', 't', 'a', ':'];
    assert(v@ == data_prefix());
    v
}

/// The string `"message"`.
pub fn message_string() -> (s: String)
    ensures
        s@ == message_name(),
{
    let v = vec!['m', 'e', 's', 's', 'a', 'g', 'e'];
    assert(v@ == message_name());
    string_of(v.as_slice())
}

/// The trimmed value of the last `event:` line among `ls`.
pub open spec fn last_event_line(ls: Seq<Seq<char>>) -> Option<Seq<char>>
    decreases ls.len(),
{
    if ls.len() == 0 {
        None
    } else if has_prefix(ls.last(), event_prefix()) {
        Some(trim(ls.last().skip(6)))
    } else {
        last_event_line(ls.drop_last())
    }
}

/// The value of the last `event:` line of the text `bytes` decode to.
pub open spec fn last_event_field(bytes: Seq<u8>) -> Option<Seq<char>> {
    last_event_line(lines(utf8_lossy(bytes)))
}

/// Reads the last `event:` field from a partly received buffer.
pub fn extract_last_event_field(buffer: &[u8]) -> (r: Option<String>)
    ensures
        match r {
            Some(v) => last_event_field(buffer@) == Some(v@),
            None => last_event_field(buffer@) is None,
        },
{
    let text = decode_lossy(buffer);
    let chars = chars_of(text.as_str());
    let ls = lines_of(chars.as_slice());
    let ghost lsv = lines(chars@);
    let ev = event_prefix_chars();
    let mut last: Option<Vec<char>> = None;
    let mut k: usize = 0;
    while k < ls.len()
        invariant
            k <= ls@.len(),
            ls@.len() == lsv.len(),
            forall|m: int| 0 <= m < ls@.len() ==> #[trigger] ls@[m]@ == lsv[m],
            ev@ == event_prefix(),
            match last {
                Some(v) => last_event_line(lsv.take(k as int)) == Some(v@),
                None => last_event_line(lsv.take(k as int)) is None,
            },
        decreases ls@.len() - k,
    {
        let line = &ls[k];
        assert(lsv.take(k + 1).drop_last() == lsv.take(k as int));
        assert(lsv.take(k + 1).last() == line@);
        if starts_with(line.as_slice(), ev.as_slice()) {
            let rest = sub_chars(line.as_slice(), 6, line.len());
            assert(rest@ == line@.skip(6));
            last = Some(trim_chars(rest.as_slice()));
        }
        k = k + 1;
    }
    assert(lsv.take(ls@.len() as int) == lsv);
    match last {
        Some(v) => Some(string_of(v.as_slice())),
        None => None,
    }
}

/// The `data:` values (leading whitespace trimmed) of the lines `ls`, and
/// the event type: the trimmed value of the last `event:` line, else
/// `default`.
pub open spec fn event_fields(ls: Seq<Seq<char>>, default: Seq<char>) -> (
    Seq<Seq<char>>,
    Seq<char>,
)
    decreases ls.len(),
{
    if ls.len() == 0 {
        (seq![], default)
    } else {
        let (d, e) = event_fields(ls.drop_last(), default);
        let l = ls.last();
        if has_prefix(l, data_prefix()) {
            (d.push(trim_start(l.skip(5))), e)
        } else if has_prefix(l, event_prefix()) {
            (d, trim(l.skip(6)))
        } else {
            (d, e)
        }
    }
}

/// The event that a block of text holds: its type and its `data:` lines
/// joined with `'\n'`; none where it has no `data:` line.
pub open spec fn parse_event_text(text: Seq<char>, default: Seq<char>) -> Option<
    (Seq<char>, Seq<char>),
> {
    let (d, e) = event_fields(lines(text), default);
    if d.len() == 0 {
        None
    } else {
        Some((e, join_lines(d)))
    }
}

/// The event that a block of bytes holds.
pub open spec fn parse_event_bytes(bytes: Seq<u8>, default: Seq<char>) -> Option<
    (Seq<char>, Seq<char>),
> {
    parse_event_text(utf8_lossy(bytes), default)
}

fn join_lines_exec(parts: &Vec<Vec<char>>, Ghost(pv): Ghost<Seq<Seq<char>>>) -> (r: Vec<char>)
    requires
        parts@.len() == pv.len(),
        forall|m: int| 0 <= m < parts@.len() ==> #[trigger] parts@[m]@ == pv[m],
    ensures
        r@ == join_lines(pv),
{
    let mut out: Vec<char> = Vec::new();
    let mut k: usize = 0;
    while k < parts.len()
        invariant
            k <= parts@.len(),
            parts@.len() == pv.len(),
            forall|m: int| 0 <= m < parts@.len() ==> #[trigger] parts@[m]@ == pv[m],
            out@ == join_lines(pv.take(k as int)),
        decreases parts@.len() - k,
    {
        let p = &parts[k];
        let ghost before = out@;
        assert(pv.take(k + 1).drop_last() == pv.take(k as int));
        assert(pv.take(k + 1).last() == p@);
        if k > 0 {
            out.push('\n');
        }
        let mut j: usize = 0;
        let ghost mid = out@;
        while j < p.len()
            invariant
                j <= p@.len(),
                out@ == mid + p@.take(j as int),
            decreases p@.len() - j,
        {
            out.push(p[j]);
            assert(p@.take(j + 1) == p@.take(j as int).push(p@[j as int]));
            j = j + 1;
        }
        assert(p@.take(p@.len() as int) == p@);
        if k == 0 {
            assert(pv.take(1) == seq![pv[0]]);
            assert(out@ == join_lines(pv.take(1)));
        } else {
            assert(out@ == join_lines(pv.take(k as int)) + seq!['\n'] + p@);
        }
        k = k + 1;
    }
    assert(pv.take(parts@.len() as int) == pv);
    out
}

/// Reads the event that one complete block holds: `None` where the block has
/// no `data:` line, else its type (`current_event` where no `event:` line
/// names one) and its data.
pub fn parse_sse_event(event_bytes: &[u8], current_event: &str) -> (r: Option<(String, String)>)
    ensures
        match r {
            Some((e, d)) => parse_event_bytes(event_bytes@, current_event@) == Some((e@, d@)),
            None => parse_event_bytes(event_bytes@, current_event@) is None,
        },
{
    let text = decode_lossy(event_bytes);
    let chars = chars_of(text.as_str());
    let ls = lines_of(chars.as_slice());
    let ghost lsv = lines(chars@);
    let ev = event_prefix_chars();
    let da = data_prefix_chars();
    let mut data_lines: Vec<Vec<char>> = Vec::new();
    let mut event_type: Vec<char> = chars_of(current_event);
    let mut k: usize = 0;
    while k < ls.len()
        invariant
            k <= ls@.len(),
            ls@.len() == lsv.len(),
            forall|m: int| 0 <= m < ls@.len() ==> #[trigger] ls@[m]@ == lsv[m],
            ev@ == event_prefix(),
            da@ == data_prefix(),
            data_lines@.len() == event_fields(lsv.take(k as int), current_event@).0.len(),
            forall|m: int|
                0 <= m < data_lines@.len() ==> #[trigger] data_lines@[m]@ == event_fields(
                    lsv.take(k as int),
                    current_event@,
                ).0[m],
            event_type@ == event_fields(lsv.take(k as int), current_event@).1,
        decreases ls@.len() - k,
    {
        let line = &ls[k];
        assert(lsv.take(k + 1).drop_last() == lsv.take(k as int));
        assert(lsv.take(k + 1).last() == line@);
        if starts_with(line.as_slice(), da.as_slice()) {
            let rest = sub_chars(line.as_slice(), 5, line.len());
            assert(rest@ == line@.skip(5));
            data_lines.push(trim_start_chars(rest.as_slice()));
        } else if starts_with(line.as_slice(), ev.as_slice()) {
            let rest = sub_chars(line.as_slice(), 6, line.len());
            assert(rest@ == line@.skip(6));
            event_type = trim_chars(rest.as_slice());
        }
        k = k + 1;
    }
    assert(lsv.take(ls@.len() as int) == lsv);
    if data_lines.len() == 0 {
        return None;
    }
    let ghost dv = event_fields(lsv, current_event@).0;
    let joined = join_lines_exec(&data_lines, Ghost(dv));
    Some((string_of(event_type.as_slice()), string_of(joined.as_slice())))
}


/// One server-sent event: its type and its data.
pub struct SseEvent {
    pub event: String,
    pub data: String,
}

impl View for SseEvent {
    type V = (Seq<char>, Seq<char>);

    open spec fn view(&self) -> (Seq<char>, Seq<char>) {
        (self.event@, self.data@)
    }
}

/// The events that the blocks `blocks` hold, in order: the first block's
/// type defaults to `first`, every later one's to `"message"`.
pub open spec fn events_of(blocks: Seq<Seq<u8>>, first: Seq<char>) -> Seq<(Seq<char>, Seq<char>)>
    decreases blocks.len(),
{
    if blocks.len() == 0 {
        seq![]
    } else {
        let prev = events_of(blocks.drop_last(), first);
        let default = if blocks.len() == 1 {
            first
        } else {
            message_name()
        };
        match parse_event_bytes(blocks.last(), default) {
            Some(ev) => prev.push(ev),
            None => prev,
        }
    }
}

/// What one chunk does to a parser holding `buffer` with current event type
/// `event_type`: the bytes left waiting, the next event type, and the events
/// delivered.
pub open spec fn feed_result(buffer: Seq<u8>, event_type: Seq<char>, chunk: Seq<u8>) -> (
    Seq<u8>,
    Seq<char>,
    Seq<(Seq<char>, Seq<char>)>,
) {
    let (blocks, rest) = split_blocks(buffer + chunk);
    let base = if blocks.len() == 0 {
        event_type
    } else {
        message_name()
    };
    let next = match last_event_field(rest) {
        Some(v) => v,
        None => base,
    };
    (rest, next, events_of(blocks, event_type))
}

/// The incremental reader of an event stream: the bytes of a block not yet
/// complete, and the current event type.
pub struct SseParser {
    buffer: Vec<u8>,
    event_type: String,
}

impl SseParser {
    #[verifier::type_invariant]
    spec fn inv(self) -> bool {
        event_boundary(self.buffer@) is None
    }

    /// The received bytes of the block not yet complete.
    pub closed spec fn buffered(&self) -> Seq<u8> {
        self.buffer@
    }

    /// The event type that a block without an `event:` line gets.
    pub closed spec fn current_event(&self) -> Seq<char> {
        self.event_type@
    }

    /// A reader before the first chunk: nothing buffered, type `"message"`.
    pub fn new() -> (p: Self)
        ensures
            p.buffered() == Seq::<u8>::empty(),
            p.current_event() == message_name(),
    {
        let p = SseParser { buffer: Vec::new(), event_type: message_string() };
        assert(event_boundary(p.buffer@) is None);
        p
    }

    /// Takes the next chunk of the stream and returns the events of the
    /// blocks it completes, in order.
    pub fn feed(&mut self, chunk: &[u8]) -> (events: Vec<SseEvent>)
        ensures
            event_boundary(final(self).buffered()) is None,
            ({
                let (b, e, evs) = feed_result(old(self).buffered(), old(self).current_event(), chunk@);
                &&& final(self).buffered() == b
                &&& final(self).current_event() == e
                &&& events@.len() == evs.len()
                &&& forall|k: int| 0 <= k < evs.len() ==> #[trigger] events@[k]@ == evs[k]
            }),
    {
        proof {
            use_type_invariant(&*self);
        }
        let ghost s0 = self.buffer@ + chunk@;
        let ghost et0 = self.event_type@;
        let mut buf: Vec<u8> = Vec::new();
        let mut i: usize = 0;
        while i < self.buffer.len()
            invariant
                i <= self.buffer@.len(),
                buf@ == self.buffer@.take(i as int),
            decreases self.buffer@.len() - i,
        {
            buf.push(self.buffer[i]);
            assert(self.buffer@.take(i + 1) == self.buffer@.take(i as int).push(self.buffer@[i as int]));
            i = i + 1;
        }
        assert(self.buffer@.take(self.buffer@.len() as int) == self.buffer@);
        let mut j: usize = 0;
        while j < chunk.len()
            invariant
                j <= chunk@.len(),
                buf@ == self.buffer@ + chunk@.take(j as int),
            decreases chunk@.len() - j,
        {
            buf.push(chunk[j]);
            assert(chunk@.take(j + 1) == chunk@.take(j as int).push(chunk@[j as int]));
            j = j + 1;
        }
        assert(chunk@.take(chunk@.len() as int) == chunk@);
        assert(buf@ == s0);
        let mut et: String = self.event_type.clone();
        let mut events: Vec<SseEvent> = Vec::new();
        let ghost mut done: Seq<Seq<u8>> = seq![];
        let mut next = find_event_boundary(buf.as_slice());
        while next.is_some()
            invariant
                split_blocks(s0) == (done + split_blocks(buf@).0, split_blocks(buf@).1),
                events@.len() == events_of(done, et0).len(),
                forall|k: int|
                    0 <= k < events@.len() ==> #[trigger] events@[k]@ == events_of(done, et0)[k],
                et@ == (if done.len() == 0 {
                    et0
                } else {
                    message_name()
                }),
                match next {
                    Some(b) => event_boundary(buf@) == Some(b as int),
                    None => event_boundary(buf@) is None,
                },
            decreases buf@.len(),
        {
            let b = next.unwrap();
            proof {
                lemma_boundary_range(buf@, 0);
            }
            let ghost whole = buf@;
            let rest = buf.split_off(b);
            let ghost block = buf@;
            assert(block == whole.take(b as int));
            assert(rest@ == whole.skip(b as int));
            let parsed = parse_sse_event(buf.as_slice(), et.as_str());
            let ghost prev_done = done;
            proof {
                done = done.push(block);
                assert(done.drop_last() == prev_done);
                assert(seq![block] + split_blocks(rest@).0 == split_blocks(whole).0);
                assert(done + split_blocks(rest@).0 == prev_done + split_blocks(whole).0);
            }
            match parsed {
                Some((e, d)) => {
                    events.push(SseEvent { event: e, data: d });
                },
                None => {},
            }
            et = message_string();
            buf = rest;
            next = find_event_boundary(buf.as_slice());
        }
        assert(split_blocks(buf@) == (Seq::<Seq<u8>>::empty(), buf@));
        assert(done + Seq::<Seq<u8>>::empty() == done);
        match extract_last_event_field(buf.as_slice()) {
            Some(v) => {
                et = v;
            },
            None => {},
        }
        self.buffer = buf;
        self.event_type = et;
        events
    }
}

proof fn lemma_boundary_prefix_from(x: Seq<u8>, y: Seq<u8>, i: int)
    requires
        boundary_from(x, i) is Some,
    ensures
        boundary_from(x + y, i) == boundary_from(x, i),
    decreases x.len() - i,
{
    let xy = x + y;
    assert(0 <= i && i + 1 < x.len());
    assert(xy[i] == x[i] && xy[i + 1] == x[i + 1]);
    if nn_at(x, i) {
    } else if crlf2_at(x, i) {
        assert(xy[i + 2] == x[i + 2] && xy[i + 3] == x[i + 3]);
    } else {
        lemma_boundary_prefix_from(x, y, i + 1);
        if i + 3 < x.len() {
            assert(xy[i + 2] == x[i + 2] && xy[i + 3] == x[i + 3]);
        } else if crlf2_at(xy, i) {
            if i + 2 < x.len() {
                assert(xy[i + 2] == x[i + 2]);
                assert(!nn_at(x, i + 1));
                assert(boundary_from(x, i + 2) is None);
            }
            assert(boundary_from(x, i + 1) is None);
        }
    }
}

proof fn lemma_split_concat(x: Seq<u8>, y: Seq<u8>)
    ensures
        ({
            let (bx, rx) = split_blocks(x);
            let (br, rr) = split_blocks(rx + y);
            split_blocks(x + y) == (bx + br, rr)
        }),
    decreases x.len(),
{
    match event_boundary(x) {
        Some(b) => {
            lemma_boundary_range(x, 0);
            lemma_boundary_prefix_from(x, y, 0);
            assert((x + y).take(b) == x.take(b));
            assert((x + y).skip(b) == x.skip(b) + y);
            lemma_split_concat(x.skip(b), y);
            let (bx, rx) = split_blocks(x);
            let (br, rr) = split_blocks(rx + y);
            assert(seq![x.take(b)] + split_blocks(x.skip(b)).0 + br == seq![x.take(b)] + (
            split_blocks(x.skip(b)).0 + br));
        },
        None => {
            assert(Seq::<Seq<u8>>::empty() + split_blocks(x + y).0 == split_blocks(x + y).0);
        },
    }
}

proof fn lemma_events_concat(b1: Seq<Seq<u8>>, b2: Seq<Seq<u8>>, first: Seq<char>)
    ensures
        events_of(b1 + b2, first) == events_of(b1, first) + events_of(
            b2,
            if b1.len() == 0 {
                first
            } else {
                message_name()
            },
        ),
    decreases b2.len(),
{
    if b2.len() == 0 {
        assert(b1 + b2 == b1);
        assert(events_of(b1, first) + Seq::<(Seq<char>, Seq<char>)>::empty() == events_of(b1, first));
    } else {
        assert((b1 + b2).drop_last() == b1 + b2.drop_last());
        assert((b1 + b2).last() == b2.last());
        lemma_events_concat(b1, b2.drop_last(), first);
    }
}

/// Feeding a stream in two pieces leaves the same bytes waiting as feeding
/// it at once; where the first piece leaves no `event:` line waiting, the
/// two pieces deliver together exactly the events, and the next event type,
/// of feeding them at once.
pub proof fn law_feed_in_pieces(buffer: Seq<u8>, event_type: Seq<char>, a: Seq<u8>, b: Seq<u8>)
    requires
        event_boundary(buffer) is None,
    ensures
        ({
            let r1 = feed_result(buffer, event_type, a);
            let r2 = feed_result(r1.0, r1.1, b);
            let r = feed_result(buffer, event_type, a + b);
            &&& r2.0 == r.0
            &&& last_event_field(r1.0) is None ==> r1.2 + r2.2 == r.2 && r2.1 == r.1
        }),
{
    assert(buffer + (a + b) == (buffer + a) + b);
    lemma_split_concat(buffer + a, b);
    let (b1, rest1) = split_blocks(buffer + a);
    let (b2, rest2) = split_blocks(rest1 + b);
    lemma_events_concat(b1, b2, event_type);
}

/// The blocks that `split_blocks` finds, followed by the bytes left over,
/// are exactly the input: no byte is lost or repeated.
pub proof fn law_blocks_cover_input(s: Seq<u8>)
    ensures
        split_blocks(s).0.flatten() + split_blocks(s).1 == s,
    decreases s.len(),
{
    match event_boundary(s) {
        Some(b) => {
            lemma_boundary_range(s, 0);
            law_blocks_cover_input(s.skip(b));
            let blocks = split_blocks(s).0;
            assert(blocks.drop_first() == split_blocks(s.skip(b)).0);
            assert(s.take(b) + s.skip(b) == s);
        },
        None => {},
    }
}

/// What a reader leaves waiting never holds a complete block.
pub proof fn law_rest_is_incomplete(s: Seq<u8>)
    ensures
        event_boundary(split_blocks(s).1) is None,
    decreases s.len(),
{
    match event_boundary(s) {
        Some(b) => {
            lemma_boundary_range(s, 0);
            law_rest_is_incomplete(s.skip(b));
        },
        None => {},
    }
}

} // verus!
