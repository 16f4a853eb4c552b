//! The framing of an HTTP response for the watch: one text message where
//! the body is small UTF-8, else base64 text cut into numbered chunks.

use vstd::prelude::*;
use vstd::utf8::{decode_utf8, valid_utf8};

use crate::http::utf8_text;
use crate::text::{chars_of, string_of, sub_chars};

verus! {

/// The standard-alphabet, padded base64 text of `data`.
pub uninterp spec fn base64_standard(data: Seq<u8>) -> Seq<char>;

/// `base64::engine::general_purpose::STANDARD.encode`: the text is named by
/// `base64_standard`, and it is padded, so every three bytes (and a last one
/// or two) make four characters. The crate panics where the encoded length
/// does not fit in `usize`; the bound on the input keeps such inputs out.
#[verifier::external_body]
fn base64_encode(data: &[u8]) -> (s: String)
    requires
        data@.len() <= usize::MAX / 4 * 3,
    ensures
        s@ == base64_standard(data@),
        s@.len() == (data@.len() + 2) / 3 * 4,
{
    base64::Engine::encode(&base64::engine::general_purpose::STANDARD, data)
}

/// The largest body sent in one message as text: 16 KiB.
pub const INLINE_LIMIT: usize = 16384;

/// The number of base64 characters per chunk: 12 KiB.
pub const CHUNK_LEN: usize = 12288;

/// The number of chunks `n` characters make (rounded up).
pub open spec fn chunk_count(n: int) -> int {
    (n + 12287) / 12288
}

/// The `i`-th chunk (from 0) of the text `enc`.
pub open spec fn chunk_at(enc: Seq<char>, i: int) -> Seq<char> {
    enc.subrange(
        i * 12288,
        if (i + 1) * 12288 < enc.len() {
            (i + 1) * 12288
        } else {
            enc.len() as int
        },
    )
}

/// The chunks of the text `enc`, in order.
pub open spec fn chunks_of(enc: Seq<char>) -> Seq<Seq<char>> {
    Seq::new(chunk_count(enc.len() as int) as nat, |i: int| chunk_at(enc, i))
}

/// One message of a response: its chunk number (0 for a body sent whole,
/// else from 1), the number of chunks (0 for a body sent whole), the body
/// text, and whether it is the first message (the one that carries the
/// status code and headers).
pub struct ResponseFrame {
    pub chunk: usize,
    pub total_chunks: usize,
    pub body: String,
    pub first: bool,
}

/// The body goes whole, as text: at most 16 KiB and valid UTF-8.
pub open spec fn sent_whole(body: Seq<u8>) -> bool {
    body.len() <= 16384 && valid_utf8(body)
}

/// The messages that carry a response body.
pub fn response_frames(body: &[u8]) -> (frames: Vec<ResponseFrame>)
    requires
        body@.len() <= usize::MAX / 4 * 3,
    ensures
        sent_whole(body@) ==> frames@.len() == 1 && frames@[0].chunk == 0 && frames@[0].total_chunks
            == 0 && frames@[0].body@ == decode_utf8(body@) && frames@[0].first,
        !sent_whole(body@) ==> ({
            let enc = base64_standard(body@);
            &&& enc.len() == (body@.len() + 2) / 3 * 4
            &&& frames@.len() == chunk_count(enc.len() as int)
            &&& forall|i: int|
                0 <= i < frames@.len() ==> (#[trigger] frames@[i]).chunk == i + 1 && frames@[i].total_chunks
                    == frames@.len() && frames@[i].body@ == chunk_at(enc, i) && frames@[i].first == (i
                    == 0)
        }),
{
    if body.len() <= INLINE_LIMIT {
        match utf8_text(body) {
            Some(text) => {
                let mut frames: Vec<ResponseFrame> = Vec::new();
                frames.push(ResponseFrame { chunk: 0, total_chunks: 0, body: text, first: true });
                return frames;
            },
            None => {},
        }
    }
    let encoded = base64_encode(body);
    let enc = chars_of(encoded.as_str());
    let n = enc.len();
    let total: usize = n / CHUNK_LEN + if n % CHUNK_LEN != 0 {
        1
    } else {
        0
    };
    assert(total == chunk_count(n as int));
    let mut frames: Vec<ResponseFrame> = Vec::new();
    let mut i: usize = 0;
    while i < total
        invariant
            n == enc@.len(),
            enc@ == base64_standard(body@),
            total == chunk_count(n as int),
            i <= total,
            frames@.len() == i,
            forall|j: int|
                0 <= j < i ==> (#[trigger] frames@[j]).chunk == j + 1 && frames@[j].total_chunks == total
                    && frames@[j].body@ == chunk_at(enc@, j) && frames@[j].first == (j == 0),
        decreases total - i,
    {
        assert(i * 12288 < n);
        let start = i * CHUNK_LEN;
        let end = if n - start > CHUNK_LEN {
            start + CHUNK_LEN
        } else {
            n
        };
        let piece = sub_chars(enc.as_slice(), start, end);
        frames.push(
            ResponseFrame { chunk: i + 1, total_chunks: total, body: string_of(piece.as_slice()), first: i == 0 },
        );
        i = i + 1;
    }
    frames
}

/// The chunks of a base64 text, joined in order, give back the whole text:
/// what the watch reassembles is what was encoded.
pub proof fn law_chunks_reassemble(enc: Seq<char>)
    ensures
        chunks_of(enc).flatten() == enc,
    decreases enc.len(),
{
    if enc.len() == 0 {
        assert(chunks_of(enc) =~= Seq::<Seq<char>>::empty());
        assert(chunks_of(enc).flatten() =~= Seq::<char>::empty());
        assert(enc =~= Seq::<char>::empty());
    } else if enc.len() <= 12288 {
        assert(chunk_count(enc.len() as int) == 1);
        assert(enc.subrange(0, enc.len() as int) =~= enc);
        assert(chunk_at(enc, 0) == enc);
        assert(chunks_of(enc)[0] == enc);
        assert(chunks_of(enc) =~= seq![enc]);
        assert(chunks_of(enc).drop_first() =~= Seq::<Seq<char>>::empty());
        assert(chunks_of(enc).drop_first().flatten() =~= Seq::<char>::empty());
        assert(chunks_of(enc).flatten() == chunks_of(enc).first() + chunks_of(enc).drop_first().flatten());
        assert(enc + Seq::<char>::empty() == enc);
    } else {
        let rest = enc.skip(12288);
        law_chunks_reassemble(rest);
        assert(chunk_count(enc.len() as int) == chunk_count(rest.len() as int) + 1);
        assert forall|i: int| 0 <= i < chunks_of(rest).len() implies #[trigger] chunks_of(enc).drop_first()[i]
            == chunks_of(rest)[i] by {
            assert(chunk_at(enc, i + 1) =~= chunk_at(rest, i));
        }
        assert(chunks_of(enc).drop_first() =~= chunks_of(rest));
        assert(chunk_at(enc, 0) == enc.subrange(0, 12288));
        assert(chunks_of(enc)[0] == enc.take(12288));
        assert(enc.take(12288) + rest == enc);
        assert(chunks_of(enc).flatten() == chunks_of(enc).first() + chunks_of(enc).drop_first().flatten());
    }
}

} // verus!
