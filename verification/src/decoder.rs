//! The streaming chunk decoder: a state machine that buffers an unbounded,
//! arbitrarily split byte stream, extracts line-feed-terminated lines,
//! classifies each line, and turns the payload of each well-formed
//! `data:`-prefixed line into a `ChatChunk`.

use vstd::prelude::*;

use crate::chunk::{ChatChunk, ChunkView, Choice, Delta};

verus! {

/// Whitespace removed when a line is trimmed: space and the ASCII control
/// characters tab through carriage return.
pub open spec fn is_line_ws(b: u8) -> bool {
    b == 32 || (9 <= b && b <= 13)
}

/// `s` without its leading whitespace bytes.
pub open spec fn drop_leading_ws(s: Seq<u8>) -> Seq<u8>
    decreases s.len(),
{
    if s.len() > 0 && is_line_ws(s[0]) {
        drop_leading_ws(s.drop_first())
    } else {
        s
    }
}

/// `s` without its trailing whitespace bytes.
pub open spec fn drop_trailing_ws(s: Seq<u8>) -> Seq<u8>
    decreases s.len(),
{
    if s.len() > 0 && is_line_ws(s.last()) {
        drop_trailing_ws(s.drop_last())
    } else {
        s
    }
}

/// `s` without leading and trailing whitespace.
pub open spec fn trim_ws(s: Seq<u8>) -> Seq<u8> {
    drop_trailing_ws(drop_leading_ws(s))
}

/// The framing prefix of a payload-bearing line: the bytes spell `data:`.
pub open spec fn has_data_prefix(s: Seq<u8>) -> bool {
    &&& s.len() >= 5
    &&& s[0] == 100
    &&& s[1] == 97
    &&& s[2] == 116
    &&& s[3] == 97
    &&& s[4] == 58
}

/// What parsing a payload as a chunk returns. The payload is handed to a JSON
/// parser of an outside crate, so the outcome is named rather than written
/// out; it is a function of the payload bytes alone.
pub uninterp spec fn chunk_of_json(payload: Seq<u8>) -> Option<ChunkView>;

/// The chunk a single raw line yields: nothing for a blank line, nothing for
/// a line without the framing prefix, and whatever the payload parses to for
/// a prefixed line.
pub open spec fn decode_line_spec(line: Seq<u8>) -> Option<ChunkView> {
    let t = trim_ws(line);
    if t.len() == 0 {
        None
    } else if has_data_prefix(t) {
        chunk_of_json(t.skip(5))
    } else {
        None
    }
}

/// The image of an optional decoded chunk.
pub open spec fn opt_chunk_view(r: Option<ChatChunk>) -> Option<ChunkView> {
    match r {
        Some(c) => Some(c@),
        None => None,
    }
}

/// Relies on `serde_json::from_slice::<serde_json::Value>` to parse the
/// payload as JSON, and on `serde_json::Value::{get, as_array, is_object,
/// as_str}` to move the parsed `choices` entries, field by field, into the
/// library's chunk type. The outcome depends on the payload bytes alone and
/// is named by `chunk_of_json`.
#[verifier::external_body]
fn parse_chunk_payload(payload: &[u8]) -> (r: Option<ChatChunk>)
    ensures
        opt_chunk_view(r) == chunk_of_json(payload@),
{
    let v: serde_json::Value = serde_json::from_slice(payload).ok()?;
    let arr = v.get("choices")?.as_array()?;
    if !arr.iter().all(serde_json::Value::is_object) {
        return None;
    }
    let choices = arr.iter().map(|c| Choice {
        delta: c.get("delta").map(|d| Delta {
            content: d.get("content").and_then(serde_json::Value::as_str).map(str::to_owned),
        }),
        finish_reason: c.get("finish_reason").and_then(serde_json::Value::as_str).map(str::to_owned),
    }).collect();
    Some(ChatChunk { choices })
}

/// Dropping leading whitespace keeps exactly the bytes from the first
/// non-whitespace index on.
proof fn lemma_drop_leading_ws(s: Seq<u8>, k: int)
    requires
        0 <= k <= s.len(),
        forall|j: int| 0 <= j < k ==> is_line_ws(s[j]),
        k < s.len() ==> !is_line_ws(s[k]),
    ensures
        drop_leading_ws(s) == s.skip(k),
    decreases k,
{
    if k == 0 {
        assert(s.skip(0) =~= s);
    } else {
        assert(is_line_ws(s[0]));
        lemma_drop_leading_ws(s.drop_first(), k - 1);
        assert(s.drop_first().skip(k - 1) =~= s.skip(k));
    }
}

/// Dropping trailing whitespace keeps exactly the bytes before the index
/// after the last non-whitespace byte.
proof fn lemma_drop_trailing_ws(s: Seq<u8>, k: int)
    requires
        0 <= k <= s.len(),
        forall|j: int| k <= j < s.len() ==> is_line_ws(s[j]),
        k > 0 ==> !is_line_ws(s[k - 1]),
    ensures
        drop_trailing_ws(s) == s.take(k),
    decreases s.len() - k,
{
    if k == s.len() {
        if k > 0 {
            assert(s.take(k) =~= s);
        } else {
            assert(s.take(0) =~= s);
        }
    } else {
        assert(is_line_ws(s.last()));
        lemma_drop_trailing_ws(s.drop_last(), k);
        assert(s.drop_last().take(k) =~= s.take(k));
    }
}

/// The bounds of the trimmed span of `line`: the trimmed line is exactly
/// `line[lo..hi]`.
fn trim_bounds(line: &[u8]) -> (r: (usize, usize))
    ensures
        0 <= r.0 <= r.1 <= line@.len(),
        trim_ws(line@) == line@.subrange(r.0 as int, r.1 as int),
{
    let n = line.len();
    let mut lo: usize = 0;
    while lo < n && byte_is_line_ws(line[lo])
        invariant
            0 <= lo <= n,
            n == line@.len(),
            forall|j: int| 0 <= j < lo ==> is_line_ws(line@[j]),
        decreases n - lo,
    {
        lo = lo + 1;
    }
    let mut hi: usize = n;
    while hi > lo && byte_is_line_ws(line[hi - 1])
        invariant
            lo <= hi <= n,
            n == line@.len(),
            forall|j: int| 0 <= j < lo ==> is_line_ws(line@[j]),
            lo < n ==> !is_line_ws(line@[lo as int]),
            forall|j: int| hi <= j < n ==> is_line_ws(line@[j]),
        decreases hi,
    {
        hi = hi - 1;
    }
    proof {
        lemma_drop_leading_ws(line@, lo as int);
        let s = line@.skip(lo as int);
        lemma_drop_trailing_ws(s, hi - lo);
        assert(s.take(hi - lo) =~= line@.subrange(lo as int, hi as int));
    }
    (lo, hi)
}

/// One byte is line whitespace.
fn byte_is_line_ws(b: u8) -> (r: bool)
    ensures
        r == is_line_ws(b),
{
    b == 32 || (9 <= b && b <= 13)
}

/// Decode one raw line: trim it, require the framing prefix, and parse the
/// payload after the prefix. Blank lines, unprefixed lines and payloads that
/// do not parse all yield nothing.
pub fn decode_line(line: &[u8]) -> (r: Option<ChatChunk>)
    ensures
        opt_chunk_view(r) == decode_line_spec(line@),
{
    let (lo, hi) = trim_bounds(line);
    if lo == hi {
        return None;
    }
    // The prefix bytes spell `data:`.
    if hi - lo >= 5 && line[lo] == 100 && line[lo + 1] == 97 && line[lo + 2] == 116
        && line[lo + 3] == 97 && line[lo + 4] == 58 {
        proof {
            assert(trim_ws(line@).skip(5) =~= line@.subrange(lo + 5, hi as int));
        }
        let payload = vstd::slice::slice_subrange(line, lo + 5, hi);
        parse_chunk_payload(payload)
    } else {
        None
    }
}

/// Index of the first line feed in `s`, or `s.len()` when there is none.
pub open spec fn first_lf(s: Seq<u8>) -> nat
    decreases s.len(),
{
    if s.len() == 0 {
        0
    } else if s[0] == 10 {
        0
    } else {
        first_lf(s.drop_first()) + 1
    }
}

/// Whether `s` holds a complete, line-feed-terminated line.
pub open spec fn has_lf(s: Seq<u8>) -> bool {
    first_lf(s) < s.len()
}

/// `first_lf` points at the first line feed: everything before it is not a
/// line feed, and it is one when it lies inside `s`.
pub proof fn lemma_first_lf(s: Seq<u8>)
    ensures
        first_lf(s) <= s.len(),
        forall|j: int| 0 <= j < first_lf(s) ==> s[j] != 10,
        first_lf(s) < s.len() ==> s[first_lf(s) as int] == 10,
    decreases s.len(),
{
    if s.len() == 0 {
    } else if s[0] == 10 {
    } else {
        lemma_first_lf(s.drop_first());
        assert forall|j: int| 0 <= j < first_lf(s) implies s[j] != 10 by {
            if j > 0 {
                assert(s.drop_first()[j - 1] != 10);
            }
        }
    }
}

/// The lines still to be decoded from the buffered bytes: every complete
/// line (terminator included), and, once the source is closed, the unfinished
/// trailing bytes as a final line.
pub open spec fn all_lines(buf: Seq<u8>, closed: bool) -> Seq<Seq<u8>>
    decreases buf.len(),
{
    if has_lf(buf) {
        seq![buf.take(first_lf(buf) as int + 1)] + all_lines(buf.skip(first_lf(buf) as int + 1), closed)
    } else if closed && buf.len() > 0 {
        seq![buf]
    } else {
        seq![]
    }
}

/// The chunks a sequence of raw lines decodes to, in line order, with the
/// lines that decode to nothing left out.
pub open spec fn chunks_of_lines(lines: Seq<Seq<u8>>) -> Seq<ChunkView>
    decreases lines.len(),
{
    if lines.len() == 0 {
        seq![]
    } else {
        match decode_line_spec(lines[0]) {
            Some(c) => seq![c] + chunks_of_lines(lines.drop_first()),
            None => chunks_of_lines(lines.drop_first()),
        }
    }
}

/// What one pull on the decoder does to the buffered bytes: complete lines
/// are consumed in order until one of them yields a chunk; once the source is
/// closed the unfinished tail is consumed as a final line. The result is the
/// remaining buffer and the chunk, if one was produced.
pub open spec fn drain_spec(buf: Seq<u8>, closed: bool) -> (Seq<u8>, Option<ChunkView>)
    decreases buf.len(),
{
    if has_lf(buf) {
        let line = buf.take(first_lf(buf) as int + 1);
        let rest = buf.skip(first_lf(buf) as int + 1);
        match decode_line_spec(line) {
            Some(c) => (rest, Some(c)),
            None => drain_spec(rest, closed),
        }
    } else if closed && buf.len() > 0 {
        (Seq::empty(), decode_line_spec(buf))
    } else {
        (buf, None)
    }
}

/// Unfolding `chunks_of_lines` over a first line.
pub proof fn lemma_chunks_of_lines_cons(line: Seq<u8>, rest: Seq<Seq<u8>>)
    ensures
        chunks_of_lines(seq![line] + rest) == (match decode_line_spec(line) {
            Some(c) => seq![c] + chunks_of_lines(rest),
            None => chunks_of_lines(rest),
        }),
{
    let lines = seq![line] + rest;
    assert(lines[0] == line);
    assert(lines.drop_first() =~= rest);
}

/// One pull consumes part of the buffer and accounts for exactly the chunks
/// it produces: the chunks of the old buffer are the produced chunk (if any)
/// followed by the chunks of the remaining buffer, and a pull that produces
/// nothing leaves a buffer with no decodable chunk at all.
pub proof fn lemma_drain_step(buf: Seq<u8>, closed: bool)
    ensures
        ({
            let (rest, o) = drain_spec(buf, closed);
            &&& rest.len() <= buf.len()
            &&& match o {
                Some(c) => {
                    &&& rest.len() < buf.len()
                    &&& chunks_of_lines(all_lines(buf, closed)) == seq![c] + chunks_of_lines(
                        all_lines(rest, closed),
                    )
                },
                None => {
                    &&& chunks_of_lines(all_lines(buf, closed)) == Seq::<ChunkView>::empty()
                    &&& chunks_of_lines(all_lines(rest, closed)) == Seq::<ChunkView>::empty()
                },
            }
        }),
    decreases buf.len(),
{
    let (rest, o) = drain_spec(buf, closed);
    if has_lf(buf) {
        let line = buf.take(first_lf(buf) as int + 1);
        let tail = buf.skip(first_lf(buf) as int + 1);
        lemma_chunks_of_lines_cons(line, all_lines(tail, closed));
        match decode_line_spec(line) {
            Some(c) => {},
            None => {
                lemma_drain_step(tail, closed);
            },
        }
    } else if closed && buf.len() > 0 {
        assert(all_lines(buf, closed) =~= seq![buf]);
        lemma_chunks_of_lines_cons(buf, seq![]);
        assert(seq![buf] + seq![] =~= seq![buf]);
        assert(all_lines(Seq::<u8>::empty(), closed) =~= Seq::<Seq<u8>>::empty());
        match decode_line_spec(buf) {
            Some(c) => {
                assert(chunks_of_lines(all_lines(buf, closed)) =~= seq![c]
                    + chunks_of_lines(all_lines(Seq::<u8>::empty(), closed)));
            },
            None => {},
        }
    } else {
    }
}

/// Index of the first line feed in `v`, when one is present.
fn find_lf(v: &Vec<u8>) -> (r: Option<usize>)
    ensures
        match r {
            Some(i) => i == first_lf(v@) && i < v@.len(),
            None => first_lf(v@) == v@.len(),
        },
{
    let n = v.len();
    let mut i: usize = 0;
    while i < n
        invariant
            0 <= i <= n,
            n == v@.len(),
            forall|j: int| 0 <= j < i ==> v@[j] != 10,
        decreases n - i,
    {
        if v[i] == 10 {
            proof {
                lemma_first_lf(v@);
                if i < first_lf(v@) {
                    assert(v@[i as int] != 10);
                }
                if i > first_lf(v@) {
                    assert(v@[first_lf(v@) as int] == 10);
                }
            }
            return Some(i);
        }
        i = i + 1;
    }
    proof {
        lemma_first_lf(v@);
        if first_lf(v@) < v@.len() {
            assert(v@[first_lf(v@) as int] == 10);
        }
    }
    None
}

/// The result of one pull on the decoder.
pub enum PullResult {
    /// The next decoded chunk of the stream.
    Chunk(ChatChunk),
    /// No complete line that yields a chunk is buffered yet; the source must
    /// deliver more bytes.
    NeedInput,
    /// The source is closed and everything buffered has been consumed: the
    /// sequence is exhausted.
    Finished,
}

/// Mathematical image of a `ChunkDecoder`.
pub ghost struct DecoderView {
    /// Bytes received from the source and not yet consumed as lines.
    pub buf: Seq<u8>,
    /// Whether the source has ended (cleanly or by a read failure).
    pub closed: bool,
}

/// The streaming decoder: an exclusively owned cursor over the byte stream.
/// Bytes from the source are fed in as they arrive, in arbitrary pieces;
/// chunks are pulled out one at a time. Only line-feed boundaries matter;
/// the boundaries of the fed pieces are irrelevant.
pub struct ChunkDecoder {
    buf: Vec<u8>,
    closed: bool,
}

impl View for ChunkDecoder {
    type V = DecoderView;

    closed spec fn view(&self) -> DecoderView {
        DecoderView { buf: self.buf@, closed: self.closed }
    }
}

impl ChunkDecoder {
    /// A fresh decoder: nothing buffered, source still open.
    pub fn new() -> (d: ChunkDecoder)
        ensures
            d@.buf == Seq::<u8>::empty(),
            !d@.closed,
    {
        ChunkDecoder { buf: Vec::new(), closed: false }
    }

    /// Hand the decoder the next piece of bytes read from the source. The
    /// piece may end anywhere: in the middle of a line, of a JSON payload,
    /// even of a single chunk spread over several reads.
    pub fn feed(&mut self, bytes: &[u8])
        requires
            !old(self)@.closed,
        ensures
            final(self)@.buf == old(self)@.buf + bytes@,
            !final(self)@.closed,
    {
        self.buf.extend_from_slice(bytes);
    }

    /// Record that the source has ended — a clean end of stream or a read
    /// failure, which the decoder treats alike: the sequence simply ends.
    pub fn close(&mut self)
        ensures
            final(self)@.buf == old(self)@.buf,
            final(self)@.closed,
    {
        self.closed = true;
    }

    /// Pull the next chunk. Complete buffered lines are consumed in order
    /// until one yields a chunk; lines that yield none are skipped silently.
    /// With no producing line buffered, the pull asks for more input while
    /// the source is open, and reports the sequence exhausted once it is
    /// closed (consuming the unfinished tail, if any, as a last line).
    pub fn next_chunk(&mut self) -> (r: PullResult)
        ensures
            ({
                let (rest, o) = drain_spec(old(self)@.buf, old(self)@.closed);
                &&& final(self)@.closed == old(self)@.closed
                &&& final(self)@.buf == rest
                &&& match r {
                    PullResult::Chunk(c) => o == Some(c@),
                    PullResult::NeedInput => o is None && !old(self)@.closed,
                    PullResult::Finished => o is None && old(self)@.closed,
                }
            }),
    {
        loop
            invariant
                self.closed == old(self)@.closed,
                drain_spec(self.buf@, self.closed) == drain_spec(old(self)@.buf, old(self)@.closed),
            decreases self.buf@.len(),
        {
            let ghost prev = self.buf@;
            match find_lf(&self.buf) {
                Some(i) => {
                    // Binding the length first shows that the split point
                    // `i + 1` fits in usize.
                    let n = self.buf.len();
                    let mut rest = self.buf.split_off(i + 1);
                    core::mem::swap(&mut self.buf, &mut rest);
                    let line = rest;
                    proof {
                        assert(line@ =~= prev.take(first_lf(prev) as int + 1));
                        assert(self.buf@ =~= prev.skip(first_lf(prev) as int + 1));
                    }
                    match decode_line(line.as_slice()) {
                        Some(c) => {
                            return PullResult::Chunk(c);
                        },
                        None => {},
                    }
                },
                None => {
                    if !self.closed {
                        return PullResult::NeedInput;
                    }
                    if self.buf.len() == 0 {
                        return PullResult::Finished;
                    }
                    let mut line = Vec::new();
                    core::mem::swap(&mut self.buf, &mut line);
                    proof {
                        assert(self.buf@ =~= Seq::<u8>::empty());
                    }
                    match decode_line(line.as_slice()) {
                        Some(c) => {
                            return PullResult::Chunk(c);
                        },
                        None => {},
                    }
                },
            }
        }
    }
}

/// The image of a sequence of decoded chunks.
pub open spec fn chunks_view(v: Seq<ChatChunk>) -> Seq<ChunkView> {
    v.map_values(|c: ChatChunk| c@)
}

/// Decode a stream that is already complete in memory: every chunk that its
/// lines yield, in line order. The unfinished tail, if the input does not end
/// in a line feed, is decoded as a final line, as a closed source delivers it.
pub fn decode_all(input: &[u8]) -> (chunks: Vec<ChatChunk>)
    ensures
        chunks_view(chunks@) == chunks_of_lines(all_lines(input@, true)),
{
    let mut d = ChunkDecoder::new();
    d.feed(input);
    d.close();
    let mut out: Vec<ChatChunk> = Vec::new();
    proof {
        assert(Seq::<u8>::empty() + input@ =~= input@);
        assert(chunks_view(out@) =~= Seq::<ChunkView>::empty());
        assert(chunks_view(out@) + chunks_of_lines(all_lines(input@, true)) =~= chunks_of_lines(
            all_lines(input@, true),
        ));
    }
    loop
        invariant
            d@.closed,
            chunks_view(out@) + chunks_of_lines(all_lines(d@.buf, true)) == chunks_of_lines(
                all_lines(input@, true),
            ),
        decreases d@.buf.len(),
    {
        let ghost prev = d@.buf;
        match d.next_chunk() {
            PullResult::Chunk(c) => {
                proof {
                    lemma_drain_step(prev, true);
                    assert(chunks_view(out@.push(c)) =~= chunks_view(out@).push(c@));
                    assert(chunks_view(out@).push(c@) + chunks_of_lines(all_lines(d@.buf, true))
                        =~= chunks_view(out@) + (seq![c@] + chunks_of_lines(
                        all_lines(d@.buf, true),
                    )));
                }
                out.push(c);
            },
            PullResult::NeedInput | PullResult::Finished => {
                proof {
                    lemma_drain_step(prev, true);
                    assert(chunks_view(out@) + Seq::<ChunkView>::empty() =~= chunks_view(out@));
                }
                return out;
            },
        }
    }
}

} // verus!
