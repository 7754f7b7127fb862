use crate::buffer::{
    buffer_advance, buffer_contents, buffer_extend, buffer_freeze, buffer_slice, buffer_split_to,
    buffer_with_capacity, bytes_contents, bytes_slice,
};
use crate::search::{
    find_bytes, first_occurrence, is_first_occurrence, lemma_first_in_suffix,
    lemma_first_occurrence_extend, lemma_first_occurrence_is, lemma_no_occurrence,
    lemma_none_in_suffix, lemma_occurs_append, occurs_at,
};
use crate::media::{boundary_from_content_type, error_for, token_of};
use crate::{Error, HeaderMap};
use bytes::{Bytes, BytesMut};
use vstd::prelude::*;
use vstd::string::StringSliceAdditionalSpecFns;
use vstd::utf8::encode_utf8;

verus! {

/// Carriage return.
pub const CR: u8 = 13;

/// Line feed.
pub const LF: u8 = 10;

/// The hyphen of `--`.
pub const DASH: u8 = 45;

/// The name of the header that carries the media type.
pub open spec fn content_type_name() -> Seq<char> {
    seq!['C', 'o', 'n', 't', 'e', 'n', 't', '-', 'T', 'y', 'p', 'e']
}

/// The framing marker for a boundary token: `--` followed by the token.
pub open spec fn marker_for(token: Seq<u8>) -> Seq<u8> {
    seq![DASH, DASH] + token
}

/// What one scan of the buffered bytes finds.
pub enum Scan {
    /// No complete part yet: more bytes are needed.
    NotReady,
    /// The terminating boundary was reached.
    Done,
    /// A boundary is followed by something other than CRLF or `--`, or the next
    /// boundary leaves no room for the CRLF that ends a part.
    Malformed,
    /// A complete part, and the bytes that stay buffered after it.
    Ready { part: Seq<u8>, rest: Seq<u8> },
}

/// One scan of `buf` with framing marker `m`. Anything before the first marker is
/// preamble. The two bytes after it decide: CRLF opens a part, which runs up to two
/// bytes before the next marker (those two bytes are the CRLF that closes it); `--`
/// ends the stream. After a part, the buffer keeps the next marker and what follows.
pub open spec fn scan(buf: Seq<u8>, m: Seq<u8>) -> Scan {
    match first_occurrence(buf, m) {
        None => Scan::NotReady,
        Some(i) => {
            let s = i + m.len();
            if buf.len() < s + 2 {
                Scan::NotReady
            } else if buf[s] == CR && buf[s + 1] == LF {
                let tail = buf.subrange(s + 2, buf.len() as int);
                match first_occurrence(tail, m) {
                    None => Scan::NotReady,
                    Some(j) => if j < 2 {
                        Scan::Malformed
                    } else {
                        Scan::Ready {
                            part: tail.subrange(0, j - 2),
                            rest: tail.subrange(j, tail.len() as int),
                        }
                    },
                }
            } else if buf[s] == DASH && buf[s + 1] == DASH {
                Scan::Done
            } else {
                Scan::Malformed
            }
        },
    }
}

/// The outcome of one parse step.
#[derive(Debug)]
pub enum ParseResult {
    /// The terminating boundary was reached: no more parts.
    Done,
    /// More bytes are needed before a part is complete.
    NotReady,
    /// The raw bytes of one part: its header block and body.
    Ready(Bytes),
    /// The framing is broken.
    Failed(Error),
}

/// `r` reports the scan of `before`, and `after` is what stays buffered.
pub open spec fn parse_outcome(before: Seq<u8>, m: Seq<u8>, r: ParseResult, after: Seq<u8>) -> bool {
    match scan(before, m) {
        Scan::NotReady => r is NotReady && after == before,
        Scan::Done => r is Done && after == before,
        Scan::Malformed => r matches ParseResult::Failed(Error::MalformedMultipart(_)) && after
            == before,
        Scan::Ready { part, rest } => r matches ParseResult::Ready(b) && bytes_contents(b) == part
            && after == rest,
    }
}

/// The parser chosen for a stream, by its `Content-Type`.
pub enum Parser {
    Boundary(BoundaryParser),
}

impl Parser {
    /// The framing marker searched for.
    pub open spec fn marker(&self) -> Seq<u8> {
        match self {
            Parser::Boundary(p) => p.marker(),
        }
    }

    /// The bytes received and not yet consumed.
    pub open spec fn buffered(&self) -> Seq<u8> {
        match self {
            Parser::Boundary(p) => p.buffered(),
        }
    }

    /// Reads the boundary from the `Content-Type` header and makes a parser for it,
    /// with room for `capacity` bytes reserved up front. Nothing is buffered yet.
    pub fn from_with_capacity<H: HeaderMap>(headers: &H, capacity: usize) -> (r: Result<
        Self,
        Error,
    >)
        requires
            capacity <= isize::MAX,
        ensures
            match r {
                Ok(p) => token_of(headers.value_text(content_type_name())) matches Some(t)
                    && p.marker() == marker_for(encode_utf8(t)) && p.buffered() == Seq::<
                    u8,
                >::empty(),
                Err(e) => token_of(headers.value_text(content_type_name())) is None && error_for(
                    headers.value_text(content_type_name()),
                    e,
                ),
            },
    {
        let name = "Content-Type";
        proof {
            reveal_strlit("Content-Type");
        }
        assert(name@ == content_type_name());
        match boundary_from_content_type(headers.get_value(name)) {
            Ok(boundary) => Ok(
                Parser::Boundary(BoundaryParser::with_capacity(boundary.as_str(), capacity)),
            ),
            Err(e) => Err(e),
        }
    }

    /// The number of bytes received and not yet consumed.
    pub fn buffered_len(&self) -> (r: usize)
        ensures
            r == self.buffered().len(),
    {
        match self {
            Parser::Boundary(inner) => inner.buffered_len(),
        }
    }

    /// Appends the bytes of a frozen buffer.
    pub fn add_buf(&mut self, chunk: Bytes)
        requires
            old(self).buffered().len() + bytes_contents(chunk).len() <= isize::MAX,
        ensures
            final(self).marker() == old(self).marker(),
            final(self).buffered() == old(self).buffered() + bytes_contents(chunk),
    {
        match self {
            Parser::Boundary(inner) => inner.add_buf(chunk),
        }
    }

    /// Appends a chunk of bytes.
    pub fn add_bytes(&mut self, bs: &[u8])
        requires
            old(self).buffered().len() + bs@.len() <= isize::MAX,
        ensures
            final(self).marker() == old(self).marker(),
            final(self).buffered() == old(self).buffered() + bs@,
    {
        match self {
            Parser::Boundary(inner) => inner.add_bytes(bs),
        }
    }

    /// Scans the buffered bytes once and, where a whole part is there, takes it out.
    pub fn parse(&mut self) -> (r: ParseResult)
        ensures
            final(self).marker() == old(self).marker(),
            parse_outcome(old(self).buffered(), old(self).marker(), r, final(self).buffered()),
    {
        match self {
            Parser::Boundary(inner) => inner.parse(),
        }
    }
}

/// The first marker of `buf` is there and is followed by CRLF: a part has begun.
pub open spec fn in_part(buf: Seq<u8>, m: Seq<u8>) -> bool {
    first_occurrence(buf, m) matches Some(i) && buf.len() >= i + m.len() + 2 && buf[i + m.len()]
        == CR && buf[i + m.len() + 1] == LF
}

/// The bytes of a begun part and after: what follows the first marker and its CRLF.
pub open spec fn part_tail(buf: Seq<u8>, m: Seq<u8>) -> Seq<u8> {
    buf.subrange(first_occurrence(buf, m)->Some_0 + m.len() + 2, buf.len() as int)
}

/// No occurrence of `m` starts before `h` in `text`, and every position before `h`
/// leaves room for `m` inside `text` (so appending bytes cannot create one there).
pub open spec fn clear_before(text: Seq<u8>, m: Seq<u8>, h: int) -> bool {
    &&& h <= 0 || h + m.len() <= text.len() + 1
    &&& forall|p: int| 0 <= p < h ==> !#[trigger] occurs_at(text, m, p)
}

/// What the searches already ruled out: `first` positions of the buffer hold no
/// marker; once a part has begun, `tail` positions of what follows its CRLF hold none
/// either (before that, `tail` is zero).
pub open spec fn scan_hints(buf: Seq<u8>, m: Seq<u8>, first: int, tail: int) -> bool {
    &&& clear_before(buf, m, first)
    &&& if in_part(buf, m) {
        clear_before(part_tail(buf, m), m, tail)
    } else {
        tail == 0
    }
}

/// Appended bytes keep a stretch free of the marker.
pub proof fn lemma_clear_before_append(text: Seq<u8>, more: Seq<u8>, m: Seq<u8>, h: int)
    requires
        clear_before(text, m, h),
    ensures
        clear_before(text + more, m, h),
{
    assert forall|p: int| 0 <= p < h implies !#[trigger] occurs_at(text + more, m, p) by {
        assert(!occurs_at(text, m, p));
        lemma_occurs_append(text, more, m, p);
    }
}

/// Appended bytes keep what the searches ruled out.
pub proof fn lemma_scan_hints_append(buf: Seq<u8>, more: Seq<u8>, m: Seq<u8>, first: int, tail: int)
    requires
        scan_hints(buf, m, first, tail),
    ensures
        scan_hints(buf + more, m, first, tail),
{
    let ab = buf + more;
    lemma_clear_before_append(buf, more, m, first);
    if in_part(buf, m) {
        let i = first_occurrence(buf, m)->Some_0;
        assert(is_first_occurrence(buf, m, i));
        lemma_first_occurrence_extend(buf, more, m, i);
        assert(ab[i + m.len()] == buf[i + m.len()]);
        assert(ab[i + m.len() + 1] == buf[i + m.len() + 1]);
        assert(in_part(ab, m));
        let t = part_tail(buf, m);
        assert(part_tail(ab, m) =~= t + more);
        lemma_clear_before_append(t, more, m, tail);
    }
}

/// Splits a multipart byte stream at a fixed boundary, one part at a time.
///
/// It remembers how far each search found no marker, so that bytes appended later are
/// searched from there (less the marker's length) instead of from the start.
#[derive(Debug)]
pub struct BoundaryParser {
    boundary: Vec<u8>,
    buffer: BytesMut,
    first_scanned: usize,
    tail_scanned: usize,
}

impl BoundaryParser {
    #[verifier::type_invariant]
    spec fn well_formed(self) -> bool {
        &&& self.boundary@.len() > 0
        &&& scan_hints(
            buffer_contents(self.buffer),
            self.boundary@,
            self.first_scanned as int,
            self.tail_scanned as int,
        )
    }

    /// The framing marker searched for.
    pub closed spec fn marker(&self) -> Seq<u8> {
        self.boundary@
    }

    /// The bytes received and not yet consumed.
    pub closed spec fn buffered(&self) -> Seq<u8> {
        buffer_contents(self.buffer)
    }

    /// A parser for the boundary token `boundary`, with room for `capacity` bytes
    /// reserved up front.
    pub fn with_capacity(boundary: &str, capacity: usize) -> (r: Self)
        requires
            capacity <= isize::MAX,
        ensures
            r.marker() == marker_for(boundary.spec_bytes()),
            r.buffered() == Seq::<u8>::empty(),
    {
        let token = boundary.as_bytes();
        let mut marker: Vec<u8> = Vec::new();
        marker.push(DASH);
        marker.push(DASH);
        let mut k: usize = 0;
        while k < token.len()
            invariant
                k <= token@.len(),
                marker@ == seq![DASH, DASH] + token@.subrange(0, k as int),
            decreases token@.len() - k,
        {
            marker.push(token[k]);
            k = k + 1;
            assert(marker@ =~= seq![DASH, DASH] + token@.subrange(0, k as int));
        }
        assert(token@.subrange(0, token@.len() as int) =~= token@);
        BoundaryParser {
            boundary: marker,
            buffer: buffer_with_capacity(capacity),
            first_scanned: 0,
            tail_scanned: 0,
        }
    }

    /// The number of bytes received and not yet consumed.
    pub fn buffered_len(&self) -> (r: usize)
        ensures
            r == self.buffered().len(),
    {
        buffer_slice(&self.buffer).len()
    }

    /// Appends the bytes of a frozen buffer.
    pub fn add_buf(&mut self, chunk: Bytes)
        requires
            old(self).buffered().len() + bytes_contents(chunk).len() <= isize::MAX,
        ensures
            final(self).marker() == old(self).marker(),
            final(self).buffered() == old(self).buffered() + bytes_contents(chunk),
    {
        let more = bytes_slice(&chunk);
        proof {
            use_type_invariant(&*self);
            lemma_scan_hints_append(
                self.buffered(),
                more@,
                self.marker(),
                self.first_scanned as int,
                self.tail_scanned as int,
            );
        }
        buffer_extend(&mut self.buffer, more);
    }

    /// Appends a chunk of bytes.
    pub fn add_bytes(&mut self, bs: &[u8])
        requires
            old(self).buffered().len() + bs@.len() <= isize::MAX,
        ensures
            final(self).marker() == old(self).marker(),
            final(self).buffered() == old(self).buffered() + bs@,
    {
        proof {
            use_type_invariant(&*self);
            lemma_scan_hints_append(
                self.buffered(),
                bs@,
                self.marker(),
                self.first_scanned as int,
                self.tail_scanned as int,
            );
        }
        buffer_extend(&mut self.buffer, bs);
    }

    /// Scans the buffered bytes once and, where a whole part is there, takes it out.
    pub fn parse(&mut self) -> (r: ParseResult)
        ensures
            final(self).marker() == old(self).marker(),
            parse_outcome(old(self).buffered(), old(self).marker(), r, final(self).buffered()),
    {
        proof {
            use_type_invariant(&*self);
        }
        let ghost before = self.buffered();
        let ghost m = self.marker();
        let buf = buffer_slice(&self.buffer);
        let marker = self.boundary.as_slice();
        if buf.len() < marker.len() {
            proof {
                lemma_no_occurrence(before, m);
            }
            return ParseResult::NotReady;
        }
        // Positions before `from` were searched by an earlier call and hold no marker.
        let from = self.first_scanned;
        if from > 0 {
            assert(from + m.len() <= before.len() + 1);
        }
        let i = match find_bytes(&buf[from..buf.len()], marker) {
            None => {
                proof {
                    lemma_none_in_suffix(before, m, from as int);
                    lemma_no_occurrence(before, m);
                }
                self.first_scanned = buf.len() - marker.len() + 1;
                return ParseResult::NotReady;
            },
            Some(j) => {
                proof {
                    lemma_first_in_suffix(before, m, from as int, j as int);
                }
                from + j
            },
        };
        proof {
            lemma_first_occurrence_is(before, m, i as int);
        }
        let s = i + marker.len();
        if buf.len() - s < 2 {
            return ParseResult::NotReady;
        }
        if buf[s] == CR && buf[s + 1] == LF {
        } else if buf[s] == DASH && buf[s + 1] == DASH {
            return ParseResult::Done;
        } else {
            return ParseResult::Failed(
                Error::malformed("boundary must be followed by `--` or CRLF"),
            );
        }
        let start = s + 2;
        let tail = &buf[start..buf.len()];
        let ghost t = tail@;
        assert(t == before.subrange(start as int, before.len() as int));
        assert(in_part(before, m) && part_tail(before, m) == t);
        // Likewise for the search of the part's end.
        let from2 = self.tail_scanned;
        if from2 > 0 {
            assert(from2 + m.len() <= t.len() + 1);
        }
        let j = match find_bytes(&tail[from2..tail.len()], marker) {
            None => {
                proof {
                    lemma_none_in_suffix(t, m, from2 as int);
                    lemma_no_occurrence(t, m);
                }
                if tail.len() >= marker.len() {
                    self.tail_scanned = tail.len() - marker.len() + 1;
                }
                return ParseResult::NotReady;
            },
            Some(k) => {
                proof {
                    lemma_first_in_suffix(t, m, from2 as int, k as int);
                }
                from2 + k
            },
        };
        proof {
            lemma_first_occurrence_is(t, m, j as int);
        }
        if j < 2 {
            return ParseResult::Failed(
                Error::malformed("boundary must be preceded by the CRLF that ends a part"),
            );
        }
        self.first_scanned = 0;
        self.tail_scanned = 0;
        buffer_advance(&mut self.buffer, start);
        assert(buffer_contents(self.buffer) =~= t);
        let part = buffer_split_to(&mut self.buffer, j - 2);
        buffer_advance(&mut self.buffer, 2);
        assert(buffer_contents(self.buffer) =~= t.subrange(j as int, t.len() as int));
        ParseResult::Ready(buffer_freeze(part))
    }
}


/// The parts that repeated scans of `buf` take out, the scan that stopped them, and
/// the bytes left buffered then.
pub struct Drained {
    pub parts: Seq<Seq<u8>>,
    pub end: Scan,
    pub rest: Seq<u8>,
}

/// Scans `buf` again and again, taking out each complete part, until a scan finds
/// no complete part.
pub open spec fn drain(buf: Seq<u8>, m: Seq<u8>) -> Drained
    decreases buf.len(),
{
    match scan(buf, m) {
        Scan::Ready { part, rest } => if rest.len() < buf.len() {
            let d = drain(rest, m);
            Drained { parts: seq![part] + d.parts, end: d.end, rest: d.rest }
        } else {
            Drained { parts: seq![part], end: Scan::NotReady, rest }
        },
        other => Drained { parts: Seq::empty(), end: other, rest: buf },
    }
}

/// Appends `more` to what a drain left buffered and drains again; once the stream
/// has ended or failed, nothing more comes out.
pub open spec fn drain_more(d: Drained, more: Seq<u8>, m: Seq<u8>) -> Drained {
    if d.end is NotReady {
        let e = drain(d.rest + more, m);
        Drained { parts: d.parts + e.parts, end: e.end, rest: e.rest }
    } else {
        Drained { parts: d.parts, end: d.end, rest: d.rest + more }
    }
}

/// The chunks, one after another.
pub open spec fn joined(chunks: Seq<Seq<u8>>) -> Seq<u8>
    decreases chunks.len(),
{
    if chunks.len() == 0 {
        Seq::empty()
    } else {
        joined(chunks.drop_last()) + chunks.last()
    }
}

/// Feeds the chunks in order, draining after each one.
pub open spec fn drain_chunks(chunks: Seq<Seq<u8>>, m: Seq<u8>) -> Drained
    decreases chunks.len(),
{
    if chunks.len() == 0 {
        drain(Seq::empty(), m)
    } else {
        drain_more(drain_chunks(chunks.drop_last(), m), chunks.last(), m)
    }
}

/// CR LF.
pub open spec fn crlf() -> Seq<u8> {
    seq![CR, LF]
}

/// The stream that frames `parts` with marker `m`: each part opened by the marker and
/// CRLF and closed by CRLF, then the marker and `--`.
pub open spec fn framed(parts: Seq<Seq<u8>>, m: Seq<u8>) -> Seq<u8>
    decreases parts.len(),
{
    if parts.len() == 0 {
        m + seq![DASH, DASH]
    } else {
        m + crlf() + parts[0] + crlf() + framed(parts.drop_first(), m)
    }
}

/// A part can be framed: after it and the closing CRLF, the next marker is the first
/// place where the marker occurs (it occurs neither inside the part nor across its end).
pub open spec fn part_fits(p: Seq<u8>, m: Seq<u8>) -> bool {
    is_first_occurrence(p + crlf() + m, m, p.len() + 2int)
}

/// A part taken out by a scan is followed by strictly fewer buffered bytes.
pub proof fn lemma_scan_consumes(buf: Seq<u8>, m: Seq<u8>)
    ensures
        scan(buf, m) matches Scan::Ready { rest, .. } ==> rest.len() < buf.len(),
{
    if let Some(i) = first_occurrence(buf, m) {
        assert(is_first_occurrence(buf, m, i));
    }
}

/// Once a scan of `a` has decided (a part, the end, or an error), bytes appended to
/// `a` do not change the decision; they only stay buffered.
pub proof fn lemma_scan_append(a: Seq<u8>, b: Seq<u8>, m: Seq<u8>)
    requires
        !(scan(a, m) is NotReady),
    ensures
        scan(a + b, m) == (match scan(a, m) {
            Scan::Ready { part, rest } => Scan::Ready { part, rest: rest + b },
            other => other,
        }),
{
    let i = first_occurrence(a, m)->Some_0;
    assert(is_first_occurrence(a, m, i));
    lemma_first_occurrence_extend(a, b, m, i);
    let ab = a + b;
    let s = i + m.len();
    assert(ab[s] == a[s] && ab[s + 1] == a[s + 1]);
    if a[s] == CR && a[s + 1] == LF {
        let ta = a.subrange(s + 2, a.len() as int);
        let tab = ab.subrange(s + 2, ab.len() as int);
        assert(tab =~= ta + b);
        let j = first_occurrence(ta, m)->Some_0;
        assert(is_first_occurrence(ta, m, j));
        lemma_first_occurrence_extend(ta, b, m, j);
        if j >= 2 {
            assert(tab.subrange(0, j - 2) =~= ta.subrange(0, j - 2));
            assert(tab.subrange(j, tab.len() as int) =~= ta.subrange(j, ta.len() as int) + b);
        }
    }
}

/// Splitting the input in two does not change what comes out: draining `a`, then
/// appending `b` to what is left and draining again, gives the same parts, the same
/// end and the same leftover bytes as draining `a + b` at once.
pub proof fn lemma_drain_append(a: Seq<u8>, b: Seq<u8>, m: Seq<u8>)
    ensures
        drain(a + b, m) == drain_more(drain(a, m), b, m),
    decreases a.len(),
{
    lemma_scan_consumes(a, m);
    match scan(a, m) {
        Scan::NotReady => {
            assert(Seq::<Seq<u8>>::empty() + drain(a + b, m).parts =~= drain(a + b, m).parts);
        },
        Scan::Ready { part, rest } => {
            lemma_scan_append(a, b, m);
            lemma_drain_append(rest, b, m);
            let d = drain(rest, m);
            if d.end is NotReady {
                let e = drain(d.rest + b, m);
                assert(seq![part] + (d.parts + e.parts) =~= (seq![part] + d.parts) + e.parts);
            }
        },
        _ => {
            lemma_scan_append(a, b, m);
        },
    }
}

/// A stream fed in chunks, with the parts drained after each chunk, gives exactly
/// the parts, end and leftover bytes of the whole stream fed at once, however the
/// chunks cut it (through a boundary marker too).
pub proof fn lemma_chunking_invariant(chunks: Seq<Seq<u8>>, m: Seq<u8>)
    ensures
        drain_chunks(chunks, m) == drain(joined(chunks), m),
    decreases chunks.len(),
{
    if chunks.len() > 0 {
        lemma_chunking_invariant(chunks.drop_last(), m);
        lemma_drain_append(joined(chunks.drop_last()), chunks.last(), m);
    }
}

/// `d`, with `emitted` taken out before it.
pub open spec fn after_emitted(emitted: Seq<Seq<u8>>, d: Drained) -> Drained {
    Drained { parts: emitted + d.parts, end: d.end, rest: d.rest }
}

/// The parts `emitted` so far, with `buf` still buffered, agree with the stream
/// `received` so far, whatever bytes come next: draining all of it gives the emitted
/// parts, then what draining the buffer with those bytes gives.
pub open spec fn emitted_consistent(
    received: Seq<u8>,
    emitted: Seq<Seq<u8>>,
    buf: Seq<u8>,
    m: Seq<u8>,
) -> bool {
    forall|more: Seq<u8>| #[trigger]
        drain(received + more, m) == after_emitted(emitted, drain(buf + more, m))
}

/// Before any byte arrives, nothing is emitted and nothing buffered.
pub proof fn lemma_consistent_start(m: Seq<u8>)
    ensures
        emitted_consistent(Seq::empty(), Seq::empty(), Seq::empty(), m),
{
    assert forall|more: Seq<u8>| #[trigger]
        drain(Seq::<u8>::empty() + more, m) == after_emitted(
            Seq::empty(),
            drain(Seq::<u8>::empty() + more, m),
        ) by {
        let d = drain(Seq::<u8>::empty() + more, m);
        assert(Seq::<Seq<u8>>::empty() + d.parts =~= d.parts);
    }
}

/// A chunk appended to the buffer keeps it in step with the stream.
pub proof fn lemma_consistent_append(
    received: Seq<u8>,
    emitted: Seq<Seq<u8>>,
    buf: Seq<u8>,
    chunk: Seq<u8>,
    m: Seq<u8>,
)
    requires
        emitted_consistent(received, emitted, buf, m),
    ensures
        emitted_consistent(received + chunk, emitted, buf + chunk, m),
{
    assert forall|more: Seq<u8>| #[trigger]
        drain((received + chunk) + more, m) == after_emitted(
            emitted,
            drain((buf + chunk) + more, m),
        ) by {
        assert((received + chunk) + more =~= received + (chunk + more));
        assert((buf + chunk) + more =~= buf + (chunk + more));
        assert(drain(received + (chunk + more), m) == after_emitted(
            emitted,
            drain(buf + (chunk + more), m),
        ));
    }
}

/// A part taken out of the buffer joins the emitted parts in step with the stream.
pub proof fn lemma_consistent_take(
    received: Seq<u8>,
    emitted: Seq<Seq<u8>>,
    buf: Seq<u8>,
    m: Seq<u8>,
)
    requires
        emitted_consistent(received, emitted, buf, m),
        scan(buf, m) is Ready,
    ensures
        emitted_consistent(received, emitted.push(scan(buf, m)->part), scan(buf, m)->rest, m),
{
    let part = scan(buf, m)->part;
    let rest = scan(buf, m)->rest;
    assert forall|more: Seq<u8>| #[trigger]
        drain(received + more, m) == after_emitted(emitted.push(part), drain(rest + more, m)) by {
        assert(drain(received + more, m) == after_emitted(emitted, drain(buf + more, m)));
        lemma_scan_append(buf, more, m);
        lemma_scan_consumes(buf + more, m);
        let d = drain(rest + more, m);
        assert(emitted + (seq![part] + d.parts) =~= emitted.push(part) + d.parts);
    }
}

/// Whatever the order in which chunks are appended and parts taken out, the parts
/// taken out so far are the first parts of the whole stream received so far; once a
/// scan finds no complete part, they are all of them.
pub proof fn lemma_consistent_parts(
    received: Seq<u8>,
    emitted: Seq<Seq<u8>>,
    buf: Seq<u8>,
    m: Seq<u8>,
)
    requires
        emitted_consistent(received, emitted, buf, m),
    ensures
        drain(received, m).parts == emitted + drain(buf, m).parts,
        !(scan(buf, m) is Ready) ==> drain(received, m).parts == emitted,
{
    assert(received + Seq::<u8>::empty() =~= received);
    assert(buf + Seq::<u8>::empty() =~= buf);
    assert(drain(received + Seq::<u8>::empty(), m) == after_emitted(
        emitted,
        drain(buf + Seq::<u8>::empty(), m),
    ));
    if !(scan(buf, m) is Ready) {
        assert(emitted + Seq::<Seq<u8>>::empty() =~= emitted);
    }
}

/// A framed stream drains to exactly its parts and then to the end, with no error.
pub proof fn lemma_framed_drains(parts: Seq<Seq<u8>>, m: Seq<u8>)
    requires
        forall|k: int| 0 <= k < parts.len() ==> part_fits(#[trigger] parts[k], m),
    ensures
        drain(framed(parts, m), m).parts == parts,
        drain(framed(parts, m), m).end is Done,
    decreases parts.len(),
{
    let buf = framed(parts, m);
    assert(buf.subrange(0, m.len() as int) =~= m);
    assert(is_first_occurrence(buf, m, 0));
    lemma_first_occurrence_is(buf, m, 0);
    lemma_scan_consumes(buf, m);
    if parts.len() == 0 {
        assert(buf[m.len() as int] == DASH);
    } else {
        let p = parts[0];
        let ps = parts.drop_first();
        let f = framed(ps, m);
        assert(part_fits(parts[0], m));
        assert(f.subrange(0, m.len() as int) =~= m) by {
            if ps.len() == 0 {
            } else {
            }
        }
        let g = f.subrange(m.len() as int, f.len() as int);
        assert(f =~= m + g);
        let s = m.len() as int;
        assert(buf[s] == CR && buf[s + 1] == LF);
        let tail = buf.subrange(s + 2, buf.len() as int);
        assert(tail =~= (p + crlf() + m) + g);
        lemma_first_occurrence_extend(p + crlf() + m, g, m, p.len() + 2int);
        assert(tail.subrange(0, p.len() as int) =~= p);
        assert(tail.subrange(p.len() + 2int, tail.len() as int) =~= f);
        assert forall|k: int| 0 <= k < ps.len() implies part_fits(#[trigger] ps[k], m) by {
            assert(ps[k] == parts[k + 1]);
        }
        lemma_framed_drains(ps, m);
        assert(seq![p] + ps =~= parts);
    }
}

/// A boundary followed by two bytes that are neither CRLF nor `--` is a framing
/// error, whatever else is buffered.
pub proof fn lemma_bad_sentinel_is_malformed(buf: Seq<u8>, m: Seq<u8>, i: int)
    requires
        is_first_occurrence(buf, m, i),
        i + m.len() + 2 <= buf.len(),
        !(buf[i + m.len()] == CR && buf[i + m.len() + 1] == LF),
        !(buf[i + m.len()] == DASH && buf[i + m.len() + 1] == DASH),
    ensures
        scan(buf, m) is Malformed,
{
    lemma_first_occurrence_is(buf, m, i);
}

} // verus!
