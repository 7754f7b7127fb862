use crate::buffer::{bytes_contents, bytes_slice};
use crate::parser::{
    drain, emitted_consistent, lemma_consistent_append, lemma_consistent_parts,
    lemma_consistent_start, lemma_consistent_take, scan, ParseResult, Parser, Scan,
};
use crate::media::{error_for, token_of};
use crate::parser::{content_type_name, marker_for};
use crate::part::{split_part, Part};
use crate::{Error, HeaderMap};
use bytes::Bytes;
use vstd::prelude::*;
use vstd::utf8::encode_utf8;

verus! {

/// Initial buffer capacity used where none is given.
pub const DEFAULT_BUFFER_CAP: usize = 35000;

/// What the byte source reported when it was last asked.
pub enum SourceEvent {
    /// A new chunk of bytes.
    Chunk(Bytes),
    /// The source is exhausted.
    End,
    /// The source failed; its description.
    Failed(String),
    /// The source has nothing yet.
    Pending,
}

/// What the decoder hands back for one step.
pub enum Step {
    /// The next part.
    Part(Part),
    /// The stream is over: no more parts.
    Done,
    /// The stream failed; no more parts.
    Failed(Error),
    /// No part yet. `poll_again` is set when the source did deliver something, so the
    /// step should be retried without waiting for the source.
    NotReady { poll_again: bool },
}

/// The bytes buffered once `event` is taken in.
pub open spec fn fed(buffered: Seq<u8>, event: SourceEvent) -> Seq<u8> {
    match event {
        SourceEvent::Chunk(b) => buffered + bytes_contents(b),
        _ => buffered,
    }
}

/// A chunk that would make the buffer longer than memory can hold.
pub open spec fn overflows(buffered: Seq<u8>, event: SourceEvent) -> bool {
    event matches SourceEvent::Chunk(b) && buffered.len() + bytes_contents(b).len() > isize::MAX
}

/// `r` is the part held in the raw bytes `raw`.
pub open spec fn is_part_of(r: Step, raw: Seq<u8>) -> bool {
    r matches Step::Part(p) && p.header_block() == split_part(raw).0 && p.body_bytes()
        == split_part(raw).1
}

/// An error that can end a stream once decoding has begun.
pub open spec fn is_stream_failure(e: Error) -> bool {
    e is MalformedMultipart || e is InnerStream
}

/// Two errors of the same kind, with the same message.
pub open spec fn same_failure(a: Error, b: Error) -> bool {
    match (a, b) {
        (Error::MalformedMultipart(x), Error::MalformedMultipart(y)) => x@ == y@,
        (Error::InnerStream(x), Error::InnerStream(y)) => x@ == y@,
        _ => false,
    }
}

/// `r` reports the failure that is stored, `stored`.
pub open spec fn reports(r: Step, stored: Option<Error>) -> bool {
    r matches Step::Failed(f) && stored matches Some(g) && same_failure(f, g)
}

/// A copy of a failure, kept to report it again.
fn copy_failure(e: &Error) -> (r: Error)
    requires
        is_stream_failure(*e),
    ensures
        same_failure(r, *e),
        same_failure(*e, r),
        is_stream_failure(r),
{
    match e {
        Error::InnerStream(m) => Error::InnerStream(m.clone()),
        Error::MalformedMultipart(m) => Error::MalformedMultipart(m.clone()),
        _ => Error::malformed(""),
    }
}

/// Turns the events of a byte source into the parts of a multipart stream, one step
/// at a time. Each step takes in at most one event and then scans once.
pub struct MultipartDecoder {
    parser: Parser,
    inner_done: bool,
    inner_error: Option<String>,
    finished: bool,
    failure: Option<Error>,
    received: Ghost<Seq<u8>>,
    emitted: Ghost<Seq<Seq<u8>>>,
}

impl MultipartDecoder {
    /// Every byte taken in from the source so far, in order.
    pub closed spec fn received(&self) -> Seq<u8> {
        self.received@
    }

    /// The raw bytes of every part handed out so far, in order.
    pub closed spec fn emitted(&self) -> Seq<Seq<u8>> {
        self.emitted@
    }

    /// The parts handed out and the bytes still buffered agree with the bytes received.
    pub closed spec fn wf(&self) -> bool {
        &&& emitted_consistent(
            self.received@,
            self.emitted@,
            self.parser.buffered(),
            self.parser.marker(),
        )
        &&& self.failure matches Some(e) ==> is_stream_failure(e)
        &&& !(self.finished && self.failure is Some)
    }

    /// However the source cut the stream into chunks, and however steps and chunks
    /// alternated, the parts handed out are the first parts of the bytes received, as
    /// one scan after another over all of them at once would take them out; once no
    /// complete part is buffered, they are all of those parts.
    pub proof fn lemma_parts_follow_stream(&self)
        requires
            self.wf(),
        ensures
            drain(self.received(), self.marker()).parts == self.emitted() + drain(
                self.buffered(),
                self.marker(),
            ).parts,
            !(scan(self.buffered(), self.marker()) is Ready) ==> drain(
                self.received(),
                self.marker(),
            ).parts == self.emitted(),
    {
        lemma_consistent_parts(self.received@, self.emitted@, self.parser.buffered(), self.parser.marker());
    }

    /// The framing marker searched for.
    pub closed spec fn marker(&self) -> Seq<u8> {
        self.parser.marker()
    }

    /// The bytes received and not yet consumed.
    pub closed spec fn buffered(&self) -> Seq<u8> {
        self.parser.buffered()
    }

    /// The source is exhausted or has failed.
    pub closed spec fn source_ended(&self) -> bool {
        self.inner_done
    }

    /// The description of the source's failure, if it failed.
    pub closed spec fn source_error(&self) -> Option<Seq<char>> {
        match self.inner_error {
            Some(s) => Some(s@),
            None => None,
        }
    }

    /// The stream has ended cleanly, at its terminating boundary.
    pub closed spec fn finished(&self) -> bool {
        self.finished
    }

    /// The failure that ended the stream, if it failed.
    pub closed spec fn failure(&self) -> Option<Error> {
        self.failure
    }

    /// The stream has ended or failed: no step yields a part any more.
    pub open spec fn terminal(&self) -> bool {
        self.finished() || self.failure() is Some
    }

    /// A decoder for the stream whose headers are `headers`, with room for `capacity`
    /// bytes reserved up front.
    pub fn from_parts_with_capacity<H: HeaderMap>(headers: &H, capacity: usize) -> (r: Result<
        Self,
        Error,
    >)
        requires
            capacity <= isize::MAX,
        ensures
            match r {
                Ok(d) => {
                    &&& token_of(headers.value_text(content_type_name())) matches Some(t)
                    &&& d.marker() == marker_for(encode_utf8(t))
                    &&& d.buffered() == Seq::<u8>::empty()
                    &&& !d.source_ended() && d.source_error() is None && !d.terminal()
                    &&& d.wf()
                    &&& d.received() == Seq::<u8>::empty()
                    &&& d.emitted() == Seq::<Seq<u8>>::empty()
                },
                Err(e) => token_of(headers.value_text(content_type_name())) is None && error_for(
                    headers.value_text(content_type_name()),
                    e,
                ),
            },
    {
        let parser = match Parser::from_with_capacity(headers, capacity) {
            Ok(p) => p,
            Err(e) => return Err(e),
        };
        proof {
            lemma_consistent_start(parser.marker());
        }
        Ok(
            MultipartDecoder {
                parser,
                inner_done: false,
                inner_error: None,
                finished: false,
                failure: None,
                received: Ghost(Seq::empty()),
                emitted: Ghost(Seq::empty()),
            },
        )
    }

    /// Takes in what the source reported, then scans once. A part comes out when one
    /// is complete; the terminating boundary ends the stream; broken framing fails it.
    /// When no part is complete and the source is over, the stream fails: with the
    /// source's error if it failed, else as malformed, since it ended before its
    /// terminating boundary. After the end every step reports the end again, and after
    /// a failure every step reports the same failure again.
    pub fn step(&mut self, event: SourceEvent) -> (r: Step)
        requires
            old(self).wf(),
        ensures
            final(self).wf(),
            final(self).marker() == old(self).marker(),
            old(self).terminal() || overflows(old(self).buffered(), event) ==> final(self).received()
                == old(self).received() && final(self).emitted() == old(self).emitted()
                && final(self).buffered() == old(self).buffered(),
            old(self).finished() ==> r is Done && final(self).finished(),
            old(self).failure() is Some ==> reports(r, old(self).failure()) && final(self).failure()
                == old(self).failure(),
            !old(self).terminal() && overflows(old(self).buffered(), event) ==> (r matches Step::Failed(
                Error::MalformedMultipart(_),
            ) && reports(r, final(self).failure())),
            !old(self).terminal() && !overflows(old(self).buffered(), event) ==> final(self).received()
                == fed(old(self).received(), event),
            !old(self).terminal() && !overflows(old(self).buffered(), event) ==> final(self).emitted()
                == match scan(fed(old(self).buffered(), event), old(self).marker()) {
                Scan::Ready { part, .. } => old(self).emitted().push(part),
                _ => old(self).emitted(),
            },
            !old(self).terminal() && !overflows(old(self).buffered(), event) ==> {
                let before = fed(old(self).buffered(), event);
                let ended = old(self).source_ended() || event is End || event is Failed;
                let error = match event {
                    SourceEvent::Failed(msg) => Some(msg@),
                    _ => old(self).source_error(),
                };
                &&& final(self).source_ended() == ended
                &&& final(self).source_error() == error
                &&& match scan(before, old(self).marker()) {
                    Scan::Ready { part, rest } => is_part_of(r, part) && final(self).buffered()
                        == rest && !final(self).terminal(),
                    Scan::Done => r is Done && final(self).finished(),
                    Scan::Malformed => r matches Step::Failed(Error::MalformedMultipart(_))
                        && reports(r, final(self).failure()),
                    Scan::NotReady => if ended {
                        &&& reports(r, final(self).failure())
                        &&& match error {
                            Some(msg) => r matches Step::Failed(Error::InnerStream(m)) && m@
                                == msg,
                            None => r matches Step::Failed(Error::MalformedMultipart(_)),
                        }
                    } else {
                        r matches Step::NotReady { poll_again } && poll_again == !(event is Pending)
                            && final(self).buffered() == before && !final(self).terminal()
                    },
                }
            },
    {
        if self.finished {
            return Step::Done;
        }
        if let Some(e) = &self.failure {
            return Step::Failed(copy_failure(e));
        }
        let mut poll_again = true;
        match event {
            SourceEvent::Chunk(b) => {
                let chunk = bytes_slice(&b);
                if chunk.len() as u128 + self.parser.buffered_len() as u128 > isize::MAX as u128 {
                    let e = Error::malformed("buffered bytes exceed the memory limit");
                    self.failure = Some(copy_failure(&e));
                    return Step::Failed(e);
                }
                proof {
                    lemma_consistent_append(
                        self.received@,
                        self.emitted@,
                        self.parser.buffered(),
                        chunk@,
                        self.parser.marker(),
                    );
                }
                self.parser.add_bytes(chunk);
                self.received = Ghost(self.received@ + chunk@);
            },
            SourceEvent::End => {
                self.inner_done = true;
            },
            SourceEvent::Failed(msg) => {
                self.inner_done = true;
                self.inner_error = Some(msg);
            },
            SourceEvent::Pending => {
                poll_again = false;
            },
        }
        let ghost before = self.parser.buffered();
        match self.parser.parse() {
            ParseResult::Done => {
                self.finished = true;
                Step::Done
            },
            ParseResult::Failed(e) => {
                self.failure = Some(copy_failure(&e));
                Step::Failed(e)
            },
            ParseResult::Ready(bytes) => {
                proof {
                    lemma_consistent_take(self.received@, self.emitted@, before, self.parser.marker());
                    self.emitted = Ghost(self.emitted@.push(scan(before, self.parser.marker())->part));
                }
                Step::Part(Part::from_bytes(bytes))
            },
            ParseResult::NotReady => {
                if self.inner_done {
                    let e = match &self.inner_error {
                        Some(msg) => Error::InnerStream(msg.clone()),
                        None => Error::malformed("Unexpected end to multipart stream"),
                    };
                    self.failure = Some(copy_failure(&e));
                    Step::Failed(e)
                } else {
                    Step::NotReady { poll_again }
                }
            },
        }
    }
}

} // verus!
