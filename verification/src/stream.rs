//! The reading side of a proxied TCP connection.
//!
//! The server answers a TCP request with a response header, and what follows it on the stream
//! is application data. With fast-open the header is stripped lazily on the first read, so that
//! application data can flow out right away.

use vstd::prelude::*;

use crate::tcp;
use crate::tcp::TcpResponseParse;
use crate::wire;

verus! {

/// Why a proxied connection cannot be read.
#[derive(Debug, Clone, Copy, PartialEq, Eq, Structural)]
pub enum StreamError {
    /// The server does not make the connection.
    Rejected,
    /// A length field of the response exceeds its limit.
    Malformed,
    /// The stream ended before the response did.
    ClosedEarly,
}

impl StreamError {
    /// The error in words.
    pub open spec fn text(self) -> Seq<char> {
        match self {
            StreamError::Rejected => "hysteria2: server rejected tcp_connect"@,
            StreamError::Malformed => "hysteria2: malformed TCPResponse (length guard exceeded)"@,
            StreamError::ClosedEarly => "hysteria2: stream closed before TCPResponse"@,
        }
    }

    /// The error in words.
    pub fn message(&self) -> (s: &'static str)
        ensures
            s@ == self.text(),
    {
        match self {
            StreamError::Rejected => "hysteria2: server rejected tcp_connect",
            StreamError::Malformed => "hysteria2: malformed TCPResponse (length guard exceeded)",
            StreamError::ClosedEarly => "hysteria2: stream closed before TCPResponse",
        }
    }
}

/// How far the response header has got.
#[derive(Debug, Clone, Copy, PartialEq, Eq, Structural)]
pub enum Establish {
    /// It has been stripped.
    Ready,
    /// More has to be received first.
    NeedMore,
    /// There is no connection.
    Failed(StreamError),
}

/// The state of a [`DuplexStream`].
pub ghost struct ReadState {
    /// Whether the response header has been stripped.
    pub response_done: bool,
    /// What was received before that.
    pub scratch: Seq<u8>,
    /// What was received with the header and belongs to the application.
    pub leftover: Seq<u8>,
}

impl ReadState {
    /// The state before anything was received.
    pub open spec fn start() -> ReadState {
        ReadState { response_done: false, scratch: Seq::empty(), leftover: Seq::empty() }
    }

    /// Nothing belongs to the application before the header is gone, and nothing to the header
    /// after.
    pub open spec fn wf(self) -> bool {
        if self.response_done {
            self.scratch.len() == 0
        } else {
            self.leftover.len() == 0
        }
    }

    /// How far the header has got.
    pub open spec fn progress(self) -> Establish {
        if self.response_done {
            Establish::Ready
        } else {
            match tcp::tcp_response(self.scratch) {
                TcpResponseParse::NeedMore => Establish::NeedMore,
                TcpResponseParse::Invalid => Establish::Failed(StreamError::Malformed),
                TcpResponseParse::Done { ok, .. } => if ok {
                    Establish::Ready
                } else {
                    Establish::Failed(StreamError::Rejected)
                },
            }
        }
    }

    /// The state with the header stripped, if it is all there and good.
    pub open spec fn stripped(self) -> ReadState {
        if self.response_done || !(self.progress() is Ready) {
            self
        } else {
            let consumed = tcp::tcp_response(self.scratch)->consumed;
            ReadState {
                response_done: true,
                scratch: Seq::empty(),
                leftover: self.scratch.skip(consumed as int),
            }
        }
    }

    /// The state after `data` was received where more was needed.
    pub open spec fn with(self, data: Seq<u8>) -> ReadState {
        ReadState { scratch: self.scratch + data, ..self }
    }
}

/// The state after `chunks` were received one after the other, and all that the application can
/// read of them.
pub open spec fn read_through(chunks: Seq<Seq<u8>>) -> (ReadState, Seq<u8>)
    decreases chunks.len(),
{
    if chunks.len() == 0 {
        (ReadState::start(), Seq::empty())
    } else {
        let (s, app) = read_through(chunks.drop_last());
        if s.response_done {
            (s, app + chunks.last())
        } else if s.progress() is NeedMore {
            let t = s.with(chunks.last()).stripped();
            (t, t.leftover)
        } else {
            (s, app)
        }
    }
}

/// However the stream is cut into chunks, the application reads exactly the bytes that follow
/// the response header, and reads nothing if the response is not good or not complete.
pub proof fn law_application_data_is_what_follows(chunks: Seq<Seq<u8>>)
    ensures
        ({
            let whole = chunks.flatten();
            let (s, app) = read_through(chunks);
            match tcp::tcp_response(whole) {
                TcpResponseParse::Done { ok: true, consumed } => {
                    &&& s.response_done
                    &&& app == whole.skip(consumed as int)
                },
                TcpResponseParse::Done { ok: false, .. } => {
                    &&& s.progress() == Establish::Failed(StreamError::Rejected)
                    &&& app.len() == 0
                },
                TcpResponseParse::Invalid => {
                    &&& s.progress() == Establish::Failed(StreamError::Malformed)
                    &&& app.len() == 0
                },
                TcpResponseParse::NeedMore => {
                    &&& s == ReadState::start().with(whole)
                    &&& app.len() == 0
                },
            }
        }),
    decreases chunks.len(),
{
    if chunks.len() == 0 {
        assert(chunks.flatten() =~= Seq::<u8>::empty());
        assert(ReadState::start().with(chunks.flatten()).scratch =~= Seq::empty());
    } else {
        let before = chunks.drop_last();
        let chunk = chunks.last();
        law_application_data_is_what_follows(before);
        assert(chunks =~= before.push(chunk));
        chunks.lemma_flatten_and_flatten_alt_are_equivalent();
        before.lemma_flatten_and_flatten_alt_are_equivalent();
        let whole = before.flatten();
        let now = chunks.flatten();
        assert(now =~= whole + chunk);
        let (s, app) = read_through(before);
        match tcp::tcp_response(whole) {
            TcpResponseParse::NeedMore => {
                assert(s.with(chunk).scratch =~= now);
                assert(ReadState::start().with(now).scratch =~= now);
            },
            TcpResponseParse::Done { ok, consumed } => {
                tcp::law_response_verdict_stands(whole, chunk);
                tcp::lemma_consumed(whole);
                assert(now.skip(consumed as int) =~= whole.skip(consumed as int) + chunk);
            },
            TcpResponseParse::Invalid => {
                tcp::law_response_verdict_stands(whole, chunk);
            },
        }
    }
}

/// The reading side of a proxied TCP connection over a QUIC bidirectional stream.
pub struct DuplexStream {
    response_done: bool,
    scratch: Vec<u8>,
    leftover: Vec<u8>,
    leftover_pos: usize,
}

impl View for DuplexStream {
    type V = ReadState;

    closed spec fn view(&self) -> ReadState {
        ReadState {
            response_done: self.response_done,
            scratch: self.scratch@,
            leftover: self.leftover@.skip(self.leftover_pos as int),
        }
    }
}

impl DuplexStream {
    /// The state is valid.
    pub closed spec fn wf(&self) -> bool {
        &&& self.leftover_pos <= self.leftover@.len()
        &&& self@.wf()
    }

    /// A stream of which nothing was received yet.
    pub fn new() -> (s: DuplexStream)
        ensures
            s@ == ReadState::start(),
            s.wf(),
    {
        let s = DuplexStream {
            response_done: false,
            scratch: Vec::new(),
            leftover: Vec::new(),
            leftover_pos: 0,
        };
        assert(s@.leftover =~= Seq::empty());
        s
    }

    /// Strip the response header if it is all there.
    pub fn poll_establish(&mut self) -> (r: Establish)
        requires
            old(self).wf(),
        ensures
            r == old(self)@.progress(),
            final(self)@ == old(self)@.stripped(),
            final(self).wf(),
    {
        if self.response_done {
            return Establish::Ready;
        }
        match tcp::parse_tcp_response(self.scratch.as_slice()) {
            TcpResponseParse::NeedMore => Establish::NeedMore,
            TcpResponseParse::Invalid => Establish::Failed(StreamError::Malformed),
            TcpResponseParse::Done { ok, consumed } => {
                if !ok {
                    return Establish::Failed(StreamError::Rejected);
                }
                let ghost all = self.scratch@;
                let rest = vstd::slice::slice_subrange(
                    self.scratch.as_slice(),
                    consumed,
                    self.scratch.len(),
                );
                let leftover = vstd::slice::slice_to_vec(rest);
                assert(leftover@ =~= all.skip(consumed as int));
                *self = DuplexStream {
                    response_done: true,
                    scratch: Vec::new(),
                    leftover,
                    leftover_pos: 0,
                };
                assert(self@.leftover =~= all.skip(consumed as int));
                assert(self@.scratch =~= Seq::empty());
                Establish::Ready
            },
        }
    }

    /// Take in what was received while the response header was incomplete. Receiving nothing
    /// means that the stream has ended.
    pub fn received(&mut self, data: &[u8]) -> (r: Result<(), StreamError>)
        requires
            old(self).wf(),
            old(self)@.progress() is NeedMore,
        ensures
            final(self).wf(),
            match r {
                Ok(()) => data@.len() > 0 && final(self)@ == old(self)@.with(data@),
                Err(e) => {
                    &&& data@.len() == 0
                    &&& e == StreamError::ClosedEarly
                    &&& final(self)@ == old(self)@
                },
            },
    {
        if data.len() == 0 {
            return Err(StreamError::ClosedEarly);
        }
        self.scratch.extend_from_slice(data);
        assert(self@.scratch =~= old(self)@.scratch + data@);
        Ok(())
    }

    /// Hand out what was received with the header and belongs to the application, as much as
    /// fits into `out`. Returns how many bytes that is, or `None` if there is nothing left, in
    /// which case data is read from the stream directly.
    pub fn drain(&mut self, out: &mut [u8]) -> (r: Option<usize>)
        requires
            old(self).wf(),
            old(self)@.response_done,
        ensures
            final(self).wf(),
            match r {
                Some(n) => {
                    &&& old(self)@.leftover.len() > 0
                    &&& n == if old(self)@.leftover.len() <= old(out)@.len() {
                        old(self)@.leftover.len()
                    } else {
                        old(out)@.len()
                    }
                    &&& final(out)@ == old(self)@.leftover.take(n as int) + old(out)@.skip(n as int)
                    &&& final(self)@ == (ReadState {
                        leftover: old(self)@.leftover.skip(n as int),
                        ..old(self)@
                    })
                },
                None => {
                    &&& old(self)@.leftover.len() == 0
                    &&& final(self)@ == old(self)@
                    &&& final(out)@ == old(out)@
                },
            },
    {
        let end: usize = self.leftover.len();
        let at: usize = self.leftover_pos;
        if at >= end {
            return None;
        }
        let ghost left = self@.leftover;
        let ghost before = out@;
        let room: usize = out.len();
        let n: usize = if end - at <= room {
            end - at
        } else {
            room
        };
        let head = vstd::slice::slice_subrange(self.leftover.as_slice(), at, at + n);
        assert(head@ =~= left.take(n as int));
        wire::copy_into(out, 0, head);
        assert(out@ =~= left.take(n as int) + before.skip(n as int));
        self.leftover_pos = at + n;
        assert(self@.leftover =~= left.skip(n as int));
        Some(n)
    }
}

/// Before anything is received nothing is done; what is received is kept in order.
pub proof fn law_received_is_kept(s: ReadState, a: Seq<u8>, b: Seq<u8>)
    ensures
        !ReadState::start().response_done,
        ReadState::start().scratch.len() == 0,
        ReadState::start().leftover.len() == 0,
        s.with(a).scratch == s.scratch + a,
        s.with(a).with(b).scratch == s.scratch + a + b,
        s.with(a).response_done == s.response_done,
        s.with(a).leftover == s.leftover,
{
}

/// Stripping is done once and leaves nothing behind: a good response hands over exactly what
/// follows it; otherwise all stays as it was, and a stream that was stripped stays so.
pub proof fn law_stripping(s: ReadState)
    ensures
        s.response_done ==> s.progress() is Ready && s.stripped() == s,
        !s.response_done ==> match tcp::tcp_response(s.scratch) {
            TcpResponseParse::NeedMore => s.progress() is NeedMore && s.stripped() == s,
            TcpResponseParse::Invalid => s.progress() == Establish::Failed(StreamError::Malformed)
                && s.stripped() == s,
            TcpResponseParse::Done { ok, consumed } => if ok {
                &&& s.progress() is Ready
                &&& s.stripped().response_done
                &&& s.stripped().scratch.len() == 0
                &&& s.stripped().leftover == s.scratch.skip(consumed as int)
            } else {
                s.progress() == Establish::Failed(StreamError::Rejected) && s.stripped() == s
            },
        },
{
}

/// The errors in words.
pub proof fn law_error_texts()
    ensures
        StreamError::Rejected.text() == "hysteria2: server rejected tcp_connect"@,
        StreamError::Malformed.text()
            == "hysteria2: malformed TCPResponse (length guard exceeded)"@,
        StreamError::ClosedEarly.text() == "hysteria2: stream closed before TCPResponse"@,
{
}

/// Chunks are taken in one after the other: behind the header they go to the application as they
/// are, before that they wait until the header is complete, and after a failure they are not
/// looked at.
pub proof fn law_chunks_in_order(chunks: Seq<Seq<u8>>, chunk: Seq<u8>)
    ensures
        read_through(Seq::empty()) == (ReadState::start(), Seq::<u8>::empty()),
        ({
            let (s, app) = read_through(chunks);
            let (t, more) = read_through(chunks.push(chunk));
            &&& s.response_done ==> t == s && more == app + chunk
            &&& s.progress() is NeedMore ==> t == s.with(chunk).stripped() && more == t.leftover
            &&& s.progress() is Failed ==> t == s && more == app
        }),
{
    assert(chunks.push(chunk).drop_last() =~= chunks);
}

} // verus!
