//! Fetching a whole object over one connection: whether the response is the
//! object, where its body ends, and whether the connection can serve again.

use crate::bytes::{decode_lossy, find_crlf2};
#[allow(unused_imports)]
use crate::bytes::{head_end, as_text};
use crate::chunked::{dechunk, Deframer, Phase};
#[allow(unused_imports)]
use crate::chunked::{decode, dechunked, fault_text, law_decoding_adds_no_bytes};
use crate::error::{ErrorKind, FetchError};
#[allow(unused_imports)]
use crate::error::Payload;
use crate::head::{content_length, header_mentions, header_value, response_status, Got};
#[allow(unused_imports)]
use crate::head::{header_of, is_chunked, length_of, says_close, status_of};
use crate::text::{chars_of, push_decimal, starts_with};
#[allow(unused_imports)]
use crate::text::{begins, decimal};
use vstd::prelude::*;

verus! {

/// What became of sending a request and reading the response head.
#[derive(Clone, Copy, Debug, PartialEq, Eq, Structural)]
pub enum Exchange {
    /// A complete head came in.
    Head,
    /// The peer closed the connection first, after part of a head or none.
    Closed { partial: bool },
    /// Writing or reading failed.
    Failed,
}

/// What to do after an exchange.
pub enum ExchangeNext {
    Proceed,
    /// Send the request again on a fresh connection.
    Redial,
    Fail(FetchError),
    /// Give the exchange's own failure to the caller.
    PassOn,
}

/// Decides after an exchange for a whole object. A connection from the pool
/// may have gone stale unnoticed, so one that gave no head is replaced, once;
/// a fresh connection that gives none has failed.
pub fn after_object_exchange(outcome: Exchange, from_pool: bool, redialed: bool) -> (r: ExchangeNext)
    ensures
        match outcome {
            Exchange::Head => r is Proceed,
            _ if from_pool && !redialed => r is Redial,
            Exchange::Closed { .. } => r matches ExchangeNext::Fail(e) && e.says(
                ErrorKind::UnexpectedEof,
                "connection closed before any response headers"@,
            ),
            Exchange::Failed => r is PassOn,
        },
{
    match outcome {
        Exchange::Head => ExchangeNext::Proceed,
        Exchange::Closed { .. } => if from_pool && !redialed {
            ExchangeNext::Redial
        } else {
            ExchangeNext::Fail(
                FetchError::plain(
                    ErrorKind::UnexpectedEof,
                    "connection closed before any response headers",
                ),
            )
        },
        Exchange::Failed => if from_pool && !redialed {
            ExchangeNext::Redial
        } else {
            ExchangeNext::PassOn
        },
    }
}

/// Decides after an exchange for a range, by the same rule.
pub fn after_range_exchange(outcome: Exchange, from_pool: bool, redialed: bool) -> (r: ExchangeNext)
    ensures
        match outcome {
            Exchange::Head => r is Proceed,
            _ if from_pool && !redialed => r is Redial,
            Exchange::Closed { partial } => r matches ExchangeNext::Fail(e) && e.says(
                ErrorKind::UnexpectedEof,
                if partial {
                    "connection closed part-way through the response headers"@
                } else {
                    "connection closed before the response headers arrived"@
                },
            ),
            Exchange::Failed => r is PassOn,
        },
{
    match outcome {
        Exchange::Head => ExchangeNext::Proceed,
        Exchange::Closed { partial } => if from_pool && !redialed {
            ExchangeNext::Redial
        } else if partial {
            ExchangeNext::Fail(
                FetchError::plain(
                    ErrorKind::UnexpectedEof,
                    "connection closed part-way through the response headers",
                ),
            )
        } else {
            ExchangeNext::Fail(
                FetchError::plain(
                    ErrorKind::UnexpectedEof,
                    "connection closed before the response headers arrived",
                ),
            )
        },
        Exchange::Failed => if from_pool && !redialed {
            ExchangeNext::Redial
        } else {
            ExchangeNext::PassOn
        },
    }
}

/// The failure of a transfer that the user stopped.
pub fn cancelled() -> (r: FetchError)
    ensures
        r.says(ErrorKind::Interrupted, "cancelled"@),
{
    FetchError::plain(ErrorKind::Interrupted, "cancelled")
}

/// How the end of a body is known.
#[derive(Clone, Copy, Debug, PartialEq, Eq, Structural)]
pub enum Framing {
    /// By the zero-size chunk.
    Chunked,
    /// By its stated length.
    Length(u64),
    /// By the close of the connection.
    UntilClose,
}

/// The framing that a response head states. Chunking takes precedence over a
/// stated length.
pub open spec fn framing_of(head: Seq<char>) -> Framing {
    if is_chunked(head) {
        Framing::Chunked
    } else {
        match length_of(head) {
            Some(n) => Framing::Length(n as u64),
            None => Framing::UntilClose,
        }
    }
}

/// Whether no further request can be sent on the connection.
pub open spec fn will_close(head: Seq<char>) -> bool {
    says_close(head) || begins(head, "HTTP/1.0"@)
}

/// A response that is the object, and how to read it.
#[derive(Clone, Copy, Debug)]
pub struct ObjectPlan {
    pub framing: Framing,
    pub server_will_close: bool,
}

/// The failure that stands for a redirect: the destination travels with it, or
/// an empty text where the response names none.
pub open spec fn is_redirect_of(e: FetchError, head: Seq<char>) -> bool {
    e.points_to(
        status_of(head) as u16,
        match header_of(head, "location"@) {
            Some(v) => v,
            None => Seq::empty(),
        },
    )
}

fn redirect_of(head: &str, status: u16) -> (r: FetchError)
    requires
        status == status_of(head@),
    ensures
        is_redirect_of(r, head@),
{
    let location = match header_value(head, "location") {
        Some(v) => v,
        None => String::new(),
    };
    FetchError::redirect(status, location)
}

/// Decides whether the response with this head is the object that was asked
/// for as `target`. A redirect is handed to the caller, who owns the URL and
/// the budget for hops.
pub fn accept_object(head: &[u8], target: &str) -> (r: Result<ObjectPlan, FetchError>)
    ensures
        ({
            let h = as_text(head@);
            let status = status_of(h);
            match r {
                Ok(plan) => {
                    &&& 200 <= status < 300
                    &&& plan.framing == framing_of(h)
                    &&& is_chunked(h) ==> plan.framing is Chunked
                    &&& !is_chunked(h) && length_of(h) is Some ==> plan.framing == Framing::Length(
                        length_of(h)->0 as u64,
                    )
                    &&& !is_chunked(h) && length_of(h) is None ==> plan.framing is UntilClose
                    &&& plan.server_will_close == will_close(h)
                    &&& plan.server_will_close == (says_close(h) || begins(h, "HTTP/1.0"@))
                },
                Err(e) => if 300 <= status < 400 {
                    &&& is_redirect_of(e, h)
                    &&& e.payload matches Payload::Redirect(x) && x.status == status
                        && x.location@ == (match header_of(h, "location"@) {
                        Some(v) => v,
                        None => Seq::empty(),
                    })
                } else {
                    !(200 <= status < 300) && e.says(
                        ErrorKind::Other,
                        "server returned "@ + decimal(status as nat) + " for "@ + target@,
                    )
                },
            }
        }),
{
    let text = decode_lossy(head);
    let h = text.as_str();
    let chars = chars_of(h);
    let status: u16 = response_status(chars.as_slice());
    if 300 <= status && status < 400 {
        return Err(redirect_of(h, status));
    }
    if !(200 <= status && status < 300) {
        let mut message = String::from_str("server returned ");
        push_decimal(&mut message, status as u64);
        message.append(" for ");
        message.append(target);
        return Err(FetchError::new(ErrorKind::Other, message));
    }
    let framing = if header_mentions(h, "transfer-encoding", "chunked") {
        Framing::Chunked
    } else {
        match content_length(h) {
            Some(n) => Framing::Length(n),
            None => Framing::UntilClose,
        }
    };
    let old_version = chars_of("HTTP/1.0");
    let server_will_close = header_mentions(h, "connection", "close") || starts_with(
        chars.as_slice(),
        old_version.as_slice(),
    );
    Ok(ObjectPlan { framing, server_will_close })
}

/// Decides whether the response with this head is an object of unstated
/// length, to be read until it ends.
pub fn accept_streaming(head: &[u8]) -> (r: Result<Framing, FetchError>)
    ensures
        ({
            let h = as_text(head@);
            let status = status_of(h);
            match r {
                Ok(framing) => 200 <= status < 300 && framing == (if is_chunked(h) {
                    Framing::Chunked
                } else {
                    Framing::UntilClose
                }),
                Err(e) => !(200 <= status < 300) && e.says(
                    ErrorKind::Other,
                    "server returned "@ + decimal(status as nat) + " for a streaming fetch"@,
                ),
            }
        }),
{
    let text = decode_lossy(head);
    let h = text.as_str();
    let chars = chars_of(h);
    let status: u16 = response_status(chars.as_slice());
    if !(200 <= status && status < 300) {
        let mut message = String::from_str("server returned ");
        push_decimal(&mut message, status as u64);
        message.append(" for a streaming fetch");
        return Err(FetchError::new(ErrorKind::Other, message));
    }
    if header_mentions(h, "transfer-encoding", "chunked") {
        Ok(Framing::Chunked)
    } else {
        Ok(Framing::UntilClose)
    }
}

/// How a body is being read.
pub enum BodyMode {
    Chunked(Deframer),
    /// `over` says that bytes past the stated length came in.
    Length { len: u64, over: bool },
    UntilClose,
}

/// A reader of one body. It says what to write and when to read, and knows at
/// the end whether the body ended where the reading did.
pub struct BodyReader {
    mode: BodyMode,
    total: u64,
}

/// What to do next with the connection.
pub enum BodyNext {
    /// Read, at most `room` bytes where there is a bound.
    Read { room: Option<u64> },
    /// Read the line end behind a chunk; that it never comes is forgiven.
    ReadLineEnd,
    /// The body has ended. `framed` says that nothing of it can be left in the
    /// connection.
    Done { framed: bool },
    Failed(FetchError),
}

/// What to do with what a read gave.
pub enum Take {
    /// The bytes are payload: write them.
    WriteAll,
    /// They are kept; go on with a step.
    Kept,
    Done { framed: bool },
    Failed(FetchError),
    /// Give the read's own failure to the caller.
    PassOn,
}

/// The failure of a body that is shorter than stated.
pub open spec fn cut_short(e: FetchError, total: int, len: int) -> bool {
    e.says(
        ErrorKind::UnexpectedEof,
        "body ended at "@ + decimal(total as nat) + " of "@ + decimal(len as nat) + " bytes"@,
    )
}

impl BodyReader {
    pub closed spec fn mode(self) -> BodyMode {
        self.mode
    }

    /// How many bytes of the object were handed out for writing.
    pub closed spec fn written(self) -> int {
        self.total as int
    }

    /// The bytes that were handed out and those that may still be.
    pub open spec fn load(self) -> int {
        self.written() + match self.mode() {
            BodyMode::Chunked(f) => f.pending().len() as int,
            _ => 0,
        }
    }

    /// No more is written than was stated, and the count cannot overflow.
    pub open spec fn wf(self) -> bool {
        &&& 0 <= self.written()
        &&& self.load() <= u64::MAX
        &&& match self.mode() {
            BodyMode::Chunked(f) => f.wf() && !f.is_strict(),
            BodyMode::Length { len, over } => self.written() <= len,
            BodyMode::UntilClose => true,
        }
    }

    /// Begins with the part of the body that came in with the head. What is
    /// returned beside the reader is to be written at once.
    pub fn start(framing: Framing, first: &[u8]) -> (r: (BodyReader, Vec<u8>))
        ensures
            r.0.wf(),
            r.0.written() == r.1@.len(),
            match framing {
                Framing::Chunked => r.0.mode() matches BodyMode::Chunked(f) && f.at() == Phase::Size
                    && f.pending() == first@ && r.1@.len() == 0,
                Framing::Length(n) => {
                    &&& r.0.mode() == (BodyMode::Length { len: n, over: first@.len() > n })
                    &&& r.1@ == (if first@.len() <= n {
                        first@
                    } else {
                        first@.take(n as int)
                    })
                },
                Framing::UntilClose => r.0.mode() is UntilClose && r.1@ == first@,
            },
    {
        let size: u64 = first.len() as u64;
        match framing {
            Framing::Chunked => (
                BodyReader { mode: BodyMode::Chunked(Deframer::new(false, first)), total: 0 },
                Vec::new(),
            ),
            Framing::Length(n) => {
                let over = size > n;
                let take: usize = if over {
                    n as usize
                } else {
                    first.len()
                };
                let part = vstd::slice::slice_subrange(first, 0, take);
                proof {
                    assert(part@ =~= (if first@.len() <= n {
                        first@
                    } else {
                        first@.take(n as int)
                    }));
                }
                (
                    BodyReader { mode: BodyMode::Length { len: n, over }, total: take as u64 },
                    vstd::slice::slice_to_vec(part),
                )
            },
            Framing::UntilClose => (
                BodyReader { mode: BodyMode::UntilClose, total: size },
                vstd::slice::slice_to_vec(first),
            ),
        }
    }

    /// How many bytes of the object were handed out for writing.
    pub fn total(&self) -> (r: u64)
        ensures
            r == self.written(),
    {
        self.total
    }

    /// Whether the stated length is reached.
    pub fn complete(&self) -> (r: bool)
        ensures
            r == (self.mode() matches BodyMode::Length { len, .. } && self.written() >= len),
    {
        match self.mode {
            BodyMode::Length { len, .. } => self.total >= len,
            _ => false,
        }
    }

    /// Whether `n` more bytes can be counted.
    pub fn can_take(&self, n: usize) -> (r: bool)
        requires
            self.wf(),
        ensures
            r == (self.load() + n <= u64::MAX),
    {
        let held: u64 = match &self.mode {
            BodyMode::Chunked(f) => f.pending_len() as u64,
            _ => 0,
        };
        u64::MAX - self.total - held >= n as u64
    }

    /// Takes out what can be written, and says what to do next.
    pub fn step(&mut self) -> (r: (Vec<u8>, BodyNext))
        requires
            old(self).wf(),
        ensures
            final(self).wf(),
            final(self).written() == old(self).written() + r.0@.len(),
            match old(self).mode() {
                BodyMode::Chunked(f) => {
                    let d = decode(false, f.at(), f.pending());
                    &&& r.0@ == d.payload
                    &&& final(self).mode() matches BodyMode::Chunked(g) && g.at() == d.phase
                        && g.pending() == d.rest
                    &&& match r.1 {
                        BodyNext::Failed(e) => d.fault matches Some(x) && e.says(
                            ErrorKind::InvalidData,
                            fault_text(false, x),
                        ),
                        BodyNext::Done { framed } => d.fault is None && d.phase == Phase::Done
                            && framed == (d.rest.len() == 0),
                        BodyNext::ReadLineEnd => d.fault is None && d.phase == Phase::AfterData,
                        BodyNext::Read { room } => d.fault is None && room is None && d.phase
                            != Phase::Done && d.phase != Phase::AfterData,
                    }
                },
                BodyMode::Length { len, over } => {
                    &&& r.0@.len() == 0
                    &&& final(self).mode() == old(self).mode()
                    &&& if old(self).written() < len {
                        r.1 matches BodyNext::Read { room } && room == Some(
                            (len - old(self).written()) as u64,
                        )
                    } else {
                        &&& r.1 matches BodyNext::Done { framed } && framed == !over
                        &&& final(self).written() == len
                    }
                },
                BodyMode::UntilClose => {
                    &&& r.0@.len() == 0
                    &&& final(self).mode() == old(self).mode()
                    &&& r.1 matches BodyNext::Read { room } && room is None
                },
            },
    {
        let ghost held = self.mode;
        match &mut self.mode {
            BodyMode::Chunked(f) => {
                proof {
                    law_decoding_adds_no_bytes(false, f.at(), f.pending());
                }
                let out = f.advance();
                let next = match out.fault {
                    Some(e) => BodyNext::Failed(e),
                    None => match f.phase() {
                        Phase::Done => BodyNext::Done { framed: f.is_drained() },
                        Phase::AfterData => BodyNext::ReadLineEnd,
                        _ => BodyNext::Read { room: None },
                    },
                };
                self.total = self.total + out.payload.len() as u64;
                (out.payload, next)
            },
            BodyMode::Length { len, over } => {
                let len: u64 = *len;
                let over: bool = *over;
                if self.total < len {
                    (Vec::new(), BodyNext::Read { room: Some(len - self.total) })
                } else {
                    (Vec::new(), BodyNext::Done { framed: !over })
                }
            },
            BodyMode::UntilClose => (Vec::new(), BodyNext::Read { room: None }),
        }
    }

    /// Takes what a read gave that a step asked for. An unclean close is how
    /// many servers end a body; the bytes already read are still valid.
    pub fn take(&mut self, got: Got) -> (r: Take)
        requires
            old(self).wf(),
            got matches Got::Bytes(b) ==> {
                &&& old(self).load() + b@.len() <= u64::MAX
                &&& old(self).mode() matches BodyMode::Length { len, .. } ==> old(self).written()
                    + b@.len() <= len
            },
        ensures
            final(self).wf(),
            match got {
                Got::Bytes(b) => match old(self).mode() {
                    BodyMode::Chunked(f) => {
                        &&& r is Kept
                        &&& final(self).mode() matches BodyMode::Chunked(g) && g.at() == f.at()
                            && g.pending() == f.pending() + b@
                        &&& final(self).written() == old(self).written()
                    },
                    _ => {
                        &&& r is WriteAll
                        &&& final(self).mode() == old(self).mode()
                        &&& final(self).written() == old(self).written() + b@.len()
                    },
                },
                Got::Failed(kind) if kind != ErrorKind::UnexpectedEof => r is PassOn
                    && *final(self) == *old(self),
                _ => {
                    &&& *final(self) == *old(self)
                    &&& match old(self).mode() {
                        BodyMode::Length { len, over } => if old(self).written() < len {
                            r matches Take::Failed(e) && cut_short(
                                e,
                                old(self).written(),
                                len as int,
                            )
                        } else {
                            r matches Take::Done { framed } && framed == !over
                        },
                        _ => r matches Take::Done { framed } && !framed,
                    }
                },
            },
    {
        match got {
            Got::Bytes(b) => match &mut self.mode {
                BodyMode::Chunked(f) => {
                    f.feed(b);
                    Take::Kept
                },
                _ => {
                    self.total = self.total + b.len() as u64;
                    Take::WriteAll
                },
            },
            Got::End => self.ended(),
            Got::Failed(kind) => if kind == ErrorKind::UnexpectedEof {
                self.ended()
            } else {
                Take::PassOn
            },
        }
    }

    fn ended(&self) -> (r: Take)
        ensures
            match self.mode() {
                BodyMode::Length { len, over } => if self.written() < len {
                    r matches Take::Failed(e) && cut_short(e, self.written(), len as int)
                } else {
                    r matches Take::Done { framed } && framed == !over
                },
                _ => r matches Take::Done { framed } && !framed,
            },
    {
        match self.mode {
            BodyMode::Length { len, over } => {
                if self.total < len {
                    let mut message = String::from_str("body ended at ");
                    push_decimal(&mut message, self.total);
                    message.append(" of ");
                    push_decimal(&mut message, len);
                    message.append(" bytes");
                    Take::Failed(FetchError::new(ErrorKind::UnexpectedEof, message))
                } else {
                    Take::Done { framed: !over }
                }
            },
            _ => Take::Done { framed: false },
        }
    }

    /// Takes what a read for the line end behind a chunk gave: where nothing
    /// came, reading goes on at the next size line.
    pub fn take_line_end(&mut self, got: Got)
        requires
            old(self).wf(),
            got matches Got::Bytes(b) ==> old(self).load() + b@.len() <= u64::MAX,
            old(self).mode() is Chunked,
        ensures
            final(self).wf(),
            final(self).written() == old(self).written(),
            final(self).mode() matches BodyMode::Chunked(g) && old(self).mode()
                matches BodyMode::Chunked(f) && match got {
                Got::Bytes(b) => g.at() == f.at() && g.pending() == f.pending() + b@,
                _ => g.pending() == f.pending() && g.at() == (if f.at() == Phase::AfterData {
                    Phase::Size
                } else {
                    f.at()
                }),
            },
    {
        if let BodyMode::Chunked(f) = &mut self.mode {
            match got {
                Got::Bytes(b) => f.feed(b),
                _ => f.give_up_on_line_end(),
            }
        }
    }
}

/// Whether the connection goes back to the pool: only when it is known where
/// the body ended, and the server keeps it open.
pub fn may_pool(framed: bool, server_will_close: bool) -> (r: bool)
    ensures
        r == (framed && !server_will_close),
{
    framed && !server_will_close
}

/// What to do after a read of a small response.
pub enum SmallNext {
    More,
    /// The response is complete.
    Ended,
    /// Give the read's own failure to the caller.
    PassOn,
    Failed(FetchError),
}

/// Collects a small response, head and body together. It stops once there is
/// more than an object of `cap` bytes and a head can account for.
pub fn small_step(response: &mut Vec<u8>, got: Got, cap: usize) -> (r: SmallNext)
    ensures
        match got {
            Got::Bytes(b) => {
                &&& final(response)@ == old(response)@ + b@
                &&& if final(response)@.len() > cap + 8192 {
                    r matches SmallNext::Failed(e) && e.says(
                        ErrorKind::Other,
                        "response exceeds the small-fetch cap"@,
                    )
                } else {
                    r is More
                }
            },
            Got::Failed(kind) if kind != ErrorKind::UnexpectedEof => r is PassOn && final(response)@
                == old(response)@,
            _ => r is Ended && final(response)@ == old(response)@,
        },
{
    match got {
        Got::Bytes(b) => {
            response.extend_from_slice(b);
            proof {
                assert(response@ =~= old(response)@ + b@);
            }
            if response.len() > 8192 && response.len() - 8192 > cap {
                SmallNext::Failed(
                    FetchError::plain(ErrorKind::Other, "response exceeds the small-fetch cap"),
                )
            } else {
                SmallNext::More
            }
        },
        Got::End => SmallNext::Ended,
        Got::Failed(kind) => if kind == ErrorKind::UnexpectedEof {
            SmallNext::Ended
        } else {
            SmallNext::PassOn
        },
    }
}

/// Takes the object out of a complete small response. One of more than `cap`
/// bytes is refused, never cut: what is left of it could pass for the whole.
pub fn small_object(response: &[u8], cap: usize) -> (r: Result<Vec<u8>, FetchError>)
    ensures
        match head_end(response@) {
            None => r matches Err(e) && e.says(ErrorKind::InvalidData, "no header terminator"@),
            Some(start) => {
                let h = as_text(response@.take(start));
                let status = status_of(h);
                let body = response@.skip(start);
                let object = if is_chunked(h) {
                    dechunked(body)
                } else {
                    body
                };
                match r {
                    Ok(b) => 200 <= status < 300 && object.len() <= cap && b@ == object,
                    Err(e) => if 300 <= status < 400 {
                        is_redirect_of(e, h)
                    } else if !(200 <= status < 300) {
                        e.says(ErrorKind::Other, "server returned "@ + decimal(status as nat))
                    } else {
                        object.len() > cap && e.says(
                            ErrorKind::Other,
                            "response exceeds the small-fetch cap"@,
                        )
                    },
                }
            },
        },
{
    let start: usize = match find_crlf2(response) {
        Some(p) => p,
        None => {
            return Err(FetchError::plain(ErrorKind::InvalidData, "no header terminator"));
        },
    };
    let head = vstd::slice::slice_subrange(response, 0, start);
    let body = vstd::slice::slice_subrange(response, start, response.len());
    proof {
        assert(head@ =~= response@.take(start as int));
        assert(body@ =~= response@.skip(start as int));
    }
    let text = decode_lossy(head);
    let h = text.as_str();
    let chars = chars_of(h);
    let status: u16 = response_status(chars.as_slice());
    if 300 <= status && status < 400 {
        return Err(redirect_of(h, status));
    }
    if !(200 <= status && status < 300) {
        let mut message = String::from_str("server returned ");
        push_decimal(&mut message, status as u64);
        return Err(FetchError::new(ErrorKind::Other, message));
    }
    let object = if header_mentions(h, "transfer-encoding", "chunked") {
        dechunk(body)
    } else {
        vstd::slice::slice_to_vec(body)
    };
    if object.len() > cap {
        return Err(
            FetchError::plain(ErrorKind::Other, "response exceeds the small-fetch cap"),
        );
    }
    Ok(object)
}

/// The end of a body is known by its chunks where it is chunked, whatever length
/// is stated; else by the stated length; else only by the close.
pub proof fn law_chunking_takes_precedence(head: Seq<char>)
    ensures
        is_chunked(head) ==> framing_of(head) is Chunked,
        !is_chunked(head) && length_of(head) is Some ==> framing_of(head) == Framing::Length(
            length_of(head)->0 as u64,
        ),
        !is_chunked(head) && length_of(head) is None ==> framing_of(head) is UntilClose,
        will_close(head) <==> says_close(head) || begins(head, "HTTP/1.0"@),
{
}

/// A redirect keeps its status and its destination, which is empty where none is
/// named.
pub proof fn law_a_redirect_keeps_its_destination(e: FetchError, head: Seq<char>)
    requires
        is_redirect_of(e, head),
    ensures
        e.payload matches Payload::Redirect(x) && x.status == status_of(head) as u16 && x.location@
            == (match header_of(head, "location"@) {
            Some(v) => v,
            None => Seq::empty(),
        }),
{
}

/// A body that stops short is an error that says how far it came.
pub proof fn law_a_short_body_is_an_error(e: FetchError, total: nat, len: nat)
    requires
        cut_short(e, total as int, len as int),
    ensures
        e.kind == ErrorKind::UnexpectedEof,
        e.text() == "body ended at "@ + decimal(total) + " of "@ + decimal(len) + " bytes"@,
{
}

} // verus!
