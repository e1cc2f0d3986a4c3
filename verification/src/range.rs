//! Fetching one byte range: whether the response is the range that was asked
//! for, which of its bytes may be written, when the connection can serve again,
//! and what to do when an attempt fails.

use crate::bytes::decode_lossy;
#[allow(unused_imports)]
use crate::bytes::as_text;
use crate::chunked::Run;
use crate::error::{ErrorKind, FetchError};
use crate::head::{header_mentions, header_value, parse_content_range_start, response_status};
#[allow(unused_imports)]
use crate::head::{header_of, is_chunked, range_start, says_close, status_of};
#[allow(unused_imports)]
use crate::probe::{first_place, moves};
use crate::request::{retarget, Retarget};
#[allow(unused_imports)]
use crate::request::hop_of;
use crate::text::{
    chars_of, cut_before, find_text, push_decimal, starts_with, string_of, trim,
};
#[allow(unused_imports)]
use crate::text::{
    before_first, begins, decimal, law_decimal_reads_back, lemma_first_of_at, occurs, stands_at,
    text_of, trimmed,
};
use vstd::prelude::*;

verus! {

/// A response that is the range, and what its head says of it.
#[derive(Clone, Copy, Debug)]
pub struct RangePlan {
    /// A partial response, as opposed to the whole object from its start.
    pub partial: bool,
    pub chunked: bool,
    pub server_will_close: bool,
}

/// What a response to a range request turns out to be.
pub enum RangeAnswer {
    Body(RangePlan),
    /// The server asks to be left alone; `retry_after` is its own word on for
    /// how long.
    Throttled { status: u16, retry_after: Option<String> },
    Refused(FetchError),
}

/// The failure that stands for a response that is not the range from `lo` on.
pub open spec fn refusal(e: FetchError, head: Seq<char>, lo: int) -> bool {
    let status = status_of(head);
    let first = match header_of(head, "content-range"@) {
        Some(v) => range_start(v),
        None => None,
    };
    if status == 206 {
        match first {
            None => e.says(ErrorKind::InvalidData, "206 without a parsable Content-Range"@),
            Some(n) => e.says(
                ErrorKind::InvalidData,
                "206 Content-Range starts at "@ + decimal(n as nat) + ", requested "@ + decimal(
                    lo as nat,
                ),
            ),
        }
    } else if status == 200 {
        e.says(
            ErrorKind::InvalidData,
            "server ignored Range and sent 200 for a request from offset "@ + decimal(lo as nat),
        )
    } else if moves(status) {
        e.says(
            ErrorKind::NotConnected,
            "redirect:"@ + match header_of(head, "location"@) {
                Some(v) => v,
                None => Seq::empty(),
            },
        )
    } else {
        e.says(
            ErrorKind::InvalidData,
            "unexpected status "@ + decimal(status as nat) + " for a range request"@,
        )
    }
}

/// Whether a response with this head holds the bytes from `lo` on: a partial
/// response that says so itself, or the whole object when `lo` is its start.
pub open spec fn is_range_from(head: Seq<char>, lo: int) -> bool {
    ||| status_of(head) == 206 && (match header_of(head, "content-range"@) {
        Some(v) => range_start(v) == Some(lo),
        None => false,
    })
    ||| status_of(head) == 200 && lo == 0
}

/// Decides what the response to a request for the bytes from `lo` on is. Bytes
/// are only ever accepted for the offsets at which they belong.
pub fn accept_range(head: &[u8], lo: u64) -> (r: RangeAnswer)
    ensures
        ({
            let h = as_text(head@);
            let status = status_of(h);
            match r {
                RangeAnswer::Body(plan) => {
                    &&& is_range_from(h, lo as int)
                    &&& plan.partial == (status == 206)
                    &&& plan.chunked == is_chunked(h)
                    &&& plan.server_will_close == says_close(h)
                },
                RangeAnswer::Throttled { status: s, retry_after } => {
                    &&& status == 429 || status == 503
                    &&& s == status
                    &&& text_of(retry_after) == header_of(h, "retry-after"@)
                },
                RangeAnswer::Refused(e) => {
                    &&& !is_range_from(h, lo as int)
                    &&& status != 429 && status != 503
                    &&& refusal(e, h, lo as int)
                },
            }
        }),
        ({
            let h = as_text(head@);
            let status = status_of(h);
            let first = match header_of(h, "content-range"@) {
                Some(v) => range_start(v),
                None => None,
            };
            &&& status == 206 && first == Some(lo as int) ==> r is Body
            &&& status == 206 && first != Some(lo as int) ==> r is Refused
            &&& status == 200 ==> (r is Body <==> lo == 0)
            &&& status == 200 && lo > 0 ==> r is Refused
            &&& status == 429 || status == 503 ==> r is Throttled
            &&& status != 200 && status != 206 && status != 429 && status != 503 ==> r is Refused
        }),
{
    let text = decode_lossy(head);
    let h = text.as_str();
    let chars = chars_of(h);
    let status: u16 = response_status(chars.as_slice());
    if status == 206 {
        let first: Option<u64> = match header_value(h, "content-range") {
            Some(v) => parse_content_range_start(v.as_str()),
            None => None,
        };
        match first {
            None => {
                return RangeAnswer::Refused(
                    FetchError::plain(
                        ErrorKind::InvalidData,
                        "206 without a parsable Content-Range",
                    ),
                );
            },
            Some(n) => if n != lo {
                let mut message = String::from_str("206 Content-Range starts at ");
                push_decimal(&mut message, n);
                message.append(", requested ");
                push_decimal(&mut message, lo);
                return RangeAnswer::Refused(FetchError::new(ErrorKind::InvalidData, message));
            },
        }
    } else if status == 200 {
        if lo != 0 {
            let mut message = String::from_str(
                "server ignored Range and sent 200 for a request from offset ",
            );
            push_decimal(&mut message, lo);
            return RangeAnswer::Refused(FetchError::new(ErrorKind::InvalidData, message));
        }
    } else if status == 429 || status == 503 {
        return RangeAnswer::Throttled { status, retry_after: header_value(h, "retry-after") };
    } else if status == 301 || status == 302 || status == 303 || status == 307 || status == 308 {
        let mut message = String::from_str("redirect:");
        if let Some(v) = header_value(h, "location") {
            message.append(v.as_str());
        } else {
            proof {
                assert("redirect:"@ + Seq::<char>::empty() =~= "redirect:"@);
            }
        }
        return RangeAnswer::Refused(FetchError::new(ErrorKind::NotConnected, message));
    } else {
        let mut message = String::from_str("unexpected status ");
        push_decimal(&mut message, status as u64);
        message.append(" for a range request");
        return RangeAnswer::Refused(FetchError::new(ErrorKind::InvalidData, message));
    }
    RangeAnswer::Body(
        RangePlan {
            partial: status == 206,
            chunked: header_mentions(h, "transfer-encoding", "chunked"),
            server_will_close: header_mentions(h, "connection", "close"),
        },
    )
}

/// The last byte position that is asked for when the range ends at `hi`.
pub fn last_byte(hi: u64) -> (r: u64)
    ensures
        r == (if hi == 0 {
            0
        } else {
            hi - 1
        }),
{
    if hi == 0 {
        0
    } else {
        hi - 1
    }
}

/// An unframed body of a range. The far end may move towards the start while
/// the body streams in, because its tail was given to another connection; no
/// byte at or past it is written from then on.
pub struct RangeBody {
    lo: u64,
    off: u64,
    asked: u64,
    bound: u64,
    over_read: bool,
}

impl RangeBody {
    /// The bytes from the start of the range up to the cursor are written.
    pub closed spec fn wf(self) -> bool {
        &&& self.lo <= self.off
        &&& self.lo <= self.asked
    }

    /// The first byte of the range.
    pub closed spec fn start(self) -> u64 {
        self.lo
    }

    /// Where the next byte goes.
    pub closed spec fn next_off(self) -> u64 {
        self.off
    }

    /// The far end at the time of the request.
    pub closed spec fn asked(self) -> u64 {
        self.asked
    }

    /// The far end as it was last seen.
    pub closed spec fn bound(self) -> u64 {
        self.bound
    }

    /// Bytes past the range came in with the head.
    pub closed spec fn over_read(self) -> bool {
        self.over_read
    }

    /// Begins with the part of the body that came in with the head; the run is
    /// to be written.
    pub fn begin(lo: u64, hi: u64, first: &[u8]) -> (r: (RangeBody, Run))
        requires
            lo <= hi,
        ensures
            r.0.wf(),
            r.0.start() == lo,
            r.0.asked() == hi,
            r.0.bound() == hi,
            r.0.over_read() == (first@.len() > hi - lo),
            r.1.off == lo,
            r.1.bytes@ == (if first@.len() <= hi - lo {
                first@
            } else {
                first@.take(hi - lo)
            }),
            r.0.next_off() == lo + r.1.bytes@.len(),
    {
        let room: u64 = hi - lo;
        let over_read = first.len() as u64 > room;
        let take: usize = if over_read {
            room as usize
        } else {
            first.len()
        };
        let part = vstd::slice::slice_subrange(first, 0, take);
        proof {
            assert(part@ =~= (if first@.len() <= hi - lo {
                first@
            } else {
                first@.take(hi - lo)
            }));
        }
        (
            RangeBody { lo, off: lo + take as u64, asked: hi, bound: hi, over_read },
            Run { off: lo, bytes: vstd::slice::slice_to_vec(part) },
        )
    }

    /// How many bytes to read next, where any are still wanted.
    pub fn wanted(&self) -> (r: Option<u64>)
        ensures
            r == (if self.next_off() < self.bound() {
                Some((self.bound() - self.next_off()) as u64)
            } else {
                None
            }),
    {
        if self.off < self.bound {
            Some(self.bound - self.off)
        } else {
            None
        }
    }

    /// Takes what a read gave, once the far end has been looked up again. The
    /// result is how many of the bytes to write at which offset; where it is
    /// `None`, reading stops.
    pub fn take(&mut self, n: usize, bound_now: u64) -> (r: Option<(u64, usize)>)
        requires
            old(self).wf(),
        ensures
            final(self).wf(),
            final(self).start() == old(self).start(),
            final(self).asked() == old(self).asked(),
            final(self).over_read() == old(self).over_read(),
            n == 0 ==> r is None && *final(self) == *old(self),
            n > 0 ==> final(self).bound() == bound_now,
            n > 0 ==> match r {
                Some((off, m)) => {
                    &&& off == old(self).next_off()
                    &&& off < bound_now
                    &&& off + m == final(self).next_off()
                },
                None => old(self).next_off() >= bound_now,
            },
            n > 0 && old(self).next_off() + n <= bound_now ==> r == Some(
                (old(self).next_off(), n),
            ),
            n > 0 && old(self).next_off() < bound_now < old(self).next_off() + n
                ==> final(self).next_off() == bound_now,
            n > 0 ==> final(self).next_off() == read_on(
                old(self).next_off() as int,
                n as int,
                bound_now as int,
            ),
    {
        if n == 0 {
            return None;
        }
        self.bound = bound_now;
        let off: u64 = self.off;
        if off >= bound_now {
            return None;
        }
        let room: u64 = bound_now - off;
        let m: usize = if n as u64 <= room {
            n
        } else {
            room as usize
        };
        self.off = off + m as u64;
        Some((off, m))
    }

    /// Whether the connection can serve another request, with the far end now
    /// at `hi_final`: the response was partial and came in exactly, its end was
    /// reached and never moved, and the server keeps the connection open.
    pub fn may_pool(&self, plan: RangePlan, hi_final: u64) -> (r: bool)
        ensures
            r == (plan.partial && !self.over_read() && hi_final >= self.asked()
                && !plan.server_will_close && self.next_off() >= hi_final),
    {
        plan.partial && !self.over_read && !(hi_final < self.asked) && !plan.server_will_close
            && self.off >= hi_final
    }

    /// Whether the range is complete, with the far end now at `hi_final`. That
    /// the far end moved is no failure; that the body stopped short is.
    pub fn finish(&self, hi_final: u64) -> (r: Result<(), FetchError>)
        requires
            self.wf(),
        ensures
            match r {
                Ok(_) => self.next_off() >= hi_final,
                Err(e) => self.next_off() < hi_final && e.says(
                    ErrorKind::UnexpectedEof,
                    "connection closed after "@ + decimal((self.next_off() - self.start()) as nat)
                        + " of "@ + decimal((hi_final - self.start()) as nat)
                        + " bytes of the requested range"@,
                ),
            },
    {
        if self.off < hi_final {
            let mut message = String::from_str("connection closed after ");
            push_decimal(&mut message, self.off - self.lo);
            message.append(" of ");
            push_decimal(&mut message, hi_final - self.lo);
            message.append(" bytes of the requested range");
            return Err(FetchError::new(ErrorKind::UnexpectedEof, message));
        }
        Ok(())
    }
}

/// The text between `retry after ` and the next `s`, where the message holds
/// such a phrase at `i`.
pub open spec fn wait_at(msg: Seq<char>, i: int) -> Seq<char> {
    let rest = msg.skip(i + "retry after "@.len());
    trimmed(before_first(before_phrase(rest), 's'))
}

/// What stands before the next `retry after ` in `s`, or all of it.
pub open spec fn before_phrase(s: Seq<char>) -> Seq<char> {
    if occurs(s, "retry after "@) {
        s.take(choose|i: int| first_place(s, "retry after "@, i))
    } else {
        s
    }
}

/// How many seconds a throttle message asks to wait, as the text of a number.
pub open spec fn wait_in(msg: Seq<char>) -> Option<Seq<char>> {
    if occurs(msg, "retry after "@) {
        Some(wait_at(msg, choose|i: int| first_place(msg, "retry after "@, i)))
    } else {
        None
    }
}

proof fn lemma_first_place(s: Seq<char>, p: Seq<char>, i: int)
    requires
        first_place(s, p, i),
    ensures
        occurs(s, p),
        i == choose|k: int| first_place(s, p, k),
{
    let k = choose|k: int| first_place(s, p, k);
    assert(first_place(s, p, k));
    if k < i {
        assert(!stands_at(s, p, k));
    } else if i < k {
        assert(!stands_at(s, p, i));
    }
}

/// Finds how many seconds a throttle message asks to wait, as the text of a
/// number.
pub fn wait_text(msg: &str) -> (r: Option<String>)
    ensures
        text_of(r) == wait_in(msg@),
{
    let text = chars_of(msg);
    let phrase = chars_of("retry after ");
    let n: usize = text.len();
    match find_text(text.as_slice(), phrase.as_slice()) {
        None => None,
        Some(i) => {
            proof {
                assert(first_place(msg@, "retry after "@, i as int));
                lemma_first_place(msg@, "retry after "@, i as int);
            }
            let rest = vstd::slice::slice_subrange(text.as_slice(), i + phrase.len(), n);
            proof {
                assert(rest@ =~= msg@.skip(i + "retry after "@.len()));
            }
            let part = match find_text(rest, phrase.as_slice()) {
                None => rest,
                Some(k) => {
                    proof {
                        assert(first_place(rest@, "retry after "@, k as int));
                        lemma_first_place(rest@, "retry after "@, k as int);
                        assert(rest@.subrange(0, k as int) =~= rest@.take(k as int));
                    }
                    vstd::slice::slice_subrange(rest, 0, k)
                },
            };
            Some(string_of(trim(cut_before(part, 's'))))
        },
    }
}

/// What to do with a part whose attempt is over.
pub enum RetryNext {
    /// The part is complete.
    Done,
    /// Try again from where the bytes stop.
    Again,
    /// Wait for as long as the message asks, then try again.
    BackOff,
    /// Try again at the place that the redirect names.
    Follow(Retarget),
    Fail(FetchError),
}

/// The attempts at one part: a part is retried in place, on its own.
pub struct Retry {
    lo: u64,
    off: u64,
    hi: u64,
    attempt: u32,
    max_tries: u32,
    redirects: u32,
    max_redirects: u32,
}

/// How an attempt ended.
pub enum AttemptEnd {
    Delivered,
    /// Nothing came in for too long.
    Stalled,
    Failed(FetchError),
}

impl Retry {
    pub closed spec fn next_off(self) -> u64 {
        self.off
    }

    pub closed spec fn far_end(self) -> u64 {
        self.hi
    }

    pub closed spec fn start(self) -> u64 {
        self.lo
    }

    /// How many attempts are over.
    pub closed spec fn attempts(self) -> u32 {
        self.attempt
    }

    pub closed spec fn max_attempts(self) -> u32 {
        self.max_tries
    }

    /// How many redirects were followed.
    pub closed spec fn hops(self) -> u32 {
        self.redirects
    }

    pub closed spec fn max_hops(self) -> u32 {
        self.max_redirects
    }

    /// The budgets are never overdrawn.
    pub open spec fn wf(self) -> bool {
        &&& self.start() <= self.next_off()
        &&& self.attempts() <= self.max_attempts()
        &&& self.hops() <= self.max_hops()
    }

    /// What no attempt changes.
    pub open spec fn same_part(self, other: Retry) -> bool {
        &&& self.start() == other.start()
        &&& self.far_end() == other.far_end()
        &&& self.max_attempts() == other.max_attempts()
        &&& self.max_hops() == other.max_hops()
    }

    /// The part from `lo` to `hi`, with budgets for attempts and redirects.
    pub fn new(lo: u64, hi: u64, max_tries: u32, max_redirects: u32) -> (r: Retry)
        ensures
            r.wf(),
            r.start() == lo,
            r.next_off() == lo,
            r.far_end() == hi,
            r.attempts() == 0,
            r.max_attempts() == max_tries,
            r.hops() == 0,
            r.max_hops() == max_redirects,
    {
        Retry { lo, off: lo, hi, attempt: 0, max_tries, redirects: 0, max_redirects }
    }

    /// Where the next attempt starts, or how it ends: a part that is complete
    /// is done whatever the budget, and one whose budget is spent has failed.
    pub fn begin(&self) -> (r: Result<Option<u64>, FetchError>)
        ensures
            match r {
                Ok(None) => self.next_off() >= self.far_end(),
                Ok(Some(off)) => off == self.next_off() && self.next_off() < self.far_end()
                    && self.attempts() < self.max_attempts(),
                Err(e) => self.next_off() < self.far_end() && self.attempts()
                    >= self.max_attempts() && e.says(
                    ErrorKind::TimedOut,
                    "part never completed"@,
                ),
            },
    {
        if self.off >= self.hi {
            return Ok(None);
        }
        if self.attempt >= self.max_tries {
            return Err(FetchError::plain(ErrorKind::TimedOut, "part never completed"));
        }
        Ok(Some(self.off))
    }

    /// Counts bytes that reached the file.
    pub fn arrived(&mut self, off: u64, bytes: u64)
        requires
            old(self).wf(),
            off + bytes <= u64::MAX,
        ensures
            final(self).wf(),
            final(self).same_part(*old(self)),
            final(self).attempts() == old(self).attempts(),
            final(self).hops() == old(self).hops(),
            final(self).next_off() == (if off + bytes > old(self).next_off() {
                off + bytes
            } else {
                old(self).next_off() as int
            }),
    {
        let end: u64 = off + bytes;
        if end > self.off {
            self.off = end;
        }
    }

    /// How many attempts are over.
    pub fn attempt(&self) -> (r: u32)
        ensures
            r == self.attempts(),
    {
        self.attempt
    }

    /// A number that spreads the waits of parts that were throttled together.
    pub fn backoff_seed(&self) -> (r: u64)
        ensures
            r == ((self.start() ^ (self.attempts() as u64)) * 2_654_435_761) % 0x1_0000_0000_0000_0000,
    {
        (self.lo ^ (self.attempt as u64)).wrapping_mul(2_654_435_761)
    }

    /// Decides after an attempt. A response that is not the range will not be
    /// it the next time either, so that failure is final; a throttle is waited
    /// out; a redirect is followed while the budget lasts; anything else is
    /// tried again.
    pub fn after(&mut self, end: AttemptEnd, via_proxy: bool) -> (r: RetryNext)
        requires
            old(self).wf(),
            old(self).attempts() < old(self).max_attempts(),
        ensures
            final(self).wf(),
            final(self).same_part(*old(self)),
            final(self).next_off() == old(self).next_off(),
            match end {
                AttemptEnd::Delivered => r is Done && *final(self) == *old(self),
                AttemptEnd::Stalled => {
                    &&& r is Again
                    &&& final(self).attempts() == old(self).attempts() + 1
                    &&& final(self).hops() == old(self).hops()
                },
                AttemptEnd::Failed(e) => if e.kind == ErrorKind::InvalidData {
                    r == RetryNext::Fail(e) && *final(self) == *old(self)
                } else if e.kind == ErrorKind::WouldBlock {
                    &&& r is BackOff
                    &&& final(self).attempts() == old(self).attempts() + 1
                    &&& final(self).hops() == old(self).hops()
                } else if e.kind == ErrorKind::NotConnected {
                    let loc = destination(e.text());
                    if old(self).hops() >= old(self).max_hops() || loc.len() == 0 {
                        &&& *final(self) == *old(self)
                        &&& r matches RetryNext::Fail(f) && f.says(
                            ErrorKind::InvalidData,
                            "redirect budget exhausted after "@ + decimal(old(self).hops() as nat)
                                + " hops"@,
                        )
                    } else {
                        match hop_of(via_proxy, loc) {
                            Some(hop) => {
                                &&& r matches RetryNext::Follow(t) && t.hop() == hop
                                &&& final(self).attempts() == old(self).attempts() + 1
                                &&& final(self).hops() == old(self).hops() + 1
                            },
                            None => {
                                &&& *final(self) == *old(self)
                                &&& r matches RetryNext::Fail(f) && f.says(
                                    ErrorKind::InvalidData,
                                    "unusable redirect target: "@ + loc,
                                )
                            },
                        }
                    }
                } else {
                    &&& r is Again
                    &&& final(self).attempts() == old(self).attempts() + 1
                    &&& final(self).hops() == old(self).hops()
                },
            },
    {
        match end {
            AttemptEnd::Delivered => RetryNext::Done,
            AttemptEnd::Stalled => {
                self.attempt = self.attempt + 1;
                RetryNext::Again
            },
            AttemptEnd::Failed(e) => match e.kind {
                ErrorKind::InvalidData => RetryNext::Fail(e),
                ErrorKind::WouldBlock => {
                    self.attempt = self.attempt + 1;
                    RetryNext::BackOff
                },
                ErrorKind::NotConnected => {
                    let message = e.message();
                    let loc = destination_in(message.as_str());
                    let chars = chars_of(loc.as_str());
                    if self.redirects >= self.max_redirects || chars.len() == 0 {
                        let mut message = String::from_str("redirect budget exhausted after ");
                        push_decimal(&mut message, self.redirects as u64);
                        message.append(" hops");
                        return RetryNext::Fail(FetchError::new(ErrorKind::InvalidData, message));
                    }
                    match retarget(via_proxy, loc.as_str()) {
                        Some(next) => {
                            self.attempt = self.attempt + 1;
                            self.redirects = self.redirects + 1;
                            RetryNext::Follow(next)
                        },
                        None => {
                            let mut message = String::from_str("unusable redirect target: ");
                            message.append(loc.as_str());
                            RetryNext::Fail(FetchError::new(ErrorKind::InvalidData, message))
                        },
                    }
                },
                _ => {
                    self.attempt = self.attempt + 1;
                    RetryNext::Again
                },
            },
        }
    }
}

/// The destination that the message of a redirect carries.
pub open spec fn destination(msg: Seq<char>) -> Seq<char> {
    if begins(msg, "redirect:"@) {
        msg.skip("redirect:"@.len() as int)
    } else {
        Seq::empty()
    }
}

fn destination_in(msg: &str) -> (r: String)
    ensures
        r@ == destination(msg@),
{
    let text = chars_of(msg);
    let mark = chars_of("redirect:");
    if starts_with(text.as_slice(), mark.as_slice()) {
        let rest = vstd::slice::slice_subrange(text.as_slice(), mark.len(), text.len());
        proof {
            assert(rest@ =~= msg@.skip("redirect:"@.len() as int));
        }
        string_of(rest)
    } else {
        String::new()
    }
}

/// The destination of a refused range request survives in its message.
pub proof fn law_redirect_destination_survives(e: FetchError, head: Seq<char>, lo: int)
    requires
        moves(status_of(head)),
        refusal(e, head, lo),
    ensures
        e.kind == ErrorKind::NotConnected,
        destination(e.text()) == (match header_of(head, "location"@) {
            Some(v) => v,
            None => Seq::empty(),
        }),
{
    let loc = match header_of(head, "location"@) {
        Some(v) => v,
        None => Seq::empty(),
    };
    let n = "redirect:"@.len() as int;
    assert(("redirect:"@ + loc).subrange(0, n) =~= "redirect:"@);
    assert(("redirect:"@ + loc).skip(n) =~= loc);
}

/// The failure of a request that the server throttled for that many seconds.
/// The wait travels in the message.
pub open spec fn throttle_text(status: int, secs: int) -> Seq<char> {
    decimal(status as nat) + " throttled, retry after "@ + decimal(secs as nat) + "s"@
}

/// Reports a throttled request with the wait that the server asked for.
pub fn throttled(status: u16, secs: u64) -> (r: FetchError)
    ensures
        r.says(ErrorKind::WouldBlock, throttle_text(status as int, secs as int)),
{
    let mut message = String::new();
    push_decimal(&mut message, status as u64);
    message.append(" throttled, retry after ");
    push_decimal(&mut message, secs);
    message.append("s");
    proof {
        assert(message@ =~= throttle_text(status as int, secs as int));
    }
    FetchError::new(ErrorKind::WouldBlock, message)
}

proof fn lemma_digits(n: nat, i: int)
    requires
        0 <= i < decimal(n).len(),
    ensures
        '0' <= decimal(n)[i] <= '9',
{
    law_decimal_reads_back(n, n as int);
}

proof fn lemma_phrase_in_label(k: int)
    requires
        0 <= k < 12,
    ensures
        !(" throttled, retry after "@[k] == 'r' && " throttled, retry after "@[k + 1] == 'e'),
{
    reveal_strlit(" throttled, retry after ");
}

proof fn lemma_phrase_place(head: Seq<char>, tail: Seq<char>)
    requires
        forall|i: int| 0 <= i < head.len() ==> '0' <= #[trigger] head[i] <= '9',
    ensures
        first_place(
            head + " throttled, retry after "@ + tail,
            "retry after "@,
            head.len() as int + 12,
        ),
        (head + " throttled, retry after "@ + tail).skip(head.len() as int + 24) == tail,
{
    reveal_strlit(" throttled, retry after ");
    reveal_strlit("retry after ");
    let label = " throttled, retry after "@;
    let p = "retry after "@;
    let msg = head + label + tail;
    let at = head.len() as int + 12;
    assert(msg.subrange(at, at + 12) =~= p);
    assert forall|j: int| 0 <= j < at implies !stands_at(msg, p, j) by {
        if stands_at(msg, p, j) {
            assert(msg.subrange(j, j + 12)[0] == msg[j]);
            assert(msg.subrange(j, j + 12)[1] == msg[j + 1]);
            if j < head.len() {
                assert(msg[j] == head[j]);
            } else {
                let k = j - head.len();
                assert(msg[j] == label[k]);
                assert(msg[j + 1] == label[k + 1]);
                lemma_phrase_in_label(k);
            }
        }
    }
    assert(msg.skip(at + 12) =~= tail);
}

proof fn lemma_phrase_not_in_wait(secs: nat)
    ensures
        !occurs(decimal(secs) + "s"@, "retry after "@),
{
    reveal_strlit("retry after ");
    reveal_strlit("s");
    let p = "retry after "@;
    let tail = decimal(secs) + "s"@;
    if occurs(tail, p) {
        let i = choose|i: int| stands_at(tail, p, i);
        assert(tail.subrange(i, i + 12)[0] == tail[i]);
        if i < decimal(secs).len() {
            lemma_digits(secs, i);
        }
    }
}

proof fn lemma_wait_before_unit(secs: nat)
    ensures
        trimmed(before_first(decimal(secs) + "s"@, 's')) == decimal(secs),
{
    reveal_strlit("s");
    let wait = decimal(secs);
    let tail = wait + "s"@;
    law_decimal_reads_back(secs, secs as int);
    assert forall|j: int| 0 <= j < wait.len() implies tail[j] != 's' by {
        lemma_digits(secs, j);
    }
    lemma_first_of_at(tail, 's', wait.len() as int);
    assert(tail.take(wait.len() as int) =~= wait);
    assert(trimmed(wait) == wait);
}

/// The wait that a throttled request reports is the one that is read back out
/// of its message.
pub proof fn law_the_wait_reads_back(status: nat, secs: nat)
    ensures
        wait_in(throttle_text(status as int, secs as int)) == Some(decimal(secs)),
{
    let head = decimal(status);
    let tail = decimal(secs) + "s"@;
    let msg = head + " throttled, retry after "@ + tail;
    assert(throttle_text(status as int, secs as int) =~= msg);
    assert forall|i: int| 0 <= i < head.len() implies '0' <= #[trigger] head[i] <= '9' by {
        lemma_digits(status, i);
    }
    lemma_phrase_place(head, tail);
    lemma_first_place(msg, "retry after "@, head.len() as int + 12);
    assert("retry after "@.len() == 12) by {
        reveal_strlit("retry after ");
    }
    lemma_phrase_not_in_wait(secs);
    lemma_wait_before_unit(secs);
}

/// What a connection sees while it reads a range: how many bytes each read
/// gave, and where the far end was by then.
pub open spec fn read_on(off: int, n: int, bound: int) -> int {
    if off >= bound {
        off
    } else if n <= bound - off {
        off + n
    } else {
        bound
    }
}

/// Where the cursor stands after a series of reads.
pub open spec fn cursor_after(off: int, reads: Seq<(int, int)>) -> int
    decreases reads.len(),
{
    if reads.len() == 0 {
        off
    } else {
        read_on(cursor_after(off, reads.drop_last()), reads.last().0, reads.last().1)
    }
}

/// How many bytes a series of reads took off the wire.
pub open spec fn wire_bytes(reads: Seq<(int, int)>) -> int
    decreases reads.len(),
{
    if reads.len() == 0 {
        0
    } else {
        wire_bytes(reads.drop_last()) + reads.last().0
    }
}

/// Where the far end was seen last.
pub open spec fn bound_after(hi: int, reads: Seq<(int, int)>) -> int {
    if reads.len() == 0 {
        hi
    } else {
        reads.last().1
    }
}

/// Whether each read asked for no more than was wanted, and the far end only
/// ever moved towards the start.
pub open spec fn lawful(off: int, hi: int, reads: Seq<(int, int)>) -> bool
    decreases reads.len(),
{
    reads.len() == 0 || {
        let before = reads.drop_last();
        &&& lawful(off, hi, before)
        &&& 0 < reads.last().0 <= bound_after(hi, before) - cursor_after(off, before)
        &&& reads.last().1 <= bound_after(hi, before)
    }
}

proof fn lemma_unmoved(off: int, hi: int, reads: Seq<(int, int)>)
    requires
        off <= hi,
        lawful(off, hi, reads),
    ensures
        bound_after(hi, reads) <= hi,
        cursor_after(off, reads) <= hi,
        bound_after(hi, reads) == hi ==> cursor_after(off, reads) == off + wire_bytes(reads),
    decreases reads.len(),
{
    if reads.len() > 0 {
        lemma_unmoved(off, hi, reads.drop_last());
    }
}

/// A connection that may be pooled has nothing of its response left to come:
/// everything that the server sends for the range that was asked for has been
/// taken off the wire, no more and no less. `first` bytes came in with the
/// head.
pub proof fn law_a_pooled_connection_is_clean(
    lo: int,
    hi: int,
    first: int,
    reads: Seq<(int, int)>,
    hi_final: int,
)
    requires
        lo <= hi,
        0 <= first <= hi - lo,
        lawful(lo + first, hi, reads),
        hi_final <= bound_after(hi, reads),
        hi_final >= hi,
        cursor_after(lo + first, reads) >= hi_final,
    ensures
        first + wire_bytes(reads) == hi - lo,
{
    lemma_unmoved(lo + first, hi, reads);
}

/// Bytes are accepted only for the offset at which they belong: a partial
/// response must say that it begins there, and a whole one is of use only from
/// the start.
pub proof fn law_bytes_are_accepted_at_their_offset_only(head: Seq<char>, lo: int, other: int)
    ensures
        is_range_from(head, lo) ==> status_of(head) == 206 || status_of(head) == 200,
        is_range_from(head, lo) && status_of(head) == 200 ==> lo == 0,
        is_range_from(head, lo) && status_of(head) == 206 ==> (header_of(head, "content-range"@)
            matches Some(v) && range_start(v) == Some(lo)),
        is_range_from(head, lo) && is_range_from(head, other) ==> lo == other,
        status_of(head) == 200 ==> is_range_from(head, 0),
        status_of(head) == 206 && header_of(head, "content-range"@) is Some && range_start(
            header_of(head, "content-range"@)->0,
        ) == Some(lo) ==> is_range_from(head, lo),
{
}

/// A refused range says why: by the kind of its failure the caller tells a
/// redirect from a response that will never be the range.
pub proof fn law_a_refusal_says_why(e: FetchError, head: Seq<char>, lo: nat)
    requires
        refusal(e, head, lo as int),
    ensures
        moves(status_of(head)) ==> e.kind == ErrorKind::NotConnected,
        !moves(status_of(head)) ==> e.kind == ErrorKind::InvalidData,
        status_of(head) == 200 ==> e.text()
            == "server ignored Range and sent 200 for a request from offset "@ + decimal(lo),
        status_of(head) == 206 && header_of(head, "content-range"@) is None ==> e.text()
            == "206 without a parsable Content-Range"@,
        status_of(head) == 206 && header_of(head, "content-range"@) is Some && range_start(
            header_of(head, "content-range"@)->0,
        ) is Some ==> e.text() == "206 Content-Range starts at "@ + decimal(
            range_start(header_of(head, "content-range"@)->0)->0 as nat,
        ) + ", requested "@ + decimal(lo),
        status_of(head) == 404 ==> e.text() == "unexpected status "@ + decimal(404)
            + " for a range request"@,
{
}

/// Five statuses move a request elsewhere.
pub proof fn law_moves_are_the_redirects(status: int)
    ensures
        moves(status) <==> status == 301 || status == 302 || status == 303 || status == 307
            || status == 308,
{
}

/// A read moves the cursor by what it gave, but never past the far end, and not
/// at all once the far end is reached.
pub proof fn law_the_cursor_stops_at_the_far_end(off: int, n: int, bound: int)
    requires
        n >= 0,
    ensures
        off + n <= bound ==> read_on(off, n, bound) == off + n,
        off <= bound <= off + n ==> read_on(off, n, bound) == bound,
        bound <= off ==> read_on(off, n, bound) == off,
{
}

/// Reads follow one another: the cursor, the bytes off the wire and the far end
/// are those after the last read.
pub proof fn law_reads_follow_each_other(off: int, hi: int, reads: Seq<(int, int)>, next: (int, int))
    ensures
        cursor_after(off, Seq::<(int, int)>::empty()) == off,
        wire_bytes(Seq::<(int, int)>::empty()) == 0,
        bound_after(hi, Seq::<(int, int)>::empty()) == hi,
        cursor_after(off, reads.push(next)) == read_on(cursor_after(off, reads), next.0, next.1),
        wire_bytes(reads.push(next)) == wire_bytes(reads) + next.0,
        bound_after(hi, reads.push(next)) == next.1,
        lawful(off, hi, reads.push(next)) <==> lawful(off, hi, reads) && 0 < next.0 <= bound_after(
            hi,
            reads,
        ) - cursor_after(off, reads) && next.1 <= bound_after(hi, reads),
{
    assert(reads.push(next).drop_last() =~= reads);
}

/// The destination of a redirect is what stands behind its mark, and a message
/// without the mark carries none.
pub proof fn law_a_destination_stands_behind_its_mark(loc: Seq<char>, msg: Seq<char>)
    ensures
        destination("redirect:"@ + loc) == loc,
        !begins(msg, "redirect:"@) ==> destination(msg).len() == 0,
{
    let n = "redirect:"@.len() as int;
    assert(("redirect:"@ + loc).subrange(0, n) =~= "redirect:"@);
    assert(("redirect:"@ + loc).skip(n) =~= loc);
}

/// A message that asks for no wait names none.
pub proof fn law_no_wait_without_its_phrase(msg: Seq<char>)
    ensures
        !occurs(msg, "retry after "@) ==> wait_in(msg) is None,
        occurs(msg, "retry after "@) ==> wait_in(msg) is Some,
{
}

/// What no attempt changes about a part are its ends and its budgets.
pub proof fn law_a_part_stays_the_same(a: Retry, b: Retry)
    ensures
        a.same_part(b) <==> a.start() == b.start() && a.far_end() == b.far_end()
            && a.max_attempts() == b.max_attempts() && a.max_hops() == b.max_hops(),
        a.wf() ==> a.attempts() <= a.max_attempts() && a.hops() <= a.max_hops() && a.start()
            <= a.next_off(),
{
}

/// The wait is the number between the phrase that asks for it and its unit:
/// what comes before the phrase and behind the unit makes no difference, and
/// neither does white space around the number.
pub proof fn law_the_wait_stands_before_its_unit(front: Seq<char>, wait: Seq<char>, rest: Seq<char>)
    requires
        !occurs((front + "retry after "@).drop_last(), "retry after "@),
        !wait.contains('s'),
        !occurs(wait + seq!['s'] + rest, "retry after "@),
    ensures
        wait_in(front + "retry after "@ + wait + seq!['s'] + rest) == Some(trimmed(wait)),
{
    let p = "retry after "@;
    let tail = wait + seq!['s'] + rest;
    let msg = front + p + tail;
    let n = front.len() as int;
    assert(front + p + wait + seq!['s'] + rest =~= msg);
    lemma_phrase_behind(front, tail);
    lemma_first_place(msg, p, n);
    assert(msg.skip(n + p.len()) =~= tail);
    crate::text::law_texts_are_cut_at_a_character(wait, 's', rest);
}

proof fn lemma_phrase_behind(front: Seq<char>, tail: Seq<char>)
    requires
        !occurs((front + "retry after "@).drop_last(), "retry after "@),
    ensures
        first_place(front + "retry after "@ + tail, "retry after "@, front.len() as int),
{
    reveal_strlit("retry after ");
    let p = "retry after "@;
    let msg = front + p + tail;
    let n = front.len() as int;
    let early = (front + p).drop_last();
    assert(msg.subrange(n, n + p.len()) =~= p);
    assert forall|j: int| 0 <= j < n implies !stands_at(msg, p, j) by {
        if stands_at(msg, p, j) {
            assert(early.subrange(j, j + p.len()) =~= msg.subrange(j, j + p.len()));
            assert(stands_at(early, p, j));
        }
    }
}

/// Where the phrase comes a second time, only what stands before that counts.
pub proof fn law_only_the_first_wait_counts(front: Seq<char>, rest: Seq<char>)
    ensures
        !occurs((front + "retry after "@).drop_last(), "retry after "@) ==> before_phrase(
            front + "retry after "@ + rest,
        ) == front,
        !occurs(front, "retry after "@) ==> before_phrase(front) == front,
{
    if !occurs((front + "retry after "@).drop_last(), "retry after "@) {
        let s = front + "retry after "@ + rest;
        lemma_phrase_behind(front, rest);
        lemma_first_place(s, "retry after "@, front.len() as int);
        assert(s.take(front.len() as int) =~= front);
    }
}

} // verus!
