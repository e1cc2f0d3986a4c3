//! Chunked transfer coding: taking the payload out of a framed body, however
//! the reads happened to split it.

use crate::bytes::{
    decode_lossy, decode_strict, find_crlf, parse_hex_u64, trim_ascii, CR, LF,
};
#[allow(unused_imports)]
use crate::bytes::{
    as_text, ascii_trimmed_end, ascii_trimmed_start, chunk_size, crlf_here, first_crlf, hex_number,
    hex_value, lemma_chunk_size_bound, lemma_first_crlf, lemma_first_crlf_is, no_crlf,
};
use crate::error::{ErrorKind, FetchError};
use crate::text::{chars_of, cut_before, parse_number, push_decimal, string_of, trim};
#[allow(unused_imports)]
use crate::text::{
    before_first, decimal, digit_value, digits_value, is_space, lemma_first_of_at,
    lemma_number_bound, number, trimmed,
};
use vstd::prelude::*;
use vstd::utf8::{decode_utf8, valid_utf8};

verus! {

/// What the `Debug` form of a string is: the text in quotes, with escapes.
pub uninterp spec fn quoted(s: Seq<char>) -> Seq<char>;

/// The `Debug` formatting of `str` writes the text in quotes and escapes what
/// would not print. It is a function of the text alone.
#[verifier::external_body]
pub(crate) fn debug_form(s: &str) -> (r: String)
    ensures
        r@ == quoted(s@),
{
    format!("{:?}", s)
}

/// Where a reader of a chunked body stands.
#[derive(Clone, Copy, Debug, PartialEq, Eq, Structural)]
pub enum Phase {
    /// At a size line.
    Size,
    /// Inside a chunk, with this many bytes still to come.
    Data(u64),
    /// At the line end behind a chunk.
    AfterData,
    /// Past the zero-size chunk.
    Done,
}

/// Why a body cannot be read on.
#[verifier::ext_equal]
pub enum Fault {
    /// This size line states no size.
    BadSize(Seq<u8>),
    /// A chunk is not followed by a line end.
    Unterminated,
}

/// What a reader makes of the bytes it was given.
#[verifier::ext_equal]
pub struct Decoded {
    pub payload: Seq<u8>,
    pub phase: Phase,
    /// The bytes that are not consumed yet.
    pub rest: Seq<u8>,
    pub fault: Option<Fault>,
}

/// The position of the first `c` in `b`, or the length of `b`.
pub open spec fn first_byte(b: Seq<u8>, c: u8) -> int
    decreases b.len(),
{
    if b.len() == 0 || b[0] == c {
        0
    } else {
        1 + first_byte(b.skip(1), c)
    }
}

/// The size field of a line: what precedes a chunk extension.
pub open spec fn size_field(line: Seq<u8>) -> Seq<u8> {
    ascii_trimmed_end(ascii_trimmed_start(line.take(first_byte(line, 0x3B))))
}

/// The size field of a line as text.
pub open spec fn size_text(line: Seq<u8>) -> Seq<char> {
    trimmed(before_first(as_text(line), ';'))
}

/// The size that a size line states. A strict reader takes hexadecimal digits
/// only, at most sixteen; a tolerant one whatever reads as a number.
pub open spec fn stated_size(strict: bool, line: Seq<u8>) -> Option<int> {
    if strict {
        chunk_size(size_field(line))
    } else {
        number(size_text(line), 16, u64::MAX as int)
    }
}

/// Reads as far as `buf` allows. A strict reader insists on the line end
/// behind each chunk; a tolerant one skips the two bytes unseen.
pub open spec fn decode(strict: bool, phase: Phase, buf: Seq<u8>) -> Decoded
    decreases buf.len(), (if phase == Phase::Data(0) { 1int } else { 0 }),
{
    let stuck = Decoded { payload: Seq::empty(), phase, rest: buf, fault: None };
    match phase {
        Phase::Size => match first_crlf(buf) {
            None => stuck,
            Some(i) => {
                if !(0 <= i && i + 2 <= buf.len()) {
                    stuck
                } else {
                    match stated_size(strict, buf.take(i)) {
                        None => Decoded { fault: Some(Fault::BadSize(buf.take(i))), ..stuck },
                        Some(n) => {
                            let next = if n == 0 {
                                Phase::Done
                            } else {
                                Phase::Data(n as u64)
                            };
                            decode(strict, next, buf.skip(i + 2))
                        },
                    }
                }
            },
        },
        Phase::Data(left) => if left == 0 {
            decode(strict, Phase::AfterData, buf)
        } else if buf.len() == 0 {
            stuck
        } else {
            let take = if left <= buf.len() {
                left as int
            } else {
                buf.len() as int
            };
            let next = if left == take {
                Phase::AfterData
            } else {
                Phase::Data((left - take) as u64)
            };
            let d = decode(strict, next, buf.skip(take));
            Decoded { payload: buf.take(take) + d.payload, ..d }
        },
        Phase::AfterData => if buf.len() < 2 {
            stuck
        } else if strict && !crlf_here(buf, 0) {
            Decoded { fault: Some(Fault::Unterminated), ..stuck }
        } else {
            decode(strict, Phase::Size, buf.skip(2))
        },
        Phase::Done => stuck,
    }
}

/// `d` behind an already read `payload`.
pub open spec fn behind(payload: Seq<u8>, d: Decoded) -> Decoded {
    Decoded { payload: payload + d.payload, ..d }
}

/// A chunk's size is never taken for the end of the body.
pub open spec fn in_chunk(phase: Phase) -> bool {
    phase matches Phase::Data(n) ==> n > 0
}

proof fn lemma_first_crlf_extends(a: Seq<u8>, b: Seq<u8>)
    requires
        first_crlf(a) is Some,
    ensures
        first_crlf(a + b) == first_crlf(a),
{
    lemma_first_crlf(a);
    let i = first_crlf(a)->0;
    assert(crlf_here(a + b, i));
    assert forall|j: int| 0 <= j < i implies !crlf_here(a + b, j) by {
        assert(!crlf_here(a, j));
    }
    lemma_first_crlf_is(a + b, i);
}

/// How the bytes of a body were split among the reads makes no difference:
/// reading on where the first part stopped gives what reading both at once
/// gives, with the same payload, the same end and the same fault.
pub proof fn law_reads_may_split_anywhere(strict: bool, phase: Phase, a: Seq<u8>, b: Seq<u8>)
    requires
        in_chunk(phase),
    ensures
        ({
            let first = decode(strict, phase, a);
            let whole = decode(strict, phase, a + b);
            &&& in_chunk(first.phase)
            &&& first.fault is None ==> whole == behind(
                first.payload,
                decode(strict, first.phase, first.rest + b),
            )
            &&& first.fault is Some ==> whole == (Decoded { rest: first.rest + b, ..first })
        }),
    decreases a.len(),
{
    let c = a + b;
    match phase {
        Phase::Size => {
            lemma_first_crlf(a);
            match first_crlf(a) {
                None => {
                    assert(behind(Seq::empty(), decode(strict, phase, c)) =~= decode(
                        strict,
                        phase,
                        c,
                    ));
                },
                Some(i) => {
                    lemma_first_crlf_extends(a, b);
                    assert(c.take(i) =~= a.take(i));
                    assert(c.skip(i + 2) =~= a.skip(i + 2) + b);
                    match stated_size(strict, a.take(i)) {
                        None => {},
                        Some(n) => {
                            lemma_stated_size_bound(strict, a.take(i));
                            let next = if n == 0 {
                                Phase::Done
                            } else {
                                Phase::Data(n as u64)
                            };
                            law_reads_may_split_anywhere(strict, next, a.skip(i + 2), b);
                        },
                    }
                },
            }
        },
        Phase::Data(left) => {
            if a.len() == 0 {
                assert(c =~= b);
                assert(behind(Seq::empty(), decode(strict, phase, b)) =~= decode(strict, phase, b));
            } else if left <= a.len() {
                let take = left as int;
                assert(c.take(take) =~= a.take(take));
                assert(c.skip(take) =~= a.skip(take) + b);
                law_reads_may_split_anywhere(strict, Phase::AfterData, a.skip(take), b);
                let d = decode(strict, Phase::AfterData, a.skip(take));
                if d.fault is None {
                    let e = decode(strict, d.phase, d.rest + b);
                    assert((a.take(take) + d.payload) + e.payload =~= a.take(take) + (d.payload
                        + e.payload));
                }
            } else {
                let gone = a.len() as int;
                let next = Phase::Data((left - gone) as u64);
                assert(a.skip(gone) =~= Seq::<u8>::empty());
                assert(a.take(gone) =~= a);
                let first = decode(strict, phase, a);
                assert(decode(strict, next, Seq::<u8>::empty()).payload =~= Seq::<u8>::empty());
                assert(first.payload =~= a);
                assert(first.rest =~= Seq::<u8>::empty());
                assert(first.rest + b =~= b);
                if b.len() == 0 {
                    assert(c =~= a);
                    assert(behind(a, decode(strict, next, b)) =~= first);
                } else {
                    let whole_take = if left <= c.len() {
                        left as int
                    } else {
                        c.len() as int
                    };
                    let tail_take = whole_take - gone;
                    assert(c.take(whole_take) =~= a + b.take(tail_take));
                    assert(c.skip(whole_take) =~= b.skip(tail_take));
                    let after = if left == whole_take {
                        Phase::AfterData
                    } else {
                        Phase::Data((left - whole_take) as u64)
                    };
                    let e = decode(strict, after, b.skip(tail_take));
                    assert((a + b.take(tail_take)) + e.payload =~= a + (b.take(tail_take)
                        + e.payload));
                }
            }
        },
        Phase::AfterData => {
            if a.len() < 2 {
                assert(behind(Seq::empty(), decode(strict, phase, c)) =~= decode(strict, phase, c));
            } else {
                assert(crlf_here(c, 0) == crlf_here(a, 0));
                assert(c.skip(2) =~= a.skip(2) + b);
                law_reads_may_split_anywhere(strict, Phase::Size, a.skip(2), b);
            }
        },
        Phase::Done => {
            assert(behind(Seq::empty(), decode(strict, phase, c)) =~= decode(strict, phase, c));
        },
    }
}

/// Reading takes payload out of the bytes that came in and adds none.
pub proof fn law_decoding_adds_no_bytes(strict: bool, phase: Phase, buf: Seq<u8>)
    ensures
        ({
            let d = decode(strict, phase, buf);
            d.payload.len() + d.rest.len() <= buf.len()
        }),
    decreases buf.len(), (if phase == Phase::Data(0) { 1int } else { 0 }),
{
    match phase {
        Phase::Size => {
            lemma_first_crlf(buf);
            if let Some(i) = first_crlf(buf) {
                if let Some(n) = stated_size(strict, buf.take(i)) {
                    let next = if n == 0 {
                        Phase::Done
                    } else {
                        Phase::Data(n as u64)
                    };
                    law_decoding_adds_no_bytes(strict, next, buf.skip(i + 2));
                }
            }
        },
        Phase::Data(left) => {
            if left == 0 {
                law_decoding_adds_no_bytes(strict, Phase::AfterData, buf);
            } else if buf.len() > 0 {
                let take = if left <= buf.len() {
                    left as int
                } else {
                    buf.len() as int
                };
                let next = if left == take {
                    Phase::AfterData
                } else {
                    Phase::Data((left - take) as u64)
                };
                law_decoding_adds_no_bytes(strict, next, buf.skip(take));
            }
        },
        Phase::AfterData => {
            if buf.len() >= 2 && !(strict && !crlf_here(buf, 0)) {
                law_decoding_adds_no_bytes(strict, Phase::Size, buf.skip(2));
            }
        },
        Phase::Done => {},
    }
}

proof fn lemma_stated_size_bound(strict: bool, line: Seq<u8>)
    ensures
        stated_size(strict, line) matches Some(n) ==> 0 <= n <= u64::MAX,
{
    if strict {
        lemma_chunk_size_bound(size_field(line));
    } else {
        lemma_number_bound(size_text(line), 16, u64::MAX as int);
    }
}

proof fn lemma_first_byte(b: Seq<u8>, c: u8)
    ensures
        0 <= first_byte(b, c) <= b.len(),
        forall|j: int| 0 <= j < first_byte(b, c) ==> b[j] != c,
        first_byte(b, c) < b.len() ==> b[first_byte(b, c)] == c,
    decreases b.len(),
{
    if b.len() == 0 || b[0] == c {
    } else {
        let t = b.skip(1);
        lemma_first_byte(t, c);
        assert forall|j: int| 0 <= j < first_byte(b, c) implies b[j] != c by {
            if j > 0 {
                assert(b[j] == t[j - 1]);
            }
        }
    }
}

fn position(b: &[u8], c: u8) -> (r: usize)
    ensures
        r == first_byte(b@, c),
        r <= b@.len(),
{
    proof {
        lemma_first_byte(b@, c);
    }
    match memchr::memchr(c, b) {
        Some(i) => i,
        None => b.len(),
    }
}

/// How the user is told of a fault.
pub open spec fn fault_text(strict: bool, f: Fault) -> Seq<char> {
    match f {
        Fault::BadSize(line) => if strict {
            let shown = if line.len() <= 64 {
                line
            } else {
                line.take(64)
            };
            "bad chunk size line "@ + quoted(as_text(shown))
        } else {
            "bad chunk size "@ + quoted(size_text(line))
        },
        Fault::Unterminated => "chunk not terminated by CRLF"@,
    }
}

fn read_size(strict: bool, line: &[u8]) -> (r: Result<u64, FetchError>)
    ensures
        match r {
            Ok(n) => stated_size(strict, line@) == Some(n as int),
            Err(e) => stated_size(strict, line@) is None && e.says(
                ErrorKind::InvalidData,
                fault_text(strict, Fault::BadSize(line@)),
            ),
        },
{
    if strict {
        let end: usize = position(line, 0x3B);
        let field = vstd::slice::slice_subrange(line, 0, end);
        proof {
            assert(field@ =~= line@.take(end as int));
        }
        match parse_hex_u64(trim_ascii(field)) {
            Some(n) => Ok(n),
            None => {
                let shown = if line.len() <= 64 {
                    line
                } else {
                    vstd::slice::slice_subrange(line, 0, 64)
                };
                proof {
                    assert(line@.len() > 64 ==> shown@ =~= line@.take(64));
                }
                let text = decode_lossy(shown);
                let mut message = String::from_str("bad chunk size line ");
                message.append(debug_form(text.as_str()).as_str());
                Err(FetchError::new(ErrorKind::InvalidData, message))
            },
        }
    } else {
        let text = decode_lossy(line);
        let chars = chars_of(text.as_str());
        let field = trim(cut_before(chars.as_slice(), ';'));
        match parse_number(field, 16, u64::MAX) {
            Some(n) => Ok(n),
            None => {
                let shown = string_of(field);
                let mut message = String::from_str("bad chunk size ");
                message.append(debug_form(shown.as_str()).as_str());
                Err(FetchError::new(ErrorKind::InvalidData, message))
            },
        }
    }
}

/// A reader of a chunked body, fed as the bytes come in.
///
/// Consumed bytes stay in front of a cursor and are dropped when there is
/// enough of them, so that taking a token is an addition and not a move of
/// everything behind it.
pub struct Deframer {
    strict: bool,
    phase: Phase,
    data: Vec<u8>,
    head: usize,
}

/// What one run of a reader gave.
pub struct Deframed {
    pub payload: Vec<u8>,
    pub fault: Option<FetchError>,
}

impl Deframer {
    /// The reader is between two bytes of its buffer, and inside a chunk only
    /// while some of it is missing.
    pub closed spec fn wf(self) -> bool {
        self.head <= self.data@.len() && in_chunk(self.phase)
    }

    pub closed spec fn is_strict(self) -> bool {
        self.strict
    }

    pub closed spec fn at(self) -> Phase {
        self.phase
    }

    /// The bytes that came in and are not consumed.
    pub closed spec fn pending(self) -> Seq<u8> {
        self.data@.skip(self.head as int)
    }

    /// A reader at the start of a body of which `initial` has come in.
    pub fn new(strict: bool, initial: &[u8]) -> (r: Deframer)
        ensures
            r.wf(),
            r.is_strict() == strict,
            r.at() == Phase::Size,
            r.pending() == initial@,
    {
        let data = vstd::slice::slice_to_vec(initial);
        proof {
            assert(data@.skip(0) =~= initial@);
        }
        Deframer { strict, phase: Phase::Size, data, head: 0 }
    }

    /// Takes in more bytes of the body.
    pub fn feed(&mut self, bytes: &[u8])
        requires
            old(self).wf(),
        ensures
            final(self).wf(),
            final(self).is_strict() == old(self).is_strict(),
            final(self).at() == old(self).at(),
            final(self).pending() == old(self).pending() + bytes@,
    {
        let ghost before = self.pending();
        if self.head == self.data.len() || self.head >= 65536 {
            let n: usize = self.data.len();
            let rest = vstd::slice::slice_subrange(self.data.as_slice(), self.head, n);
            self.data = vstd::slice::slice_to_vec(rest);
            self.head = 0;
            proof {
                assert(self.pending() =~= before);
            }
        }
        self.data.extend_from_slice(bytes);
        proof {
            assert(self.pending() =~= before + bytes@);
        }
    }

    /// Where the reader stands.
    pub fn phase(&self) -> (r: Phase)
        ensures
            r == self.at(),
    {
        self.phase
    }

    /// Whether every byte that came in is consumed.
    pub fn is_drained(&self) -> (r: bool)
        requires
            self.wf(),
        ensures
            r == (self.pending().len() == 0),
    {
        self.head == self.data.len()
    }

    /// How many bytes came in and are not consumed.
    pub fn pending_len(&self) -> (r: usize)
        requires
            self.wf(),
        ensures
            r == self.pending().len(),
    {
        self.data.len() - self.head
    }

    /// Goes on to the next size line though the line end behind the chunk
    /// never came.
    pub fn give_up_on_line_end(&mut self)
        requires
            old(self).wf(),
        ensures
            final(self).wf(),
            final(self).is_strict() == old(self).is_strict(),
            final(self).pending() == old(self).pending(),
            final(self).at() == (if old(self).at() == Phase::AfterData {
                Phase::Size
            } else {
                old(self).at()
            }),
    {
        if let Phase::AfterData = self.phase {
            self.phase = Phase::Size;
        }
    }

    /// Reads as far as the bytes that came in allow.
    pub fn advance(&mut self) -> (r: Deframed)
        requires
            old(self).wf(),
        ensures
            final(self).wf(),
            final(self).is_strict() == old(self).is_strict(),
            ({
                let d = decode(old(self).is_strict(), old(self).at(), old(self).pending());
                &&& r.payload@ == d.payload
                &&& final(self).at() == d.phase
                &&& final(self).pending() == d.rest
                &&& match (r.fault, d.fault) {
                    (None, None) => true,
                    (Some(e), Some(f)) => e.says(
                        ErrorKind::InvalidData,
                        fault_text(old(self).is_strict(), f),
                    ),
                    _ => false,
                }
            }),
    {
        let mut payload: Vec<u8> = Vec::new();
        let ghost whole = decode(self.strict, self.phase, self.pending());
        let ghost strict = self.strict;
        proof {
            assert(behind(payload@, whole) =~= whole);
        }
        loop
            invariant
                self.wf(),
                self.strict == strict,
                strict == old(self).is_strict(),
                whole == decode(old(self).is_strict(), old(self).at(), old(self).pending()),
                whole == behind(payload@, decode(self.strict, self.phase, self.pending())),
            decreases self.data@.len() - self.head,
        {
            let n: usize = self.data.len();
            let ghost buf = self.pending();
            let ghost done = payload@;
            let ghost now = decode(self.strict, self.phase, buf);
            match self.phase {
                Phase::Size => {
                    let tail = vstd::slice::slice_subrange(self.data.as_slice(), self.head, n);
                    proof {
                        assert(tail@ =~= buf);
                        lemma_first_crlf(buf);
                    }
                    match find_crlf(tail) {
                        None => {
                            proof {
                                assert(done + Seq::<u8>::empty() =~= done);
                            }
                            return Deframed { payload, fault: None };
                        },
                        Some(i) => {
                            let line = vstd::slice::slice_subrange(tail, 0, i);
                            proof {
                                assert(line@ =~= buf.take(i as int));
                                lemma_stated_size_bound(strict, line@);
                            }
                            match read_size(self.strict, line) {
                                Err(e) => {
                                    proof {
                                        assert(done + Seq::<u8>::empty() =~= done);
                                    }
                                    return Deframed { payload, fault: Some(e) };
                                },
                                Ok(size) => {
                                    self.head = self.head + i + 2;
                                    self.phase = if size == 0 {
                                        Phase::Done
                                    } else {
                                        Phase::Data(size)
                                    };
                                    proof {
                                        assert(self.pending() =~= buf.skip(i + 2));
                                    }
                                },
                            }
                        },
                    }
                },
                Phase::Data(left) => {
                    let here: usize = n - self.head;
                    if here == 0 {
                        proof {
                            assert(done + Seq::<u8>::empty() =~= done);
                        }
                        return Deframed { payload, fault: None };
                    }
                    let take: usize = if left <= here as u64 {
                        left as usize
                    } else {
                        here
                    };
                    let part = vstd::slice::slice_subrange(
                        self.data.as_slice(),
                        self.head,
                        self.head + take,
                    );
                    payload.extend_from_slice(part);
                    self.head = self.head + take;
                    self.phase = if left == take as u64 {
                        Phase::AfterData
                    } else {
                        Phase::Data(left - take as u64)
                    };
                    proof {
                        assert(part@ =~= buf.take(take as int));
                        assert(self.pending() =~= buf.skip(take as int));
                        let d = decode(strict, self.phase, buf.skip(take as int));
                        assert(done + (buf.take(take as int) + d.payload) =~= (done + buf.take(
                            take as int,
                        )) + d.payload);
                    }
                },
                Phase::AfterData => {
                    if n - self.head < 2 {
                        proof {
                            assert(done + Seq::<u8>::empty() =~= done);
                        }
                        return Deframed { payload, fault: None };
                    }
                    proof {
                        assert(buf[0] == self.data@[self.head as int]);
                        assert(buf[1] == self.data@[self.head + 1]);
                    }
                    if self.strict && !(self.data[self.head] == CR && self.data[self.head + 1]
                        == LF) {
                        proof {
                            assert(done + Seq::<u8>::empty() =~= done);
                        }
                        return Deframed {
                            payload,
                            fault: Some(
                                FetchError::plain(
                                    ErrorKind::InvalidData,
                                    "chunk not terminated by CRLF",
                                ),
                            ),
                        };
                    }
                    self.head = self.head + 2;
                    self.phase = Phase::Size;
                    proof {
                        assert(self.pending() =~= buf.skip(2));
                    }
                },
                Phase::Done => {
                    proof {
                        assert(done + Seq::<u8>::empty() =~= done);
                    }
                    return Deframed { payload, fault: None };
                },
            }
        }
    }
}

/// The part of a payload that lies before `hi`, when it starts at `off`.
pub open spec fn before_bound(payload: Seq<u8>, off: int, hi: int) -> Seq<u8> {
    if hi <= off {
        Seq::empty()
    } else if payload.len() <= hi - off {
        payload
    } else {
        payload.take(hi - off)
    }
}

/// What the caller of a ranged chunked body does next.
pub enum ChunkedNext {
    /// The body has ended, or the range is complete.
    Finished,
    /// More bytes are needed.
    Read,
    Failed(FetchError),
}

/// Bytes of the object and the file offset at which they belong.
pub struct Run {
    pub off: u64,
    pub bytes: Vec<u8>,
}

/// A chunked answer to a range request: the payload goes to consecutive file
/// offsets from `lo` on and never past the far end of the range.
pub struct ChunkedRange {
    lo: u64,
    off: u64,
    frames: Deframer,
}

impl ChunkedRange {
    pub closed spec fn wf(self) -> bool {
        &&& self.lo <= self.off
        &&& self.frames.wf()
        &&& self.frames.is_strict()
    }

    /// The first byte of the range.
    pub closed spec fn start(self) -> u64 {
        self.lo
    }

    /// Where the next byte of the object goes.
    pub closed spec fn next_off(self) -> u64 {
        self.off
    }

    pub closed spec fn at(self) -> Phase {
        self.frames.at()
    }

    pub closed spec fn pending(self) -> Seq<u8> {
        self.frames.pending()
    }

    /// A body for the range from `lo` on, of which `initial` came in with the
    /// headers.
    pub fn new(lo: u64, initial: &[u8]) -> (r: ChunkedRange)
        ensures
            r.wf(),
            r.start() == lo,
            r.next_off() == lo,
            r.at() == Phase::Size,
            r.pending() == initial@,
    {
        ChunkedRange { lo, off: lo, frames: Deframer::new(true, initial) }
    }

    /// Takes in what a read gave.
    pub fn feed(&mut self, bytes: &[u8])
        requires
            old(self).wf(),
        ensures
            final(self).wf(),
            final(self).start() == old(self).start(),
            final(self).next_off() == old(self).next_off(),
            final(self).at() == old(self).at(),
            final(self).pending() == old(self).pending() + bytes@,
    {
        self.frames.feed(bytes);
    }

    /// Where the next byte of the object goes.
    pub fn offset(&self) -> (r: u64)
        ensures
            r == self.next_off(),
    {
        self.off
    }

    /// Decodes what came in. The run is what is to be written, all of it
    /// before `hi`; a body that went on past `hi` is read but not written.
    pub fn advance(&mut self, hi: u64) -> (r: (Run, ChunkedNext))
        requires
            old(self).wf(),
        ensures
            final(self).wf(),
            final(self).start() == old(self).start(),
            ({
                let d = decode(true, old(self).at(), old(self).pending());
                &&& r.0.off == old(self).next_off()
                &&& r.0.bytes@ == before_bound(d.payload, old(self).next_off() as int, hi as int)
                &&& r.0.bytes@ == d.payload.take(r.0.bytes@.len() as int)
                &&& old(self).next_off() <= hi ==> old(self).next_off() + r.0.bytes@.len() <= hi
                &&& old(self).next_off() + d.payload.len() <= hi ==> r.0.bytes@ == d.payload
                &&& final(self).next_off() == old(self).next_off() + r.0.bytes@.len()
                &&& final(self).at() == d.phase
                &&& final(self).pending() == d.rest
                &&& match r.1 {
                    ChunkedNext::Finished => d.fault is None && d.phase == Phase::Done,
                    ChunkedNext::Read => d.fault is None && d.phase != Phase::Done,
                    ChunkedNext::Failed(e) => d.fault is Some && e.says(
                        ErrorKind::InvalidData,
                        fault_text(true, d.fault->0),
                    ),
                }
            }),
    {
        let off: u64 = self.off;
        let step = self.frames.advance();
        let mut bytes = step.payload;
        let ghost payload = bytes@;
        let room: u64 = if hi <= off {
            0
        } else {
            hi - off
        };
        if bytes.len() as u64 > room {
            bytes.truncate(room as usize);
        }
        proof {
            assert(bytes@ =~= before_bound(payload, off as int, hi as int));
            assert(bytes@ =~= payload.take(bytes@.len() as int));
        }
        self.off = off + bytes.len() as u64;
        let next = match step.fault {
            Some(e) => ChunkedNext::Failed(e),
            None => match self.frames.phase() {
                Phase::Done => ChunkedNext::Finished,
                _ => ChunkedNext::Read,
            },
        };
        (Run { off, bytes }, next)
    }

    /// Whether the range is complete once the far end is `hi`: it may have
    /// moved towards the start while the body streamed in.
    pub fn complete(&self, hi: u64) -> (r: bool)
        ensures
            r == (self.next_off() >= hi),
    {
        self.off >= hi
    }

    /// The failure of a body that ended before the zero-size chunk.
    pub fn ended_early(&self, hi: u64) -> (r: FetchError)
        requires
            self.wf(),
            self.next_off() < hi,
        ensures
            r.says(
                ErrorKind::UnexpectedEof,
                "chunked body ended early: "@ + decimal((self.next_off() - self.start()) as nat)
                    + " of "@ + decimal((hi - self.start()) as nat) + " bytes"@,
            ),
    {
        let mut message = String::from_str("chunked body ended early: ");
        push_decimal(&mut message, self.off - self.lo);
        message.append(" of ");
        push_decimal(&mut message, hi - self.lo);
        message.append(" bytes");
        FetchError::new(ErrorKind::UnexpectedEof, message)
    }
}

/// One chunk as it was sent: its size line, without the line end, and its
/// bytes.
#[verifier::ext_equal]
pub struct Sent {
    pub line: Seq<u8>,
    pub bytes: Seq<u8>,
}

/// A whole body on the wire: its chunks, the size line that ends it, and
/// whatever comes behind.
pub open spec fn on_the_wire(chunks: Seq<Sent>, end: Seq<u8>, tail: Seq<u8>) -> Seq<u8>
    decreases chunks.len(),
{
    if chunks.len() == 0 {
        end + seq![CR, LF] + tail
    } else {
        chunks[0].line + seq![CR, LF] + chunks[0].bytes + seq![CR, LF] + on_the_wire(
            chunks.skip(1),
            end,
            tail,
        )
    }
}

/// The bytes of each chunk.
pub open spec fn bodies(chunks: Seq<Sent>) -> Seq<Seq<u8>> {
    Seq::new(chunks.len(), |i: int| chunks[i].bytes)
}

/// Pieces put together in order.
pub open spec fn joined(pieces: Seq<Seq<u8>>) -> Seq<u8>
    decreases pieces.len(),
{
    if pieces.len() == 0 {
        Seq::empty()
    } else {
        pieces[0] + joined(pieces.skip(1))
    }
}

/// Whether each chunk was sent behind a line that a reader takes for its size.
/// No chunk is empty: an empty one ends the body.
pub open spec fn sendable(strict: bool, chunks: Seq<Sent>) -> bool {
    forall|i: int|
        0 <= i < chunks.len() ==> {
            &&& (#[trigger] chunks[i]).bytes.len() > 0
            &&& no_crlf(chunks[i].line)
            &&& stated_size(strict, chunks[i].line) == Some(chunks[i].bytes.len() as int)
        }
}

proof fn lemma_line_end(line: Seq<u8>, rest: Seq<u8>)
    requires
        no_crlf(line),
    ensures
        first_crlf(line + seq![CR, LF] + rest) == Some(line.len() as int),
{
    let b = line + seq![CR, LF] + rest;
    assert(crlf_here(b, line.len() as int));
    assert forall|j: int| 0 <= j < line.len() implies !crlf_here(b, j) by {
        if crlf_here(b, j) {
            assert(b[j + 1] == LF);
            assert(j + 1 < line.len());
            assert(crlf_here(line, j));
        }
    }
    lemma_first_crlf_is(b, line.len() as int);
}

#[verifier::spinoff_prover]
proof fn lemma_a_chunk_comes_out(strict: bool, c: Sent, behind_it: Seq<u8>)
    requires
        c.bytes.len() > 0,
        no_crlf(c.line),
        stated_size(strict, c.line) == Some(c.bytes.len() as int),
    ensures
        decode(
            strict,
            Phase::Size,
            c.line + seq![CR, LF] + (c.bytes + (seq![CR, LF] + behind_it)),
        ) == (Decoded {
            payload: c.bytes + decode(strict, Phase::Size, behind_it).payload,
            ..decode(strict, Phase::Size, behind_it)
        }),
{
    let after = seq![CR, LF] + behind_it;
    let wire = c.line + seq![CR, LF] + (c.bytes + after);
    lemma_line_end(c.line, c.bytes + after);
    lemma_stated_size_bound(strict, c.line);
    assert(wire.take(c.line.len() as int) =~= c.line);
    let body = wire.skip(c.line.len() as int + 2);
    assert(body =~= c.bytes + after);
    assert(body.take(c.bytes.len() as int) =~= c.bytes);
    assert(body.skip(c.bytes.len() as int) =~= after);
    assert(crlf_here(after, 0));
    assert(after.skip(2) =~= behind_it);
    assert(decode(strict, Phase::AfterData, after) == decode(strict, Phase::Size, behind_it));
    let d = decode(strict, Phase::Data(c.bytes.len() as u64), body);
    assert(d.payload == c.bytes + decode(strict, Phase::Size, behind_it).payload);
    assert(decode(strict, Phase::Size, wire) == d);
}

/// What was sent in chunks comes out as it went in: a reader of either kind
/// takes exactly the chunks' bytes out of the body, in order, ends at the
/// zero-size chunk and leaves what comes behind it alone.
#[verifier::spinoff_prover]
pub proof fn law_chunks_come_out_as_sent(
    strict: bool,
    chunks: Seq<Sent>,
    end: Seq<u8>,
    tail: Seq<u8>,
)
    requires
        sendable(strict, chunks),
        no_crlf(end),
        stated_size(strict, end) == Some(0int),
    ensures
        decode(strict, Phase::Size, on_the_wire(chunks, end, tail)) == (Decoded {
            payload: joined(bodies(chunks)),
            phase: Phase::Done,
            rest: tail,
            fault: None,
        }),
    decreases chunks.len(),
{
    let wire = on_the_wire(chunks, end, tail);
    if chunks.len() == 0 {
        lemma_line_end(end, tail);
        assert(wire.take(end.len() as int) =~= end);
        assert(wire.skip(end.len() as int + 2) =~= tail);
        assert(decode(strict, Phase::Done, tail).rest == tail);
        assert(joined(bodies(chunks)) =~= Seq::<u8>::empty());
    } else {
        let c = chunks[0];
        let behind_it = on_the_wire(chunks.skip(1), end, tail);
        assert forall|i: int| 0 <= i < chunks.skip(1).len() implies {
            &&& (#[trigger] chunks.skip(1)[i]).bytes.len() > 0
            &&& no_crlf(chunks.skip(1)[i].line)
            &&& stated_size(strict, chunks.skip(1)[i].line) == Some(
                chunks.skip(1)[i].bytes.len() as int,
            )
        } by {
            assert(chunks.skip(1)[i] == chunks[i + 1]);
        }
        law_chunks_come_out_as_sent(strict, chunks.skip(1), end, tail);
        assert(bodies(chunks).skip(1) =~= bodies(chunks.skip(1)));
        assert(wire =~= c.line + seq![CR, LF] + (c.bytes + (seq![CR, LF] + behind_it)));
        lemma_a_chunk_comes_out(strict, c, behind_it);
    }
}

/// The size that a line of a body in memory states.
pub open spec fn size_in_memory(line: Seq<u8>) -> Option<int> {
    if valid_utf8(line) {
        number(trimmed(before_first(decode_utf8(line), ';')), 16, usize::MAX as int)
    } else {
        None
    }
}

/// The payload of a chunked body held whole in memory. Reading stops at the
/// first thing that is no chunk; a chunk that is cut short gives what there is
/// of it.
pub open spec fn dechunked(body: Seq<u8>) -> Seq<u8>
    decreases body.len(),
{
    match first_crlf(body) {
        None => Seq::empty(),
        Some(i) => {
            let start = i + 2;
            if !(0 <= i && start <= body.len()) {
                Seq::empty()
            } else {
                match size_in_memory(body.take(i)) {
                    None => Seq::empty(),
                    Some(n) => if n <= 0 {
                        Seq::empty()
                    } else if start + n > body.len() {
                        body.skip(start)
                    } else {
                        let next = if start + n + 2 <= body.len() {
                            start + n + 2
                        } else {
                            body.len() as int
                        };
                        body.subrange(start, start + n) + dechunked(body.skip(next))
                    },
                }
            }
        },
    }
}

/// Takes the payload out of a complete chunked body already held in memory.
pub fn dechunk(body: &[u8]) -> (r: Vec<u8>)
    ensures
        r@ == dechunked(body@),
{
    let mut out: Vec<u8> = Vec::new();
    let mut pos: usize = 0;
    let n: usize = body.len();
    proof {
        assert(body@.skip(0) =~= body@);
        assert(out@ + dechunked(body@) =~= dechunked(body@));
    }
    loop
        invariant
            pos <= n == body@.len(),
            dechunked(body@) == out@ + dechunked(body@.skip(pos as int)),
        decreases n - pos,
    {
        let ghost rest_seq = body@.skip(pos as int);
        let ghost done = out@;
        let rest = vstd::slice::slice_subrange(body, pos, n);
        proof {
            assert(rest@ =~= rest_seq);
            lemma_first_crlf(rest_seq);
            assert(done + Seq::<u8>::empty() =~= done);
        }
        let i: usize = match find_crlf(rest) {
            None => {
                return out;
            },
            Some(i) => i,
        };
        let line = vstd::slice::slice_subrange(rest, 0, i);
        proof {
            assert(line@ =~= rest_seq.take(i as int));
        }
        let text = match decode_strict(line) {
            None => {
                return out;
            },
            Some(t) => t,
        };
        let chars = chars_of(text);
        let size: u64 = match parse_number(
            trim(cut_before(chars.as_slice(), ';')),
            16,
            usize::MAX as u64,
        ) {
            None => {
                return out;
            },
            Some(v) => v,
        };
        if size == 0 {
            return out;
        }
        let start: usize = pos + i + 2;
        if size > (n - start) as u64 {
            let tail = vstd::slice::slice_subrange(body, start, n);
            out.extend_from_slice(tail);
            proof {
                assert(tail@ =~= rest_seq.skip(i + 2));
            }
            return out;
        }
        let end: usize = start + size as usize;
        let part = vstd::slice::slice_subrange(body, start, end);
        out.extend_from_slice(part);
        pos = if n - end >= 2 {
            end + 2
        } else {
            n
        };
        proof {
            let next = if i + 2 + size + 2 <= rest_seq.len() {
                i + 2 + size + 2
            } else {
                rest_seq.len() as int
            };
            assert(part@ =~= rest_seq.subrange(i + 2, i + 2 + size));
            assert(rest_seq.skip(next) =~= body@.skip(pos as int));
            assert(done + (part@ + dechunked(body@.skip(pos as int))) =~= (done + part@)
                + dechunked(body@.skip(pos as int)));
        }
    }
}

/// The text of a run of ASCII bytes.
pub open spec fn ascii_text(b: Seq<u8>) -> Seq<char> {
    Seq::new(b.len(), |i: int| b[i] as char)
}

proof fn lemma_ascii_decodes(b: Seq<u8>)
    requires
        forall|i: int| 0 <= i < b.len() ==> #[trigger] b[i] < 128,
    ensures
        valid_utf8(b),
        decode_utf8(b) == ascii_text(b),
{
    let t = ascii_text(b);
    assert forall|i: int| 0 <= i < t.len() implies (#[trigger] t[i] as nat) < 128 by {
        assert(b[i] < 128);
    }
    vstd::utf8::is_ascii_chars_encode_utf8(t);
    assert(vstd::utf8::encode_utf8(t) =~= b) by {
        assert forall|i: int| 0 <= i < b.len() implies t[i] as u8 == b[i] by {
            assert(b[i] < 128);
        }
    }
    vstd::utf8::encode_utf8_valid_utf8(t);
    vstd::utf8::encode_utf8_decode_utf8(t);
}

proof fn lemma_hex_digits(d: Seq<u8>)
    requires
        hex_number(d) is Some,
    ensures
        forall|i: int| 0 <= i < d.len() ==> hex_value(#[trigger] d[i]) is Some,
        digits_value(ascii_text(d), 16) == hex_number(d),
    decreases d.len(),
{
    let t = ascii_text(d);
    if d.len() > 0 {
        let init = d.drop_last();
        lemma_hex_digits(init);
        assert(t.drop_last() =~= ascii_text(init));
        assert(t.last() == d.last() as char);
        assert(digit_value(t.last(), 16) == hex_value(d.last()));
        assert forall|i: int| 0 <= i < d.len() implies hex_value(#[trigger] d[i]) is Some by {
            if i < init.len() {
                assert(d[i] == init[i]);
            }
        }
    }
}

proof fn lemma_extension_decodes(extension: Seq<u8>)
    requires
        valid_utf8(extension),
        extension.len() > 0,
        extension[0] == 0x3B,
    ensures
        decode_utf8(extension).len() > 0,
        decode_utf8(extension)[0] == ';',
{
    let mark = extension.subrange(0, 1);
    assert(mark =~= seq![0x3Bu8]);
    lemma_ascii_decodes(mark);
    reveal_with_fuel(vstd::utf8::is_char_boundary, 2);
    assert(vstd::utf8::is_char_boundary(extension, 1));
    vstd::utf8::decode_utf8_split(extension, 1);
    assert(ascii_text(mark)[0] == ';');
}

proof fn lemma_line_text(digits: Seq<u8>, extension: Seq<u8>)
    requires
        digits.len() > 0,
        hex_number(digits) is Some,
        extension.len() > 0 ==> extension[0] == 0x3B,
        valid_utf8(extension),
    ensures
        valid_utf8(digits + extension),
        trimmed(before_first(decode_utf8(digits + extension), ';')) == ascii_text(digits),
{
    let line = digits + extension;
    let n = digits.len() as int;
    let t = ascii_text(digits);
    lemma_hex_digits(digits);
    assert forall|i: int| 0 <= i < n implies #[trigger] digits[i] < 128 by {
        assert(hex_value(digits[i]) is Some);
    }
    lemma_ascii_decodes(digits);
    vstd::utf8::valid_utf8_concat(digits, extension);
    let text = decode_utf8(line);
    if extension.len() == 0 {
        assert(line =~= digits);
    } else {
        assert(line[n] == 0x3B);
        vstd::utf8::is_char_boundary_iff_not_is_continuation_byte(line, n);
        vstd::utf8::decode_utf8_split(line, n);
        assert(line.subrange(0, n) =~= digits);
        assert(line.subrange(n, line.len() as int) =~= extension);
        lemma_extension_decodes(extension);
        assert(text[n] == ';');
    }
    assert forall|i: int| 0 <= i < n implies !is_space(#[trigger] t[i]) && t[i] != ';' by {
        assert(hex_value(digits[i]) is Some);
        assert(t[i] == digits[i] as char);
    }
    assert forall|i: int| 0 <= i < n implies text[i] != ';' by {
        assert(text[i] == t[i]);
    }
    lemma_first_of_at(text, ';', n);
    assert(text.take(n) =~= t);
}

/// A size line reads as the number that its digits write, in either case, and
/// an extension behind it makes no difference. A strict reader takes any
/// extension; the others take any that is valid text.
pub proof fn law_size_lines_state_their_size(digits: Seq<u8>, extension: Seq<u8>)
    requires
        1 <= digits.len() <= 16,
        hex_number(digits) is Some,
        extension.len() > 0 ==> extension[0] == 0x3B,
        no_crlf(extension),
    ensures
        no_crlf(digits + extension),
        stated_size(true, digits + extension) == hex_number(digits),
        valid_utf8(extension) ==> stated_size(false, digits + extension) == hex_number(digits),
        valid_utf8(extension) && hex_number(digits)->0 <= usize::MAX ==> size_in_memory(
            digits + extension,
        ) == hex_number(digits),
{
    let line = digits + extension;
    let n = digits.len() as int;
    lemma_hex_digits(digits);
    lemma_chunk_size_bound(digits);
    assert forall|j: int| !crlf_here(line, j) by {
        if crlf_here(line, j) {
            if j < n {
                assert(hex_value(digits[j]) is Some);
                assert(line[j] == digits[j]);
            } else {
                assert(line[j] == extension[j - n]);
                assert(line[j + 1] == extension[j + 1 - n]);
                assert(crlf_here(extension, j - n));
            }
        }
    }
    lemma_first_byte(line, 0x3B);
    let k = first_byte(line, 0x3B);
    if k < n {
        assert(hex_value(digits[k]) is Some);
        assert(line[k] == digits[k]);
    }
    if k > n {
        assert(line[n] == 0x3B);
    }
    assert(line.take(n) =~= digits);
    assert(hex_value(digits[0]) is Some);
    assert(hex_value(digits[n - 1]) is Some);
    assert(ascii_trimmed_end(ascii_trimmed_start(digits)) == digits);
    if valid_utf8(extension) {
        lemma_line_text(digits, extension);
        let t = ascii_text(digits);
        assert(t[0] == digits[0] as char);
        assert(t[0] != '+');
    }
}

/// A whole body in memory gives back the chunks that were sent.
pub proof fn law_dechunking_undoes_framing(chunks: Seq<Sent>, end: Seq<u8>, tail: Seq<u8>)
    requires
        forall|i: int|
            0 <= i < chunks.len() ==> {
                &&& (#[trigger] chunks[i]).bytes.len() > 0
                &&& no_crlf(chunks[i].line)
                &&& size_in_memory(chunks[i].line) == Some(chunks[i].bytes.len() as int)
            },
        no_crlf(end),
        size_in_memory(end) == Some(0int),
    ensures
        dechunked(on_the_wire(chunks, end, tail)) == joined(bodies(chunks)),
    decreases chunks.len(),
{
    let wire = on_the_wire(chunks, end, tail);
    if chunks.len() == 0 {
        lemma_line_end(end, tail);
        assert(wire.take(end.len() as int) =~= end);
        assert(joined(bodies(chunks)) =~= Seq::<u8>::empty());
    } else {
        let c = chunks[0];
        let h = c.line;
        let behind_it = on_the_wire(chunks.skip(1), end, tail);
        let after = seq![CR, LF] + behind_it;
        assert forall|i: int| 0 <= i < chunks.skip(1).len() implies {
            &&& (#[trigger] chunks.skip(1)[i]).bytes.len() > 0
            &&& no_crlf(chunks.skip(1)[i].line)
            &&& size_in_memory(chunks.skip(1)[i].line) == Some(
                chunks.skip(1)[i].bytes.len() as int,
            )
        } by {
            assert(chunks.skip(1)[i] == chunks[i + 1]);
        }
        law_dechunking_undoes_framing(chunks.skip(1), end, tail);
        assert(bodies(chunks).skip(1) =~= bodies(chunks.skip(1)));
        lemma_line_end(h, c.bytes + after);
        let start = h.len() as int + 2;
        assert(wire =~= h + seq![CR, LF] + (c.bytes + after));
        assert(wire.take(h.len() as int) =~= h);
        assert(wire.subrange(start, start + c.bytes.len()) =~= c.bytes);
        assert(wire.skip(start + c.bytes.len() as int + 2) =~= behind_it);
    }
}

/// A line that states no size stops the reading before anything of it is taken.
pub proof fn law_a_bad_size_line_stops_the_reading(strict: bool, line: Seq<u8>, rest: Seq<u8>)
    requires
        no_crlf(line),
        stated_size(strict, line) is None,
    ensures
        ({
            let d = decode(strict, Phase::Size, line + seq![CR, LF] + rest);
            &&& d.payload.len() == 0
            &&& d.phase == Phase::Size
            &&& d.rest == line + seq![CR, LF] + rest
            &&& d.fault == Some(Fault::BadSize(line))
        }),
{
    let buf = line + seq![CR, LF] + rest;
    lemma_line_end(line, rest);
    assert(buf.take(line.len() as int) =~= line);
}

/// Behind a chunk a strict reader insists on a line end, and a tolerant one
/// skips two bytes unseen.
pub proof fn law_a_chunk_ends_with_a_line_end(a: u8, b: u8, rest: Seq<u8>)
    ensures
        decode(false, Phase::AfterData, seq![a, b] + rest) == decode(false, Phase::Size, rest),
        a == 13 && b == 10 ==> decode(true, Phase::AfterData, seq![a, b] + rest) == decode(
            true,
            Phase::Size,
            rest,
        ),
        !(a == 13 && b == 10) ==> decode(true, Phase::AfterData, seq![a, b] + rest).fault == Some(
            Fault::Unterminated,
        ),
{
    let buf = seq![a, b] + rest;
    assert(buf.skip(2) =~= rest);
    assert(buf[0] == a && buf[1] == b);
}

/// Part of a chunk is payload as far as it came in, and the rest is still to
/// come: a body is not over before its last chunk.
pub proof fn law_a_chunk_that_is_cut_short_is_unfinished(strict: bool, left: u64, part: Seq<u8>)
    requires
        part.len() < left,
    ensures
        ({
            let d = decode(strict, Phase::Data(left), part);
            &&& d.payload == part
            &&& d.phase == Phase::Data((left - part.len()) as u64)
            &&& d.rest.len() == 0
            &&& d.fault is None
        }),
{
    if part.len() > 0 {
        let n = part.len() as int;
        let next = Phase::Data((left - n) as u64);
        assert(part.skip(n) =~= Seq::<u8>::empty());
        assert(part.take(n) =~= part);
        assert(decode(strict, next, Seq::<u8>::empty()).payload.len() == 0);
        assert(decode(strict, Phase::Data(left), part).payload =~= part);
    } else {
        assert(decode(strict, Phase::Data(left), part).payload =~= part);
    }
}

/// Before a line end has come in, nothing is read of a size line; past the last
/// chunk nothing is read at all.
pub proof fn law_an_unfinished_size_line_waits(strict: bool, buf: Seq<u8>)
    ensures
        no_crlf(buf) ==> decode(strict, Phase::Size, buf) == (Decoded {
            payload: Seq::empty(),
            phase: Phase::Size,
            rest: buf,
            fault: None,
        }),
        decode(strict, Phase::Done, buf) == (Decoded {
            payload: Seq::empty(),
            phase: Phase::Done,
            rest: buf,
            fault: None,
        }),
{
    lemma_first_crlf(buf);
}

/// No byte is written past the far end of a range, and none before it is left
/// out.
pub proof fn law_what_lies_before_the_bound_is_written(payload: Seq<u8>, off: int, hi: int)
    ensures
        before_bound(payload, off, hi).len() <= payload.len(),
        before_bound(payload, off, hi) == payload.take(
            before_bound(payload, off, hi).len() as int,
        ),
        off <= hi ==> off + before_bound(payload, off, hi).len() <= hi,
        off + payload.len() <= hi ==> before_bound(payload, off, hi) == payload,
        off <= hi && off + payload.len() > hi ==> off + before_bound(payload, off, hi).len() == hi,
        hi <= off ==> before_bound(payload, off, hi).len() == 0,
{
    assert(payload.take(payload.len() as int) =~= payload);
    assert(payload.take(0) =~= Seq::<u8>::empty());
}

/// A body in memory that is cut short inside a chunk gives what there is of it;
/// one that begins with no size gives nothing.
pub proof fn law_a_body_cut_short_gives_what_there_is(line: Seq<u8>, part: Seq<u8>)
    requires
        no_crlf(line),
    ensures
        size_in_memory(line) is Some && size_in_memory(line)->0 > part.len() ==> dechunked(
            line + seq![CR, LF] + part,
        ) == part,
        size_in_memory(line) is None || size_in_memory(line)->0 == 0 ==> dechunked(
            line + seq![CR, LF] + part,
        ) == Seq::<u8>::empty(),
        no_crlf(part) ==> dechunked(part) == Seq::<u8>::empty(),
{
    let body = line + seq![CR, LF] + part;
    lemma_line_end(line, part);
    assert(body.take(line.len() as int) =~= line);
    assert(body.skip(line.len() as int + 2) =~= part);
    lemma_first_crlf(part);
}

/// A chunk's bytes stand behind its size line, each piece with its line end, and
/// the pieces follow one another.
pub proof fn law_chunks_follow_each_other(c: Sent, more: Seq<Sent>, end: Seq<u8>, tail: Seq<u8>)
    ensures
        on_the_wire(Seq::<Sent>::empty(), end, tail) == end + seq![13u8, 10u8] + tail,
        on_the_wire(seq![c] + more, end, tail) == c.line + seq![13u8, 10u8] + c.bytes + seq![
            13u8,
            10u8,
        ] + on_the_wire(more, end, tail),
        bodies(seq![c] + more) == seq![c.bytes] + bodies(more),
        joined(seq![c.bytes] + bodies(more)) == c.bytes + joined(bodies(more)),
{
    assert((seq![c] + more).skip(1) =~= more);
    assert(bodies(seq![c] + more) =~= seq![c.bytes] + bodies(more));
    assert((seq![c.bytes] + bodies(more)).skip(1) =~= bodies(more));
    assert(seq![CR, LF] =~= seq![13u8, 10u8]);
}

/// A fault says what it is about: a strict reader shows the line, or its first
/// part where it is long, and a tolerant one the size that it could not read.
pub proof fn law_a_fault_says_what_it_is_about(line: Seq<u8>, strict: bool)
    ensures
        line.len() <= 64 ==> fault_text(true, Fault::BadSize(line)) == "bad chunk size line "@
            + quoted(as_text(line)),
        line.len() > 64 ==> fault_text(true, Fault::BadSize(line)) == "bad chunk size line "@
            + quoted(as_text(line.take(64))),
        fault_text(false, Fault::BadSize(line)) == "bad chunk size "@ + quoted(
            trimmed(before_first(as_text(line), ';')),
        ),
        fault_text(strict, Fault::Unterminated) == "chunk not terminated by CRLF"@,
{
}

} // verus!
