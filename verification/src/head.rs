//! Reading a response head: the status, a named header, and the facts that
//! the fetch path takes from them.

use crate::bytes::find_crlf2;
#[allow(unused_imports)]
use crate::bytes::head_end;
use crate::error::{ErrorKind, FetchError};
use crate::text::{
    chars_of, contains_text, cut_after_last, cut_before, matches_at, parse_number, split_crlf,
    starts_with, string_of, to_lower, trim, trim_start, word_at,
};
#[allow(unused_imports)]
use crate::text::{
    after_last, before_first, begins, crlf_split, decimal, is_space, law_decimal_reads_back,
    lemma_first_of_at, lemma_past_last_at, lowered, nth_word, number, occurs, trimmed,
    trimmed_start, views,
};
use vstd::prelude::*;

verus! {

/// The status that a response head states: its second word, or zero where
/// that is not a number of the status range.
pub open spec fn status_of(head: Seq<char>) -> int {
    match nth_word(head, 1) {
        Some(w) => match number(w, 10, 65535) {
            Some(n) => n,
            None => 0,
        },
        None => 0,
    }
}

/// Reads the status of a response head; zero where it states none.
pub fn response_status(head: &[char]) -> (r: u16)
    ensures
        r == status_of(head@),
{
    match word_at(head, 1) {
        Some(w) => match parse_number(w, 10, 65535) {
            Some(n) => n as u16,
            None => 0,
        },
        None => 0,
    }
}

/// Whether `line` is a header line with the given name, in any case.
pub open spec fn names(line: Seq<char>, name: Seq<char>) -> bool {
    &&& line.len() > name.len()
    &&& line[name.len() as int] == ':'
    &&& lowered(line.take(name.len() as int)) == lowered(name)
}

/// The value of the first header of that name among `lines`.
pub open spec fn first_header(lines: Seq<Seq<char>>, name: Seq<char>) -> Option<Seq<char>>
    decreases lines.len(),
{
    if lines.len() == 0 {
        None
    } else if names(lines[0], name) {
        Some(trimmed(lines[0].skip(name.len() as int + 1)))
    } else {
        first_header(lines.skip(1), name)
    }
}

/// The value of a header in a response head. The first line is the status
/// line and holds no header.
pub open spec fn header_of(head: Seq<char>, name: Seq<char>) -> Option<Seq<char>> {
    first_header(crlf_split(head).skip(1), name)
}

fn line_names(line: &[char], name: &[char], low: &[char]) -> (r: bool)
    requires
        low@ == lowered(name@),
    ensures
        r == names(line@, name@),
{
    let n: usize = name.len();
    if line.len() <= n || line[n] != ':' {
        return false;
    }
    let start = vstd::slice::slice_subrange(line, 0, n);
    proof {
        assert(start@ =~= line@.take(n as int));
    }
    let folded = to_lower(start);
    let r = matches_at(folded.as_slice(), low, 0);
    proof {
        assert(folded@.subrange(0, low@.len() as int) =~= folded@);
    }
    r
}

/// Value of a named header in a raw response head, in any case.
pub fn header_value(head: &str, name: &str) -> (r: Option<String>)
    ensures
        match r {
            Some(v) => header_of(head@, name@) == Some(v@),
            None => header_of(head@, name@) is None,
        },
{
    let text = chars_of(head);
    let key = chars_of(name);
    let low = to_lower(key.as_slice());
    let lines = split_crlf(text.as_slice());
    let ghost all = crlf_split(head@);
    let mut i: usize = 1;
    while i < lines.len()
        invariant
            1 <= i <= lines@.len(),
            all == crlf_split(head@),
            views(lines@) == all,
            key@ == name@,
            low@ == lowered(key@),
            header_of(head@, name@) == first_header(all.skip(i as int), name@),
        decreases lines@.len() - i,
    {
        let line = &lines[i];
        proof {
            assert(all[i as int] == line@);
            assert(all.skip(i as int)[0] == line@);
            assert(all.skip(i as int).skip(1) =~= all.skip(i + 1));
        }
        if line_names(line.as_slice(), key.as_slice(), low.as_slice()) {
            let value = vstd::slice::slice_subrange(line.as_slice(), key.len() + 1, line.len());
            proof {
                assert(value@ =~= line@.skip(key@.len() as int + 1));
            }
            return Some(string_of(trim(value)));
        }
        i = i + 1;
    }
    proof {
        assert(all.skip(i as int) =~= Seq::<Seq<char>>::empty());
    }
    None
}

/// Value of a named header in a raw response head, in any case.
pub fn header_lookup(head: &str, name: &str) -> (r: Option<String>)
    ensures
        match r {
            Some(v) => header_of(head@, name@) == Some(v@),
            None => header_of(head@, name@) is None,
        },
{
    header_value(head, name)
}

/// Two spellings of a header name that differ only in case find the same
/// header.
pub proof fn law_header_names_ignore_case(head: Seq<char>, a: Seq<char>, b: Seq<char>)
    requires
        lowered(a) == lowered(b),
    ensures
        header_of(head, a) == header_of(head, b),
{
    assert(lowered(a).len() == a.len() && lowered(b).len() == b.len());
    lemma_first_header_case(crlf_split(head).skip(1), a, b);
}

proof fn lemma_first_header_case(lines: Seq<Seq<char>>, a: Seq<char>, b: Seq<char>)
    requires
        lowered(a) == lowered(b),
        a.len() == b.len(),
    ensures
        first_header(lines, a) == first_header(lines, b),
    decreases lines.len(),
{
    if lines.len() > 0 {
        lemma_first_header_case(lines.skip(1), a, b);
    }
}

/// Whether the named header is there and mentions `token`, in any case.
pub open spec fn mentions(head: Seq<char>, name: Seq<char>, token: Seq<char>) -> bool {
    match header_of(head, name) {
        Some(v) => occurs(lowered(v), token),
        None => false,
    }
}

/// Whether the named header is there and mentions `token`, which is given in
/// lower case.
pub fn header_mentions(head: &str, name: &str, token: &str) -> (r: bool)
    ensures
        r == mentions(head@, name@, token@),
{
    match header_value(head, name) {
        Some(v) => {
            let value = chars_of(v.as_str());
            let low = to_lower(value.as_slice());
            let t = chars_of(token);
            contains_text(low.as_slice(), t.as_slice())
        },
        None => false,
    }
}

/// The length that `Content-Length` states, where it states one.
pub open spec fn length_of(head: Seq<char>) -> Option<int> {
    match header_of(head, "content-length"@) {
        Some(v) => number(trimmed(v), 10, u64::MAX as int),
        None => None,
    }
}

/// Reads `Content-Length`.
pub fn content_length(head: &str) -> (r: Option<u64>)
    ensures
        match r {
            Some(n) => length_of(head@) == Some(n as int),
            None => length_of(head@) is None,
        },
{
    match header_value(head, "content-length") {
        Some(v) => {
            let value = chars_of(v.as_str());
            parse_number(trim(value.as_slice()), 10, u64::MAX)
        },
        None => None,
    }
}

/// The body is sent in chunks.
pub open spec fn is_chunked(head: Seq<char>) -> bool {
    mentions(head, "transfer-encoding"@, "chunked"@)
}

/// The server announces that it closes the connection.
pub open spec fn says_close(head: Seq<char>) -> bool {
    mentions(head, "connection"@, "close"@)
}

/// The total that a `Content-Range` value states behind its slash.
pub open spec fn range_total(v: Seq<char>) -> Option<int> {
    number(trimmed(after_last(v, '/')), 10, u64::MAX as int)
}

/// Total length from a `Content-Range: bytes lo-hi/total` header.
pub fn parse_content_range_total(v: &str) -> (r: Option<u64>)
    ensures
        match r {
            Some(n) => range_total(v@) == Some(n as int),
            None => range_total(v@) is None,
        },
{
    let value = chars_of(v);
    parse_number(trim(cut_after_last(value.as_slice(), '/')), 10, u64::MAX)
}

/// The first byte position that a `Content-Range` value states.
pub open spec fn range_start(v: Seq<char>) -> Option<int> {
    let t = trimmed(v);
    if begins(t, "bytes"@) {
        number(
            trimmed(before_first(trimmed_start(t.skip("bytes"@.len() as int)), '-')),
            10,
            u64::MAX as int,
        )
    } else {
        None
    }
}

/// First byte position of a `Content-Range: bytes <first>-<last>/<len>`
/// header.
pub fn parse_content_range_start(v: &str) -> (r: Option<u64>)
    ensures
        match r {
            Some(n) => range_start(v@) == Some(n as int),
            None => range_start(v@) is None,
        },
{
    let value = chars_of(v);
    let t = trim(value.as_slice());
    let unit = chars_of("bytes");
    if !starts_with(t, unit.as_slice()) {
        return None;
    }
    let rest = vstd::slice::slice_subrange(t, unit.len(), t.len());
    proof {
        assert(rest@ =~= t@.skip("bytes"@.len() as int));
    }
    parse_number(trim(cut_before(trim_start(rest), '-')), 10, u64::MAX)
}

/// A `Content-Range` value for the bytes from `first` to `last` out of `total`.
pub open spec fn content_range(first: nat, last: nat, total: nat) -> Seq<char> {
    "bytes "@ + decimal(first) + "-"@ + decimal(last) + "/"@ + decimal(total)
}

proof fn lemma_trimmed_solid(s: Seq<char>)
    requires
        s.len() > 0,
        !is_space(s[0]),
        !is_space(s.last()),
    ensures
        trimmed(s) == s,
{
}

/// A server that states the range it sends is understood: the first position
/// and the total come out as they went in.
pub proof fn law_content_range_reads_back(first: nat, last: nat, total: nat)
    requires
        first <= u64::MAX,
        total <= u64::MAX,
    ensures
        range_start(content_range(first, last, total)) == Some(first as int),
        range_total(content_range(first, last, total)) == Some(total as int),
{
    reveal_strlit("bytes ");
    reveal_strlit("bytes");
    reveal_strlit("-");
    reveal_strlit("/");
    let a = decimal(first);
    let b = decimal(last);
    let t = decimal(total);
    law_decimal_reads_back(first, u64::MAX as int);
    law_decimal_reads_back(last, u64::MAX as int);
    law_decimal_reads_back(total, u64::MAX as int);
    let v = content_range(first, last, total);
    assert(v.last() == t[t.len() - 1]);
    lemma_trimmed_solid(v);
    assert(v.subrange(0, 5) =~= "bytes"@);
    let rest = v.skip(5);
    assert(rest[0] == ' ');
    let tail = a + "-"@ + b + "/"@ + t;
    assert(rest.skip(1) =~= tail);
    assert(tail[0] == a[0]);
    assert(trimmed_start(rest) == tail) by {
        reveal_with_fuel(trimmed_start, 2);
    }
    assert forall|j: int| 0 <= j < a.len() implies tail[j] != '-' by {
        assert(tail[j] == a[j]);
    }
    lemma_first_of_at(tail, '-', a.len() as int);
    assert(tail.take(a.len() as int) =~= a);
    lemma_trimmed_solid(a);
    let k = v.len() - t.len();
    assert forall|j: int| k <= j < v.len() implies v[j] != '/' by {
        assert(v[j] == t[j - k]);
    }
    lemma_past_last_at(v, '/', k);
    assert(v.skip(k) =~= t);
    lemma_trimmed_solid(t);
}

/// What a read from a connection gave.
pub enum Got<'a> {
    Bytes(&'a [u8]),
    /// The peer closed the connection.
    End,
    Failed(ErrorKind),
}

/// Who reads a response head: the limits and the ways out differ.
#[derive(Clone, Copy, Debug, PartialEq, Eq, Structural)]
pub enum HeadRule {
    /// An exchange that may be sent again on another connection.
    Exchange,
    /// A body of unknown length follows.
    Streaming,
    /// A probe by a one-byte range request.
    ProbeByGet,
    /// A question for the total size alone.
    SizeOnly,
    /// A probe by `HEAD`.
    ProbeByHead,
}

/// What to do after a read.
pub enum HeadStep {
    /// Read on.
    More,
    /// The head is complete, and this is the offset of the first body byte.
    Complete(usize),
    /// There will be no more of the head; go on with what there is.
    Closed,
    /// Give the read's own failure to the caller.
    PassOn,
    Failed(FetchError),
}

/// How large a head may grow.
pub open spec fn head_limit(rule: HeadRule) -> int {
    if rule == HeadRule::SizeOnly {
        0x8000
    } else {
        0x10000
    }
}

/// Whether `step` is right after a read that left `head` and met its end, in
/// the eyes of a reader that takes an unclean close for an end.
pub open spec fn head_ended(rule: HeadRule, head: Seq<u8>, step: HeadStep) -> bool {
    match head_end(head) {
        Some(p) if rule == HeadRule::Streaming || rule == HeadRule::ProbeByHead => step
            matches HeadStep::Complete(q) && q == p,
        None if rule == HeadRule::Streaming => step matches HeadStep::Failed(e) && e.says(
            ErrorKind::InvalidData,
            "no header terminator"@,
        ),
        _ => step is Closed,
    }
}

/// Whether `step` is right after a read that left `head`.
pub open spec fn head_grew(rule: HeadRule, head: Seq<u8>, step: HeadStep) -> bool {
    let over = head.len() > head_limit(rule);
    match head_end(head) {
        Some(p) if !(over && rule == HeadRule::ProbeByHead) => step matches HeadStep::Complete(q)
            && q == p,
        _ => if !over {
            step is More
        } else {
            match rule {
                HeadRule::Exchange => step matches HeadStep::Failed(e) && e.says(
                    ErrorKind::InvalidData,
                    "header too large"@,
                ),
                HeadRule::Streaming => step matches HeadStep::Failed(e) && e.says(
                    ErrorKind::InvalidData,
                    "response headers exceed 64 KiB"@,
                ),
                _ => step is Closed,
            }
        },
    }
}

/// Whether `step` is right when `got` comes in behind `before` and leaves
/// `after`.
pub open spec fn head_read(
    rule: HeadRule,
    before: Seq<u8>,
    got: Got,
    after: Seq<u8>,
    step: HeadStep,
) -> bool {
    match got {
        Got::Bytes(b) => after == before + b@ && head_grew(rule, after, step),
        Got::End => after == before && head_ended(rule, before, step),
        Got::Failed(kind) => {
            &&& after == before
            &&& if kind != ErrorKind::UnexpectedEof {
                step is PassOn
            } else {
                match rule {
                    HeadRule::Streaming | HeadRule::ProbeByHead => head_ended(rule, before, step),
                    HeadRule::ProbeByGet => match head_end(before) {
                        Some(p) => step matches HeadStep::Complete(q) && q == p,
                        None => step is PassOn,
                    },
                    _ => step is PassOn,
                }
            }
        },
    }
}

fn end_of_head(rule: HeadRule, head: &Vec<u8>) -> (r: HeadStep)
    ensures
        head_ended(rule, head@, r),
{
    if rule == HeadRule::Streaming || rule == HeadRule::ProbeByHead {
        match find_crlf2(head.as_slice()) {
            Some(p) => HeadStep::Complete(p),
            None => if rule == HeadRule::Streaming {
                HeadStep::Failed(
                    FetchError::plain(ErrorKind::InvalidData, "no header terminator"),
                )
            } else {
                HeadStep::Closed
            },
        }
    } else {
        HeadStep::Closed
    }
}

/// Takes what a read gave into the head that is being collected, and says how
/// to go on.
pub fn head_step(rule: HeadRule, head: &mut Vec<u8>, got: Got) -> (r: HeadStep)
    ensures
        head_read(rule, old(head)@, got, final(head)@, r),
        got matches Got::Bytes(b) ==> final(head)@ == old(head)@ + b@,
        !(got is Bytes) ==> final(head)@ == old(head)@,
        got is Bytes && head_end(final(head)@) is Some && final(head)@.len() <= 0x10000 ==> r
            == HeadStep::Complete(head_end(final(head)@)->0 as usize),
        got is Bytes && head_end(final(head)@) is Some && rule != HeadRule::ProbeByHead ==> r
            == HeadStep::Complete(head_end(final(head)@)->0 as usize),
        got is Bytes && head_end(final(head)@) is None && final(head)@.len() <= 0x8000 ==> r
            is More,
        got is Bytes && head_end(final(head)@) is None && final(head)@.len() <= 0x10000 && rule
            != HeadRule::SizeOnly ==> r is More,
        got is Bytes && head_end(final(head)@) is None && final(head)@.len() > 0x10000 ==> r
            is Closed || r is Failed,
        got is Bytes && head_end(final(head)@) is None && final(head)@.len() > 0x10000 && (rule
            == HeadRule::Exchange || rule == HeadRule::Streaming) ==> r is Failed,
        got is End && (rule == HeadRule::Exchange || rule == HeadRule::ProbeByGet || rule
            == HeadRule::SizeOnly) ==> r is Closed,
        got is End && rule == HeadRule::Streaming && head_end(old(head)@) is None ==> r is Failed,
        (got is End || got matches Got::Failed(ErrorKind::UnexpectedEof)) && head_end(old(head)@)
            is Some && (rule == HeadRule::Streaming || rule == HeadRule::ProbeByHead) ==> r
            == HeadStep::Complete(head_end(old(head)@)->0 as usize),
        got matches Got::Failed(k) && k != ErrorKind::UnexpectedEof ==> r is PassOn,
        got is Failed && (rule == HeadRule::Exchange || rule == HeadRule::SizeOnly) ==> r is PassOn,
{
    match got {
        Got::Bytes(b) => {
            head.extend_from_slice(b);
            proof {
                assert(head@ =~= old(head)@ + b@);
            }
            let limit: usize = if rule == HeadRule::SizeOnly {
                32768
            } else {
                65536
            };
            let over = head.len() > limit;
            if !(over && rule == HeadRule::ProbeByHead) {
                if let Some(p) = find_crlf2(head.as_slice()) {
                    return HeadStep::Complete(p);
                }
            }
            if !over {
                return HeadStep::More;
            }
            match rule {
                HeadRule::Exchange => HeadStep::Failed(
                    FetchError::plain(ErrorKind::InvalidData, "header too large"),
                ),
                HeadRule::Streaming => HeadStep::Failed(
                    FetchError::plain(ErrorKind::InvalidData, "response headers exceed 64 KiB"),
                ),
                _ => HeadStep::Closed,
            }
        },
        Got::End => end_of_head(rule, head),
        Got::Failed(kind) => {
            if kind == ErrorKind::UnexpectedEof {
                match rule {
                    HeadRule::Streaming | HeadRule::ProbeByHead => end_of_head(rule, head),
                    HeadRule::ProbeByGet => match find_crlf2(head.as_slice()) {
                        Some(p) => HeadStep::Complete(p),
                        None => HeadStep::PassOn,
                    },
                    _ => HeadStep::PassOn,
                }
            } else {
                HeadStep::PassOn
            }
        },
    }
}

proof fn lemma_first_header_at(lines: Seq<Seq<char>>, name: Seq<char>, i: int)
    requires
        0 <= i < lines.len(),
        names(lines[i], name),
        forall|j: int| 0 <= j < i ==> !names(#[trigger] lines[j], name),
    ensures
        first_header(lines, name) == Some(trimmed(lines[i].skip(name.len() as int + 1))),
    decreases lines.len(),
{
    if i > 0 {
        assert(!names(lines[0], name));
        let rest = lines.skip(1);
        assert forall|j: int| 0 <= j < i - 1 implies !names(#[trigger] rest[j], name) by {
            assert(!names(lines[j + 1], name));
        }
        assert(rest[i - 1] == lines[i]);
        lemma_first_header_at(rest, name, i - 1);
    }
}

proof fn lemma_no_header(lines: Seq<Seq<char>>, name: Seq<char>)
    requires
        forall|j: int| 0 <= j < lines.len() ==> !names(#[trigger] lines[j], name),
    ensures
        first_header(lines, name) is None,
    decreases lines.len(),
{
    if lines.len() > 0 {
        assert(!names(lines[0], name));
        let rest = lines.skip(1);
        assert forall|j: int| 0 <= j < rest.len() implies !names(#[trigger] rest[j], name) by {
            assert(!names(lines[j + 1], name));
        }
        lemma_no_header(rest, name);
    }
}

/// Whether a line is the header `name: value`, in whatever case the name is
/// written.
pub open spec fn is_field(line: Seq<char>, name: Seq<char>, value: Seq<char>) -> bool {
    exists|field: Seq<char>|
        lowered(field) == lowered(name) && line == #[trigger] (field + seq![':'] + value)
}

proof fn lemma_field(line: Seq<char>, name: Seq<char>)
    ensures
        names(line, name) <==> exists|value: Seq<char>| is_field(line, name, value),
        forall|value: Seq<char>| #[trigger]
            is_field(line, name, value) ==> line.skip(name.len() as int + 1) == value,
{
    assert forall|value: Seq<char>| #[trigger] is_field(line, name, value) implies names(line, name)
        && line.skip(name.len() as int + 1) == value by {
        let field = choose|field: Seq<char>|
            lowered(field) == lowered(name) && line == #[trigger] (field + seq![':'] + value);
        assert(lowered(field).len() == field.len() && lowered(name).len() == name.len());
        assert(line.take(name.len() as int) =~= field);
        assert(line.skip(name.len() as int + 1) =~= value);
        assert(line[name.len() as int] == ':');
    }
    if names(line, name) {
        let n = name.len() as int;
        let field = line.take(n);
        let value = line.skip(n + 1);
        assert(line =~= field + seq![':'] + value);
        assert(is_field(line, name, value));
    }
}

/// A header is found behind the status line by its name, in any case: the first
/// line that carries the name counts, and its value is what stands behind the
/// colon, without white space around it.
pub proof fn law_the_first_header_of_a_name_counts(
    head: Seq<char>,
    name: Seq<char>,
    i: int,
    value: Seq<char>,
)
    requires
        1 <= i < crlf_split(head).len(),
        is_field(crlf_split(head)[i], name, value),
        forall|j: int, v: Seq<char>|
            1 <= j < i ==> !#[trigger] is_field(crlf_split(head)[j], name, v),
    ensures
        header_of(head, name) == Some(trimmed(value)),
{
    let lines = crlf_split(head).skip(1);
    lemma_field(lines[i - 1], name);
    assert forall|j: int| 0 <= j < i - 1 implies !names(#[trigger] lines[j], name) by {
        lemma_field(lines[j], name);
        assert(lines[j] == crlf_split(head)[j + 1]);
    }
    lemma_first_header_at(lines, name, i - 1);
}

/// A head that carries no line of a name has no such header; the status line
/// never counts.
pub proof fn law_a_header_that_is_not_there_is_not_found(head: Seq<char>, name: Seq<char>)
    requires
        forall|j: int, v: Seq<char>|
            1 <= j < crlf_split(head).len() ==> !#[trigger] is_field(crlf_split(head)[j], name, v),
    ensures
        header_of(head, name) is None,
{
    let lines = crlf_split(head).skip(1);
    assert forall|j: int| 0 <= j < lines.len() implies !names(#[trigger] lines[j], name) by {
        lemma_field(lines[j], name);
        assert(lines[j] == crlf_split(head)[j + 1]);
    }
    lemma_no_header(lines, name);
}

/// The status of a response is the number behind its version.
pub proof fn law_the_status_reads_back(version: Seq<char>, status: nat, rest: Seq<char>)
    requires
        version.len() > 0,
        forall|i: int| 0 <= i < version.len() ==> !is_space(#[trigger] version[i]),
        rest.len() > 0 ==> is_space(rest[0]),
    ensures
        status <= 65535 ==> status_of(version + seq![' '] + decimal(status) + rest) == status,
        status > 65535 ==> status_of(version + seq![' '] + decimal(status) + rest) == 0,
{
    let w = decimal(status);
    law_decimal_reads_back(status, 65535);
    assert forall|i: int| 0 <= i < w.len() implies !is_space(#[trigger] w[i]) by {
        assert('0' <= w[i] <= '9');
    }
    crate::text::law_words_stand_between_spaces(version, w, rest);
}

/// A response of a single word, or of none, states no status.
pub proof fn law_a_head_without_a_second_word_states_no_status(w: Seq<char>)
    requires
        forall|i: int| 0 <= i < w.len() ==> !is_space(#[trigger] w[i]),
    ensures
        status_of(w) == 0,
{
    crate::text::law_a_single_word_has_no_second(w);
}

/// A header mentions a word where its value holds it, in any case.
pub proof fn law_a_header_mentions_what_it_holds(head: Seq<char>, name: Seq<char>, token: Seq<char>)
    ensures
        mentions(head, name, token) <==> (header_of(head, name) is Some && exists|i: int|
            0 <= i <= header_of(head, name)->0.len() - token.len() && #[trigger] lowered(
                header_of(head, name)->0,
            ).subrange(i, i + token.len()) == token),
        is_chunked(head) == mentions(head, "transfer-encoding"@, "chunked"@),
        says_close(head) == mentions(head, "connection"@, "close"@),
{
    if let Some(v) = header_of(head, name) {
        let low = lowered(v);
        if occurs(low, token) {
            let i = choose|i: int| crate::text::stands_at(low, token, i);
            assert(low.subrange(i, i + token.len()) == token);
        }
        if exists|i: int|
            0 <= i <= v.len() - token.len() && #[trigger] low.subrange(i, i + token.len())
                == token {
            let i = choose|i: int|
                0 <= i <= v.len() - token.len() && #[trigger] low.subrange(i, i + token.len())
                    == token;
            assert(crate::text::stands_at(low, token, i));
        }
    }
}

/// A stated length reads back, and a head without one states none.
pub proof fn law_a_stated_length_reads_back(head: Seq<char>, n: nat)
    ensures
        header_of(head, "content-length"@) == Some(decimal(n)) && n <= u64::MAX ==> length_of(head)
            == Some(n as int),
        header_of(head, "content-length"@) == Some(decimal(n)) && n > u64::MAX ==> length_of(head)
            is None,
        header_of(head, "content-length"@) is None ==> length_of(head) is None,
{
    law_decimal_reads_back(n, u64::MAX as int);
    let d = decimal(n);
    assert('0' <= d[0] <= '9' && '0' <= d[d.len() - 1] <= '9');
    lemma_trimmed_solid(d);
}

/// A range whose total is unknown, or that does not count in bytes, is not taken
/// for one that is known.
pub proof fn law_an_unknown_range_is_not_known(front: Seq<char>, v: Seq<char>)
    ensures
        range_total(front + seq!['/', '*']) is None,
        !begins(trimmed(v), "bytes"@) ==> range_start(v) is None,
{
    let s = front + seq!['/', '*'];
    let star = seq!['*'];
    crate::text::law_texts_are_cut_at_a_character(front, '/', star);
    assert(s =~= front + seq!['/'] + star);
    lemma_trimmed_solid(star);
    crate::text::law_a_number_is_its_digits(star, 10, u64::MAX as int);
    assert(star =~= Seq::<char>::empty().push('*'));
    crate::text::law_digits_count_by_their_place(Seq::<char>::empty(), '*');
}

} // verus!
