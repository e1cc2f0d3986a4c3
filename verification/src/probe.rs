//! What a probe learns of an object, and which of two probes to believe.

use crate::bytes::{decode_lossy, find_crlf2};
#[allow(unused_imports)]
use crate::bytes::{as_text, head_end};
use crate::error::{ErrorKind, FetchError};
use crate::head::{
    content_length, header_mentions, header_value, parse_content_range_total, response_status,
};
#[allow(unused_imports)]
use crate::head::{header_of, length_of, range_total, says_close, status_of};
use crate::text::{
    chars_of, find_char, find_text, parse_number, same_text, split_lines, starts_with, string_of, to_lower,
    trim, trim_start,
};
#[allow(unused_imports)]
use crate::text::{
    begins, lemma_first_of, lemma_past_last, line_split, lowered, number, occurs, past_last, stands_at,
    text_of, trimmed, trimmed_start, views,
};
use vstd::prelude::*;

verus! {

/// What a server said of an object before any of it was fetched.
#[derive(Clone, Debug)]
pub struct Probe {
    pub size: u64,
    /// Range requests are supported.
    pub ranges: bool,
    /// `ETag`, or `Last-Modified` when no ETag was offered.
    pub validator: Option<String>,
    /// `Last-Modified`, verbatim, whether or not an ETag was also sent: an
    /// ETag is opaque and carries no time.
    pub last_modified: Option<String>,
    /// The validator is weak or is a date: not strong enough to assemble one
    /// file from several sources.
    pub weak_validator: bool,
    /// `Content-Type`, a weak hint for classification.
    pub content_type: Option<String>,
    /// `Content-Disposition`, which may carry a filename.
    pub disposition: Option<String>,
    /// Status of the probe response.
    pub status: u16,
    /// `Location`, when the probe was a redirect.
    pub location: Option<String>,
    /// The response header block, verbatim.
    pub raw_head: String,
    /// The request line and headers that were sent, verbatim.
    pub raw_request: String,
}

impl Default for Probe {
    fn default() -> (r: Probe)
        ensures
            r.size == 0,
            !r.ranges,
            r.validator is None,
            r.last_modified is None,
            !r.weak_validator,
            r.content_type is None,
            r.disposition is None,
            r.status == 0,
            r.location is None,
            r.raw_head@ == Seq::<char>::empty(),
            r.raw_request@ == Seq::<char>::empty(),
    {
        Probe {
            size: 0,
            ranges: false,
            validator: None,
            last_modified: None,
            weak_validator: false,
            content_type: None,
            disposition: None,
            status: 0,
            location: None,
            raw_head: String::new(),
            raw_request: String::new(),
        }
    }
}

/// A status by which a server sends the client elsewhere.
pub open spec fn moves(status: int) -> bool {
    status == 301 || status == 302 || status == 303 || status == 307 || status == 308
}

/// `std::path::Path::file_name` gives the final component of a path, if there
/// is one: empty segments and `.` do not count, and a path that ends in `..`
/// has none. Where the path holds a backslash or a colon, or begins with two
/// slashes, what counts as a component depends on the platform, and nothing is
/// claimed.
#[verifier::external_body]
fn file_name_of(path: &str) -> (r: Option<String>)
    ensures
        is_plain_path(path@) ==> text_of(r) == final_component(path@),
{
    std::path::Path::new(path).file_name().map(|s| s.to_string_lossy().to_string())
}

/// A path that every platform takes apart in the same way.
pub open spec fn is_plain_path(path: Seq<char>) -> bool {
    &&& !path.contains('\\')
    &&& !path.contains(':')
    &&& !begins(path, "//"@)
}

/// A name that cannot lead out of a directory.
pub open spec fn is_bare_name(s: Seq<char>) -> bool {
    s.len() > 0 && s != "."@ && s != ".."@ && !s.contains('/')
}

/// The last segment of a path that is neither empty nor `.`, unless it is
/// `..`.
pub open spec fn final_component(path: Seq<char>) -> Option<Seq<char>>
    decreases path.len(),
{
    let cut = past_last(path, '/');
    let segment = path.skip(cut);
    if segment.len() == 0 || segment == "."@ {
        if 0 < cut <= path.len() {
            final_component(path.take(cut - 1))
        } else {
            None
        }
    } else if segment == ".."@ {
        None
    } else {
        Some(segment)
    }
}

proof fn lemma_final_component_is_bare(path: Seq<char>)
    ensures
        final_component(path) matches Some(b) ==> is_bare_name(b),
    decreases path.len(),
{
    lemma_past_last(path, '/');
    let cut = past_last(path, '/');
    let segment = path.skip(cut);
    assert(!segment.contains('/')) by {
        if segment.contains('/') {
            let i = choose|i: int| 0 <= i < segment.len() && segment[i] == '/';
            assert(path[cut + i] == '/');
        }
    }
    if (segment.len() == 0 || segment == "."@) && 0 < cut <= path.len() {
        lemma_final_component_is_bare(path.take(cut - 1));
    }
}

/// Keeps a file name that cannot lead out of a directory, and no other.
pub fn keep_bare(base: Option<String>) -> (r: Option<String>)
    ensures
        r == (match base {
            Some(b) if is_bare_name(b@) => base,
            _ => None,
        }),
{
    match base {
        Some(b) => {
            let chars = chars_of(b.as_str());
            let here = chars_of(".");
            let above = chars_of("..");
            if chars.len() == 0 || same_text(chars.as_slice(), here.as_slice()) || same_text(
                chars.as_slice(),
                above.as_slice(),
            ) {
                return None;
            }
            proof {
                lemma_first_of(b@, '/');
            }
            match find_char(chars.as_slice(), '/') {
                Some(i) => {
                    proof {
                        assert(b@[i as int] == '/');
                    }
                    None
                },
                None => Some(b),
            }
        },
        None => None,
    }
}

/// `s` without leading quotes.
pub open spec fn unquoted_start(s: Seq<char>) -> Seq<char>
    decreases s.len(),
{
    if s.len() > 0 && s[0] == '"' {
        unquoted_start(s.skip(1))
    } else {
        s
    }
}

/// `s` up to its first quote or semicolon.
pub open spec fn before_quote(s: Seq<char>) -> Seq<char>
    decreases s.len(),
{
    if s.len() == 0 || s[0] == '"' || s[0] == ';' {
        Seq::empty()
    } else {
        seq![s[0]] + before_quote(s.skip(1))
    }
}

/// The name that a `Content-Disposition` value carries, as written, where the
/// parameter begins at `i`.
pub open spec fn parameter_at(d: Seq<char>, i: int) -> Seq<char> {
    trimmed(before_quote(unquoted_start(trimmed(d.skip(i + "filename="@.len())))))
}

/// Whether `i` is the first place of `p` in `s`.
pub open spec fn first_place(s: Seq<char>, p: Seq<char>, i: int) -> bool {
    stands_at(s, p, i) && forall|j: int| 0 <= j < i ==> !stands_at(s, p, j)
}

/// The name that a `Content-Disposition` value carries, as written.
pub open spec fn named_in(d: Seq<char>) -> Option<Seq<char>> {
    let low = lowered(d);
    if occurs(low, "filename="@) {
        Some(parameter_at(d, choose|i: int| first_place(low, "filename="@, i)))
    } else {
        None
    }
}

fn skip_quotes(s: &[char]) -> (r: &[char])
    ensures
        r@ == unquoted_start(s@),
{
    let n: usize = s.len();
    let mut i: usize = 0;
    proof {
        assert(s@.skip(0) =~= s@);
    }
    while i < n && s[i] == '"'
        invariant
            i <= n == s@.len(),
            unquoted_start(s@) == unquoted_start(s@.skip(i as int)),
        decreases n - i,
    {
        proof {
            assert(s@.skip(i as int).skip(1) =~= s@.skip(i + 1));
        }
        i = i + 1;
    }
    proof {
        assert(s@.skip(i as int) =~= s@.subrange(i as int, n as int));
    }
    vstd::slice::slice_subrange(s, i, n)
}

fn cut_at_quote(s: &[char]) -> (r: &[char])
    ensures
        r@ == before_quote(s@),
{
    let n: usize = s.len();
    let mut i: usize = 0;
    proof {
        assert(s@.skip(0) =~= s@);
        assert(s@.take(0) + before_quote(s@) =~= before_quote(s@));
    }
    while i < n && s[i] != '"' && s[i] != ';'
        invariant
            i <= n == s@.len(),
            before_quote(s@) == s@.take(i as int) + before_quote(s@.skip(i as int)),
        decreases n - i,
    {
        proof {
            let rest = s@.skip(i as int);
            assert(rest.skip(1) =~= s@.skip(i + 1));
            assert(s@.take(i as int) + (seq![rest[0]] + before_quote(rest.skip(1))) =~= s@.take(
                i + 1,
            ) + before_quote(s@.skip(i + 1)));
        }
        i = i + 1;
    }
    proof {
        assert(s@.take(i as int) =~= s@.subrange(0, i as int));
        assert(s@.take(i as int) + Seq::<char>::empty() =~= s@.take(i as int));
    }
    vstd::slice::slice_subrange(s, 0, i)
}

/// The name that a `Content-Disposition` value carries, as written.
fn disposition_name(d: &str) -> (r: Option<String>)
    ensures
        text_of(r) == named_in(d@),
{
    let text = chars_of(d);
    let low = to_lower(text.as_slice());
    let key = chars_of("filename=");
    let n: usize = text.len();
    match find_text(low.as_slice(), key.as_slice()) {
        None => None,
        Some(i) => {
            proof {
                let k = choose|k: int| first_place(lowered(d@), "filename="@, k);
                assert(first_place(lowered(d@), "filename="@, i as int));
                assert(first_place(lowered(d@), "filename="@, k));
                if k < i {
                    assert(!stands_at(lowered(d@), "filename="@, k));
                } else if i < k {
                    assert(!stands_at(lowered(d@), "filename="@, i as int));
                }
                assert(occurs(lowered(d@), "filename="@));
                assert(lowered(d@).len() == d@.len());
            }
            let rest = vstd::slice::slice_subrange(text.as_slice(), i + key.len(), n);
            proof {
                assert(rest@ =~= d@.skip(i + "filename="@.len()));
            }
            Some(string_of(trim(cut_at_quote(skip_quotes(trim(rest))))))
        },
    }
}

impl Probe {
    /// Whether this probe described a redirect rather than the object.
    pub open spec fn redirects(self) -> bool {
        moves(self.status as int) && self.location is Some
    }

    /// This probe described a redirect rather than the object.
    pub fn is_redirect(&self) -> (r: bool)
        ensures
            r == self.redirects(),
    {
        (self.status == 301 || self.status == 302 || self.status == 303 || self.status == 307
            || self.status == 308) && self.location.is_some()
    }

    /// The length the server stated, as opposed to the length this probe
    /// inferred: `size` is zero both when the server stated no length and when
    /// it stated zero.
    pub fn stated_length(&self) -> (r: Option<u64>)
        ensures
            match r {
                Some(n) => length_of(self.raw_head@) == Some(n as int),
                None => length_of(self.raw_head@) is None,
            },
    {
        content_length(self.raw_head.as_str())
    }

    /// This response could be a page that forwards elsewhere: successful HTML
    /// that names no file, and no larger than `max_page` bytes.
    ///
    /// A cheap filter, not an answer: it says only that fetching the body to
    /// look for a redirect is worth one small request.
    pub fn maybe_redirector(&self, max_page: u64) -> (r: bool)
        ensures
            r == (200 <= self.status < 300 && self.disposition is None && self.size <= max_page && (
            match self.content_type {
                Some(c) => begins(lowered(trimmed_start(c@)), "text/html"@),
                None => false,
            })),
    {
        if !(200 <= self.status && self.status < 300) || self.disposition.is_some() || self.size
            > max_page {
            return false;
        }
        match &self.content_type {
            Some(c) => {
                let text = chars_of(c.as_str());
                let low = to_lower(trim_start(text.as_slice()));
                let html = chars_of("text/html");
                starts_with(low.as_slice(), html.as_slice())
            },
            None => false,
        }
    }

    /// Filename from a `Content-Disposition` header, if it carries one. A name
    /// that the server supplies never leads out of the output directory.
    pub fn suggested_filename(&self) -> (r: Option<String>)
        ensures
            match r {
                Some(b) => is_bare_name(b@),
                None => true,
            },
            match self.disposition {
                None => r is None,
                Some(d) => match named_in(d@) {
                    None => r is None,
                    Some(name) => is_plain_path(name) ==> text_of(r) == final_component(name),
                },
            },
    {
        match &self.disposition {
            None => None,
            Some(d) => match disposition_name(d.as_str()) {
                None => None,
                Some(name) => {
                    proof {
                        lemma_final_component_is_bare(name@);
                    }
                    keep_bare(file_name_of(name.as_str()))
                },
            },
        }
    }

    /// Whether a `HEAD` answered the question: a redirect is an answer, and so
    /// is a good status with a length, be it zero.
    pub open spec fn answers(self) -> bool {
        self.redirects() || (200 <= self.status < 400 && (self.size > 0 || length_of(
            self.raw_head@,
        ) is Some))
    }

    /// Whether no second request is needed after this `HEAD`.
    pub fn answered(&self) -> (r: bool)
        ensures
            r == self.answers(),
    {
        self.is_redirect() || (self.status >= 200 && self.status < 400 && (self.size > 0
            || self.stated_length().is_some()))
    }
}

/// Whether an ETag is a weak one.
pub open spec fn is_weak_tag(tag: Seq<char>) -> bool {
    begins(trimmed_start(tag), "W/"@)
}

/// Decides the resume validator, its weakness and the object's date from the
/// two headers that carry them: `(validator, weak, last_modified)`.
///
/// The validator prefers the ETag and falls back to the date. The date is also
/// handed on unchanged, whether or not there is an ETag.
pub fn validator_from(etag: Option<String>, last_mod: Option<String>) -> (r: (
    Option<String>,
    bool,
    Option<String>,
))
    ensures
        text_of(r.0) == (if etag is Some {
            text_of(etag)
        } else {
            text_of(last_mod)
        }),
        r.1 == (match etag {
            Some(e) => is_weak_tag(e@),
            None => last_mod is Some,
        }),
        text_of(r.2) == text_of(last_mod),
{
    match etag {
        Some(e) => {
            let text = chars_of(e.as_str());
            let mark = chars_of("W/");
            let weak = starts_with(trim_start(text.as_slice()), mark.as_slice());
            (Some(e), weak, last_mod)
        },
        None => match last_mod {
            Some(d) => {
                let copy = d.clone();
                (Some(d), true, Some(copy))
            },
            None => (None, false, None),
        },
    }
}

/// The value of the last line that begins with `prefix`, in any case.
pub open spec fn last_value(lines: Seq<Seq<char>>, prefix: Seq<char>) -> Option<Seq<char>>
    decreases lines.len(),
{
    if lines.len() == 0 {
        None
    } else if begins(lowered(lines.last()), prefix) {
        Some(trimmed(lines.last().skip(prefix.len() as int)))
    } else {
        last_value(lines.drop_last(), prefix)
    }
}

fn value_behind(line: &[char], low: &[char], prefix: &str) -> (r: Option<String>)
    requires
        low@ == lowered(line@),
    ensures
        text_of(r) == (if begins(lowered(line@), prefix@) {
            Some(trimmed(line@.skip(prefix@.len() as int)))
        } else {
            None
        }),
{
    let key = chars_of(prefix);
    if starts_with(low, key.as_slice()) {
        let rest = vstd::slice::slice_subrange(line, key.len(), line.len());
        proof {
            assert(rest@ =~= line@.skip(prefix@.len() as int));
        }
        Some(string_of(trim(rest)))
    } else {
        None
    }
}

/// The value of the last line that begins with `prefix`, which is given in
/// lower case.
fn last_header(lines: &Vec<Vec<char>>, prefix: &str) -> (r: Option<String>)
    ensures
        text_of(r) == last_value(views(lines@), prefix@),
{
    let mut n: usize = lines.len();
    let ghost all = views(lines@);
    proof {
        assert(all.take(n as int) =~= all);
    }
    while n > 0
        invariant
            n <= lines@.len(),
            all == views(lines@),
            last_value(all, prefix@) == last_value(all.take(n as int), prefix@),
        decreases n,
    {
        let line = &lines[n - 1];
        let low = to_lower(line.as_slice());
        proof {
            assert(all.take(n as int).last() == line@);
            assert(all.take(n as int).drop_last() =~= all.take(n - 1));
        }
        let value = value_behind(line.as_slice(), low.as_slice(), prefix);
        if value.is_some() {
            return value;
        }
        n = n - 1;
    }
    None
}

/// The length that a `HEAD` response states; zero where it states none that
/// can be read.
pub open spec fn head_size(lines: Seq<Seq<char>>) -> int {
    match last_value(lines, "content-length:"@) {
        Some(v) => match number(v, 10, u64::MAX as int) {
            Some(n) => n,
            None => 0,
        },
        None => 0,
    }
}

/// Whether a `HEAD` response promises range support.
pub open spec fn head_ranges(lines: Seq<Seq<char>>) -> bool {
    match last_value(lines, "accept-ranges:"@) {
        Some(v) => lowered(v) == "bytes"@,
        None => false,
    }
}

/// The header block of a response, or all that came in where the block never
/// ended.
pub open spec fn head_block(response: Seq<u8>) -> Seq<char> {
    match head_end(response) {
        Some(n) => as_text(response.take(n)),
        None => as_text(response),
    }
}

fn head_text(response: &[u8]) -> (r: String)
    ensures
        r@ == head_block(response@),
{
    match find_crlf2(response) {
        Some(n) => {
            let head = vstd::slice::slice_subrange(response, 0, n);
            proof {
                assert(head@ =~= response@.take(n as int));
            }
            decode_lossy(head)
        },
        None => decode_lossy(response),
    }
}

/// What the response to a `HEAD` says of the object. Where a header comes
/// twice, the last one counts.
pub fn probe_of_head(response: &[u8], request: String) -> (r: Probe)
    ensures
        r.raw_head@ == head_block(response@),
        r.raw_request@ == request@,
        r.status == status_of(r.raw_head@),
        ({
            let lines = line_split(r.raw_head@);
            let etag = last_value(lines, "etag:"@);
            let date = last_value(lines, "last-modified:"@);
            &&& r.size == head_size(lines)
            &&& r.ranges == head_ranges(lines)
            &&& r.ranges <==> (last_value(lines, "accept-ranges:"@) matches Some(v) && lowered(v)
                == "bytes"@)
            &&& text_of(r.validator) == (if etag is Some {
                etag
            } else {
                date
            })
            &&& r.weak_validator == (match etag {
                Some(e) => is_weak_tag(e),
                None => date is Some,
            })
            &&& text_of(r.last_modified) == date
            &&& text_of(r.content_type) == last_value(lines, "content-type:"@)
            &&& text_of(r.disposition) == last_value(lines, "content-disposition:"@)
            &&& text_of(r.location) == last_value(lines, "location:"@)
        }),
{
    let raw_head = head_text(response);
    let text = chars_of(raw_head.as_str());
    let status: u16 = response_status(text.as_slice());
    let lines = split_lines(text.as_slice());
    let size: u64 = match last_header(&lines, "content-length:") {
        Some(v) => {
            let value = chars_of(v.as_str());
            match parse_number(value.as_slice(), 10, u64::MAX) {
                Some(n) => n,
                None => 0,
            }
        },
        None => 0,
    };
    let ranges = match last_header(&lines, "accept-ranges:") {
        Some(v) => {
            let value = chars_of(v.as_str());
            let low = to_lower(value.as_slice());
            let unit = chars_of("bytes");
            same_text(low.as_slice(), unit.as_slice())
        },
        None => false,
    };
    let (validator, weak_validator, last_modified) = validator_from(
        last_header(&lines, "etag:"),
        last_header(&lines, "last-modified:"),
    );
    Probe {
        size,
        ranges,
        validator,
        last_modified,
        weak_validator,
        content_type: last_header(&lines, "content-type:"),
        disposition: last_header(&lines, "content-disposition:"),
        status,
        location: last_header(&lines, "location:"),
        raw_head,
        raw_request: request,
    }
}

/// Whether the connection of a `HEAD` can serve another request: the response
/// ended with its header block, and the server does not announce a close.
pub fn head_connection_is_clean(response: &[u8], end: Option<usize>) -> (r: bool)
    requires
        end matches Some(e) ==> e <= response@.len(),
    ensures
        r == (match end {
            Some(e) => response@.len() == e && !says_close(as_text(response@)),
            None => false,
        }),
{
    match end {
        Some(e) => {
            if response.len() != e {
                return false;
            }
            let text = decode_lossy(response);
            !header_mentions(text.as_str(), "connection", "close")
        },
        None => false,
    }
}

/// The size that a one-byte range request brings to light: the total of the
/// `Content-Range`, else the length of the body, else zero.
pub open spec fn get_size(head: Seq<char>) -> int {
    let total = match header_of(head, "content-range"@) {
        Some(v) => range_total(v),
        None => None,
    };
    match total {
        Some(n) => n,
        None => match length_of(head) {
            Some(n) => n,
            None => 0,
        },
    }
}

/// What the response to a one-byte range request says of the object.
pub fn probe_of_get(response: &[u8], request: String) -> (r: Probe)
    ensures
        r.raw_head@ == head_block(response@),
        r.raw_request@ == request@,
        r.status == status_of(r.raw_head@),
        r.size == get_size(r.raw_head@),
        header_of(r.raw_head@, "content-range"@) is Some && range_total(
            header_of(r.raw_head@, "content-range"@)->0,
        ) is Some ==> r.size == range_total(header_of(r.raw_head@, "content-range"@)->0)->0,
        (header_of(r.raw_head@, "content-range"@) is None || range_total(
            header_of(r.raw_head@, "content-range"@)->0,
        ) is None) && length_of(r.raw_head@) is Some ==> r.size == length_of(r.raw_head@)->0,
        r.ranges == (r.status == 206 && header_of(r.raw_head@, "content-range"@) is Some),
        ({
            let etag = header_of(r.raw_head@, "etag"@);
            let date = header_of(r.raw_head@, "last-modified"@);
            &&& text_of(r.validator) == (if etag is Some {
                etag
            } else {
                date
            })
            &&& r.weak_validator == (match etag {
                Some(e) => is_weak_tag(e),
                None => date is Some,
            })
            &&& text_of(r.last_modified) == date
        }),
        text_of(r.content_type) == header_of(r.raw_head@, "content-type"@),
        text_of(r.disposition) == header_of(r.raw_head@, "content-disposition"@),
        text_of(r.location) == header_of(r.raw_head@, "location"@),
{
    let raw_head = head_text(response);
    let h = raw_head.as_str();
    let text = chars_of(h);
    let status: u16 = response_status(text.as_slice());
    let range = header_value(h, "content-range");
    let ranges = status == 206 && range.is_some();
    let total: Option<u64> = match &range {
        Some(v) => parse_content_range_total(v.as_str()),
        None => None,
    };
    let size: u64 = match total {
        Some(n) => n,
        None => match content_length(h) {
            Some(n) => n,
            None => 0,
        },
    };
    let (validator, weak_validator, last_modified) = validator_from(
        header_value(h, "etag"),
        header_value(h, "last-modified"),
    );
    let content_type = header_value(h, "content-type");
    let disposition = header_value(h, "content-disposition");
    let location = header_value(h, "location");
    Probe {
        size,
        ranges,
        validator,
        last_modified,
        weak_validator,
        content_type,
        disposition,
        status,
        location,
        raw_head,
        raw_request: request,
    }
}

/// The total size in the response to a one-byte range request, for an object
/// whose `HEAD` states no length.
pub fn size_of_range_response(response: &[u8]) -> (r: Result<u64, FetchError>)
    ensures
        ({
            let total = match header_of(as_text(response@), "content-range"@) {
                Some(v) => range_total(v),
                None => None,
            };
            match r {
                Ok(n) => total == Some(n as int),
                Err(e) => total is None && e.says(
                    ErrorKind::InvalidData,
                    "no Content-Length on HEAD and no total in Content-Range"@,
                ),
            }
        }),
{
    let text = decode_lossy(response);
    let total: Option<u64> = match header_value(text.as_str(), "content-range") {
        Some(v) => parse_content_range_total(v.as_str()),
        None => None,
    };
    match total {
        Some(n) => Ok(n),
        None => Err(
            FetchError::plain(
                ErrorKind::InvalidData,
                "no Content-Length on HEAD and no total in Content-Range",
            ),
        ),
    }
}

/// A status that is an answer about the object or its whereabouts.
pub open spec fn is_good(status: u16) -> bool {
    200 <= status < 400
}

/// Settles what is known of an object after a `HEAD` that did not answer and a
/// one-byte range request: a good answer to the latter wins; else a good
/// `HEAD` is kept, and so is one that says that there is no such object where
/// the other only says that the range cannot be had, which is the worse error;
/// else whatever came back.
pub fn settle_probe(head: Result<Probe, FetchError>, get: Result<Probe, FetchError>) -> (r: Result<
    Probe,
    FetchError,
>)
    ensures
        match (head, get) {
            (Ok(h), Ok(g)) => r == Ok::<Probe, FetchError>(
                if !is_good(g.status) && (is_good(h.status) || (h.status == 404 && g.status
                    == 416)) {
                    h
                } else {
                    g
                },
            ),
            (Ok(h), Err(_)) => r == Ok::<Probe, FetchError>(h),
            (Err(_), Ok(g)) => r == Ok::<Probe, FetchError>(g),
            (Err(h), Err(g)) => r matches Err(e) && e.says(
                h.kind,
                "HEAD failed ("@ + h.text() + "), ranged GET failed ("@ + g.text() + ")"@,
            ),
        },
        get is Ok && 200 <= get->Ok_0.status < 400 ==> r == get,
        head is Ok && 200 <= head->Ok_0.status < 400 && !(get is Ok && 200 <= get->Ok_0.status
            < 400) ==> r == head,
        r is Err <==> head is Err && get is Err,
{
    match head {
        Ok(h) => match get {
            Ok(g) => {
                let get_good = g.status >= 200 && g.status < 400;
                let head_good = h.status >= 200 && h.status < 400;
                if !get_good && (head_good || (h.status == 404 && g.status == 416)) {
                    Ok(h)
                } else {
                    Ok(g)
                }
            },
            Err(_) => Ok(h),
        },
        Err(h) => match get {
            Ok(g) => Ok(g),
            Err(g) => {
                let mut message = String::from_str("HEAD failed (");
                message.append(h.message().as_str());
                message.append("), ranged GET failed (");
                message.append(g.message().as_str());
                message.append(")");
                Err(FetchError::new(h.kind, message))
            },
        },
    }
}

/// Where a header comes more than once, its last line counts, and its value is
/// what stands behind its name, without white space around it; where it does not
/// come at all, it has none.
pub proof fn law_the_last_header_of_a_name_counts(lines: Seq<Seq<char>>, prefix: Seq<char>, i: int)
    requires
        -1 <= i < lines.len(),
        i >= 0 ==> prefix.len() <= lines[i].len() && lowered(lines[i]).take(prefix.len() as int)
            == prefix,
        forall|j: int|
            i < j < lines.len() ==> !(prefix.len() <= (#[trigger] lines[j]).len() && lowered(
                lines[j],
            ).take(prefix.len() as int) == prefix),
    ensures
        last_value(lines, prefix) == (if i >= 0 {
            Some(trimmed(lines[i].skip(prefix.len() as int)))
        } else {
            None
        }),
    decreases lines.len(),
{
    if lines.len() > 0 {
        let n = lines.len() - 1;
        let low = lowered(lines[n]);
        if prefix.len() <= low.len() {
            assert(low.subrange(0, prefix.len() as int) =~= low.take(prefix.len() as int));
        }
        if i < n {
            let init = lines.drop_last();
            assert(!(prefix.len() <= lines[n].len() && low.take(prefix.len() as int) == prefix));
            assert forall|j: int| i < j < init.len() implies !(prefix.len() <= (
            #[trigger] init[j]).len() && lowered(init[j]).take(prefix.len() as int) == prefix) by {
                assert(init[j] == lines[j]);
            }
            law_the_last_header_of_a_name_counts(init, prefix, i);
        }
    }
}

/// Range support is promised by the word `bytes`, in any case, and by nothing
/// else: neither another word nor silence promises it.
pub proof fn law_only_the_word_bytes_promises_ranges(lines: Seq<Seq<char>>)
    ensures
        head_ranges(lines) <==> (last_value(lines, "accept-ranges:"@) matches Some(v) && v.len()
            == 5 && lowered(v) == "bytes"@),
        last_value(lines, "accept-ranges:"@) is None ==> !head_ranges(lines),
        last_value(lines, "accept-ranges:"@) == Some("none"@) ==> !head_ranges(lines),
        last_value(lines, "accept-ranges:"@) == Some("bytes"@) ==> head_ranges(lines),
{
    reveal_strlit("none");
    reveal_strlit("bytes");
    assert(lowered("bytes"@) =~= "bytes"@);
    assert(lowered("none"@).len() == 4);
}

/// The size of an object is the length that its response states; one that is
/// not stated, or cannot be read, is nothing.
pub proof fn law_the_stated_length_is_the_size(lines: Seq<Seq<char>>, n: nat)
    ensures
        last_value(lines, "content-length:"@) == Some(crate::text::decimal(n)) && n <= u64::MAX
            ==> head_size(lines) == n,
        last_value(lines, "content-length:"@) is None ==> head_size(lines) == 0,
        last_value(lines, "content-length:"@) matches Some(v) && number(v, 10, u64::MAX as int)
            is None ==> head_size(lines) == 0,
{
    crate::text::law_decimal_reads_back(n, u64::MAX as int);
}

/// The total behind a range is the size of the object, before the length of the
/// one byte that was sent.
pub proof fn law_the_total_of_a_range_is_the_size(head: Seq<char>, first: nat, last: nat, total: nat)
    requires
        first <= u64::MAX,
        total <= u64::MAX,
    ensures
        header_of(head, "content-range"@) == Some(crate::head::content_range(first, last, total))
            ==> get_size(head) == total,
        header_of(head, "content-range"@) is None && length_of(head) is Some ==> get_size(head)
            == length_of(head)->0,
        header_of(head, "content-range"@) is None && length_of(head) is None ==> get_size(head)
            == 0,
{
    crate::head::law_content_range_reads_back(first, last, total);
}

/// The header block is what comes before the body, up to and with the blank
/// line; where there is none, it is all that came in.
pub proof fn law_the_head_block_ends_with_its_blank_line(head: Seq<u8>, body: Seq<u8>)
    ensures
        head_end(head) == Some(head.len() as int) ==> head_block(head + body) == as_text(head),
        head_end(head) is None ==> head_block(head) == as_text(head),
{
    if head_end(head) == Some(head.len() as int) {
        let n = head.len() as int;
        let all = head + body;
        crate::bytes::law_a_head_ends_behind_its_first_blank_line(head, n);
        crate::bytes::law_a_head_ends_behind_its_first_blank_line(all, n);
        let mark = seq![13u8, 10u8, 13u8, 10u8];
        assert(all.subrange(n - 4, n) =~= head.subrange(n - 4, n));
        assert forall|m: int| 4 <= m < n implies #[trigger] all.subrange(m - 4, m) != mark by {
            assert(all.subrange(m - 4, m) =~= head.subrange(m - 4, m));
        }
        assert(all.take(n) =~= head);
    }
}

/// A redirect is one of five statuses, with a place to go to.
pub proof fn law_five_statuses_send_elsewhere(p: Probe)
    ensures
        p.redirects() <==> p.location is Some && (p.status == 301 || p.status == 302 || p.status
            == 303 || p.status == 307 || p.status == 308),
        p.redirects() ==> p.answers(),
        200 <= p.status < 400 && p.size > 0 ==> p.answers(),
        200 <= p.status < 400 && length_of(p.raw_head@) is Some ==> p.answers(),
        p.answers() && !p.redirects() ==> 200 <= p.status < 400 && (p.size > 0 || length_of(
            p.raw_head@,
        ) is Some),
{
}

/// An answer is good from 200 up to the redirects.
pub proof fn law_errors_are_no_good_answers(status: u16)
    ensures
        is_good(status) <==> 200 <= status <= 399,
{
}

/// An ETag is weak where it is marked so.
pub proof fn law_weak_tags_are_marked(tag: Seq<char>, rest: Seq<char>)
    ensures
        is_weak_tag("W/"@ + rest),
        is_weak_tag(tag) ==> trimmed_start(tag).len() >= 2 && trimmed_start(tag)[0] == 'W'
            && trimmed_start(tag)[1] == '/',
{
    reveal_strlit("W/");
    let t = "W/"@ + rest;
    assert(t[0] == 'W');
    assert(trimmed_start(t) == t);
    assert(t.subrange(0, "W/"@.len() as int) =~= "W/"@);
    if is_weak_tag(tag) {
        let u = trimmed_start(tag);
        assert(u.subrange(0, 2)[0] == 'W' && u.subrange(0, 2)[1] == '/');
    }
}

/// The final component of a path is its last name: what stands behind the last
/// slash, or before it where nothing, or only `.`, stands behind.
#[verifier::spinoff_prover]
#[verifier::rlimit(40)]
pub proof fn law_the_final_component_is_the_last_name(front: Seq<char>, name: Seq<char>)
    requires
        is_bare_name(name),
    ensures
        final_component(name) == Some(name),
        final_component(front + seq!['/'] + name) == Some(name),
        final_component(front + seq!['/']) == final_component(front),
        final_component(front + seq!['/', '.']) == final_component(front),
        final_component(front + seq!['/', '.', '.']) is None,
        final_component(seq!['.', '.']) is None,
        final_component(Seq::<char>::empty()) is None,
{
    reveal_strlit(".");
    reveal_strlit("..");
    let n = front.len() as int;
    let none = Seq::<char>::empty();
    lemma_component(none, name, false);
    lemma_component(front, name, true);
    lemma_component(front, none, true);
    lemma_component(front, seq!['.'], true);
    lemma_component(front, seq!['.', '.'], true);
    lemma_component(none, seq!['.', '.'], false);
    lemma_component(none, none, false);
    assert(none + name =~= name);
    assert(none + seq!['.', '.'] =~= seq!['.', '.']);
    assert(none + none =~= none);
    assert(front + seq!['/'] + none =~= front + seq!['/']);
    assert(front + seq!['/'] + seq!['.'] =~= front + seq!['/', '.']);
    assert(front + seq!['/'] + seq!['.', '.'] =~= front + seq!['/', '.', '.']);
    assert("."@ =~= seq!['.']);
    assert(".."@ =~= seq!['.', '.']);
    assert(name.len() == 1 ==> name != seq!['.']);
}

proof fn lemma_component(front: Seq<char>, last: Seq<char>, slash: bool)
    requires
        !last.contains('/'),
        !slash ==> front.len() == 0,
    ensures
        ({
            let path = if slash {
                front + seq!['/'] + last
            } else {
                front + last
            };
            let cut = if slash {
                front.len() as int + 1
            } else {
                0
            };
            &&& past_last(path, '/') == cut
            &&& path.skip(cut) == last
            &&& slash ==> path.take(cut - 1) == front
        }),
{
    let path = if slash {
        front + seq!['/'] + last
    } else {
        front + last
    };
    let cut = if slash {
        front.len() as int + 1
    } else {
        0
    };
    assert forall|j: int| cut <= j < path.len() implies path[j] != '/' by {
        assert(path[j] == last[j - cut]);
        assert(last.contains(last[j - cut]));
    }
    crate::text::lemma_past_last_at(path, '/', cut);
    assert(path.skip(cut) =~= last);
    if slash {
        assert(path.take(cut - 1) =~= front);
    }
}

/// A bare name leads nowhere: it is no slash-separated path, and neither the
/// directory itself nor the one above.
pub proof fn law_a_bare_name_leads_nowhere(s: Seq<char>)
    ensures
        is_bare_name(s) <==> s.len() > 0 && (forall|i: int| 0 <= i < s.len() ==> s[i] != '/') && s
            != seq!['.'] && s != seq!['.', '.'],
{
    reveal_strlit(".");
    reveal_strlit("..");
    assert("."@ =~= seq!['.']);
    assert(".."@ =~= seq!['.', '.']);
    if forall|i: int| 0 <= i < s.len() ==> s[i] != '/' {
        assert(!s.contains('/'));
    }
    if !s.contains('/') {
        assert forall|i: int| 0 <= i < s.len() implies s[i] != '/' by {
            assert(s.contains(s[i]));
        }
    }
}

proof fn lemma_before_quote(a: Seq<char>, rest: Seq<char>)
    requires
        !a.contains('"'),
        !a.contains(';'),
        rest.len() > 0 ==> rest[0] == '"' || rest[0] == ';',
    ensures
        before_quote(a + rest) == a,
    decreases a.len(),
{
    if a.len() == 0 {
        assert(a + rest =~= rest);
        assert(before_quote(rest) =~= a);
    } else {
        assert(a.contains(a[0]));
        let t = a.skip(1);
        assert(!t.contains('"') && !t.contains(';')) by {
            if t.contains('"') {
                let i = choose|i: int| 0 <= i < t.len() && t[i] == '"';
                assert(a[i + 1] == '"');
            }
            if t.contains(';') {
                let i = choose|i: int| 0 <= i < t.len() && t[i] == ';';
                assert(a[i + 1] == ';');
            }
        }
        lemma_before_quote(t, rest);
        assert((a + rest).skip(1) =~= t + rest);
        assert(seq![a[0]] + t =~= a);
    }
}

/// The name that a server suggests is the one behind `filename=`, in any case,
/// with or without quotes: it ends at the closing quote or at the semicolon, and
/// white space around it does not count.
pub proof fn law_the_suggested_name_reads_back(
    front: Seq<char>,
    key: Seq<char>,
    name: Seq<char>,
    rest: Seq<char>,
)
    requires
        lowered(key) == "filename="@,
        !occurs(lowered(front + key).drop_last(), "filename="@),
        name.len() > 0,
        !name.contains('"'),
        !name.contains(';'),
        trimmed(name) == name,
        rest.len() > 0 ==> rest[0] == ';' && trimmed(name + rest) == name + rest,
        trimmed(seq!['"'] + name + seq!['"'] + rest) == seq!['"'] + name + seq!['"'] + rest,
    ensures
        named_in(front + key + seq!['"'] + name + seq!['"'] + rest) == Some(name),
        named_in(front + key + name + rest) == Some(name),
{
    reveal_strlit("filename=");
    let quoted = seq!['"'] + name + seq!['"'] + rest;
    let plain = name + rest;
    lemma_parameter(front, key, quoted);
    lemma_parameter(front, key, plain);
    assert(front + key + seq!['"'] + name + seq!['"'] + rest =~= front + key + quoted);
    assert(front + key + name + rest =~= front + key + plain);
    let tail = name + (seq!['"'] + rest);
    assert(quoted.skip(1) =~= tail);
    assert(name.contains(name[0]));
    assert(unquoted_start(quoted) == tail) by {
        reveal_with_fuel(unquoted_start, 3);
    }
    lemma_before_quote(name, seq!['"'] + rest);
    assert(plain[0] == name[0]);
    assert(unquoted_start(plain) == plain);
    lemma_before_quote(name, rest);
    if rest.len() == 0 {
        assert(plain =~= name);
    }
}

proof fn lemma_parameter(front: Seq<char>, key: Seq<char>, tail: Seq<char>)
    requires
        lowered(key) == "filename="@,
        !occurs(lowered(front + key).drop_last(), "filename="@),
    ensures
        named_in(front + key + tail) == Some(
            trimmed(before_quote(unquoted_start(trimmed(tail)))),
        ),
{
    reveal_strlit("filename=");
    let mark = "filename="@;
    let d = front + key + tail;
    let low = lowered(d);
    let n = front.len() as int;
    assert(lowered(key).len() == key.len());
    assert(low.subrange(n, n + mark.len()) =~= lowered(key));
    assert(stands_at(low, mark, n));
    let early = lowered(front + key).drop_last();
    assert forall|j: int| 0 <= j < n implies !stands_at(low, mark, j) by {
        if stands_at(low, mark, j) {
            assert(early.subrange(j, j + mark.len()) =~= low.subrange(j, j + mark.len()));
            assert(stands_at(early, mark, j));
        }
    }
    assert(first_place(low, mark, n));
    let k = choose|i: int| first_place(low, mark, i);
    assert(first_place(low, mark, k));
    if k < n {
        assert(!stands_at(low, mark, k));
    } else if n < k {
        assert(!stands_at(low, mark, n));
    }
    assert(d.skip(n + mark.len()) =~= tail);
}

/// Without `filename=` no name is suggested.
pub proof fn law_no_name_is_suggested_without_its_key(d: Seq<char>)
    ensures
        !occurs(lowered(d), "filename="@) ==> named_in(d) is None,
        occurs(lowered(d), "filename="@) ==> named_in(d) is Some,
{
}

/// Quotes in front of a name go, and nothing else does.
pub proof fn law_only_leading_quotes_go(s: Seq<char>)
    ensures
        s.len() == 0 || s[0] != '"' ==> unquoted_start(s) == s,
        unquoted_start(seq!['"'] + s) == unquoted_start(s),
{
    assert((seq!['"'] + s).skip(1) =~= s);
}

} // verus!
