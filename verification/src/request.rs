//! Request heads, and where a redirect sends the next request.

use crate::text::{
    chars_of, cut_before, parse_number, push_decimal, starts_with, string_of, trim,
};
#[allow(unused_imports)]
use crate::head::{first_header, header_of, names};
#[allow(unused_imports)]
use crate::text::{
    after_last, before_first, begins, crlf_at, crlf_split, decimal, law_decimal_reads_back,
    lemma_crlf_at, lemma_first_of, lemma_past_last_at, lowered, number, past_last, texts, trimmed,
};
use vstd::prelude::*;

verus! {

/// Whether a request intends to keep the connection open afterwards.
#[derive(Clone, Copy, Debug, PartialEq, Eq, Structural)]
pub enum Disposition {
    /// This response is the last on the socket.
    Close,
    /// The socket may be used again once the body has been consumed to its
    /// exact end.
    Reuse,
}

/// What a request head is made of, besides its method and range.
pub struct RequestTarget {
    /// The target as it stands on the request line.
    pub target: String,
    /// The value of the `Host` header.
    pub host: String,
    pub user_agent: String,
    /// Further header lines, verbatim.
    pub extra_headers: Vec<String>,
}

/// The header line that states a disposition.
pub open spec fn connection_line(d: Disposition) -> Seq<char> {
    match d {
        Disposition::Close => "Connection: close"@,
        Disposition::Reuse => "Connection: keep-alive"@,
    }
}

/// The end of a request head: the connection header and the blank line.
pub fn connection_header(d: Disposition) -> (r: &'static str)
    ensures
        r@ == connection_line(d) + "\r\n"@ + "\r\n"@,
{
    proof {
        reveal_strlit("Connection: close");
        reveal_strlit("Connection: keep-alive");
        reveal_strlit("\r\n");
        reveal_strlit("Connection: close\r\n\r\n");
        reveal_strlit("Connection: keep-alive\r\n\r\n");
    }
    match d {
        Disposition::Close => {
            let s = "Connection: close\r\n\r\n";
            proof {
                assert(s@ =~= connection_line(d) + "\r\n"@ + "\r\n"@);
            }
            s
        },
        Disposition::Reuse => {
            let s = "Connection: keep-alive\r\n\r\n";
            proof {
                assert(s@ =~= connection_line(d) + "\r\n"@ + "\r\n"@);
            }
            s
        },
    }
}

/// Lines written one after the other, each with its line end.
pub open spec fn with_line_ends(lines: Seq<Seq<char>>) -> Seq<char>
    decreases lines.len(),
{
    if lines.len() == 0 {
        Seq::empty()
    } else {
        with_line_ends(lines.drop_last()) + lines.last() + "\r\n"@
    }
}

/// The `Range` header for inclusive first and last byte positions.
pub open spec fn range_line(first: int, last: int) -> Seq<char> {
    "Range: bytes="@ + decimal(first as nat) + "-"@ + decimal(last as nat)
}

/// The lines of a request head, the blank one at the end among them.
pub open spec fn request_lines(
    method: Seq<char>,
    t: RequestTarget,
    range: Option<(u64, u64)>,
    d: Disposition,
) -> Seq<Seq<char>> {
    seq![method + " "@ + t.target@ + " HTTP/1.1"@, "Host: "@ + t.host@] + (match range {
        Some((a, b)) => seq![range_line(a as int, b as int)],
        None => Seq::empty(),
    }) + seq!["Accept: */*"@, "User-Agent: "@ + t.user_agent@] + texts(t.extra_headers@)
        + seq![connection_line(d), Seq::empty()]
}

proof fn lemma_lines_concat(a: Seq<Seq<char>>, b: Seq<Seq<char>>)
    ensures
        with_line_ends(a + b) == with_line_ends(a) + with_line_ends(b),
    decreases b.len(),
{
    if b.len() == 0 {
        assert(a + b =~= a);
        assert(with_line_ends(a) + with_line_ends(b) =~= with_line_ends(a));
    } else {
        lemma_lines_concat(a, b.drop_last());
        assert((a + b).drop_last() =~= a + b.drop_last());
        assert(with_line_ends(a + b) =~= with_line_ends(a) + with_line_ends(b));
    }
}

proof fn lemma_lines_push(lines: Seq<Seq<char>>, line: Seq<char>)
    ensures
        with_line_ends(lines.push(line)) == with_line_ends(lines) + line + "\r\n"@,
{
    assert(lines.push(line).drop_last() =~= lines);
}

/// A request head for `t` that closes the connection afterwards.
pub fn build_request_head(method: &str, t: &RequestTarget, range: Option<(u64, u64)>) -> (r: String)
    ensures
        r@ == with_line_ends(request_lines(method@, *t, range, Disposition::Close)),
{
    build_request_head_disp(method, t, range, Disposition::Close)
}

/// A complete request head for `t`: request line, `Host`, optional `Range`
/// (inclusive first and last byte positions), `Accept`, `User-Agent`, the
/// target's extra headers and the connection header.
pub fn build_request_head_disp(
    method: &str,
    t: &RequestTarget,
    range: Option<(u64, u64)>,
    d: Disposition,
) -> (r: String)
    ensures
        r@ == with_line_ends(request_lines(method@, *t, range, d)),
        r@ == method@ + " "@ + t.target@ + " HTTP/1.1"@ + "\r\n"@ + "Host: "@ + t.host@ + "\r\n"@ + (
        match range {
            Some((a, b)) => "Range: bytes="@ + decimal(a as nat) + "-"@ + decimal(b as nat) + "\r\n"@,
            None => Seq::empty(),
        }) + "Accept: */*"@ + "\r\n"@ + "User-Agent: "@ + t.user_agent@ + "\r\n"@ + with_line_ends(
            texts(t.extra_headers@),
        ) + (match d {
            Disposition::Close => "Connection: close"@,
            Disposition::Reuse => "Connection: keep-alive"@,
        }) + "\r\n"@ + "\r\n"@,
{
    let mut req = String::new();
    let ghost mut lines = Seq::<Seq<char>>::empty();
    req.append(method);
    req.append(" ");
    req.append(t.target.as_str());
    req.append(" HTTP/1.1");
    req.append("\r\n");
    proof {
        let line = method@ + " "@ + t.target@ + " HTTP/1.1"@;
        lemma_lines_push(lines, line);
        lines = lines.push(line);
        assert(req@ =~= with_line_ends(lines));
    }
    let ghost before = req@;
    req.append("Host: ");
    req.append(t.host.as_str());
    req.append("\r\n");
    proof {
        let line = "Host: "@ + t.host@;
        lemma_lines_push(lines, line);
        lines = lines.push(line);
        assert(req@ =~= before + line + "\r\n"@);
    }
    if let Some((first, last)) = range {
        let ghost before = req@;
        req.append("Range: bytes=");
        push_decimal(&mut req, first);
        req.append("-");
        push_decimal(&mut req, last);
        req.append("\r\n");
        proof {
            let line = range_line(first as int, last as int);
            lemma_lines_push(lines, line);
            lines = lines.push(line);
            assert(req@ =~= before + line + "\r\n"@);
        }
    }
    let ghost before = req@;
    req.append("Accept: */*");
    req.append("\r\n");
    proof {
        lemma_lines_push(lines, "Accept: */*"@);
        lines = lines.push("Accept: */*"@);
        assert(req@ =~= before + "Accept: */*"@ + "\r\n"@);
    }
    let ghost before = req@;
    req.append("User-Agent: ");
    req.append(t.user_agent.as_str());
    req.append("\r\n");
    proof {
        let line = "User-Agent: "@ + t.user_agent@;
        lemma_lines_push(lines, line);
        lines = lines.push(line);
        assert(req@ =~= before + line + "\r\n"@);
    }
    let ghost fixed = lines;
    let ghost front = method@ + " "@ + t.target@ + " HTTP/1.1"@ + "\r\n"@ + "Host: "@ + t.host@
        + "\r\n"@ + (match range {
        Some((a, b)) => "Range: bytes="@ + decimal(a as nat) + "-"@ + decimal(b as nat) + "\r\n"@,
        None => Seq::empty(),
    }) + "Accept: */*"@ + "\r\n"@ + "User-Agent: "@ + t.user_agent@ + "\r\n"@;
    proof {
        assert(req@ =~= front);
    }
    let mut i: usize = 0;
    proof {
        assert(fixed + texts(t.extra_headers@).take(0) =~= fixed);
    }
    while i < t.extra_headers.len()
        invariant
            i <= t.extra_headers@.len(),
            req@ == with_line_ends(fixed + texts(t.extra_headers@).take(i as int)),
        decreases t.extra_headers@.len() - i,
    {
        let ghost before = req@;
        req.append(t.extra_headers[i].as_str());
        req.append("\r\n");
        proof {
            let line = t.extra_headers@[i as int]@;
            lemma_lines_push(fixed + texts(t.extra_headers@).take(i as int), line);
            assert((fixed + texts(t.extra_headers@).take(i as int)).push(line) =~= fixed + texts(
                t.extra_headers@,
            ).take(i + 1));
            assert(req@ =~= before + line + "\r\n"@);
        }
        i = i + 1;
    }
    let ghost before = req@;
    req.append(connection_header(d));
    proof {
        let all = fixed + texts(t.extra_headers@);
        assert(texts(t.extra_headers@).take(i as int) =~= texts(t.extra_headers@));
        lemma_lines_push(all, connection_line(d));
        lemma_lines_push(all.push(connection_line(d)), Seq::empty());
        assert(all.push(connection_line(d)).push(Seq::empty()) =~= request_lines(
            method@,
            *t,
            range,
            d,
        ));
        assert(req@ =~= before + connection_line(d) + "\r\n"@ + Seq::<char>::empty() + "\r\n"@);
        lemma_lines_concat(fixed, texts(t.extra_headers@));
    }
    proof {
        assert(req@ =~= front + with_line_ends(texts(t.extra_headers@)) + (match d {
            Disposition::Close => "Connection: close"@,
            Disposition::Reuse => "Connection: keep-alive"@,
        }) + "\r\n"@ + "\r\n"@);
    }
    req
}

/// A text of a single line.
pub open spec fn one_line(s: Seq<char>) -> bool {
    !s.contains('\n')
}

proof fn lemma_split_line(line: Seq<char>, rest: Seq<char>)
    requires
        one_line(line),
    ensures
        crlf_split(line + "\r\n"@ + rest) == seq![line] + crlf_split(rest),
{
    reveal_strlit("\r\n");
    let s = line + "\r\n"@ + rest;
    lemma_crlf_at(s);
    let i = crlf_at(s);
    let n = line.len() as int;
    assert(s[n] == '\r' && s[n + 1] == '\n');
    if i > n {
        assert(!(s[n] == '\r' && s[n + 1] == '\n'));
    }
    if i < n {
        assert(s[i + 1] == '\n');
        if i + 1 < n {
            assert(line[i + 1] == '\n');
        }
    }
    assert(i == n);
    assert(s.take(n) =~= line);
    assert(s.skip(n + 2) =~= rest);
}

proof fn lemma_split_lines(lines: Seq<Seq<char>>, rest: Seq<char>)
    requires
        forall|i: int| 0 <= i < lines.len() ==> one_line(#[trigger] lines[i]),
    ensures
        crlf_split(with_line_ends(lines) + rest) == lines + crlf_split(rest),
    decreases lines.len(),
{
    if lines.len() == 0 {
        assert(with_line_ends(lines) + rest =~= rest);
        assert(lines + crlf_split(rest) =~= crlf_split(rest));
    } else {
        let init = lines.drop_last();
        let last = lines.last();
        let behind = last + "\r\n"@ + rest;
        assert forall|i: int| 0 <= i < init.len() implies one_line(#[trigger] init[i]) by {
            assert(init[i] == lines[i]);
        }
        assert(one_line(lines[lines.len() - 1]));
        lemma_split_lines(init, behind);
        lemma_split_line(last, rest);
        assert(with_line_ends(lines) + rest =~= with_line_ends(init) + behind);
        assert(lines + crlf_split(rest) =~= init + (seq![last] + crlf_split(rest)));
    }
}

/// Whether every part of a request stays on its line.
pub open spec fn stays_on_its_lines(method: Seq<char>, t: RequestTarget) -> bool {
    &&& one_line(method)
    &&& one_line(t.target@)
    &&& one_line(t.host@)
    &&& one_line(t.user_agent@)
    &&& forall|i: int| 0 <= i < t.extra_headers@.len() ==> one_line(#[trigger] t.extra_headers@[i]@)
}

proof fn lemma_decimal_one_line(n: nat)
    ensures
        one_line(decimal(n)),
{
    law_decimal_reads_back(n, n as int);
}

/// A receiver that splits a request head at its line ends finds exactly the
/// lines that were meant: nothing that the caller supplied runs into another
/// header, and the head ends with a blank line.
pub proof fn law_request_head_has_its_lines(
    method: Seq<char>,
    t: RequestTarget,
    range: Option<(u64, u64)>,
    d: Disposition,
)
    requires
        stays_on_its_lines(method, t),
    ensures
        crlf_split(with_line_ends(request_lines(method, t, range, d))) == request_lines(
            method,
            t,
            range,
            d,
        ).push(Seq::empty()),
{
    reveal_strlit(" ");
    reveal_strlit(" HTTP/1.1");
    reveal_strlit("Host: ");
    reveal_strlit("Accept: */*");
    reveal_strlit("User-Agent: ");
    reveal_strlit("Range: bytes=");
    reveal_strlit("-");
    reveal_strlit("Connection: close");
    reveal_strlit("Connection: keep-alive");
    let lines = request_lines(method, t, range, d);
    assert(one_line(method + " "@ + t.target@ + " HTTP/1.1"@));
    assert(one_line("Host: "@ + t.host@));
    assert(one_line("User-Agent: "@ + t.user_agent@));
    assert(one_line("Accept: */*"@));
    assert(one_line(connection_line(d)));
    if let Some((a, b)) = range {
        lemma_decimal_one_line(a as nat);
        lemma_decimal_one_line(b as nat);
        assert(one_line(range_line(a as int, b as int)));
    }
    let extra = texts(t.extra_headers@);
    let front = lines.len() - 2 - extra.len();
    assert forall|i: int| 0 <= i < lines.len() implies one_line(#[trigger] lines[i]) by {
        if front <= i < front + extra.len() {
            assert(lines[i] == extra[i - front]);
            assert(one_line(t.extra_headers@[i - front]@));
        }
    }
    let none = Seq::<char>::empty();
    lemma_split_lines(lines, none);
    assert(with_line_ends(lines) + none =~= with_line_ends(lines));
    assert(crlf_split(none) =~= seq![none]);
    assert(lines + seq![none] =~= lines.push(none));
}

proof fn lemma_trim_leading_space(s: Seq<char>)
    ensures
        trimmed(" "@ + s) == trimmed(s),
{
    reveal_strlit(" ");
    assert((" "@ + s).skip(1) =~= s);
}

/// A request head says what the target says: the receiver reads back the host
/// and the user agent, and the range as it was asked for.
pub proof fn law_request_head_reads_back(
    method: Seq<char>,
    t: RequestTarget,
    range: Option<(u64, u64)>,
    d: Disposition,
)
    requires
        stays_on_its_lines(method, t),
    ensures
        ({
            let head = with_line_ends(request_lines(method, t, range, d));
            &&& header_of(head, "host"@) == Some(trimmed(t.host@))
            &&& header_of(head, "user-agent"@) == Some(trimmed(t.user_agent@))
            &&& range matches Some((a, b)) ==> header_of(head, "range"@) == Some(
                trimmed("bytes="@ + decimal(a as nat) + "-"@ + decimal(b as nat)),
            )
        }),
{
    reveal_strlit("Host: ");
    reveal_strlit("host");
    reveal_strlit("Accept: */*");
    reveal_strlit("User-Agent: ");
    reveal_strlit("user-agent");
    reveal_strlit("Range: bytes=");
    reveal_strlit("bytes=");
    reveal_strlit("range");
    reveal_strlit(" ");
    law_request_head_has_its_lines(method, t, range, d);
    let all = request_lines(method, t, range, d).push(Seq::empty());
    let rest = all.skip(1);
    let host = "Host: "@ + t.host@;
    let agent = "User-Agent: "@ + t.user_agent@;
    let accept = "Accept: */*"@;
    assert(rest[0] == host);
    assert(lowered(host.take(4)) =~= lowered("host"@));
    assert(names(host, "host"@));
    assert(host.skip(5) =~= " "@ + t.host@);
    lemma_trim_leading_space(t.host@);
    assert(lowered(agent.take(10)) =~= lowered("user-agent"@));
    assert(names(agent, "user-agent"@));
    assert(agent.skip(11) =~= " "@ + t.user_agent@);
    lemma_trim_leading_space(t.user_agent@);
    assert(!names(host, "user-agent"@)) by {
        assert(host.len() > 10 ==> lowered(host.take(10))[0] == 'h');
        assert(lowered("user-agent"@)[0] == 'u');
    }
    assert(!names(accept, "user-agent"@)) by {
        assert(accept.len() > 10 ==> lowered(accept.take(10))[0] == 'a');
        assert(lowered("user-agent"@)[0] == 'u');
    }
    let rest1 = rest.skip(1);
    let rest2 = rest1.skip(1);
    let rest3 = rest2.skip(1);
    assert(first_header(rest, "user-agent"@) == first_header(rest1, "user-agent"@));
    match range {
        None => {
            assert(rest1[0] == accept);
            assert(rest2[0] == agent);
            assert(first_header(rest1, "user-agent"@) == first_header(rest2, "user-agent"@));
        },
        Some((a, b)) => {
            let line = range_line(a as int, b as int);
            let value = "bytes="@ + decimal(a as nat) + "-"@ + decimal(b as nat);
            assert(rest1[0] == line);
            assert(rest2[0] == accept);
            assert(rest3[0] == agent);
            assert(!names(line, "user-agent"@)) by {
                assert(line.len() > 10 ==> lowered(line.take(10))[0] == 'r');
                assert(lowered("user-agent"@)[0] == 'u');
            }
            assert(first_header(rest1, "user-agent"@) == first_header(rest2, "user-agent"@));
            assert(first_header(rest2, "user-agent"@) == first_header(rest3, "user-agent"@));
            assert(!names(host, "range"@)) by {
                assert(host.len() > 5 ==> lowered(host.take(5))[0] == 'h');
                assert(lowered("range"@)[0] == 'r');
            }
            assert(lowered(line.take(5)) =~= lowered("range"@));
            assert(names(line, "range"@));
            assert(line.skip(6) =~= " "@ + value);
            lemma_trim_leading_space(value);
            assert(first_header(rest, "range"@) == first_header(rest1, "range"@));
        },
    }
}

/// Where a redirect leads, as far as its text says.
#[verifier::ext_equal]
pub enum Hop {
    /// Through the same proxy, to another origin.
    ViaProxy { authority: Seq<char>, path: Seq<char> },
    Direct { host: Seq<char>, port: int, path: Seq<char> },
    /// Another path at the same place.
    SamePlace { path: Seq<char> },
}

/// The hop that a `Location` names. Only plain HTTP is followed: an
/// `https://` destination is refused rather than downgraded.
pub open spec fn hop_of(via_proxy: bool, location: Seq<char>) -> Option<Hop> {
    let loc = trimmed(location);
    if begins(loc, "https://"@) {
        None
    } else if begins(loc, "http://"@) {
        let rest = loc.skip("http://"@.len() as int);
        let authority = before_first(rest, '/');
        let path = if authority.len() < rest.len() {
            rest.skip(authority.len() as int)
        } else {
            "/"@
        };
        if via_proxy {
            Some(Hop::ViaProxy { authority, path })
        } else if past_last(authority, ':') > 0 {
            Some(
                Hop::Direct {
                    host: authority.take(past_last(authority, ':') - 1),
                    port: match number(after_last(authority, ':'), 10, 65535) {
                        Some(p) => p,
                        None => 80,
                    },
                    path,
                },
            )
        } else {
            Some(Hop::Direct { host: authority, port: 80, path })
        }
    } else if loc.len() > 0 && loc[0] == '/' {
        Some(Hop::SamePlace { path: loc })
    } else {
        None
    }
}

/// Where the next request goes.
#[derive(Debug)]
pub enum Retarget {
    /// Through the same proxy, to another origin.
    ViaProxy { authority: String, path: String },
    Direct { host: String, port: u16, path: String },
    /// Another path at the same place.
    SamePlace { path: String },
}

impl Retarget {
    pub open spec fn hop(self) -> Hop {
        match self {
            Retarget::ViaProxy { authority, path } => Hop::ViaProxy {
                authority: authority@,
                path: path@,
            },
            Retarget::Direct { host, port, path } => Hop::Direct {
                host: host@,
                port: port as int,
                path: path@,
            },
            Retarget::SamePlace { path } => Hop::SamePlace { path: path@ },
        }
    }
}

fn cut_last_colon(s: &[char]) -> (r: Option<usize>)
    ensures
        match r {
            Some(i) => i < s@.len() && past_last(s@, ':') == i + 1,
            None => past_last(s@, ':') == 0,
        },
{
    let mut n: usize = s.len();
    while n > 0
        invariant
            n <= s@.len(),
            forall|j: int| n <= j < s@.len() ==> s@[j] != ':',
        decreases n,
    {
        if s[n - 1] == ':' {
            proof {
                lemma_past_last_at(s@, ':', n as int);
            }
            return Some(n - 1);
        }
        n = n - 1;
    }
    proof {
        lemma_past_last_at(s@, ':', 0);
    }
    None
}

/// Works out where a redirect leads. `via_proxy` says whether the request that
/// was answered went through a proxy; the next one then does too.
pub fn retarget(via_proxy: bool, location: &str) -> (r: Option<Retarget>)
    ensures
        match r {
            Some(t) => hop_of(via_proxy, location@) == Some(t.hop()),
            None => hop_of(via_proxy, location@) is None,
        },
{
    let text = chars_of(location);
    let loc = trim(text.as_slice());
    let secure = chars_of("https://");
    if starts_with(loc, secure.as_slice()) {
        return None;
    }
    let plain = chars_of("http://");
    if starts_with(loc, plain.as_slice()) {
        let rest = vstd::slice::slice_subrange(loc, plain.len(), loc.len());
        proof {
            assert(rest@ =~= loc@.skip("http://"@.len() as int));
            lemma_first_of(rest@, '/');
        }
        let authority = cut_before(rest, '/');
        let path = if authority.len() < rest.len() {
            let tail = vstd::slice::slice_subrange(rest, authority.len(), rest.len());
            proof {
                assert(tail@ =~= rest@.skip(authority@.len() as int));
            }
            string_of(tail)
        } else {
            String::from_str("/")
        };
        if via_proxy {
            return Some(Retarget::ViaProxy { authority: string_of(authority), path });
        }
        return match cut_last_colon(authority) {
            Some(i) => {
                let host = vstd::slice::slice_subrange(authority, 0, i);
                let digits = vstd::slice::slice_subrange(authority, i + 1, authority.len());
                proof {
                    assert(host@ =~= authority@.take(i as int));
                    assert(digits@ =~= after_last(authority@, ':'));
                }
                let port: u16 = match parse_number(digits, 10, 65535) {
                    Some(p) => p as u16,
                    None => 80,
                };
                Some(Retarget::Direct { host: string_of(host), port, path })
            },
            None => Some(Retarget::Direct { host: string_of(authority), port: 80, path }),
        };
    }
    if loc.len() > 0 && loc[0] == '/' {
        return Some(Retarget::SamePlace { path: string_of(loc) });
    }
    None
}

/// A receiver that splits a request head at its line ends finds the request
/// line, the host, the range where one is asked for, what is accepted, the user
/// agent, every extra header of the target in order, the connection header, and
/// the blank line that ends the head, and nothing else.
pub proof fn law_every_header_is_a_line_of_the_head(
    method: Seq<char>,
    t: RequestTarget,
    range: Option<(u64, u64)>,
    d: Disposition,
)
    requires
        stays_on_its_lines(method, t),
    ensures
        ({
            let lines = crlf_split(with_line_ends(request_lines(method, t, range, d)));
            let k: int = if range is Some {
                5
            } else {
                4
            };
            let n = t.extra_headers@.len();
            &&& lines.len() == k + n + 3
            &&& lines[0] == method + " "@ + t.target@ + " HTTP/1.1"@
            &&& lines[1] == "Host: "@ + t.host@
            &&& range is Some ==> lines[2] == "Range: bytes="@ + decimal((range->0).0 as nat)
                + "-"@ + decimal((range->0).1 as nat)
            &&& lines[k - 2] == "Accept: */*"@
            &&& lines[k - 1] == "User-Agent: "@ + t.user_agent@
            &&& forall|i: int| 0 <= i < n ==> #[trigger] lines[k + i] == t.extra_headers@[i]@
            &&& lines[k + n] == (match d {
                Disposition::Close => "Connection: close"@,
                Disposition::Reuse => "Connection: keep-alive"@,
            })
            &&& lines[k + n + 1].len() == 0
            &&& lines[k + n + 2].len() == 0
        }),
{
    law_request_head_has_its_lines(method, t, range, d);
    let all = request_lines(method, t, range, d);
    let lines = all.push(Seq::empty());
    let k: int = if range is Some {
        5
    } else {
        4
    };
    let n = t.extra_headers@.len() as int;
    assert forall|i: int| 0 <= i < n implies #[trigger] lines[k + i] == t.extra_headers@[i]@ by {
        assert(texts(t.extra_headers@)[i] == t.extra_headers@[i]@);
    }
}

/// Lines are written one behind the other, each with its line end.
pub proof fn law_lines_are_written_with_their_ends(lines: Seq<Seq<char>>, line: Seq<char>)
    ensures
        with_line_ends(Seq::<Seq<char>>::empty()) == Seq::<char>::empty(),
        with_line_ends(lines.push(line)) == with_line_ends(lines) + line + "\r\n"@,
        with_line_ends(seq![line] + lines) == line + "\r\n"@ + with_line_ends(lines),
{
    lemma_lines_push(lines, line);
    lemma_lines_concat(seq![line], lines);
    lemma_lines_push(Seq::empty(), line);
    assert(Seq::<Seq<char>>::empty().push(line) =~= seq![line]);
    assert(with_line_ends(seq![line]) =~= line + "\r\n"@);
}

/// A redirect to a secure place is not followed here, and neither is one that
/// names no place; a path stays where the request went.
pub proof fn law_only_plain_places_are_followed(via_proxy: bool, path: Seq<char>, rest: Seq<char>)
    requires
        path.len() > 0,
        path[0] == '/',
        trimmed(path) == path,
        trimmed("https://"@ + rest) == "https://"@ + rest,
    ensures
        hop_of(via_proxy, path) == Some(Hop::SamePlace { path }),
        hop_of(via_proxy, "https://"@ + rest) is None,
        hop_of(via_proxy, Seq::empty()) is None,
{
    reveal_strlit("https://");
    reveal_strlit("http://");
    let s = "https://"@ + rest;
    assert(s.subrange(0, 8) =~= "https://"@);
    if path.len() >= 8 {
        assert(path.subrange(0, 8)[0] == '/');
    }
    if path.len() >= 7 {
        assert(path.subrange(0, 7)[0] == '/');
    }
    assert("https://"@[0] == 'h' && "http://"@[0] == 'h');
    assert(trimmed(Seq::<char>::empty()) =~= Seq::<char>::empty());
}

/// A redirect to a plain HTTP place leads there: to its host, at the port that
/// it names or at port 80, for its path or for the root; through a proxy the
/// authority is handed to the proxy as it is.
pub proof fn law_a_plain_place_is_read_from_its_address(
    host: Seq<char>,
    port: nat,
    path: Seq<char>,
)
    requires
        !host.contains('/'),
        !host.contains(':'),
        port <= 65535,
        path.len() > 0,
        path[0] == '/',
        !crate::text::is_space(path.last()),
    ensures
        hop_of(false, "http://"@ + host + path) == Some(Hop::Direct { host, port: 80, path }),
        hop_of(false, "http://"@ + host + seq![':'] + decimal(port) + path) == Some(
            Hop::Direct { host, port: port as int, path },
        ),
        hop_of(true, "http://"@ + host + path) == Some(Hop::ViaProxy { authority: host, path }),
        hop_of(true, "http://"@ + host + seq![':'] + decimal(port) + path) == Some(
            Hop::ViaProxy { authority: host + seq![':'] + decimal(port), path },
        ),
{
    lemma_plain_place(host, path);
    let d = decimal(port);
    law_decimal_reads_back(port, 65535);
    let authority = host + seq![':'] + d;
    assert(!authority.contains('/')) by {
        if authority.contains('/') {
            let i = choose|i: int| 0 <= i < authority.len() && authority[i] == '/';
            if i < host.len() {
                assert(host[i] == '/');
            } else if i > host.len() {
                assert('0' <= d[i - host.len() - 1] <= '9');
            }
        }
    }
    lemma_plain_place(authority, path);
    assert("http://"@ + host + seq![':'] + d + path =~= "http://"@ + authority + path);
    let n = host.len() as int;
    assert forall|j: int| 0 <= j < n implies host[j] != ':' by {
        assert(host.contains(host[j]));
    }
    lemma_past_last_at(host, ':', 0);
    assert forall|j: int| n + 1 <= j < authority.len() implies authority[j] != ':' by {
        assert('0' <= d[j - n - 1] <= '9');
    }
    lemma_past_last_at(authority, ':', n + 1);
    assert(authority.take(n) =~= host);
    assert(authority.skip(n + 1) =~= d);
}

proof fn lemma_plain_place(authority: Seq<char>, path: Seq<char>)
    requires
        !authority.contains('/'),
        path.len() > 0,
        path[0] == '/',
        !crate::text::is_space(path.last()),
    ensures
        ({
            let loc = "http://"@ + authority + path;
            let rest = loc.skip("http://"@.len() as int);
            &&& trimmed(loc) == loc
            &&& !begins(loc, "https://"@)
            &&& begins(loc, "http://"@)
            &&& before_first(rest, '/') == authority
            &&& authority.len() < rest.len()
            &&& rest.skip(authority.len() as int) == path
        }),
{
    reveal_strlit("https://");
    reveal_strlit("http://");
    let loc = "http://"@ + authority + path;
    let rest = loc.skip(7);
    assert(loc.last() == path.last());
    assert(loc[0] == 'h');
    assert(loc[4] == ':');
    if loc.len() >= 8 {
        assert(loc.subrange(0, 8)[4] == ':');
        assert("https://"@[4] == 's');
    }
    assert(loc.subrange(0, 7) =~= "http://"@);
    assert(rest =~= authority + path);
    let n = authority.len() as int;
    assert forall|j: int| 0 <= j < n implies rest[j] != '/' by {
        assert(authority.contains(authority[j]));
    }
    crate::text::lemma_first_of_at(rest, '/', n);
    assert(rest.take(n) =~= authority);
    assert(rest.skip(n) =~= path);
}

/// What a decision says of the next request is what it holds.
pub proof fn law_a_decision_is_what_it_holds(r: Retarget)
    ensures
        r matches Retarget::ViaProxy { authority, path } ==> r.hop() == (Hop::ViaProxy {
            authority: authority@,
            path: path@,
        }),
        r matches Retarget::Direct { host, port, path } ==> r.hop() == (Hop::Direct {
            host: host@,
            port: port as int,
            path: path@,
        }),
        r matches Retarget::SamePlace { path } ==> r.hop() == (Hop::SamePlace { path: path@ }),
{
}

} // verus!
