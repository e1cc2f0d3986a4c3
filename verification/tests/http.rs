use hydra::bytes::{find_crlf, find_crlf2, hex, parse_hex_u64, trim_ascii};
use hydra::chunked::{dechunk, ChunkedNext, ChunkedRange, Deframer, Phase};
use hydra::error::{ErrorKind, FetchError, Redirect};
use hydra::head::{
    content_length, head_step, header_lookup, header_mentions, header_value,
    parse_content_range_start, parse_content_range_total, response_status, Got, HeadRule, HeadStep,
};
use hydra::object::{
    accept_object, accept_streaming, after_object_exchange, after_range_exchange, cancelled,
    may_pool, small_object, small_step, BodyNext, BodyReader, Exchange, ExchangeNext, Framing,
    SmallNext, Take,
};
use hydra::probe::{
    head_connection_is_clean, keep_bare, probe_of_get, probe_of_head, settle_probe,
    size_of_range_response, validator_from, Probe,
};
use hydra::range::{
    accept_range, last_byte, throttled, wait_text, AttemptEnd, RangeAnswer, RangeBody, RangePlan, Retry,
    RetryNext,
};
use hydra::request::{
    build_request_head, build_request_head_disp, connection_header, retarget, Disposition,
    RequestTarget, Retarget,
};

fn probe() -> Probe {
    Probe {
        size: 0,
        ranges: false,
        validator: None,
        last_modified: None,
        weak_validator: false,
        content_type: None,
        disposition: None,
        status: 200,
        location: None,
        raw_head: String::new(),
        raw_request: String::new(),
    }
}

fn target() -> RequestTarget {
    RequestTarget {
        target: "/a.bin".to_string(),
        host: "h.org".to_string(),
        user_agent: "hydra/1".to_string(),
        extra_headers: vec!["X-One: 1".to_string()],
    }
}

#[test]
fn a_redirect_error_carries_its_destination() {
    let e = FetchError::redirect(302, "https://edge.example/seg1.ts".into());

    let r = Redirect::of(&e).expect("a redirect must be recoverable from the error");
    assert_eq!(r.status, 302);
    assert_eq!(r.location, "https://edge.example/seg1.ts");

    // And an error that is NOT a redirect must not masquerade as one,
    // however much its text looks the part.
    let other = FetchError::plain(
        ErrorKind::Other,
        "redirect 302 to https://spoof.example/",
    );
    assert!(Redirect::of(&other).is_none());
}

#[test]
fn a_redirect_reads_as_its_status_and_destination() {
    let e = FetchError::redirect(307, "/x".into());
    assert_eq!(e.message(), "redirect 307 to /x");
    assert_eq!(FetchError::plain(ErrorKind::Other, "gone").message(), "gone");
}

#[test]
fn a_probe_keeps_last_modified_even_when_an_etag_is_present() {
    const DATE: &str = "Sat, 06 Jan 2024 19:38:59 GMT";

    // Both headers: the ETag wins the validator, the date is still kept.
    let (v, weak, lm) = validator_from(Some("\"0x8DC0EEF\"".into()), Some(DATE.into()));
    assert_eq!(v.as_deref(), Some("\"0x8DC0EEF\""));
    assert!(!weak, "a strong ETag is not a weak validator");
    assert_eq!(lm.as_deref(), Some(DATE));

    // Date only: it serves as BOTH the validator and the date, and is weak.
    let (v, weak, lm) = validator_from(None, Some(DATE.into()));
    assert_eq!(v.as_deref(), Some(DATE));
    assert!(weak, "a bare date is too weak to splice mirrors against");
    assert_eq!(lm.as_deref(), Some(DATE));

    // ETag only: no date to report, and the flag must say so rather than guess.
    let (v, weak, lm) = validator_from(Some("\"abc\"".into()), None);
    assert_eq!(v.as_deref(), Some("\"abc\""));
    assert!(!weak);
    assert_eq!(lm, None);

    // A weak ETag stays weak, and still does not shadow the date.
    let (v, weak, lm) = validator_from(Some("W/\"abc\"".into()), Some(DATE.into()));
    assert_eq!(v.as_deref(), Some("W/\"abc\""));
    assert!(weak, "W/ marks a weak validator");
    assert_eq!(lm.as_deref(), Some(DATE));

    // Neither header: nothing to resume against and nothing to date.
    let (v, weak, lm) = validator_from(None, None);
    assert_eq!(v, None);
    assert!(!weak);
    assert_eq!(lm, None);
}

#[test]
fn vectorized_header_scans_match_the_window_walks_they_replaced() {
    fn ref_crlf(b: &[u8]) -> Option<usize> {
        b.windows(2).position(|w| w == b"\r\n")
    }
    fn ref_crlf2(b: &[u8]) -> Option<usize> {
        b.windows(4).position(|w| w == b"\r\n\r\n").map(|p| p + 4)
    }
    let cases: Vec<&[u8]> = vec![
        b"",
        b"\r",
        b"\n",
        b"\r\n",
        b"\r\r\n",
        b"\r\n\r",
        b"\r\n\r\n",
        b"a\r\nb\r\n\r\nbody",
        b"HTTP/1.1 200 OK\r\nA: 1\r\n\r\n",
        b"no boundary at all",
        b"trailing\r",
        b"\n\r\n\r",
        b"\r\r\r\r\n\r\n",
        b"x\r\n\r\n",
        b"\r\n\n\r\n\r\n",
    ];
    for c in cases {
        assert_eq!(find_crlf(c), ref_crlf(c), "find_crlf on {c:?}");
        assert_eq!(find_crlf2(c), ref_crlf2(c), "find_crlf2 on {c:?}");
    }
    // Exhaustive over short strings drawn from the alphabet that matters.
    let alpha = *b"\r\nx";
    let mut buf = [0u8; 5];
    for n in 0..=5usize {
        let mut idx = vec![0usize; n];
        loop {
            for k in 0..n {
                buf[k] = alpha[idx[k]];
            }
            let c = &buf[..n];
            assert_eq!(find_crlf(c), ref_crlf(c), "find_crlf on {c:?}");
            assert_eq!(find_crlf2(c), ref_crlf2(c), "find_crlf2 on {c:?}");
            let mut k = 0;
            while k < n {
                idx[k] += 1;
                if idx[k] < alpha.len() {
                    break;
                }
                idx[k] = 0;
                k += 1;
            }
            if k == n {
                break;
            }
        }
    }
}

#[test]
fn content_range_total_is_the_size_fallback() {
    assert_eq!(parse_content_range_total("bytes 0-0/533653"), Some(533653));
    assert_eq!(parse_content_range_total("bytes 100-199/1000"), Some(1000));
    // An unknown total must not be invented.
    assert_eq!(parse_content_range_total("bytes 0-0/*"), None);
    assert_eq!(parse_content_range_total("garbage"), None);
}

#[test]
fn content_range_start_is_read_back() {
    assert_eq!(parse_content_range_start("bytes 100-199/1000"), Some(100));
    assert_eq!(parse_content_range_start("  bytes  7-9/*"), Some(7));
    assert_eq!(parse_content_range_start("bytes */1000"), None);
    assert_eq!(parse_content_range_start("items 1-2/3"), None);
}

#[test]
fn header_lookup_is_case_insensitive() {
    let h = "HTTP/1.1 206 Partial Content\r\ncontent-range: bytes 0-9/100\r\nTransfer-Encoding: chunked\r\n\r\n";
    assert_eq!(
        header_value(h, "content-range").as_deref(),
        Some("bytes 0-9/100")
    );
    assert_eq!(
        header_value(h, "TRANSFER-ENCODING").as_deref(),
        Some("chunked")
    );
    assert!(header_value(h, "etag").is_none());
    assert_eq!(header_lookup(h, "Content-Range").as_deref(), Some("bytes 0-9/100"));
}

#[test]
fn the_status_line_is_no_header_and_the_first_header_counts() {
    let h = "HTTP: x\r\nA: 1\r\na: 2\r\n";
    assert_eq!(header_value(h, "http"), None);
    assert_eq!(header_value(h, "a").as_deref(), Some("1"));
    assert!(header_mentions("X\r\nConnection: Keep-Alive, Close\r\n", "connection", "close"));
    assert_eq!(content_length("X\r\nContent-Length:  42 \r\n"), Some(42));
    assert_eq!(content_length("X\r\nContent-Length: -1\r\n"), None);
    let status: Vec<char> = "HTTP/1.1 404 Not Found".chars().collect();
    assert_eq!(response_status(&status), 404);
    let junk: Vec<char> = "HTTP/1.1 70000".chars().collect();
    assert_eq!(response_status(&junk), 0);
}

#[test]
fn a_head_is_collected_by_its_rule() {
    let mut head = Vec::new();
    assert!(matches!(
        head_step(HeadRule::Exchange, &mut head, Got::Bytes(b"HTTP/1.1 200 OK\r\n")),
        HeadStep::More
    ));
    assert!(matches!(
        head_step(HeadRule::Exchange, &mut head, Got::Bytes(b"\r\nbody")),
        HeadStep::Complete(19)
    ));
    let mut head = b"HTTP/1.1".to_vec();
    assert!(matches!(
        head_step(HeadRule::Exchange, &mut head, Got::End),
        HeadStep::Closed
    ));
    match head_step(HeadRule::Streaming, &mut head, Got::End) {
        HeadStep::Failed(e) => assert_eq!(e.message(), "no header terminator"),
        _ => panic!("a head that never ends is a failure"),
    }
    assert!(matches!(
        head_step(
            HeadRule::ProbeByHead,
            &mut head,
            Got::Failed(ErrorKind::UnexpectedEof)
        ),
        HeadStep::Closed
    ));
    assert!(matches!(
        head_step(HeadRule::ProbeByGet, &mut head, Got::Failed(ErrorKind::Other)),
        HeadStep::PassOn
    ));
    let big = vec![b'x'; 65537];
    match head_step(HeadRule::Exchange, &mut Vec::new(), Got::Bytes(&big)) {
        HeadStep::Failed(e) => assert_eq!(e.message(), "header too large"),
        _ => panic!("too large"),
    }
    match head_step(HeadRule::Streaming, &mut Vec::new(), Got::Bytes(&big)) {
        HeadStep::Failed(e) => assert_eq!(e.message(), "response headers exceed 64 KiB"),
        _ => panic!("too large"),
    }
    assert!(matches!(
        head_step(HeadRule::SizeOnly, &mut Vec::new(), Got::Bytes(&big[..32769])),
        HeadStep::Closed
    ));
    // A probe that grew past the limit is not taken for complete.
    let mut grown = big.clone();
    grown.extend_from_slice(b"\r\n\r\n");
    assert!(matches!(
        head_step(HeadRule::ProbeByHead, &mut Vec::new(), Got::Bytes(&grown)),
        HeadStep::Closed
    ));
}

#[test]
fn chunk_sizes_are_read_strictly() {
    assert_eq!(parse_hex_u64(b"1aF"), Some(0x1af));
    assert_eq!(parse_hex_u64(b"ffffffffffffffff"), Some(u64::MAX));
    assert_eq!(parse_hex_u64(b"00000000000000001"), None);
    assert_eq!(parse_hex_u64(b""), None);
    assert_eq!(parse_hex_u64(b"+5"), None);
    assert_eq!(trim_ascii(b" \t5 \r"), b"5");
    assert_eq!(hex(b'G'), None);
    assert_eq!(hex(b'F'), Some(15));
}

#[test]
fn chunked_bodies_are_deframed_including_split_boundaries() {
    // "hello world!" split as 5 + 7 bytes, with a chunk extension on the first
    // size line and the terminating zero chunk.
    let body: &[u8] = b"5;ext=1\r\nhello\r\n7\r\n world!\r\n0\r\n\r\n";
    for split in [0usize, 3, 9, 14, body.len()] {
        let mut range = ChunkedRange::new(0, &body[..split]);
        let mut got: Vec<u8> = Vec::new();
        let mut rest = body[split..].iter();
        let mut ended = false;
        loop {
            let (run, next) = range.advance(12);
            assert_eq!(run.off as usize, got.len(), "runs must be contiguous");
            got.extend_from_slice(&run.bytes);
            match next {
                ChunkedNext::Finished => {
                    ended = true;
                    break;
                }
                ChunkedNext::Failed(e) => panic!("split at {split} failed: {}", e.message()),
                ChunkedNext::Read => {}
            }
            if range.complete(12) {
                ended = true;
                break;
            }
            // The remainder comes in one byte at a time, so that every boundary
            // lands inside a read at least once.
            match rest.next() {
                Some(b) => range.feed(&[*b]),
                None => break,
            }
        }
        assert!(ended, "split at {split} did not end");
        assert_eq!(
            got, b"hello world!",
            "split at {split}: chunk framing leaked into the file"
        );
        assert_eq!(range.offset(), 12);
    }
}

#[test]
fn a_truncated_chunked_body_is_an_error() {
    let mut range = ChunkedRange::new(0, b"c\r\nhello");
    let (run, next) = range.advance(12);
    assert_eq!(run.bytes, b"hello");
    assert!(matches!(next, ChunkedNext::Read));
    assert!(!range.complete(12));
    let e = range.ended_early(12);
    assert_eq!(e.kind, ErrorKind::UnexpectedEof);
    assert_eq!(e.message(), "chunked body ended early: 5 of 12 bytes");
}

#[test]
fn a_chunked_range_never_writes_past_its_far_end() {
    let mut range = ChunkedRange::new(100, b"5\r\nhello\r\n");
    let (run, _) = range.advance(103);
    assert_eq!((run.off, run.bytes.as_slice()), (100, b"hel".as_slice()));
    assert!(range.complete(103));
    // The far end moved below the start: nothing more is written.
    range.feed(b"1\r\nx\r\n");
    let (run, _) = range.advance(90);
    assert!(run.bytes.is_empty());
}

#[test]
fn framing_faults_are_told_apart() {
    let mut strict = Deframer::new(true, b"zz\r\n");
    let d = strict.advance();
    assert_eq!(
        d.fault.unwrap().message(),
        "bad chunk size line \"zz\""
    );
    let mut strict = Deframer::new(true, b"1\r\nxyy");
    let d = strict.advance();
    assert_eq!(d.payload, b"x");
    assert_eq!(d.fault.unwrap().message(), "chunk not terminated by CRLF");
    // A tolerant reader skips the two bytes unseen, and takes a plus sign.
    let mut lax = Deframer::new(false, b"+1\r\nxyy0\r\n\r\n");
    let d = lax.advance();
    assert_eq!(d.payload, b"x");
    assert!(d.fault.is_none());
    assert_eq!(lax.phase(), Phase::Done);
    assert!(!lax.is_drained());
    let mut lax = Deframer::new(false, b" q\" ;a\r\n");
    assert_eq!(
        lax.advance().fault.unwrap().message(),
        "bad chunk size \"q\\\"\""
    );
}

#[test]
fn long_bad_size_lines_are_shown_in_part() {
    let mut line = vec![b'z'; 70];
    line.extend_from_slice(b"\r\n");
    let mut strict = Deframer::new(true, &line);
    let text = strict.advance().fault.unwrap().message();
    assert_eq!(text, format!("bad chunk size line \"{}\"", "z".repeat(64)));
}

#[test]
fn a_body_in_memory_is_dechunked() {
    assert_eq!(dechunk(b"5;x\r\nhello\r\n1\r\n!\r\n0\r\n\r\n"), b"hello!");
    assert_eq!(dechunk(b"5\r\nhel"), b"hel");
    assert_eq!(dechunk(b"2\r\nab"), b"ab");
    assert_eq!(dechunk(b"q\r\nab"), b"");
    assert_eq!(dechunk(b"\xff\r\nab"), b"");
    assert_eq!(dechunk(b"ffffffffffffffff\r\nab"), b"ab");
}

#[test]
fn request_heads_are_exact() {
    assert_eq!(
        build_request_head("GET", &target(), Some((0, 9))),
        "GET /a.bin HTTP/1.1\r\nHost: h.org\r\nRange: bytes=0-9\r\nAccept: */*\r\nUser-Agent: hydra/1\r\nX-One: 1\r\nConnection: close\r\n\r\n"
    );
    let head = build_request_head_disp("HEAD", &target(), None, Disposition::Reuse);
    assert_eq!(
        head,
        "HEAD /a.bin HTTP/1.1\r\nHost: h.org\r\nAccept: */*\r\nUser-Agent: hydra/1\r\nX-One: 1\r\nConnection: keep-alive\r\n\r\n"
    );
    assert_eq!(header_value(&head, "host").as_deref(), Some("h.org"));
    assert_eq!(header_value(&head, "user-agent").as_deref(), Some("hydra/1"));
    assert_eq!(connection_header(Disposition::Close), "Connection: close\r\n\r\n");
}

#[test]
fn redirects_are_retargeted_over_plain_http_only() {
    assert!(retarget(false, "https://x.org/f").is_none());
    assert!(retarget(false, "f.zip").is_none());
    match retarget(false, " http://x.org:8080/f ") {
        Some(Retarget::Direct { host, port, path }) => {
            assert_eq!((host.as_str(), port, path.as_str()), ("x.org", 8080, "/f"))
        }
        other => panic!("{other:?}"),
    }
    match retarget(false, "http://x.org:http") {
        Some(Retarget::Direct { host, port, path }) => {
            assert_eq!((host.as_str(), port, path.as_str()), ("x.org", 80, "/"))
        }
        other => panic!("{other:?}"),
    }
    match retarget(true, "http://x.org:1/f") {
        Some(Retarget::ViaProxy { authority, path }) => {
            assert_eq!((authority.as_str(), path.as_str()), ("x.org:1", "/f"))
        }
        other => panic!("{other:?}"),
    }
    match retarget(true, "/here") {
        Some(Retarget::SamePlace { path }) => assert_eq!(path, "/here"),
        other => panic!("{other:?}"),
    }
}

#[test]
fn a_head_response_is_read_line_by_line() {
    let p = probe_of_head(
        b"HTTP/1.1 200 OK\r\nContent-Length: 12\r\nAccept-Ranges: Bytes\r\nETag: W/\"a\"\r\nLast-Modified: D\r\nContent-Type: text/html\r\nContent-Disposition: attachment; filename=\"x.zip\"\r\ncontent-length: 15\r\n\r\n",
        "REQ".to_string(),
    );
    assert_eq!(p.status, 200);
    assert_eq!(p.size, 15, "the last of two headers counts");
    assert!(p.ranges);
    assert_eq!(p.validator.as_deref(), Some("W/\"a\""));
    assert!(p.weak_validator);
    assert_eq!(p.last_modified.as_deref(), Some("D"));
    assert_eq!(p.content_type.as_deref(), Some("text/html"));
    assert_eq!(p.suggested_filename().as_deref(), Some("x.zip"));
    assert_eq!(p.raw_request, "REQ");
    assert!(p.raw_head.starts_with("HTTP/1.1 200 OK\r\n"));
    assert!(p.raw_head.ends_with("content-length: 15\r\n\r\n"));
    assert_eq!(p.stated_length(), Some(12));
    let moved = probe_of_head(
        b"HTTP/1.1 302 Found\r\nLocation: /there\r\nContent-Length: 0\r\n\r\n",
        String::new(),
    );
    assert!(moved.is_redirect());
    assert_eq!(moved.location.as_deref(), Some("/there"));
}

#[test]
fn a_ranged_get_proves_ranges_and_states_the_total() {
    let p = probe_of_get(
        b"HTTP/1.1 206 Partial\r\nContent-Range: bytes 0-0/533653\r\nETag: \"s\"\r\n\r\nx",
        "R".to_string(),
    );
    assert_eq!((p.size, p.ranges, p.status), (533653, true, 206));
    assert_eq!(
        p.raw_head,
        "HTTP/1.1 206 Partial\r\nContent-Range: bytes 0-0/533653\r\nETag: \"s\"\r\n\r\n",
        "the body is no part of the head"
    );
    let body = probe_of_head(b"HTTP/1.1 200 OK\r\n\r\nContent-Length: 5\r\n", String::new());
    assert_eq!((body.raw_head.as_str(), body.size), ("HTTP/1.1 200 OK\r\n\r\n", 0));
    let cut = probe_of_get(b"HTTP/1.1 200 OK\r\nCont", String::new());
    assert_eq!(cut.raw_head, "HTTP/1.1 200 OK\r\nCont");
    assert_eq!(p.validator.as_deref(), Some("\"s\""));
    assert!(!p.weak_validator);
    let whole = probe_of_get(b"HTTP/1.1 200 OK\r\nContent-Length: 7\r\n\r\n", String::new());
    assert_eq!((whole.size, whole.ranges), (7, false));
    assert_eq!(
        size_of_range_response(b"HTTP/1.1 206 P\r\nContent-Range: bytes 0-0/9\r\n\r\n").unwrap(),
        9
    );
    assert_eq!(
        size_of_range_response(b"HTTP/1.1 200 OK\r\n\r\n").unwrap_err().message(),
        "no Content-Length on HEAD and no total in Content-Range"
    );
}

#[test]
fn bytes_that_are_not_utf8_are_replaced() {
    let p = probe_of_get(b"HTTP/1.1 200 OK\r\nETag: \xff\r\n\r\n", String::new());
    assert_eq!(p.validator.as_deref(), Some("\u{FFFD}"));
}

#[test]
fn a_head_connection_goes_back_only_when_clean() {
    let r = b"HTTP/1.1 200 OK\r\n\r\n";
    assert!(head_connection_is_clean(r, Some(r.len())));
    assert!(!head_connection_is_clean(r, None));
    assert!(!head_connection_is_clean(r, Some(r.len() - 1)));
    let c = b"HTTP/1.1 200 OK\r\nConnection: Close\r\n\r\n";
    assert!(!head_connection_is_clean(c, Some(c.len())));
}

#[test]
fn a_stated_length_of_zero_is_an_answer() {
    let mut p = probe();
    assert!(!p.answered());
    p.raw_head = "HTTP/1.1 200 OK\r\nContent-Length: 0\r\n\r\n".to_string();
    assert!(p.answered());
    p.status = 404;
    assert!(!p.answered());
    p.status = 301;
    p.location = Some("/x".to_string());
    assert!(p.answered());
}

#[test]
fn the_better_of_two_probes_is_believed() {
    let head = || {
        let mut p = probe();
        p.size = 1;
        p
    };
    let get = |status: u16| {
        let mut p = probe();
        p.size = 2;
        p.status = status;
        p
    };
    assert_eq!(settle_probe(Ok(head()), Ok(get(206))).unwrap().size, 2);
    assert_eq!(settle_probe(Ok(head()), Ok(get(416))).unwrap().size, 1);
    let mut bad = head();
    bad.status = 404;
    let kept = settle_probe(Ok(bad), Ok(get(416))).unwrap();
    assert_eq!((kept.size, kept.status), (1, 404), "a missing file is the better error");
    let mut bad = head();
    bad.status = 404;
    assert_eq!(settle_probe(Ok(bad), Ok(get(500))).unwrap().status, 500);
    let mut bad = head();
    bad.status = 404;
    assert_eq!(settle_probe(Ok(bad), Ok(get(206))).unwrap().size, 2);
    let mut bad = head();
    bad.status = 500;
    assert_eq!(settle_probe(Ok(bad), Ok(get(416))).unwrap().size, 2);
    let fail = |s: &str| FetchError::plain(ErrorKind::TimedOut, s);
    assert_eq!(settle_probe(Ok(head()), Err(fail("g"))).unwrap().size, 1);
    assert_eq!(settle_probe(Err(fail("h")), Ok(get(500))).unwrap().size, 2);
    let e = settle_probe(Err(fail("h")), Err(fail("g"))).unwrap_err();
    assert_eq!(e.kind, ErrorKind::TimedOut);
    assert_eq!(e.message(), "HEAD failed (h), ranged GET failed (g)");
}

#[test]
fn nothing_is_known_of_an_object_at_first() {
    let p = Probe::default();
    assert_eq!((p.size, p.ranges, p.status, p.weak_validator), (0, false, 0, false));
    assert!(p.validator.is_none() && p.last_modified.is_none() && p.content_type.is_none());
    assert!(p.disposition.is_none() && p.location.is_none());
    assert!(p.raw_head.is_empty() && p.raw_request.is_empty());
}

#[test]
fn only_small_unnamed_html_may_forward() {
    let mut p = probe();
    assert!(!p.maybe_redirector(100));
    p.content_type = Some("  Text/HTML; charset=utf-8".to_string());
    assert!(p.maybe_redirector(100));
    p.size = 101;
    assert!(!p.maybe_redirector(100));
    p.size = 100;
    p.disposition = Some("inline".to_string());
    assert!(!p.maybe_redirector(100));
}

#[test]
fn suggested_names_stay_in_the_directory() {
    let name = |d: &str| {
        let mut p = probe();
        p.disposition = Some(d.to_string());
        p.suggested_filename()
    };
    assert_eq!(name("attachment; FileName=\"a b.zip\"; x").as_deref(), Some("a b.zip"));
    assert_eq!(name("attachment; filename= plain.txt ;q").as_deref(), Some("plain.txt"));
    assert_eq!(name("attachment; filename=../../etc/passwd").as_deref(), Some("passwd"));
    assert_eq!(name("attachment; filename=dir/./").as_deref(), Some("dir"));
    assert_eq!(name("attachment; filename=.."), None);
    assert_eq!(name("attachment; filename=."), None);
    assert_eq!(name("attachment; filename=\"\""), None);
    assert_eq!(name("attachment"), None);
    assert_eq!(probe().suggested_filename(), None);
}

#[test]
fn only_a_bare_name_is_kept() {
    let keep = |s: &str| keep_bare(Some(s.to_string()));
    assert_eq!(keep("x.zip").as_deref(), Some("x.zip"));
    assert_eq!(keep("..x").as_deref(), Some("..x"));
    for bad in ["", ".", "..", "a/b", "/"] {
        assert_eq!(keep(bad), None, "{bad:?}");
    }
    assert_eq!(keep_bare(None), None);
}

#[test]
fn a_stale_pooled_connection_is_redialed_once() {
    let closed = Exchange::Closed { partial: false };
    assert!(matches!(
        after_object_exchange(closed, true, false),
        ExchangeNext::Redial
    ));
    match after_object_exchange(closed, true, true) {
        ExchangeNext::Fail(e) => {
            assert_eq!(e.message(), "connection closed before any response headers")
        }
        _ => panic!("a second silence is a failure"),
    }
    assert!(matches!(
        after_object_exchange(Exchange::Failed, false, false),
        ExchangeNext::PassOn
    ));
    assert!(matches!(
        after_range_exchange(Exchange::Failed, true, false),
        ExchangeNext::Redial
    ));
    match after_range_exchange(Exchange::Closed { partial: true }, false, false) {
        ExchangeNext::Fail(e) => assert_eq!(
            e.message(),
            "connection closed part-way through the response headers"
        ),
        _ => panic!(),
    }
    match after_range_exchange(closed, false, false) {
        ExchangeNext::Fail(e) => assert_eq!(
            e.message(),
            "connection closed before the response headers arrived"
        ),
        _ => panic!(),
    }
    assert!(matches!(
        after_range_exchange(Exchange::Head, true, true),
        ExchangeNext::Proceed
    ));
    assert_eq!(cancelled().kind, ErrorKind::Interrupted);
}

#[test]
fn an_object_is_accepted_by_its_head() {
    let plan = accept_object(b"HTTP/1.1 200 OK\r\nContent-Length: 5\r\n\r\n", "/o").unwrap();
    assert_eq!(plan.framing, Framing::Length(5));
    assert!(!plan.server_will_close);
    let plan = accept_object(
        b"HTTP/1.0 200 OK\r\nTransfer-Encoding: Chunked\r\nContent-Length: 5\r\n\r\n",
        "/o",
    )
    .unwrap();
    assert_eq!(plan.framing, Framing::Chunked);
    assert!(plan.server_will_close);
    let e = accept_object(b"HTTP/1.1 302 Found\r\nLocation: /x\r\n\r\n", "/o").unwrap_err();
    assert_eq!(Redirect::of(&e).unwrap().location, "/x");
    let e = accept_object(b"HTTP/1.1 404 No\r\n\r\n", "/o").unwrap_err();
    assert_eq!(e.message(), "server returned 404 for /o");
    let e = accept_streaming(b"HTTP/1.1 500 No\r\n\r\n").unwrap_err();
    assert_eq!(e.message(), "server returned 500 for a streaming fetch");
    assert_eq!(
        accept_streaming(b"HTTP/1.1 200 OK\r\nContent-Length: 5\r\n\r\n").unwrap(),
        Framing::UntilClose
    );
}

#[test]
fn a_body_of_stated_length_ends_where_it_should() {
    let (mut r, first) = BodyReader::start(Framing::Length(5), b"he");
    assert_eq!(first, b"he");
    match r.step().1 {
        BodyNext::Read { room } => assert_eq!(room, Some(3)),
        _ => panic!(),
    }
    assert!(r.can_take(3));
    assert!(matches!(r.take(Got::Bytes(b"llo")), Take::WriteAll));
    assert!(r.complete());
    assert_eq!(r.total(), 5);
    assert!(matches!(r.step().1, BodyNext::Done { framed: true }));
    assert!(may_pool(true, false));
    assert!(!may_pool(true, true));
    // Bytes past the stated length came in: the connection is not clean.
    let (mut r, first) = BodyReader::start(Framing::Length(1), b"xy");
    assert_eq!(first, b"x");
    assert!(matches!(r.step().1, BodyNext::Done { framed: false }));
    // A short body is a failure.
    let (mut r, _) = BodyReader::start(Framing::Length(9), b"abc");
    match r.take(Got::Failed(ErrorKind::UnexpectedEof)) {
        Take::Failed(e) => assert_eq!(e.message(), "body ended at 3 of 9 bytes"),
        _ => panic!(),
    }
    assert!(matches!(r.take(Got::Failed(ErrorKind::Other)), Take::PassOn));
}

#[test]
fn a_chunked_object_and_an_endless_one_are_read_to_their_ends() {
    let (mut r, first) = BodyReader::start(Framing::Chunked, b"5\r\nhel");
    assert!(first.is_empty());
    let (w, next) = r.step();
    assert_eq!(w, b"hel");
    assert!(matches!(next, BodyNext::Read { room: None }));
    assert!(matches!(r.take(Got::Bytes(b"lo")), Take::Kept));
    let (w, next) = r.step();
    assert_eq!(w, b"lo");
    assert!(matches!(next, BodyNext::ReadLineEnd));
    // The line end never comes: reading goes on at the next size line.
    r.take_line_end(Got::End);
    assert!(matches!(r.step().1, BodyNext::Read { room: None }));
    assert!(matches!(r.take(Got::End), Take::Done { framed: false }));
    assert_eq!(r.total(), 5);
    // Nothing behind the zero-size chunk: the connection is clean.
    let (mut r, _) = BodyReader::start(Framing::Chunked, b"0\r\n");
    assert!(matches!(r.step().1, BodyNext::Done { framed: true }));
    let (mut r, _) = BodyReader::start(Framing::Chunked, b"x\r\n");
    assert!(matches!(r.step().1, BodyNext::Failed(_)));
    let (mut r, first) = BodyReader::start(Framing::UntilClose, b"ab");
    assert_eq!(first, b"ab");
    assert!(matches!(r.take(Got::Bytes(b"c")), Take::WriteAll));
    assert!(matches!(r.take(Got::End), Take::Done { framed: false }));
    assert_eq!(r.total(), 3);
}

#[test]
fn a_small_object_is_taken_whole_or_refused() {
    let mut buf = Vec::new();
    assert!(matches!(
        small_step(&mut buf, Got::Bytes(&[b'x'; 8192]), 0),
        SmallNext::More
    ));
    match small_step(&mut buf, Got::Bytes(b"y"), 0) {
        SmallNext::Failed(e) => assert_eq!(e.message(), "response exceeds the small-fetch cap"),
        _ => panic!(),
    }
    assert!(matches!(small_step(&mut buf, Got::End, 0), SmallNext::Ended));
    assert!(matches!(
        small_step(&mut buf, Got::Failed(ErrorKind::TimedOut), 0),
        SmallNext::PassOn
    ));
    assert_eq!(
        small_object(b"HTTP/1.1 200 OK\r\n\r\nhello", 5).unwrap(),
        b"hello"
    );
    assert_eq!(
        small_object(
            b"HTTP/1.1 200 OK\r\nTransfer-Encoding: chunked\r\n\r\n5\r\nhello\r\n0\r\n\r\n",
            5
        )
        .unwrap(),
        b"hello"
    );
    // The cap is on the object itself, and refuses.
    for response in [
        b"HTTP/1.1 200 OK\r\n\r\nhello".as_slice(),
        b"HTTP/1.1 200 OK\r\nTransfer-Encoding: chunked\r\n\r\n5\r\nhello\r\n0\r\n\r\n",
    ] {
        let e = small_object(response, 4).unwrap_err();
        assert_eq!(e.kind, ErrorKind::Other);
        assert_eq!(e.message(), "response exceeds the small-fetch cap");
    }
    assert_eq!(
        small_object(b"nothing", 100).unwrap_err().message(),
        "no header terminator"
    );
    assert_eq!(
        small_object(b"HTTP/1.1 403 No\r\n\r\n", 100).unwrap_err().message(),
        "server returned 403"
    );
    let e = small_object(b"HTTP/1.1 301 M\r\nLocation: /y\r\n\r\n", 100).unwrap_err();
    assert_eq!(Redirect::of(&e).unwrap().location, "/y");
}

#[test]
fn a_range_is_accepted_only_for_its_own_offsets() {
    let at = |head: &[u8], lo: u64| accept_range(head, lo);
    match at(b"HTTP/1.1 206 P\r\nContent-Range: bytes 10-19/100\r\n\r\n", 10) {
        RangeAnswer::Body(plan) => {
            assert!(plan.partial && !plan.chunked && !plan.server_will_close)
        }
        _ => panic!(),
    }
    let refused = |head: &[u8], lo: u64| match at(head, lo) {
        RangeAnswer::Refused(e) => (e.kind, e.message()),
        _ => panic!("must be refused"),
    };
    assert_eq!(
        refused(b"HTTP/1.1 206 P\r\nContent-Range: bytes 10-19/100\r\n\r\n", 11),
        (
            ErrorKind::InvalidData,
            "206 Content-Range starts at 10, requested 11".to_string()
        )
    );
    assert_eq!(
        refused(b"HTTP/1.1 206 P\r\n\r\n", 0).1,
        "206 without a parsable Content-Range"
    );
    assert_eq!(
        refused(b"HTTP/1.1 200 OK\r\n\r\n", 7).1,
        "server ignored Range and sent 200 for a request from offset 7"
    );
    assert_eq!(
        refused(b"HTTP/1.1 302 F\r\nLocation: /z\r\n\r\n", 0),
        (ErrorKind::NotConnected, "redirect:/z".to_string())
    );
    assert_eq!(
        refused(b"HTTP/1.1 416 N\r\n\r\n", 0).1,
        "unexpected status 416 for a range request"
    );
    match at(b"HTTP/1.1 200 OK\r\nTransfer-Encoding: chunked\r\nConnection: close\r\n\r\n", 0) {
        RangeAnswer::Body(plan) => {
            assert!(!plan.partial && plan.chunked && plan.server_will_close)
        }
        _ => panic!(),
    }
    match at(b"HTTP/1.1 429 Slow\r\nRetry-After: 7\r\n\r\n", 0) {
        RangeAnswer::Throttled { status, retry_after } => {
            assert_eq!((status, retry_after.as_deref()), (429, Some("7")))
        }
        _ => panic!(),
    }
    assert_eq!(last_byte(0), 0);
    assert_eq!(last_byte(10), 9);
}

#[test]
fn a_connection_whose_range_was_shrunk_is_never_pooled() {
    const SIZE: u64 = 1024 * 1024;
    let plan = RangePlan {
        partial: true,
        chunked: false,
        server_will_close: false,
    };
    let (mut body, run) = RangeBody::begin(0, SIZE, b"abc");
    assert_eq!((run.off, run.bytes.as_slice()), (0, b"abc".as_slice()));
    assert_eq!(body.wanted(), Some(SIZE - 3));
    assert_eq!(body.take(65536, SIZE), Some((3, 65536)));
    // The far end moves while the next read is under way: what lies past it
    // belongs to another connection.
    assert_eq!(body.take(SIZE as usize, SIZE / 4), Some((65539, 196605)));
    assert_eq!(body.wanted(), None);
    assert!(body.finish(SIZE / 4).is_ok(), "a shrink is not a failure");
    assert!(
        !body.may_pool(plan, SIZE / 4),
        "a preempted connection was offered back for reuse"
    );
    // The same range, read to the end it was asked for.
    let (mut body, _) = RangeBody::begin(0, 10, b"");
    assert_eq!(body.take(10, 10), Some((0, 10)));
    assert!(body.may_pool(plan, 10));
    // A whole object in answer to a range leaves its rest in the connection.
    let whole = RangePlan {
        partial: false,
        chunked: false,
        server_will_close: false,
    };
    assert!(!body.may_pool(whole, 10));
    let (body, run) = RangeBody::begin(0, 2, b"abc");
    assert_eq!(run.bytes, b"ab");
    assert!(!body.may_pool(plan, 2), "bytes past the range came in");
}

#[test]
fn a_short_range_is_an_error() {
    let (mut body, _) = RangeBody::begin(10, 20, b"abcd");
    assert_eq!(body.take(0, 20), None);
    let e = body.finish(20).unwrap_err();
    assert_eq!(e.kind, ErrorKind::UnexpectedEof);
    assert_eq!(
        e.message(),
        "connection closed after 4 of 10 bytes of the requested range"
    );
}

#[test]
fn the_wait_is_read_out_of_a_throttle_message() {
    assert_eq!(
        wait_text("429 throttled, retry after 30s").as_deref(),
        Some("30")
    );
    assert_eq!(wait_text("429 throttled"), None);
    assert_eq!(
        wait_text("retry after 1 retry after 2s").as_deref(),
        Some("1")
    );
    let e = throttled(503, 120);
    assert_eq!(e.kind, ErrorKind::WouldBlock);
    assert_eq!(e.message(), "503 throttled, retry after 120s");
    assert_eq!(wait_text(&e.message()).as_deref(), Some("120"));
}

#[test]
fn a_part_is_retried_within_its_budgets() {
    let mut r = Retry::new(10, 20, 3, 1);
    assert_eq!(r.begin().unwrap(), Some(10));
    r.arrived(10, 4);
    r.arrived(10, 2);
    assert_eq!(r.attempt(), 0);
    assert!(matches!(r.after(AttemptEnd::Stalled, false), RetryNext::Again));
    assert_eq!(r.attempt(), 1);
    assert_eq!(r.begin().unwrap(), Some(14));
    let moved = |loc: &str| {
        AttemptEnd::Failed(FetchError::new(
            ErrorKind::NotConnected,
            format!("redirect:{loc}"),
        ))
    };
    match r.after(moved("ftp://x"), false) {
        RetryNext::Fail(e) => assert_eq!(e.message(), "unusable redirect target: ftp://x"),
        _ => panic!(),
    }
    assert!(matches!(
        r.after(moved("/elsewhere"), false),
        RetryNext::Follow(Retarget::SamePlace { .. })
    ));
    match r.after(moved("/again"), false) {
        RetryNext::Fail(e) => {
            assert_eq!(e.message(), "redirect budget exhausted after 1 hops")
        }
        _ => panic!(),
    }
    let throttled = AttemptEnd::Failed(FetchError::plain(ErrorKind::WouldBlock, "slow"));
    assert!(matches!(r.after(throttled, false), RetryNext::BackOff));
    let e = r.begin().unwrap_err();
    assert_eq!((e.kind, e.message().as_str()), (ErrorKind::TimedOut, "part never completed"));
    r.arrived(14, 6);
    assert_eq!(r.begin().unwrap(), None);
    let mut r = Retry::new(0, 1, 5, 5);
    let broken = AttemptEnd::Failed(FetchError::plain(ErrorKind::InvalidData, "bad"));
    match r.after(broken, false) {
        RetryNext::Fail(e) => assert_eq!(e.message(), "bad"),
        _ => panic!(),
    }
    let reset = AttemptEnd::Failed(FetchError::plain(ErrorKind::Other, "reset"));
    assert!(matches!(r.after(reset, false), RetryNext::Again));
    assert!(matches!(r.after(AttemptEnd::Delivered, false), RetryNext::Done));
    assert_eq!(
        Retry::new(5, 6, 1, 0).backoff_seed(),
        5u64.wrapping_mul(2_654_435_761)
    );
}

#[test]
fn either_reader_takes_chunks_out_as_they_were_sent() {
    let wire = b"5\r\nhello\r\n10\r\n0123456789abcdef\r\n0\r\n\r\n";
    for strict in [true, false] {
        for split in 0..wire.len() {
            let mut d = Deframer::new(strict, &wire[..split]);
            let mut got = d.advance().payload;
            d.feed(&wire[split..]);
            let rest = d.advance();
            assert!(rest.fault.is_none());
            got.extend(rest.payload);
            assert_eq!(got, b"hello0123456789abcdef");
            assert_eq!(d.phase(), Phase::Done);
            assert_eq!(d.pending_len(), 2);
        }
    }
    assert_eq!(dechunk(wire), b"hello0123456789abcdef");
}

#[test]
fn sizes_are_read_in_either_case_and_without_their_extension() {
    let wire = b"A;name=\"v\"\r\n0123456789\r\n00b\r\nabcdefghijk\r\n0;last\r\ntrailer";
    for strict in [true, false] {
        let mut d = Deframer::new(strict, wire);
        let all = d.advance();
        assert!(all.fault.is_none());
        assert_eq!(all.payload, b"0123456789abcdefghijk");
        assert_eq!(d.phase(), Phase::Done);
    }
    assert_eq!(dechunk(wire), b"0123456789abcdefghijk");
}

#[test]
fn a_missing_line_end_is_forgiven_where_asked() {
    let mut d = Deframer::new(false, b"2\r\nab");
    assert_eq!(d.advance().payload, b"ab");
    assert_eq!(d.phase(), Phase::AfterData);
    d.give_up_on_line_end();
    assert_eq!(d.phase(), Phase::Size);
    d.feed(b"1\r\nc");
    assert_eq!(d.advance().payload, b"c");
}
