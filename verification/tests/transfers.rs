use hydra::download::{
    announce, conn_row, finish_file, ftp_end, ftp_probe_failure, ftp_refusal, ftp_start, held_fits,
    link_meta, plan_transfer, ranged_end, sink_failure, streaming_end, ConnMeter, ResolveAction,
    ResolveEvent, Resolver, TransferEnd, TransferPlan,
};
use hydra::engine::{
    download_headers, drm_refusal, emit_interval_ms, ensure_started, file_name_from_url,
    friendly_io, quality_label, rate_of, remote_date, send, set_power_save, should_recreate,
    stream_tick_ms, tick_ms, Cmd, Engine, Event, LiveTable, StartSpec,
};
use hydra::error::ErrorKind;
use hydra::i18n::{available, display_name, merge_catalogue, set_locale, tr, Catalogue};
use hydra::probe::Probe;

fn english() -> Catalogue {
    merge_catalogue(None, None)
}

fn probe() -> Probe {
    Probe {
        size: 100,
        ranges: true,
        validator: Some("\"s\"".to_string()),
        last_modified: None,
        weak_validator: false,
        content_type: None,
        disposition: None,
        status: 200,
        location: None,
        raw_head: String::new(),
        raw_request: String::new(),
    }
}

fn spec() -> StartSpec {
    StartSpec {
        id: 7,
        url: "https://h/a".to_string(),
        auth: None,
        conns: 8,
        user_agent: "ua".to_string(),
        temp_path: "/t/x.part".to_string(),
        final_path: "/d/x".to_string(),
        held: vec![(0, 10), (20, 30)],
        expected_size: None,
        cookies: None,
        limit: None,
        adaptive: false,
        remote_time: false,
    }
}

#[test]
fn a_missing_message_reads_as_itself_and_disk_wins() {
    let c = set_locale(
        "de",
        Some("{\"OK\": \"Gut\", \"Cancel\": \"Abbrechen\"}"),
        Some(b"{\"OK\": \"In Ordnung\", \"New\": \"Neu\"}"),
    );
    assert_eq!(tr(&c, "OK"), "In Ordnung");
    assert_eq!(tr(&c, "Cancel"), "Abbrechen");
    assert_eq!(tr(&c, "New"), "Neu");
    assert_eq!(tr(&c, "Missing"), "Missing");
}

#[test]
fn english_and_broken_catalogues_change_nothing() {
    let some = Some("{\"OK\": \"x\"}");
    assert_eq!(tr(&set_locale("en", some, None), "OK"), "OK");
    assert_eq!(tr(&set_locale("English", some, None), "OK"), "OK");
    assert_eq!(tr(&set_locale("xx", Some("not json"), Some(b"[1]")), "OK"), "OK");
    assert_eq!(tr(&set_locale("xx", Some("{\"OK\": 1}"), None), "OK"), "OK");
    assert_eq!(tr(&set_locale("xx", some, Some(b"broken")), "OK"), "x");
    assert_eq!(tr(&set_locale("xx", None, None), "OK"), "OK");
    // Where a key comes twice in the text, the last one counts.
    assert_eq!(
        tr(&set_locale("xx", Some("{\"a\":\"1\",\"a\":\"2\"}"), None), "a"),
        "2"
    );
}

#[test]
fn languages_on_offer_are_distinct() {
    let files = vec![
        "fa.json".to_string(),
        "eo.json".to_string(),
        "notes.txt".to_string(),
        "eo.json".to_string(),
        ".json".to_string(),
    ];
    let tags = available(&files);
    assert_eq!(tags.len(), 17);
    assert_eq!(tags[0], "ar");
    assert_eq!(tags[14], "zh-Hant");
    assert_eq!(tags[15], "eo");
    assert_eq!(tags[16], "");
    assert_eq!(display_name("fa"), "فارسی");
    assert_eq!(display_name("zh-Hant"), "繁體中文");
    assert_eq!(display_name("de"), "Deutsch");
    assert_eq!(display_name("eo"), "eo");
}

#[test]
fn the_engine_starts_once_and_keeps_the_order_of_commands() {
    let mut e = Engine::new();
    assert!(ensure_started(&mut e));
    assert!(!send(&mut e, Cmd::Stop(1)));
    assert!(!send(&mut e, Cmd::SetLimit(2, None)));
    let cmds = e.take_commands();
    assert!(matches!(cmds[0], Cmd::Stop(1)));
    assert!(matches!(cmds[1], Cmd::SetLimit(2, None)));
    assert!(e.take_commands().is_empty());
    let mut fresh = Engine::new();
    assert!(send(&mut fresh, Cmd::Stop(1)));
}

#[test]
fn power_saving_slows_the_cadence() {
    let mut e = Engine::new();
    assert_eq!((emit_interval_ms(&e), tick_ms(&e), stream_tick_ms(&e)), (100, 20, 100));
    set_power_save(&mut e, true);
    assert_eq!((emit_interval_ms(&e), tick_ms(&e), stream_tick_ms(&e)), (500, 80, 400));
}

#[test]
fn a_finished_transfer_evicts_only_its_own_entry() {
    let mut live: LiveTable<&str> = LiveTable::new();
    assert!(live.can_start());
    let first = live.start(5, "first");
    assert_eq!(live.stop(5), Some("first"));
    let second = live.start(5, "second");
    assert_ne!(first, second);
    live.done(5, first);
    assert_eq!(live.get(5), Some(&"second"));
    live.done(5, second);
    assert_eq!(live.get(5), None);
    assert_eq!(live.stop(5), None);
}

#[test]
fn refused_access_is_explained() {
    let c = english();
    assert_eq!(friendly_io(&c, ErrorKind::Other, "disk full", "/x"), "disk full");
    let s = friendly_io(&c, ErrorKind::PermissionDenied, "os error 13", "/x");
    assert!(s.starts_with("Access to the download folder was denied."));
    assert!(s.ends_with("or choose another folder. (/x)"));
}

#[test]
fn a_file_name_comes_from_the_path() {
    assert_eq!(file_name_from_url(Some("/a/b%20c.bin")), "b c.bin");
    assert_eq!(file_name_from_url(Some("/a/b.zip?x=1/2")), "b.zip");
    assert_eq!(file_name_from_url(Some("/")), "index.html");
    assert_eq!(file_name_from_url(None), "index.html");
}

#[test]
fn a_download_carries_its_login_and_cookies() {
    let mut s = spec();
    assert!(download_headers(&s).is_empty());
    s.auth = Some(("user".to_string(), "pass".to_string()));
    s.cookies = Some("  a=b ".to_string());
    assert_eq!(
        download_headers(&s),
        vec!["Authorization: Basic dXNlcjpwYXNz", "Cookie: a=b"]
    );
    s.cookies = Some("   ".to_string());
    assert_eq!(download_headers(&s).len(), 1);
}

/// Seconds since the epoch of a date as HTTP writes it.
fn http_date(text: &str) -> Option<u64> {
    let parts: Vec<&str> = text.split(' ').collect();
    let [_, day, month, year, clock, "GMT"] = parts.as_slice() else {
        return None;
    };
    let months = [
        "Jan", "Feb", "Mar", "Apr", "May", "Jun", "Jul", "Aug", "Sep", "Oct", "Nov", "Dec",
    ];
    let m = months.iter().position(|x| x == month)? as u64 + 1;
    let (d, y): (u64, u64) = (day.parse().ok()?, year.parse().ok()?);
    let t: Vec<u64> = clock.split(':').filter_map(|x| x.parse().ok()).collect();
    // The year is counted from March, so that the leap day comes last.
    let (y, m) = if m > 2 { (y, m - 3) } else { (y - 1, m + 9) };
    let days = 365 * y + y / 4 - y / 100 + y / 400 + (153 * m + 2) / 5 + d - 1 - 719_468;
    Some(days * 86_400 + t[0] * 3600 + t[1] * 60 + t[2])
}

fn remote_stamp(p: &Probe) -> Option<u64> {
    remote_date(p).and_then(http_date)
}

#[test]
fn remote_stamp_survives_an_etag() {
    let p = Probe {
        validator: Some("\"abc123\"".into()),
        last_modified: Some("Wed, 21 Oct 2015 07:28:00 GMT".into()),
        ..Default::default()
    };
    assert_eq!(remote_date(&p), Some("Wed, 21 Oct 2015 07:28:00 GMT"));
    assert_eq!(remote_stamp(&p), Some(1_445_412_480));
}

/// Only a date: the validator is the `Last-Modified`.
#[test]
fn remote_stamp_falls_back_to_a_date_form_validator() {
    let p = Probe {
        validator: Some("Wed, 21 Oct 2015 07:28:00 GMT".into()),
        ..Default::default()
    };
    assert_eq!(remote_date(&p), Some("Wed, 21 Oct 2015 07:28:00 GMT"));
    assert_eq!(remote_stamp(&p), Some(1_445_412_480));
}

/// An ETag is opaque: no date, and none invented.
#[test]
fn remote_stamp_is_none_without_a_date() {
    let p = Probe {
        validator: Some("\"abc123\"".into()),
        ..Default::default()
    };
    assert_eq!(remote_date(&p), Some("\"abc123\""));
    assert_eq!(remote_stamp(&p), None);
    assert_eq!(remote_date(&Probe::default()), None);
    assert_eq!(remote_stamp(&Probe::default()), None);
}

#[test]
fn protected_streams_are_refused_by_name() {
    assert_eq!(
        drm_refusal(&english(), "Widevine"),
        "Widevine DRM: this stream is protected. Hydra does not bypass the technical measures that protect audio and video content, so it cannot be downloaded."
    );
}

#[test]
fn renditions_are_labelled() {
    let c = english();
    assert_eq!(quality_label(&c, Some(720), Some(2_500_999)), "720p HD  (2500 kbps)");
    assert_eq!(quality_label(&c, Some(719), None), "719p");
    assert_eq!(quality_label(&c, None, Some(0)), "auto");
}

fn failure(e: &Event) -> (u64, &str, u64, &[(u64, u64)], bool) {
    match e {
        Event::Failed {
            id,
            error,
            done,
            held,
            permission_denied,
        } => (*id, error, *done, held, *permission_denied),
        other => panic!("{other:?}"),
    }
}

#[test]
fn redirects_are_followed_until_the_object_is_found() {
    let c = english();
    let s = spec();
    let mut r = Resolver::new("u0");
    assert_eq!(r.next(), Some("u0"));
    let mut moved = probe();
    moved.status = 302;
    moved.location = Some("/there".to_string());
    match r.advance(&c, &s, ResolveEvent::Answer(moved), 1000, false) {
        ResolveAction::Join(loc) => assert_eq!(loc, "/there"),
        _ => panic!(),
    }
    let joined = |url: Option<&str>| ResolveEvent::Joined {
        location: "/there".to_string(),
        url: url.map(|u| u.to_string()),
    };
    match r.advance(&c, &s, joined(Some("u1")), 1000, false) {
        ResolveAction::Ask(u) => assert_eq!(u, "u1"),
        _ => panic!(),
    }
    let mut page = probe();
    page.content_type = Some("text/html".to_string());
    assert!(matches!(
        r.advance(&c, &s, ResolveEvent::Answer(page.clone()), 1000, false),
        ResolveAction::TryPage(_)
    ));
    assert!(matches!(
        r.advance(
            &c,
            &s,
            ResolveEvent::Page {
                probe: page.clone(),
                url: None
            },
            1000,
            true
        ),
        ResolveAction::Settle(_)
    ));
    assert!(matches!(
        r.advance(
            &c,
            &s,
            ResolveEvent::Page {
                probe: page,
                url: Some("u2".to_string())
            },
            1000,
            false
        ),
        ResolveAction::Ask(_)
    ));
    assert!(matches!(
        r.advance(&c, &s, ResolveEvent::Answer(probe()), 1000, true),
        ResolveAction::Settle(_)
    ));
    match r.advance(&c, &s, joined(None), 1000, false) {
        ResolveAction::Report(e) => assert_eq!(
            failure(&e),
            (7, "Unusable redirect: /there", 0, s.held.as_slice(), false)
        ),
        _ => panic!(),
    }
    match r.advance(&c, &s, joined(Some("u3")), 1000, true) {
        ResolveAction::Report(Event::Stopped { id, done, held }) => {
            assert_eq!((id, done, held), (7, 0, s.held.clone()))
        }
        _ => panic!(),
    }
    match r.advance(&c, &s, ResolveEvent::Unanswered("down".to_string()), 1000, false) {
        ResolveAction::Report(e) => assert_eq!(failure(&e).1, "down"),
        _ => panic!(),
    }
}

#[test]
fn a_loop_of_redirects_ends() {
    let c = english();
    let s = spec();
    let mut r = Resolver::new("u");
    for hop in 1..=10 {
        let step = r.advance(
            &c,
            &s,
            ResolveEvent::Joined {
                location: "/u".to_string(),
                url: Some("u".to_string()),
            },
            0,
            false,
        );
        if hop < 10 {
            assert!(matches!(step, ResolveAction::Ask(_)));
        } else {
            match step {
                ResolveAction::Report(e) => assert_eq!(failure(&e).1, "Too many redirects"),
                _ => panic!(),
            }
            assert_eq!(r.next(), None);
        }
    }
}

#[test]
fn a_link_is_described_unless_it_is_an_error() {
    let m = link_meta(&probe(), Some("n".to_string()), "u".to_string()).unwrap();
    assert_eq!((m.size, m.file_name.as_str()), (Some(100), "n"));
    let mut p = probe();
    p.size = 0;
    let m = link_meta(&p, None, "u".to_string()).unwrap();
    assert_eq!((m.size, m.file_name.as_str()), (None, "u"));
    p.status = 404;
    assert!(link_meta(&p, None, "u".to_string()).is_none());
    match announce(7, &probe(), None, "u".to_string()) {
        Event::Probed {
            id,
            size,
            ranges,
            file_name,
        } => assert_eq!(
            (id, size, ranges, file_name.as_deref()),
            (7, Some(100), true, Some("u"))
        ),
        _ => panic!(),
    }
    match announce(7, &p, None, String::new()) {
        Event::Probed { size, file_name, .. } => assert_eq!((size, file_name), (None, None)),
        _ => panic!(),
    }
}

#[test]
fn a_transfer_is_planned_from_its_probe() {
    let ranged = |s: &StartSpec, p: &Probe| {
        assert!(held_fits(s, p.size));
        match plan_transfer(s, p) {
            TransferPlan::Ranged(plan) => plan,
            TransferPlan::Streaming => panic!("must be ranged"),
        }
    };
    let plan = ranged(&spec(), &probe());
    assert_eq!((plan.size, plan.conns, plan.already), (100, 8, 20));
    assert!(plan.strong_validator && !plan.start_single);
    assert_eq!(plan.spans, vec![(0, 10), (20, 30)]);
    let mut s = spec();
    s.conns = 99;
    s.adaptive = true;
    s.held = vec![(90, 200), (5, 5), (150, 160)];
    let mut p = probe();
    p.weak_validator = true;
    let plan = ranged(&s, &p);
    assert_eq!((plan.conns, plan.already), (32, 10));
    assert!(plan.start_single && !plan.strong_validator);
    assert_eq!(plan.spans, vec![(90, 100)]);
    // Another size is another object: nothing is spliced.
    s.expected_size = Some(99);
    s.conns = 0;
    let plan = ranged(&s, &p);
    assert_eq!((plan.conns, plan.already, plan.spans.len()), (1, 0, 0));
    assert!(!plan.start_single);
    p.ranges = false;
    assert!(matches!(plan_transfer(&s, &p), TransferPlan::Streaming));
    p.ranges = true;
    p.status = 404;
    assert!(matches!(plan_transfer(&s, &p), TransferPlan::Streaming));
    // Spans that overlap without end cannot be counted.
    let mut odd = spec();
    odd.held = vec![(0, u64::MAX), (0, u64::MAX)];
    assert!(!held_fits(&odd, u64::MAX));
}

#[test]
fn connections_are_counted_by_their_positions() {
    let mut m = ConnMeter::new();
    assert!(m.can_sight(10, 15));
    m.sight(10, 15);
    m.sight(10, 15);
    m.sight(10, 20);
    assert_eq!(m.downloaded(), 10);
    m.sight(50, 53);
    assert_eq!(m.downloaded(), 13);
    // The range was given anew from an earlier place.
    m.sight(50, 51);
    assert_eq!(m.downloaded(), 14);
    m.sight(60, 60);
    assert_eq!(m.downloaded(), 14);
    let c = english();
    assert_eq!(conn_row(&c, 1, false, 2, 8, false).info, "Waiting (connection limit)...");
    assert_eq!(conn_row(&c, 1, false, 8, 8, false).info, "Disconnect.");
    assert_eq!(conn_row(&c, 1, true, 8, 8, true).info, "Receiving data...");
    assert_eq!(conn_row(&c, 1, true, 8, 8, false).info, "Send GET...");
}

fn failed(kind: ErrorKind) -> TransferEnd {
    TransferEnd::Failed {
        kind,
        text: "boom".to_string(),
    }
}

#[test]
fn the_end_of_a_transfer_is_reported() {
    let c = english();
    let s = spec();
    assert!(ranged_end(&c, &s, TransferEnd::Complete, 1, vec![]).is_none());
    match ranged_end(&c, &s, TransferEnd::Interrupted, 5, vec![(0, 5)]) {
        Some(Event::Stopped { id, done, held }) => assert_eq!((id, done, held), (7, 5, vec![(0, 5)])),
        _ => panic!(),
    }
    let e = ranged_end(&c, &s, failed(ErrorKind::Other), 5, vec![(0, 5)]).unwrap();
    assert_eq!(failure(&e), (7, "boom", 5, [(0u64, 5u64)].as_slice(), false));
    let e = ranged_end(&c, &s, failed(ErrorKind::PermissionDenied), 5, vec![]).unwrap();
    assert!(failure(&e).1.ends_with("(/d/x)"));
    assert!(failure(&e).4);
    let e = streaming_end(&c, &s, failed(ErrorKind::PermissionDenied), 3).unwrap();
    assert!(failure(&e).1.ends_with("(/t/x.part)"));
    assert_eq!(failure(&e).3.len(), 0);
    assert!(matches!(
        streaming_end(&c, &s, TransferEnd::Interrupted, 3),
        Some(Event::Stopped { done: 3, .. })
    ));
    let e = sink_failure(&c, &s, ErrorKind::Other, "full", 20);
    assert_eq!(failure(&e), (7, "full", 20, s.held.as_slice(), false));
    assert!(matches!(
        finish_file(&c, 7, 100, Ok(()), "/d/x"),
        Event::Finished { id: 7, size: 100 }
    ));
    let e = finish_file(&c, 7, 100, Err((ErrorKind::Other, "no".to_string())), "/d/x");
    assert_eq!(failure(&e), (7, "no", 100, [(0u64, 100u64)].as_slice(), false));
}

#[test]
fn ftp_resumes_from_the_start_of_the_file_only() {
    assert_eq!(ftp_start(true, &vec![(5, 9), (0, 40), (0, 50)], Some(100), 100), 40);
    assert_eq!(ftp_start(true, &vec![(0, 40)], None, 100), 40);
    assert_eq!(ftp_start(true, &vec![(0, 400)], None, 100), 100);
    assert_eq!(ftp_start(false, &vec![(0, 40)], Some(100), 100), 0);
    assert_eq!(ftp_start(true, &vec![(1, 40)], Some(100), 100), 0);
    // Another size is another object: nothing of it is held.
    assert_eq!(ftp_start(true, &vec![(0, 40)], Some(99), 100), 0);
    let c = english();
    let s = spec();
    assert!(ftp_refusal(&c, &s, 1).is_none());
    let e = ftp_refusal(&c, &s, 0).unwrap();
    assert_eq!(
        failure(&e),
        (7, "The FTP server did not report a file size", 0, [].as_slice(), false)
    );
    let e = ftp_probe_failure(&s, "x");
    assert_eq!(failure(&e), (7, "ftp: x", 0, s.held.as_slice(), false));
    let e = ftp_end(&s, failed(ErrorKind::PermissionDenied), 9).unwrap();
    assert_eq!(failure(&e), (7, "ftp: boom", 9, [(0u64, 9u64)].as_slice(), false));
    assert!(matches!(
        ftp_end(&s, TransferEnd::Interrupted, 9),
        Some(Event::Stopped { done: 9, .. })
    ));
    assert!(ftp_end(&s, TransferEnd::Complete, 9).is_none());
}

#[test]
fn no_limit_is_a_rate_of_zero() {
    assert_eq!(rate_of(None), 0);
    assert_eq!(rate_of(Some(4096)), 4096);
}

#[test]
fn only_an_empty_directory_without_access_is_made_anew() {
    let denied = Some(ErrorKind::PermissionDenied);
    assert!(should_recreate(denied, true));
    assert!(!should_recreate(denied, false));
    assert!(!should_recreate(Some(ErrorKind::Other), true));
    assert!(!should_recreate(None, true));
}
