use hydra::download::TransferEnd;
use hydra::engine::{Event, StreamProbe, StreamQuality};
use hydra::error::{ErrorKind, FetchError};
use hydra::i18n::{merge_catalogue, Catalogue};
use hydra::record::{
    check_playlist, init_failure, init_path, part_path, pick_renditions, segment_path,
    staging_path, stream_failure, PassNext, RecordEnd, Recorder, SegmentEnd, SegmentNext,
};
use hydra::stream::{
    announce_estimate, announce_projection, assemble, dash_route, finish_shape, flight_row,
    follow_variant, hls_route, hop_from, job_for, key_failure, lane_row, mux_failure,
    native_extension, probe_of_dash, probe_of_hls, read_failure, redirect_target, sample_variant,
    segment_headers, status_line, stream_finished, tell_address, tell_manifest, too_many_hops,
    track_end, wanted_extension, wrap_failure, Assembling, Assembly, AssemblyStep, Checkpoint,
    FinishShape, LaneState, ManifestFetch, ManifestNext, MediaFacts, Protocol, Reading, Rendition,
    Route, Segment, SegmentFetch, TrackPlan, Variant,
};
use hydra::windows::{
    address_notice, batch_category, batch_name, batch_source, file_form, file_title,
    remember_label, save_mode, save_to, size_line, stream_section, streams_row, SaveMode,
    StreamSection,
};

fn english() -> Catalogue {
    merge_catalogue(None, None)
}

fn track(keys: &[&str]) -> TrackPlan {
    TrackPlan {
        segments: 3,
        estimated: Some(1000),
        key_uris: keys.iter().map(|k| k.to_string()).collect(),
        is_ts: true,
    }
}

#[test]
fn a_url_that_is_not_a_manifest_says_so_instead_of_guessing() {
    let e = tell_manifest(b"<html>login</html>", "http://h/x.m3u8").unwrap_err();
    assert_eq!(
        e,
        "http://h/x.m3u8 is not an HLS or DASH manifest (the server returned 18 bytes of something else)"
    );
    assert_eq!(tell_manifest(b"\n #EXTM3U\n", "u").unwrap(), Protocol::Hls);
    assert_eq!(tell_manifest(b"<?xml?><MPD x>", "u").unwrap(), Protocol::Dash);
    // The dialog looks for the root element first.
    let both = b"#EXTM3U\n# <MPD";
    assert_eq!(tell_manifest(both, "u").unwrap(), Protocol::Hls);
    assert_eq!(tell_address(both).unwrap(), Protocol::Dash);
    assert_eq!(tell_address(b"#EXTM3U").unwrap(), Protocol::Hls);
    assert_eq!(
        tell_address(b"x").unwrap_err(),
        "this URL is not an HLS or DASH manifest"
    );
}

fn refused(r: Route) -> String {
    match r {
        Route::Fail(e) => e,
        _ => panic!("must be refused"),
    }
}

#[test]
fn an_encrypted_live_playlist_is_refused_not_recorded_as_ciphertext() {
    let c = english();
    assert_eq!(
        refused(hls_route(&c, true, None, Some("AES-128"))),
        "recording AES-128 live streams is not supported yet"
    );
    assert_eq!(
        check_playlist(&c, None, Some("AES-128")).unwrap_err(),
        "AES-128 encrypted streams are not supported yet"
    );
    assert!(check_playlist(&c, None, None).is_ok());
    assert!(matches!(hls_route(&c, false, None, Some("AES-128")), Route::Assemble));
    assert!(matches!(hls_route(&c, true, None, None), Route::Record));
}

#[test]
fn a_drm_live_playlist_is_refused_before_the_primed_window_is_used() {
    let c = english();
    assert!(refused(hls_route(&c, true, Some("FairPlay"), Some("AES-128")))
        .starts_with("FairPlay DRM: this stream is protected."));
    assert!(refused(dash_route(&c, true, true, Some("Widevine"))).starts_with("Widevine DRM: "));
    assert_eq!(
        refused(dash_route(&c, false, true, None)),
        "the manifest lists no video renditions"
    );
    assert!(matches!(dash_route(&c, true, true, None), Route::Record));
    assert!(matches!(dash_route(&c, true, false, Some("Widevine")), Route::Assemble));
    assert!(check_playlist(&c, Some("X"), None).unwrap_err().starts_with("X DRM: "));
}

#[test]
fn a_master_playlist_leads_to_its_variant() {
    let v = Variant {
        url: "http://h/v".to_string(),
        height: Some(720),
        bandwidth: Some(5),
    };
    assert_eq!(
        follow_variant(None, Some(&v)).unwrap(),
        ("http://h/v".to_string(), Some(5))
    );
    assert_eq!(follow_variant(Some(9), Some(&v)).unwrap().1, Some(9));
    assert_eq!(
        follow_variant(None, None).unwrap_err(),
        "the master playlist lists no variants"
    );
}

#[test]
fn dash_audio_is_fetched_alongside_video_rather_than_dropped() {
    let a = assemble(Ok(track(&[])), Some(Ok(track(&[])))).unwrap();
    assert!(a.fits());
    assert_eq!((a.segments(), a.estimated()), (6, 2000));
    assert_eq!(finish_shape(&a, 2).unwrap(), FinishShape::Mux);
    assert_eq!(finish_shape(&a, 1).unwrap_err(), "nothing was assembled");
    // Audio that cannot be planned is not a reason to lose the video.
    let v = assemble(Ok(track(&[])), Some(Err("no".to_string()))).unwrap();
    assert!(matches!(v, Assembly::Single(_)));
    assert_eq!(finish_shape(&v, 1).unwrap(), FinishShape::Wrap);
    assert_eq!(
        assemble(Err("drm".to_string()), None).unwrap_err(),
        "drm"
    );
    let mut quiet = track(&[]);
    quiet.estimated = None;
    let q = assemble(Ok(quiet), None).unwrap();
    assert_eq!(q.estimated(), 0);
    let huge = || {
        let mut t = track(&[]);
        t.segments = u64::MAX;
        t
    };
    assert!(!Assembly::VideoAudio(huge(), huge()).fits());
}

#[test]
fn an_aes_128_playlist_is_fetched_keyed_and_decrypted() {
    let mut a = Assembling::new(Assembly::VideoAudio(
        track(&["k1", "k1", "k2"]),
        track(&["k2", "k3"]),
    ));
    for uri in ["k1", "k2", "k3"] {
        match a.next() {
            AssemblyStep::Key(u) => assert_eq!(u, uri),
            _ => panic!("no track before every key is there"),
        }
        a.key_arrived(uri.to_string(), vec![7; 16]).unwrap();
    }
    assert_eq!(a.key("k2").map(|k| k.len()), Some(16));
    assert_eq!(a.key("k4"), None);
    assert!(matches!(a.next(), AssemblyStep::Track(0)));
    a.track_arrived();
    assert!(matches!(a.next(), AssemblyStep::Track(1)));
    a.track_arrived();
    assert!(matches!(a.next(), AssemblyStep::Finish));
    assert_eq!(a.shape(2).unwrap(), FinishShape::Mux);
    assert_eq!(a.shape(1).unwrap_err(), "nothing was assembled");
}

#[test]
fn a_key_that_cannot_be_fetched_fails_before_anything_is_written() {
    let mut a = Assembling::new(Assembly::Single(track(&["k"])));
    assert_eq!(
        a.key_arrived("k".to_string(), vec![0; 3]).unwrap_err(),
        "the AES-128 key at k is 3 bytes, not 16"
    );
    assert!(matches!(a.next(), AssemblyStep::Key(_)));
    assert_eq!(key_failure("k", "403"), "could not fetch the AES-128 key k: 403");
}

#[test]
fn a_paused_stream_carries_on_instead_of_refetching() {
    let saved = Checkpoint {
        segments: 4,
        bytes: 400,
    };
    let j = job_for("/t/x", 1, saved, true);
    assert_eq!(
        (j.part.as_str(), j.staging.as_str(), j.checkpoint.as_str()),
        ("/t/x.t1", "/t/x.s1", "/t/x.t1.ck")
    );
    assert_eq!(j.resumed, saved);
    assert!(!j.start_clean);
    // Of nine segments the four that are there are not asked for again.
    let mut plan = track(&[]);
    plan.segments = 9;
    assert_eq!(j.places(&plan), (4, 9));
    let pieces = ["a", "bc", "", "def", "g", "h", "ij", "k", "l"];
    let asked = |(first, end): (u64, u64)| pieces[first as usize..end as usize].concat();
    assert_eq!(pieces[..4].concat() + &asked(j.places(&plan)), pieces.concat());
    plan.segments = 4;
    assert_eq!(j.places(&plan), (4, 4));
    plan.segments = 3;
    assert_eq!(j.places(&plan), (3, 3));
    let j = job_for("/t/x", 0, saved, false);
    assert_eq!(j.resumed.segments, 0);
    assert!(j.start_clean);
    plan.segments = 9;
    assert_eq!(j.places(&plan), (0, 9));
    assert_eq!(asked(j.places(&plan)), pieces.concat());
    match track_end(3, TransferEnd::Interrupted, 400) {
        Some(Event::Stopped { id, done, held }) => {
            assert_eq!((id, done, held), (3, 400, vec![(0, 400)]))
        }
        _ => panic!(),
    }
}

#[test]
fn a_missing_segment_fails_the_transfer_rather_than_leaving_a_hole() {
    let end = TransferEnd::Failed {
        kind: ErrorKind::Other,
        text: "404".to_string(),
    };
    match track_end(3, end, 400) {
        Some(Event::Failed {
            error, done, held, ..
        }) => assert_eq!((error.as_str(), done, held.len()), ("segment download failed: 404", 0, 0)),
        _ => panic!(),
    }
    assert!(track_end(3, TransferEnd::Complete, 0).is_none());
}

#[test]
fn a_live_window_is_taken_once_and_in_order() {
    let mut r = Recorder::new(2);
    assert_eq!(r.track_count(), 2);
    let plan = r.plan_window(0, true, &vec![10, 11, 12]);
    assert_eq!(plan.wanted, vec![0, 1, 2]);
    assert!(plan.gaps.is_empty());
    // The same window again brings nothing.
    assert!(r.plan_window(0, true, &vec![10, 11, 12]).wanted.is_empty());
    // It slid past two numbers.
    let plan = r.plan_window(0, false, &vec![12, 15, 16]);
    assert_eq!(plan.wanted, vec![1, 2]);
    assert_eq!(plan.gaps, vec![(13, 14)]);
    assert!(!r.is_ts(0));
    // Each track counts for itself.
    assert_eq!(r.plan_window(1, true, &vec![10]).wanted, vec![0]);
}

#[test]
fn a_restarted_sequence_is_recorded_on() {
    let mut r = Recorder::new(1);
    r.plan_window(0, true, &vec![1000]);
    // A stale republish is not a restart.
    assert!(r.plan_window(0, true, &vec![936]).wanted.is_empty());
    let plan = r.plan_window(0, true, &vec![935, 936]);
    assert_eq!(plan.wanted, vec![0, 1]);
    assert!(plan.gaps.is_empty());
}

#[test]
fn the_init_segment_comes_first_and_once() {
    let mut r = Recorder::new(1);
    assert!(r.wants_init(0));
    r.init_placed(0);
    assert!(!r.wants_init(0));
    assert_eq!(init_failure("x"), "could not place the init segment: x");
}

#[test]
fn a_live_hls_playlist_is_recorded_until_it_ends() {
    // The window slides: each refresh drops one segment and adds one.
    let windows = [
        (vec![100u64, 101], ["AAAA", "BBBB"], false),
        (vec![101, 102], ["BBBB", "CCCC"], false),
        (vec![102, 103], ["CCCC", "DDDD"], true),
    ];
    let mut r = Recorder::new(1);
    let mut file = String::new();
    for (seqs, bodies, ended) in windows {
        let plan = r.plan_window(0, true, &seqs);
        assert!(plan.gaps.is_empty());
        for k in plan.wanted {
            file.push_str(bodies[k]);
            assert_eq!(
                r.segment_over(SegmentEnd::Fetched { appended: true }),
                SegmentNext::Settled
            );
        }
        match r.pass_over(false, ended, false, false) {
            PassNext::Wait => assert!(!ended),
            PassNext::Stop => assert!(ended),
            PassNext::Fail(e) => panic!("{e}"),
        }
    }
    assert_eq!(file, "AAAABBBBCCCCDDDD");
    assert_eq!(r.segments(), 4);
    assert!(matches!(r.end(), RecordEnd::Finalise));
}

#[test]
fn a_lost_segment_does_not_end_a_recording() {
    let mut r = Recorder::new(1);
    assert_eq!(
        r.segment_over(SegmentEnd::Fetched { appended: true }),
        SegmentNext::Settled
    );
    assert_eq!(
        r.segment_over(SegmentEnd::Fetched { appended: false }),
        SegmentNext::Lost
    );
    assert_eq!(
        r.segment_over(SegmentEnd::Failed(ErrorKind::TimedOut)),
        SegmentNext::Lost
    );
    assert_eq!(r.segments(), 1);
    assert!(matches!(r.pass_over(false, false, false, false), PassNext::Wait));
    assert!(matches!(r.pass_over(false, true, false, false), PassNext::Stop));
    assert!(matches!(r.end(), RecordEnd::Finalise));
}

#[test]
fn stopping_a_recording_keeps_what_was_recorded() {
    let mut r = Recorder::new(1);
    r.segment_over(SegmentEnd::Fetched { appended: true });
    assert_eq!(
        r.segment_over(SegmentEnd::Failed(ErrorKind::Interrupted)),
        SegmentNext::Stop
    );
    assert!(matches!(r.pass_over(false, false, true, false), PassNext::Stop));
    assert!(matches!(r.end(), RecordEnd::Finalise));
    // A manifest that can no longer be read does not cost the recording.
    assert!(matches!(r.refresh_failed("x".to_string()), RecordEnd::Finalise));
}

#[test]
fn an_origin_that_publishes_nothing_is_given_up() {
    let mut r = Recorder::new(1);
    assert!(matches!(r.pass_over(false, false, false, false), PassNext::Wait));
    assert!(matches!(r.pass_over(false, false, false, false), PassNext::Wait));
    match r.pass_over(false, false, true, false) {
        PassNext::Fail(e) => assert_eq!(
            e,
            "the manifest published no segments; nothing to record"
        ),
        _ => panic!(),
    }
    match r.end() {
        RecordEnd::Fail(e) => assert_eq!(e, "the stream produced no segments"),
        _ => panic!(),
    }
    match r.refresh_failed("gone".to_string()) {
        RecordEnd::Fail(e) => assert_eq!(e, "gone"),
        _ => panic!(),
    }
    match stream_failure(4, "e".to_string()) {
        Event::Failed { id, error, .. } => assert_eq!((id, error.as_str()), (4, "e")),
        _ => panic!(),
    }
}

#[test]
fn renditions_are_pinned_by_their_identity() {
    let c = english();
    let ids = |v: &[&str]| v.iter().map(|s| s.to_string()).collect::<Vec<_>>();
    let (video, audio) = (ids(&["v1", "v2", "v2"]), ids(&["a1"]));
    assert_eq!(
        pick_renditions(&c, None, &video, &audio, "v2", Some("a1")).unwrap(),
        (1, Some(0))
    );
    assert_eq!(
        pick_renditions(&c, None, &video, &audio, "v1", None).unwrap(),
        (0, None)
    );
    assert_eq!(
        pick_renditions(&c, None, &video, &audio, "v9", Some("a9")).unwrap_err(),
        "the manifest no longer offers that video rendition"
    );
    assert_eq!(
        pick_renditions(&c, None, &video, &audio, "v1", Some("a9")).unwrap_err(),
        "the manifest no longer offers that audio rendition"
    );
    assert!(pick_renditions(&c, Some("D"), &video, &audio, "v1", None)
        .unwrap_err()
        .starts_with("D DRM: "));
}

#[test]
fn staging_names_are_distinct() {
    assert_eq!(part_path("/t", 0), "/t.t0");
    assert_eq!(init_path("/t", 1), "/t.i1");
    assert_eq!(staging_path("/t", 2), "/t.s2");
    assert_eq!(segment_path("/t", 1, 23), "/t.s1.23");
}

#[test]
fn containers_and_their_failures() {
    assert_eq!(wanted_extension("Ts"), "ts");
    assert_eq!(wanted_extension("MP4"), "mp4");
    assert_eq!(native_extension(true), "ts");
    assert_eq!(native_extension(false), "mp4");
    assert_eq!(
        mux_failure("e", "v", "a"),
        "e (video saved as v, audio as a)"
    );
    assert_eq!(wrap_failure("e", true, "k"), "e (the recording was saved as k)");
    assert_eq!(wrap_failure("e", false, "k"), "e (the stream was saved as k)");
    let (size, end) = stream_finished(9, 5);
    assert!(matches!(size, Event::Probed { id: 9, size: Some(5), ranges: false, file_name: None }));
    assert!(matches!(end, Event::Finished { id: 9, size: 5 }));
    assert!(matches!(announce_estimate(9, 0), Event::Probed { size: None, .. }));
    assert!(matches!(announce_estimate(9, 8), Event::Probed { size: Some(8), .. }));
}

#[test]
fn a_redirected_segment_is_the_same_segment() {
    let seg = Segment {
        url: "http://a/x".to_string(),
        range: Some("bytes=0-9".to_string()),
        key_uri: Some("k".to_string()),
    };
    assert_eq!(
        segment_headers(&seg, Some("c=1"), Some("http://r/")),
        vec!["Cookie: c=1", "Referer: http://r/", "Range: bytes=0-9"]
    );
    assert_eq!(segment_headers(&seg, Some(""), None), vec!["Range: bytes=0-9"]);
    let next = redirect_target(seg, "http://b/y".to_string());
    assert_eq!(next.url, "http://b/y");
    assert_eq!(next.range.as_deref(), Some("bytes=0-9"));
    assert_eq!(next.key_uri.as_deref(), Some("k"));
    let e = FetchError::redirect(302, "/z".to_string());
    assert_eq!(hop_from(&e, 4), Some("/z"));
    assert_eq!(hop_from(&e, 5), None);
    assert_eq!(hop_from(&FetchError::plain(ErrorKind::Other, "x"), 0), None);
    assert_eq!(too_many_hops().message(), "too many redirects");
}

#[test]
fn a_manifest_is_read_where_it_landed() {
    let e = FetchError::redirect(302, "/z".to_string());
    let plain = FetchError::plain(ErrorKind::Other, "x");
    let mut way = ManifestFetch::new("http://a/m.m3u8");
    assert_eq!(way.landed(), "http://a/m.m3u8");
    for hops in 0..5 {
        assert!(matches!(way.failed(&plain), ManifestNext::PassOn));
        match way.failed(&e) {
            ManifestNext::Hop(location) => assert_eq!(location, "/z"),
            _ => panic!("{hops} hops are within the budget"),
        }
        way.follow(format!("http://edge{hops}/m.m3u8"));
        assert_eq!(way.landed(), format!("http://edge{hops}/m.m3u8"));
    }
    match way.failed(&e) {
        ManifestNext::Fail(e) => {
            assert_eq!((e.kind, e.message().as_str()), (ErrorKind::Other, "too many redirects"))
        }
        _ => panic!(),
    }
    assert!(matches!(way.failed(&plain), ManifestNext::PassOn));
}

#[test]
fn a_segment_keeps_its_slice_on_every_hop() {
    let e = FetchError::redirect(302, "/z".to_string());
    let mut way = SegmentFetch::new(Segment {
        url: "http://a/x".to_string(),
        range: Some("bytes=0-9".to_string()),
        key_uri: Some("k".to_string()),
    });
    for hops in 0..5 {
        assert_eq!(way.failed(&e), Some("/z"));
        way = way.follow(format!("http://edge{hops}/x"));
        assert_eq!(way.wanted().url, format!("http://edge{hops}/x"));
        assert_eq!(way.wanted().range.as_deref(), Some("bytes=0-9"));
        assert_eq!(way.wanted().key_uri.as_deref(), Some("k"));
    }
    assert_eq!(way.failed(&e), None);
}

#[test]
fn a_recording_of_two_tracks_is_combined() {
    assert_eq!(Recorder::new(1).shape(), FinishShape::Wrap);
    assert_eq!(Recorder::new(2).shape(), FinishShape::Mux);
}

#[test]
fn nothing_is_known_of_a_stream_at_first() {
    let p = StreamProbe::default();
    assert!(p.protocol.is_empty() && p.qualities.is_empty());
    assert!(p.duration_secs.is_none() && p.drm.is_none());
    assert!(!p.live && !p.separate_audio && !p.is_ts);
    let q = StreamQuality::default();
    assert!(q.label.is_empty() && q.height.is_none());
    assert!(q.bandwidth.is_none() && q.url.is_none());
}

#[test]
fn a_manifest_says_what_it_offers() {
    let c = english();
    let video = vec![Rendition {
        height: Some(1080),
        bandwidth: Some(3000),
    }];
    let p = probe_of_dash(&c, &video, true, Some(60), true, None).unwrap();
    assert_eq!(
        (p.protocol.as_str(), p.live, p.duration_secs, p.separate_audio, p.is_ts),
        ("dash", true, Some(60), true, false)
    );
    assert_eq!(p.qualities[0].label, "1080p HD  (3 kbps)");
    assert_eq!(
        probe_of_dash(&c, &vec![], false, None, false, None).unwrap_err(),
        "the manifest lists no video renditions"
    );
    let variants = vec![
        Variant { url: "a".to_string(), height: Some(720), bandwidth: None },
        Variant { url: "b".to_string(), height: None, bandwidth: None },
    ];
    assert_eq!(sample_variant(&variants), Some("b"));
    assert_eq!(sample_variant(&vec![]), None);
    let top = MediaFacts { live: true, is_ts: None };
    let sample = MediaFacts { live: false, is_ts: Some(true) };
    let p = probe_of_hls(&c, true, top, &variants, Some(sample), None, None);
    assert_eq!((p.live, p.is_ts, p.qualities.len()), (false, true, 2));
    assert_eq!(p.qualities[0].url.as_deref(), Some("a"));
    let p = probe_of_hls(&c, true, top, &variants, None, None, None);
    assert_eq!((p.live, p.is_ts), (false, true));
    let p = probe_of_hls(&c, true, top, &vec![], None, None, None);
    assert_eq!((p.live, p.is_ts, p.qualities.len()), (true, true, 0));
    let p = probe_of_hls(
        &c,
        false,
        MediaFacts { live: true, is_ts: Some(false) },
        &vec![],
        None,
        Some(5),
        Some("D".to_string()),
    );
    assert_eq!((p.live, p.is_ts), (true, false));
    assert_eq!(p.qualities[0].label, "Only one quality");
    assert_eq!(p.drm.as_deref(), Some("D"));
}

#[test]
fn progress_of_a_stream_is_told() {
    let c = english();
    assert!(announce_projection(1, Some(9), 1010, 1000).is_none());
    match announce_projection(1, Some(9), 1011, 1000) {
        Some(Event::Probed { size, .. }) => assert_eq!(size, Some(1011)),
        _ => panic!(),
    }
    match announce_projection(1, None, 900, 1000) {
        Some(Event::Probed { size, .. }) => assert_eq!(size, None),
        _ => panic!(),
    }
    assert!(announce_projection(1, Some(9), 0, 1000).is_none());
    assert!(announce_projection(1, Some(9), 1, 0).is_some());
    assert_eq!(status_line(&c, Some(9), 12), "Segment 9/9");
    assert_eq!(status_line(&c, Some(9), 3), "Segment 3/9");
    assert_eq!(status_line(&c, None, 3), "Recording, segments: 3");
    assert_eq!(lane_row(&c, 1, LaneState::Unused).info, "");
    assert_eq!(lane_row(&c, 1, LaneState::Completed).info, "Completed.");
    assert_eq!(lane_row(&c, 1, LaneState::Failed).info, "Disconnect.");
    assert_eq!(flight_row(&c, 0).info, "Connecting...");
    assert_eq!(flight_row(&c, 1).info, "Receiving data...");
}

fn stream(live: bool, drm: Option<&str>) -> StreamProbe {
    StreamProbe {
        protocol: "hls".to_string(),
        live,
        duration_secs: Some(61),
        qualities: vec![],
        separate_audio: true,
        drm: drm.map(|d| d.to_string()),
        is_ts: true,
    }
}

#[test]
fn the_add_url_dialog_shows_the_stream() {
    let c = english();
    assert!(matches!(
        stream_section(&c, true, None, ""),
        StreamSection::Probing(t) if t == "Reading the stream's quality list..."
    ));
    assert!(matches!(stream_section(&c, false, None, ""), StreamSection::Nothing));
    let drm = stream(false, Some("D"));
    assert!(matches!(
        stream_section(&c, false, Some(&drm), ""),
        StreamSection::Refused(t) if t.starts_with("D DRM: ")
    ));
    let vod = stream(false, None);
    match stream_section(&c, false, Some(&vod), "1m 1s") {
        StreamSection::Offer(o) => {
            assert_eq!(o.kind, "HLS  1m 1s");
            assert_eq!(o.audio, "video + audio");
            assert_eq!(o.containers, vec!["MP4", "TS"]);
            assert!(!o.asks_length);
        }
        _ => panic!(),
    }
    let mut live = stream(true, None);
    live.is_ts = false;
    live.separate_audio = false;
    live.protocol = "dash".to_string();
    match stream_section(&c, false, Some(&live), "") {
        StreamSection::Offer(o) => {
            assert_eq!(o.kind, "DASH — live");
            assert_eq!(o.audio, "");
            assert_eq!(o.containers, vec!["MP4"]);
            assert!(o.asks_length);
        }
        _ => panic!(),
    }
    assert_eq!(address_notice(&c, Some("bad"), "", false).as_deref(), Some("bad"));
    assert_eq!(address_notice(&c, None, "  ", true), None);
    assert_eq!(address_notice(&c, None, "http://x", false), None);
    assert_eq!(
        address_notice(&c, None, "http://x", true).as_deref(),
        Some("This site is on the auto-start block list; it will be added, not started.")
    );
}

#[test]
fn the_batch_dialog_names_and_places_its_links() {
    let c = english();
    assert_eq!(batch_name(Some("probed"), "url"), "probed");
    assert_eq!(batch_name(None, "url"), "url");
    assert_eq!(save_mode(true, true), SaveMode::OneCategory);
    assert_eq!(save_mode(false, true), SaveMode::OneDirectory);
    assert_eq!(save_mode(false, false), SaveMode::ByCategory);
    assert_eq!(batch_category(true, true, "c", Some("o")), None);
    assert_eq!(batch_category(false, true, "c", Some("o")).as_deref(), Some("c"));
    assert_eq!(batch_category(false, false, "c", Some("o")).as_deref(), Some("o"));
    assert_eq!(save_to(true, "/d", Some("/c"), Some("/g")), "/d");
    assert_eq!(save_to(false, "/d", Some("/c"), Some("/g")), "/c");
    assert_eq!(save_to(false, "/d", None, Some("/g")), "/g");
    assert_eq!(save_to(false, "/d", None, None), "");
    assert_eq!(batch_source(&c, "u", true), "u (blocked site)");
    assert_eq!(batch_source(&c, "u", false), "u");
    assert!(streams_row(&c, &vec![true, false], &vec![false, true], "").is_none());
    let row = streams_row(&c, &vec![true, true], &vec![true, true], "").unwrap();
    assert_eq!(row.text, "2 stream(s) in this list — download at");
    assert_eq!(row.container, "MP4");
    let row = streams_row(&c, &vec![true], &vec![true], "TS").unwrap();
    assert_eq!(row.container, "TS");
}

#[test]
fn the_file_dialog_shows_what_is_known() {
    let c = english();
    assert_eq!(size_line(Some(2048), "2 KB"), "2 KB (2048 Bytes)");
    assert_eq!(size_line(None, ""), "?");
    assert_eq!(file_title(&c, true), "Download File Info");
    assert_eq!(file_title(&c, false), "File Properties");
    let new = file_form(true, true, true, true);
    assert!(!new.address_editable && new.shows_start_options && !new.can_open);
    assert!(!new.runs_in_background);
    let old = file_form(false, true, true, false);
    assert!(old.address_editable && old.shows_history && old.can_open);
    assert!(old.runs_in_background);
    assert_eq!(
        remember_label(&c, true, Some("General"), "Video"),
        "Remember this path for \"General\" category"
    );
    assert_eq!(
        remember_label(&c, false, Some("General"), "Video"),
        "Remember this path for \"Video\" category"
    );
    assert_eq!(
        remember_label(&c, true, None, "Video"),
        "Remember this path for \"Video\" category"
    );
}

#[test]
fn what_could_not_be_read_is_named() {
    assert_eq!(
        read_failure(Reading::Manifest, "reset"),
        "could not read the manifest: reset"
    );
    assert_eq!(
        read_failure(Reading::Variant, "reset"),
        "could not read the variant playlist: reset"
    );
    assert_eq!(
        read_failure(Reading::PlaylistAgain, "reset"),
        "could not re-read the playlist: reset"
    );
    assert_eq!(
        read_failure(Reading::ManifestAgain, "reset"),
        "could not re-read the manifest: reset"
    );
}
