//! The course of a stream download: what the manifest is, which tracks to
//! fetch, the keys they need, resuming, and how the file is finished.

use crate::bytes::decode_lossy;
#[allow(unused_imports)]
use crate::bytes::as_text;
#[allow(unused_imports)]
use crate::chunked::joined;
use crate::download::TransferEnd;
use crate::engine::{drm_refusal, quality_label, ConnRow, DlId, Event, StreamProbe, StreamQuality};
#[allow(unused_imports)]
use crate::engine::{drm_text, quality_text};
use crate::error::{ErrorKind, FetchError, Payload, Redirect};
use crate::i18n::{tr, Catalogue};
#[allow(unused_imports)]
use crate::i18n::translation;
use crate::record::{part_path, staging_path, stream_failure};
#[allow(unused_imports)]
use crate::record::track_file;
use crate::text::{
    chars_of, contains_text, push_decimal, same_str, same_text, starts_with, to_lower, trim_start,
};
#[allow(unused_imports)]
use crate::text::{begins, decimal, lowered, occurs, text_of, texts, trimmed_start};
use vstd::prelude::*;

verus! {

/// The two shapes of a manifest.
#[derive(Clone, Copy, Debug, PartialEq, Eq, Structural)]
pub enum Protocol {
    Hls,
    Dash,
}

/// Whether a text is an HLS playlist.
pub open spec fn is_playlist(text: Seq<char>) -> bool {
    begins(trimmed_start(text), "#EXTM3U"@)
}

/// Whether a text holds a DASH manifest.
pub open spec fn is_mpd(text: Seq<char>) -> bool {
    occurs(text, "<MPD"@)
}

fn looks_like_playlist(text: &[char]) -> (r: bool)
    ensures
        r == is_playlist(text@),
{
    let mark = chars_of("#EXTM3U");
    starts_with(trim_start(text), mark.as_slice())
}

fn looks_like_mpd(text: &[char]) -> (r: bool)
    ensures
        r == is_mpd(text@),
{
    let mark = chars_of("<MPD");
    contains_text(text, mark.as_slice())
}

/// Tells what a manifest is by its body: what it was announced as can be
/// wrong. A body of neither shape is no manifest at all.
pub fn tell_manifest(body: &[u8], url: &str) -> (r: Result<Protocol, String>)
    ensures
        ({
            let text = as_text(body@);
            match r {
                Ok(Protocol::Hls) => is_playlist(text),
                Ok(Protocol::Dash) => !is_playlist(text) && is_mpd(text),
                Err(e) => !is_playlist(text) && !is_mpd(text) && e@ == url@
                    + " is not an HLS or DASH manifest (the server returned "@ + decimal(
                    body@.len(),
                ) + " bytes of something else)"@,
            }
        }),
{
    let text = decode_lossy(body);
    let chars = chars_of(text.as_str());
    if looks_like_playlist(chars.as_slice()) {
        return Ok(Protocol::Hls);
    }
    if looks_like_mpd(chars.as_slice()) {
        return Ok(Protocol::Dash);
    }
    let mut s = String::from_str(url);
    s.append(" is not an HLS or DASH manifest (the server returned ");
    push_decimal(&mut s, body.len() as u64);
    s.append(" bytes of something else)");
    Err(s)
}

/// What was being read of a stream.
#[derive(Clone, Copy, Debug, PartialEq, Eq, Structural)]
pub enum Reading {
    Manifest,
    Variant,
    /// A playlist, again, during a recording.
    PlaylistAgain,
    /// A manifest, again, during a recording.
    ManifestAgain,
}

/// How the failure to read something begins.
pub open spec fn reading_text(what: Reading) -> Seq<char> {
    match what {
        Reading::Manifest => "could not read the manifest: "@,
        Reading::Variant => "could not read the variant playlist: "@,
        Reading::PlaylistAgain => "could not re-read the playlist: "@,
        Reading::ManifestAgain => "could not re-read the manifest: "@,
    }
}

/// What the user is told when a part of a stream's description cannot be read.
pub fn read_failure(what: Reading, error: &str) -> (r: String)
    ensures
        r@ == reading_text(what) + error@,
        what is Manifest ==> r@ == "could not read the manifest: "@ + error@,
        what is Variant ==> r@ == "could not read the variant playlist: "@ + error@,
        what is PlaylistAgain ==> r@ == "could not re-read the playlist: "@ + error@,
        what is ManifestAgain ==> r@ == "could not re-read the manifest: "@ + error@,
{
    let mut s = match what {
        Reading::Manifest => String::from_str("could not read the manifest: "),
        Reading::Variant => String::from_str("could not read the variant playlist: "),
        Reading::PlaylistAgain => String::from_str("could not re-read the playlist: "),
        Reading::ManifestAgain => String::from_str("could not re-read the manifest: "),
    };
    s.append(error);
    s
}

/// What to do with a stream once its manifest is read.
pub enum Route {
    Fail(String),
    /// Record it: it has no end of its own.
    Record,
    /// Plan its tracks and assemble them.
    Assemble,
}

/// Decides on a DASH manifest: whether it offers video, is live, and names a
/// DRM system. A live stream cannot be decrypted, so a protected one is refused
/// before anything of it is fetched.
pub fn dash_route(
    catalogue: &Catalogue,
    has_video: bool,
    live: bool,
    drm: Option<&str>,
) -> (r: Route)
    ensures
        if !has_video {
            r matches Route::Fail(e) && e@ == "the manifest lists no video renditions"@
        } else if !live {
            r is Assemble
        } else {
            match drm {
                Some(d) => r matches Route::Fail(e) && e@ == drm_text(catalogue@, d@),
                None => r is Record,
            }
        },
{
    if !has_video {
        return Route::Fail(String::from_str("the manifest lists no video renditions"));
    }
    if !live {
        return Route::Assemble;
    }
    match drm {
        Some(d) => Route::Fail(drm_refusal(catalogue, d)),
        None => Route::Record,
    }
}

/// Decides on an HLS media playlist: whether it is live, names a DRM system or
/// is encrypted. A live stream is refused for either before anything of it is
/// fetched.
pub fn hls_route(
    catalogue: &Catalogue,
    live: bool,
    drm: Option<&str>,
    encryption: Option<&str>,
) -> (r: Route)
    ensures
        if !live {
            r is Assemble
        } else {
            match (drm, encryption) {
                (Some(d), _) => r matches Route::Fail(e) && e@ == drm_text(catalogue@, d@),
                (None, Some(m)) => r matches Route::Fail(e) && e@ == "recording "@ + m@
                    + " live streams is not supported yet"@,
                (None, None) => r is Record,
            }
        },
{
    if !live {
        return Route::Assemble;
    }
    if let Some(d) = drm {
        return Route::Fail(drm_refusal(catalogue, d));
    }
    if let Some(m) = encryption {
        let mut s = String::from_str("recording ");
        s.append(m);
        s.append(" live streams is not supported yet");
        return Route::Fail(s);
    }
    Route::Record
}

/// A variant of a master playlist.
#[derive(Clone, Debug)]
pub struct Variant {
    pub url: String,
    pub height: Option<u32>,
    pub bandwidth: Option<u64>,
}

/// The variant playlist to read, and the bit rate to reckon with: the one that
/// was asked for, else the variant's own.
pub fn follow_variant(asked: Option<u64>, chosen: Option<&Variant>) -> (r: Result<
    (String, Option<u64>),
    String,
>)
    ensures
        match (r, chosen) {
            (Ok((url, rate)), Some(v)) => url@ == v.url@ && rate == (if asked is Some {
                asked
            } else {
                v.bandwidth
            }),
            (Err(e), None) => e@ == "the master playlist lists no variants"@,
            _ => false,
        },
{
    match chosen {
        None => Err(String::from_str("the master playlist lists no variants")),
        Some(v) => {
            let rate: Option<u64> = match asked {
                Some(b) => Some(b),
                None => v.bandwidth,
            };
            Ok((v.url.clone(), rate))
        },
    }
}

/// One track that is to be fetched.
#[derive(Debug)]
pub struct TrackPlan {
    pub segments: u64,
    /// The size that the manifest implies, where it implies one.
    pub estimated: Option<u64>,
    /// Where the keys of its segments are, in the order of the segments.
    pub key_uris: Vec<String>,
    /// The segments are MPEG-TS.
    pub is_ts: bool,
}

/// What a stream download has to assemble.
#[derive(Debug)]
pub enum Assembly {
    /// One track that is a playable file once it is put together.
    Single(TrackPlan),
    /// Video and audio fetched apart, then combined into one file.
    VideoAudio(TrackPlan, TrackPlan),
}

impl Assembly {
    /// The tracks, video first.
    pub open spec fn tracks(self) -> Seq<TrackPlan> {
        match self {
            Assembly::Single(p) => seq![p],
            Assembly::VideoAudio(v, a) => seq![v, a],
        }
    }

    pub open spec fn segment_total(self) -> int {
        match self {
            Assembly::Single(p) => p.segments as int,
            Assembly::VideoAudio(v, a) => v.segments + a.segments,
        }
    }

    pub open spec fn estimated_total(self) -> int {
        match self {
            Assembly::Single(p) => estimate_of(p),
            Assembly::VideoAudio(v, a) => estimate_of(v) + estimate_of(a),
        }
    }

    /// How many segments there are in all.
    pub fn segments(&self) -> (r: u64)
        requires
            self.segment_total() <= u64::MAX,
        ensures
            r == self.segment_total(),
            self matches Assembly::Single(p) ==> r == p.segments,
            self matches Assembly::VideoAudio(v, a) ==> r == v.segments + a.segments,
    {
        match self {
            Assembly::Single(p) => p.segments,
            Assembly::VideoAudio(v, a) => v.segments + a.segments,
        }
    }

    /// The size that the manifest implies; a track of which it says nothing
    /// counts for nothing.
    pub fn estimated(&self) -> (r: u64)
        requires
            self.estimated_total() <= u64::MAX,
        ensures
            r == self.estimated_total(),
    {
        match self {
            Assembly::Single(p) => estimate(p),
            Assembly::VideoAudio(v, a) => estimate(v) + estimate(a),
        }
    }

    /// Whether the totals can be counted.
    pub fn fits(&self) -> (r: bool)
        ensures
            r == (self.segment_total() <= u64::MAX && self.estimated_total() <= u64::MAX),
    {
        match self {
            Assembly::Single(_) => true,
            Assembly::VideoAudio(v, a) => v.segments <= u64::MAX - a.segments && estimate(v)
                <= u64::MAX - estimate(a),
        }
    }
}

/// The size that the manifest implies for a track, or zero.
pub open spec fn estimate_of(p: TrackPlan) -> int {
    match p.estimated {
        Some(n) => n as int,
        None => 0,
    }
}

fn estimate(p: &TrackPlan) -> (r: u64)
    ensures
        r == estimate_of(*p),
{
    match p.estimated {
        Some(n) => n,
        None => 0,
    }
}

/// Puts the tracks of a stream together from what planning them gave. Without
/// video there is nothing; audio that cannot be planned is not a reason to lose
/// the video.
pub fn assemble(video: Result<TrackPlan, String>, audio: Option<Result<TrackPlan, String>>) -> (r:
    Result<Assembly, String>)
    ensures
        match (video, audio) {
            (Err(e), _) => r matches Err(f) && f@ == e@,
            (Ok(v), Some(Ok(a))) => r == Ok::<Assembly, String>(Assembly::VideoAudio(v, a)),
            (Ok(v), _) => r == Ok::<Assembly, String>(Assembly::Single(v)),
        },
{
    match video {
        Err(e) => Err(e),
        Ok(v) => match audio {
            Some(Ok(a)) => Ok(Assembly::VideoAudio(v, a)),
            _ => Ok(Assembly::Single(v)),
        },
    }
}

/// Announces the size that the manifest implies, where it implies one.
pub fn announce_estimate(id: DlId, estimated: u64) -> (r: Event)
    ensures
        r.is_size(
            id,
            if estimated > 0 {
                Some(estimated)
            } else {
                None
            },
        ),
{
    Event::Probed {
        id,
        size: if estimated > 0 {
            Some(estimated)
        } else {
            None
        },
        ranges: false,
        file_name: None,
    }
}

/// How far a track has come.
#[derive(Clone, Copy, Debug, PartialEq, Eq, Structural)]
pub struct Checkpoint {
    pub segments: u64,
    pub bytes: u64,
}

/// The files of a track, and where to carry on.
pub struct Job {
    pub part: String,
    pub staging: String,
    pub checkpoint: String,
    pub resumed: Checkpoint,
    /// The part and the checkpoint are of no use and are removed first.
    pub start_clean: bool,
}

impl Job {
    /// Whether this is the job of a track whose last run left `saved`.
    pub open spec fn is_for(
        self,
        temp: Seq<char>,
        track: int,
        saved: Checkpoint,
        usable: bool,
    ) -> bool {
        &&& self.part@ == track_file(temp, ".t"@, track)
        &&& self.staging@ == track_file(temp, ".s"@, track)
        &&& self.checkpoint@ == track_file(temp, ".t"@, track) + ".ck"@
        &&& self.resumed == (if usable {
            saved
        } else {
            (Checkpoint { segments: 0, bytes: 0 })
        })
        &&& self.start_clean == !usable
    }

    /// The segments that are left to ask for, from the first place up to the
    /// second.
    pub fn places(&self, plan: &TrackPlan) -> (r: (u64, u64))
        ensures
            r.0 <= r.1,
            from_to(r.0 as int, r.1 as int) == asked(self.resumed, *plan),
    {
        let first: u64 = if self.resumed.segments <= plan.segments {
            self.resumed.segments
        } else {
            plan.segments
        };
        (first, plan.segments)
    }
}

/// The places from `a` up to `b`.
pub open spec fn from_to(a: int, b: int) -> Seq<int> {
    Seq::new((b - a) as nat, |i: int| a + i)
}

/// The places of the segments that a track still asks for, in order: those
/// behind its checkpoint.
pub open spec fn asked(resumed: Checkpoint, plan: TrackPlan) -> Seq<int> {
    if resumed.segments <= plan.segments {
        from_to(resumed.segments as int, plan.segments as int)
    } else {
        Seq::empty()
    }
}

/// The pieces at the given places.
pub open spec fn pieces_at(pieces: Seq<Seq<u8>>, places: Seq<int>) -> Seq<Seq<u8>> {
    Seq::new(places.len(), |i: int| pieces[places[i]])
}

proof fn lemma_joined_concat(a: Seq<Seq<u8>>, b: Seq<Seq<u8>>)
    ensures
        joined(a + b) == joined(a) + joined(b),
    decreases a.len(),
{
    if a.len() == 0 {
        assert(a + b =~= b);
        assert(joined(a) + joined(b) =~= joined(b));
    } else {
        lemma_joined_concat(a.skip(1), b);
        assert((a + b).skip(1) =~= a.skip(1) + b);
        assert(a[0] + (joined(a.skip(1)) + joined(b)) =~= (a[0] + joined(a.skip(1))) + joined(b));
    }
}

/// A track that was paused carries on instead of fetching anew: it asks for
/// exactly the segments behind its checkpoint, so that those which it has and
/// those which it asks for are the track's, each once and in order; and what it
/// appends makes the part the file that a run without a pause would have made.
/// One whose checkpoint is of no use starts clean and makes the same file.
pub proof fn law_a_resumed_track_is_the_same_file(
    job: Job,
    temp: Seq<char>,
    track: int,
    saved: Checkpoint,
    usable: bool,
    plan: TrackPlan,
    pieces: Seq<Seq<u8>>,
    on_disk: Seq<u8>,
)
    requires
        job.is_for(temp, track, saved, usable),
        pieces.len() == plan.segments,
        usable ==> saved.segments <= plan.segments,
        on_disk == (if job.start_clean {
            Seq::empty()
        } else {
            joined(pieces.take(saved.segments as int))
        }),
    ensures
        asked(job.resumed, plan).len() == plan.segments - job.resumed.segments,
        from_to(0, job.resumed.segments as int) + asked(job.resumed, plan) == from_to(
            0,
            plan.segments as int,
        ),
        on_disk + joined(pieces_at(pieces, asked(job.resumed, plan))) == joined(pieces),
{
    let k = job.resumed.segments as int;
    let rest = asked(job.resumed, plan);
    assert(from_to(0, k) + rest =~= from_to(0, plan.segments as int));
    assert(pieces_at(pieces, rest) =~= pieces.skip(k));
    assert(pieces.take(k) + pieces.skip(k) =~= pieces);
    lemma_joined_concat(pieces.take(k), pieces.skip(k));
    if !usable {
        assert(pieces.take(0) =~= Seq::<Seq<u8>>::empty());
    }
}

/// Decides whether a track carries on from an earlier run: only when its
/// checkpoint describes the file that is there. Otherwise it starts clean rather
/// than splice onto something unknown.
pub fn job_for(temp: &str, track: usize, saved: Checkpoint, usable: bool) -> (r: Job)
    ensures
        r.is_for(temp@, track as int, saved, usable),
{
    let mut checkpoint = part_path(temp, track);
    checkpoint.append(".ck");
    Job {
        part: part_path(temp, track),
        staging: staging_path(temp, track),
        checkpoint,
        resumed: if usable {
            saved
        } else {
            Checkpoint { segments: 0, bytes: 0 }
        },
        start_clean: !usable,
    }
}

/// The keys that are there, by where they came from.
pub struct KeyRing {
    keys: Vec<(String, Vec<u8>)>,
}

/// The keys of a list of entries.
pub open spec fn key_map(v: Seq<(String, Vec<u8>)>) -> Map<Seq<char>, Seq<u8>>
    decreases v.len(),
{
    if v.len() == 0 {
        Map::empty()
    } else {
        key_map(v.drop_last()).insert(v.last().0@, v.last().1@)
    }
}

impl View for KeyRing {
    type V = Map<Seq<char>, Seq<u8>>;

    closed spec fn view(&self) -> Map<Seq<char>, Seq<u8>> {
        key_map(self.keys@)
    }
}

/// How long a key is.
pub const KEY_LEN: usize = 16;

impl KeyRing {
    /// Every key has the length that its cipher needs.
    pub open spec fn wf(self) -> bool {
        forall|uri: Seq<char>| #[trigger] self@.dom().contains(uri) ==> self@[uri].len() == KEY_LEN
    }

    pub fn new() -> (r: KeyRing)
        ensures
            r.wf(),
            r@ == Map::<Seq<char>, Seq<u8>>::empty(),
    {
        KeyRing { keys: Vec::new() }
    }

    /// Whether the key from this place is there.
    pub fn has(&self, uri: &str) -> (r: bool)
        ensures
            r == self@.dom().contains(uri@),
    {
        let ghost all = self.keys@;
        let mut n: usize = self.keys.len();
        proof {
            assert(all.take(n as int) =~= all);
        }
        while n > 0
            invariant
                n <= all.len(),
                all == self.keys@,
                self@.dom().contains(uri@) == key_map(all.take(n as int)).dom().contains(uri@),
            decreases n,
        {
            proof {
                assert(all.take(n as int).drop_last() =~= all.take(n - 1));
                assert(all.take(n as int).last() == all[n - 1]);
            }
            if same_str(self.keys[n - 1].0.as_str(), uri) {
                return true;
            }
            n = n - 1;
        }
        false
    }

    /// The key from this place.
    pub fn get(&self, uri: &str) -> (r: Option<&Vec<u8>>)
        ensures
            match r {
                Some(k) => self@.dom().contains(uri@) && k@ == self@[uri@],
                None => !self@.dom().contains(uri@),
            },
    {
        let ghost all = self.keys@;
        let mut n: usize = self.keys.len();
        proof {
            assert(all.take(n as int) =~= all);
        }
        while n > 0
            invariant
                n <= all.len(),
                all == self.keys@,
                self@.dom().contains(uri@) == key_map(all.take(n as int)).dom().contains(uri@),
                self@.dom().contains(uri@) ==> self@[uri@] == key_map(all.take(n as int))[uri@],
            decreases n,
        {
            proof {
                assert(all.take(n as int).drop_last() =~= all.take(n - 1));
                assert(all.take(n as int).last() == all[n - 1]);
            }
            if same_str(self.keys[n - 1].0.as_str(), uri) {
                return Some(&self.keys[n - 1].1);
            }
            n = n - 1;
        }
        None
    }

    /// Takes a key that was fetched; one of the wrong length is refused.
    pub fn add_key(&mut self, uri: String, key: Vec<u8>) -> (r: Result<(), String>)
        requires
            old(self).wf(),
        ensures
            final(self).wf(),
            match r {
                Ok(_) => key@.len() == KEY_LEN && final(self)@ == old(self)@.insert(uri@, key@),
                Err(e) => key@.len() != KEY_LEN && final(self)@ == old(self)@ && e@
                    == "the AES-128 key at "@ + uri@ + " is "@ + decimal(key@.len())
                    + " bytes, not 16"@,
            },
    {
        if key.len() != KEY_LEN {
            let mut s = String::from_str("the AES-128 key at ");
            s.append(uri.as_str());
            s.append(" is ");
            push_decimal(&mut s, key.len() as u64);
            s.append(" bytes, not 16");
            return Err(s);
        }
        let ghost before = self.keys@;
        self.keys.push((uri, key));
        proof {
            assert(self.keys@.drop_last() =~= before);
            assert forall|u: Seq<char>| #[trigger] self@.dom().contains(u) implies self@[u].len()
                == KEY_LEN by {
                if u != uri@ {
                    assert(old(self)@.dom().contains(u));
                }
            }
        }
        Ok(())
    }
}

/// What the user is told when a key cannot be fetched.
pub fn key_failure(uri: &str, error: &str) -> (r: String)
    ensures
        r@ == "could not fetch the AES-128 key "@ + uri@ + ": "@ + error@,
{
    let mut s = String::from_str("could not fetch the AES-128 key ");
    s.append(uri);
    s.append(": ");
    s.append(error);
    s
}

/// Whether a ring holds every key of a track.
pub open spec fn has_keys(keys: Map<Seq<char>, Seq<u8>>, p: TrackPlan) -> bool {
    forall|i: int|
        0 <= i < p.key_uris@.len() ==> keys.dom().contains((#[trigger] p.key_uris@[i])@)
}

/// The first key of a track that a ring lacks.
pub open spec fn is_first_missing(
    keys: Map<Seq<char>, Seq<u8>>,
    p: TrackPlan,
    uri: Seq<char>,
) -> bool {
    exists|i: int|
        0 <= i < p.key_uris@.len() && (#[trigger] p.key_uris@[i])@ == uri && !keys.dom().contains(
            uri,
        ) && forall|j: int|
            0 <= j < i ==> keys.dom().contains((#[trigger] p.key_uris@[j])@)
}

fn missing_key(keys: &KeyRing, p: &TrackPlan) -> (r: Option<String>)
    ensures
        match r {
            Some(uri) => is_first_missing(keys@, *p, uri@) && !has_keys(keys@, *p),
            None => has_keys(keys@, *p),
        },
{
    let mut i: usize = 0;
    while i < p.key_uris.len()
        invariant
            i <= p.key_uris@.len(),
            forall|j: int| 0 <= j < i ==> keys@.dom().contains((#[trigger] p.key_uris@[j])@),
        decreases p.key_uris@.len() - i,
    {
        if !keys.has(p.key_uris[i].as_str()) {
            let uri = p.key_uris[i].clone();
            proof {
                assert(p.key_uris@[i as int]@ == uri@);
            }
            return Some(uri);
        }
        i = i + 1;
    }
    None
}

/// What an assembly needs next.
pub enum AssemblyStep {
    /// Fetch the key from this place.
    Key(String),
    /// Fetch the track of this number.
    Track(usize),
    /// Every track is there: finish the file.
    Finish,
}

/// An assembly in progress. No byte of any track is fetched before every key of
/// every track is there, and the tracks are fetched one after the other.
pub struct Assembling {
    assembly: Assembly,
    keys: KeyRing,
    fetched: usize,
}

impl Assembling {
    pub closed spec fn assembly(self) -> Assembly {
        self.assembly
    }

    pub closed spec fn keys(self) -> Map<Seq<char>, Seq<u8>> {
        self.keys@
    }

    /// How many tracks are there.
    pub closed spec fn fetched(self) -> int {
        self.fetched as int
    }

    pub closed spec fn wf(self) -> bool {
        self.keys.wf() && self.fetched <= self.assembly.tracks().len()
    }

    /// Whether every key of every track is there.
    pub open spec fn keyed(self) -> bool {
        forall|i: int|
            0 <= i < self.assembly().tracks().len() ==> has_keys(
                self.keys(),
                #[trigger] self.assembly().tracks()[i],
            )
    }

    pub fn new(assembly: Assembly) -> (r: Assembling)
        ensures
            r.wf(),
            r.assembly() == assembly,
            r.keys() == Map::<Seq<char>, Seq<u8>>::empty(),
            r.fetched() == 0,
    {
        Assembling { assembly, keys: KeyRing::new(), fetched: 0 }
    }

    /// What is needed next.
    pub fn next(&self) -> (r: AssemblyStep)
        requires
            self.wf(),
        ensures
            match r {
                AssemblyStep::Key(uri) => !self.keyed() && exists|i: int|
                    0 <= i < self.assembly().tracks().len() && is_first_missing(
                        self.keys(),
                        #[trigger] self.assembly().tracks()[i],
                        uri@,
                    ) && forall|j: int|
                        0 <= j < i ==> has_keys(
                            self.keys(),
                            #[trigger] self.assembly().tracks()[j],
                        ),
                AssemblyStep::Track(i) => self.keyed() && i == self.fetched() && self.fetched()
                    < self.assembly().tracks().len(),
                AssemblyStep::Finish => self.keyed() && self.fetched()
                    == self.assembly().tracks().len(),
            },
    {
        match &self.assembly {
            Assembly::Single(p) => {
                proof {
                    assert(self.assembly().tracks()[0] == *p);
                }
                if let Some(uri) = missing_key(&self.keys, p) {
                    return AssemblyStep::Key(uri);
                }
                if self.fetched < 1 {
                    AssemblyStep::Track(self.fetched)
                } else {
                    AssemblyStep::Finish
                }
            },
            Assembly::VideoAudio(v, a) => {
                proof {
                    assert(self.assembly().tracks()[0] == *v);
                    assert(self.assembly().tracks()[1] == *a);
                }
                if let Some(uri) = missing_key(&self.keys, v) {
                    return AssemblyStep::Key(uri);
                }
                if let Some(uri) = missing_key(&self.keys, a) {
                    return AssemblyStep::Key(uri);
                }
                if self.fetched < 2 {
                    AssemblyStep::Track(self.fetched)
                } else {
                    AssemblyStep::Finish
                }
            },
        }
    }

    /// Takes a key that was fetched.
    pub fn key_arrived(&mut self, uri: String, key: Vec<u8>) -> (r: Result<(), String>)
        requires
            old(self).wf(),
        ensures
            final(self).wf(),
            final(self).assembly() == old(self).assembly(),
            final(self).fetched() == old(self).fetched(),
            match r {
                Ok(_) => key@.len() == KEY_LEN && final(self).keys() == old(self).keys().insert(
                    uri@,
                    key@,
                ),
                Err(e) => key@.len() != KEY_LEN && final(self).keys() == old(self).keys() && e@
                    == "the AES-128 key at "@ + uri@ + " is "@ + decimal(key@.len())
                    + " bytes, not 16"@,
            },
    {
        self.keys.add_key(uri, key)
    }

    /// Notes that the track at hand is there.
    pub fn track_arrived(&mut self)
        requires
            old(self).wf(),
            old(self).keyed(),
            old(self).fetched() < old(self).assembly().tracks().len(),
        ensures
            final(self).wf(),
            final(self).assembly() == old(self).assembly(),
            final(self).keys() == old(self).keys(),
            final(self).fetched() == old(self).fetched() + 1,
    {
        self.fetched = self.fetched + 1;
    }

    /// How the parts become one file, once that many are there.
    pub fn shape(&self, parts: usize) -> (r: Result<FinishShape, String>)
        ensures
            match r {
                Ok(FinishShape::Mux) => self.assembly() is VideoAudio && parts == 2,
                Ok(FinishShape::Wrap) => self.assembly() is Single && parts == 1,
                Err(e) => parts != self.assembly().tracks().len() && e@
                    == "nothing was assembled"@,
            },
    {
        finish_shape(&self.assembly, parts)
    }

    /// The key from a place.
    pub fn key(&self, uri: &str) -> (r: Option<&Vec<u8>>)
        ensures
            match r {
                Some(k) => self.keys().dom().contains(uri@) && k@ == self.keys()[uri@],
                None => !self.keys().dom().contains(uri@),
            },
    {
        self.keys.get(uri)
    }
}

/// Fetching the key that is asked for never has to be done twice: once it is
/// there, the same one is not the first that is missing.
pub proof fn law_a_key_is_fetched_once(
    keys: Map<Seq<char>, Seq<u8>>,
    p: TrackPlan,
    uri: Seq<char>,
    key: Seq<u8>,
)
    ensures
        !is_first_missing(keys.insert(uri, key), p, uri),
{
}

/// Reports the end of fetching a track; nothing where it is there. A stop and a
/// failure both leave what arrived on disk, so that the next start carries on.
pub fn track_end(id: DlId, end: TransferEnd, settled: u64) -> (r: Option<Event>)
    ensures
        match end {
            TransferEnd::Complete => r is None,
            TransferEnd::Interrupted => r matches Some(e) && e.is_stop(
                id,
                settled as int,
                seq![(0u64, settled)],
            ),
            TransferEnd::Failed { kind, text } => r matches Some(e) && e.is_failure(
                id,
                "segment download failed: "@ + text@,
                0,
                Seq::empty(),
                false,
            ),
        },
{
    match end {
        TransferEnd::Complete => None,
        TransferEnd::Interrupted => {
            let mut held: Vec<(u64, u64)> = Vec::new();
            held.push((0, settled));
            proof {
                assert(held@ =~= seq![(0u64, settled)]);
            }
            Some(Event::Stopped { id, done: settled, held })
        },
        TransferEnd::Failed { kind: _, text } => {
            let mut s = String::from_str("segment download failed: ");
            s.append(text.as_str());
            Some(stream_failure(id, s))
        },
    }
}

/// How the parts become one file.
#[derive(Clone, Copy, Debug, PartialEq, Eq, Structural)]
pub enum FinishShape {
    /// Combine video and audio.
    Mux,
    /// Bring the only part into its container.
    Wrap,
}

/// Decides how the parts become one file.
pub fn finish_shape(assembly: &Assembly, parts: usize) -> (r: Result<FinishShape, String>)
    ensures
        match r {
            Ok(FinishShape::Mux) => *assembly is VideoAudio && parts == 2,
            Ok(FinishShape::Wrap) => *assembly is Single && parts == 1,
            Err(e) => parts != assembly.tracks().len() && e@ == "nothing was assembled"@,
        },
{
    match assembly {
        Assembly::VideoAudio(_, _) => if parts == 2 {
            Ok(FinishShape::Mux)
        } else {
            Err(String::from_str("nothing was assembled"))
        },
        Assembly::Single(_) => if parts == 1 {
            Ok(FinishShape::Wrap)
        } else {
            Err(String::from_str("nothing was assembled"))
        },
    }
}

/// The extension for the container that the user asked for, in any case: TS
/// where they asked for it, MP4 otherwise.
pub fn wanted_extension(container: &str) -> (r: &'static str)
    ensures
        r@ == (if lowered(container@) == "ts"@ {
            "ts"@
        } else {
            "mp4"@
        }),
{
    let chars = chars_of(container);
    let low = to_lower(chars.as_slice());
    let ts = chars_of("ts");
    if same_text(low.as_slice(), ts.as_slice()) {
        "ts"
    } else {
        "mp4"
    }
}

/// The extension under which an assembled track plays as it is.
pub fn native_extension(is_ts: bool) -> (r: &'static str)
    ensures
        r@ == (if is_ts {
            "ts"@
        } else {
            "mp4"@
        }),
{
    if is_ts {
        "ts"
    } else {
        "mp4"
    }
}

/// What the user is told when video and audio could not be combined: both play
/// on their own and are kept.
pub fn mux_failure(error: &str, video: &str, audio: &str) -> (r: String)
    ensures
        r@ == error@ + " (video saved as "@ + video@ + ", audio as "@ + audio@ + ")"@,
{
    let mut s = String::from_str(error);
    s.append(" (video saved as ");
    s.append(video);
    s.append(", audio as ");
    s.append(audio);
    s.append(")");
    s
}

/// What the user is told when a stream could not be brought into its container:
/// it plays as assembled and is kept.
pub fn wrap_failure(error: &str, recording: bool, kept: &str) -> (r: String)
    ensures
        r@ == error@ + (if recording {
            " (the recording was saved as "@
        } else {
            " (the stream was saved as "@
        }) + kept@ + ")"@,
{
    let mut s = String::from_str(error);
    if recording {
        s.append(" (the recording was saved as ");
    } else {
        s.append(" (the stream was saved as ");
    }
    s.append(kept);
    s.append(")");
    s
}

/// Reports a finished stream: first the size that is on disk, in place of the
/// estimate, then the end.
pub fn stream_finished(id: DlId, size: u64) -> (r: (Event, Event))
    ensures
        r.0.is_size(id, Some(size)),
        r.1 == (Event::Finished { id, size }),
{
    (
        Event::Probed { id, size: Some(size), ranges: false, file_name: None },
        Event::Finished { id, size },
    )
}

/// A piece of a stream, as far as requests go.
#[derive(Clone, Debug)]
pub struct Segment {
    pub url: String,
    /// The value of its `Range` header, where it is a slice of a larger file.
    pub range: Option<String>,
    /// Where its key is.
    pub key_uri: Option<String>,
}

/// The header lines of a request for a segment: the browser's session, and the
/// slice that is wanted.
pub open spec fn segment_header_lines(
    cookies: Option<&str>,
    referer: Option<&str>,
    range: Option<String>,
) -> Seq<Seq<char>> {
    (match cookies {
        Some(c) if c@.len() > 0 => seq!["Cookie: "@ + c@],
        _ => Seq::empty(),
    }) + (match referer {
        Some(r) if r@.len() > 0 => seq!["Referer: "@ + r@],
        _ => Seq::empty(),
    }) + (match range {
        Some(r) => seq!["Range: "@ + r@],
        None => Seq::empty(),
    })
}

fn header_line(name: &str, value: &str) -> (r: String)
    ensures
        r@ == name@ + value@,
{
    let mut s = String::from_str(name);
    s.append(value);
    s
}

fn is_blank(s: &str) -> (r: bool)
    ensures
        r == (s@.len() == 0),
{
    let chars = chars_of(s);
    chars.len() == 0
}

/// Writes the header lines of a request for a segment.
pub fn segment_headers(seg: &Segment, cookies: Option<&str>, referer: Option<&str>) -> (r: Vec<
    String,
>)
    ensures
        texts(r@) == segment_header_lines(cookies, referer, seg.range),
        cookies is Some && cookies->0@.len() > 0 ==> texts(r@).contains(
            "Cookie: "@ + cookies->0@,
        ),
        referer is Some && referer->0@.len() > 0 ==> texts(r@).contains(
            "Referer: "@ + referer->0@,
        ),
        seg.range matches Some(s) ==> texts(r@).contains("Range: "@ + s@),
{
    let mut headers: Vec<String> = Vec::new();
    if let Some(c) = cookies {
        if !is_blank(c) {
            headers.push(header_line("Cookie: ", c));
        }
    }
    if let Some(r) = referer {
        if !is_blank(r) {
            headers.push(header_line("Referer: ", r));
        }
    }
    if let Some(r) = &seg.range {
        headers.push(header_line("Range: ", r.as_str()));
    }
    proof {
        assert(texts(headers@) =~= segment_header_lines(cookies, referer, seg.range));
        law_a_segment_request_carries_its_session(cookies, referer, seg.range);
    }
    headers
}

/// The same segment at another address. Its slice and its key travel with it:
/// without them the whole file would be fetched, or fetched and not decrypted.
pub fn redirect_target(seg: Segment, url: String) -> (r: Segment)
    ensures
        r.url == url,
        r.range == seg.range,
        r.key_uri == seg.key_uri,
{
    Segment { url, range: seg.range, key_uri: seg.key_uri }
}

/// How many hops are followed to a manifest or a segment.
pub const MAX_REDIRECTS: usize = 5;

/// Where a failed fetch of a segment points, where it is a redirect and the
/// budget of hops is not spent; otherwise the failure is the caller's.
pub fn hop_from<'a>(e: &'a FetchError, hops: usize) -> (r: Option<&'a str>)
    ensures
        match r {
            Some(loc) => {
                &&& hops < MAX_REDIRECTS
                &&& e.payload matches Payload::Redirect(x) && x.location@ == loc@
            },
            None => hops >= MAX_REDIRECTS || e.payload is Message,
        },
{
    if hops >= MAX_REDIRECTS {
        return None;
    }
    match Redirect::of(e) {
        Some(x) => Some(x.location.as_str()),
        None => None,
    }
}

/// What to do after a manifest could not be fetched.
pub enum ManifestNext<'a> {
    /// Resolve this location against the URL that was asked for, and ask there.
    Hop(&'a str),
    Fail(FetchError),
    /// Give the fetch's own failure to the caller.
    PassOn,
}

/// The way from the URL that was asked for to the one that a manifest comes
/// from. Every relative URI inside the manifest resolves against the latter.
pub struct ManifestFetch {
    url: String,
    hops: usize,
}

impl ManifestFetch {
    pub closed spec fn at(self) -> Seq<char> {
        self.url@
    }

    pub closed spec fn hops(self) -> usize {
        self.hops
    }

    /// Whether the way led from `start` over these URLs, in this order, to where
    /// it is now.
    pub open spec fn came_by(self, start: Seq<char>, way: Seq<Seq<char>>) -> bool {
        &&& self.hops() == way.len() <= MAX_REDIRECTS
        &&& self.at() == (if way.len() == 0 {
            start
        } else {
            way.last()
        })
    }

    pub fn new(url: &str) -> (r: ManifestFetch)
        ensures
            r.at() == url@,
            r.hops() == 0,
            r.came_by(url@, Seq::empty()),
    {
        ManifestFetch { url: String::from_str(url), hops: 0 }
    }

    /// The URL to ask, and, once it has answered, the one from which the manifest
    /// came.
    pub fn landed(&self) -> (r: &str)
        ensures
            r@ == self.at(),
    {
        self.url.as_str()
    }

    /// Decides after the manifest could not be fetched: a redirect is a hop to
    /// take while the budget lasts, not a failure to report.
    pub fn failed<'a>(&self, e: &'a FetchError) -> (r: ManifestNext<'a>)
        ensures
            match e.payload {
                Payload::Redirect(x) => if self.hops() < MAX_REDIRECTS {
                    r matches ManifestNext::Hop(loc) && loc@ == x.location@
                } else {
                    r matches ManifestNext::Fail(f) && f.says(
                        ErrorKind::Other,
                        "too many redirects"@,
                    )
                },
                Payload::Message(_) => r is PassOn,
            },
    {
        match Redirect::of(e) {
            Some(x) => if self.hops < MAX_REDIRECTS {
                ManifestNext::Hop(x.location.as_str())
            } else {
                ManifestNext::Fail(too_many_hops())
            },
            None => ManifestNext::PassOn,
        }
    }

    /// Goes on to where a redirect pointed.
    pub fn follow(&mut self, url: String)
        requires
            old(self).hops() < MAX_REDIRECTS,
        ensures
            final(self).at() == url@,
            final(self).hops() == old(self).hops() + 1,
    {
        self.url = url;
        self.hops = self.hops + 1;
    }
}

/// A manifest is read where it landed: after each hop, the place against which
/// its relative URIs resolve is the last URL that was asked, whatever way led
/// there, and no way is longer than the budget.
pub proof fn law_a_manifest_is_read_where_it_landed(
    before: ManifestFetch,
    after: ManifestFetch,
    start: Seq<char>,
    way: Seq<Seq<char>>,
    url: Seq<char>,
)
    requires
        before.came_by(start, way),
        before.hops() < MAX_REDIRECTS,
        after.at() == url,
        after.hops() == before.hops() + 1,
    ensures
        after.came_by(start, way.push(url)),
        after.at() == url,
{
}

/// A segment on the way to where it can be had.
pub struct SegmentFetch {
    segment: Segment,
    hops: usize,
}

impl SegmentFetch {
    pub closed spec fn segment(self) -> Segment {
        self.segment
    }

    pub closed spec fn hops(self) -> usize {
        self.hops
    }

    pub fn new(segment: Segment) -> (r: SegmentFetch)
        ensures
            r.segment() == segment,
            r.hops() == 0,
    {
        SegmentFetch { segment, hops: 0 }
    }

    /// What to ask for. A redirect resolves against its URL.
    pub fn wanted(&self) -> (r: &Segment)
        ensures
            *r == self.segment(),
    {
        &self.segment
    }

    /// Where a failed fetch points, where that is to be followed.
    pub fn failed<'a>(&self, e: &'a FetchError) -> (r: Option<&'a str>)
        ensures
            match r {
                Some(loc) => {
                    &&& self.hops() < MAX_REDIRECTS
                    &&& e.payload matches Payload::Redirect(x) && x.location@ == loc@
                },
                None => self.hops() >= MAX_REDIRECTS || e.payload is Message,
            },
    {
        hop_from(e, self.hops)
    }

    /// Goes on to where a redirect pointed, with the segment's slice and key.
    pub fn follow(self, url: String) -> (r: SegmentFetch)
        requires
            self.hops() < MAX_REDIRECTS,
        ensures
            r.segment().url == url,
            r.segment().range == self.segment().range,
            r.segment().key_uri == self.segment().key_uri,
            r.hops() == self.hops() + 1,
    {
        SegmentFetch { segment: redirect_target(self.segment, url), hops: self.hops + 1 }
    }
}

/// The failure of a manifest that is redirected too often.
pub fn too_many_hops() -> (r: FetchError)
    ensures
        r.says(ErrorKind::Other, "too many redirects"@),
{
    FetchError::plain(ErrorKind::Other, "too many redirects")
}

/// A rendition that a DASH manifest offers.
#[derive(Clone, Debug)]
pub struct Rendition {
    pub height: Option<u32>,
    pub bandwidth: Option<u64>,
}

/// Whether `q` is the list entry for a rendition.
pub open spec fn lists(
    map: Map<Seq<char>, Seq<char>>,
    q: StreamQuality,
    height: Option<u32>,
    bandwidth: Option<u64>,
    url: Option<Seq<char>>,
) -> bool {
    &&& q.label@ == quality_text(map, height, bandwidth)
    &&& q.height == height
    &&& q.bandwidth == bandwidth
    &&& text_of(q.url) == url
}

/// What a DASH manifest offers.
pub fn probe_of_dash(
    catalogue: &Catalogue,
    video: &Vec<Rendition>,
    live: bool,
    duration_secs: Option<u64>,
    has_audio: bool,
    drm: Option<String>,
) -> (r: Result<StreamProbe, String>)
    ensures
        match r {
            Err(e) => video@.len() == 0 && e@ == "the manifest lists no video renditions"@,
            Ok(p) => {
                &&& video@.len() > 0
                &&& p.protocol@ == "dash"@
                &&& p.live == live
                &&& p.duration_secs == duration_secs
                &&& p.separate_audio == has_audio
                &&& p.drm == drm
                &&& !p.is_ts
                &&& p.qualities@.len() == video@.len()
                &&& forall|i: int|
                    0 <= i < video@.len() ==> lists(
                        catalogue@,
                        #[trigger] p.qualities@[i],
                        video@[i].height,
                        video@[i].bandwidth,
                        None,
                    )
            },
        },
{
    if video.len() == 0 {
        return Err(String::from_str("the manifest lists no video renditions"));
    }
    let mut qualities: Vec<StreamQuality> = Vec::new();
    let mut i: usize = 0;
    while i < video.len()
        invariant
            i <= video@.len(),
            qualities@.len() == i,
            forall|j: int|
                0 <= j < i ==> lists(
                    catalogue@,
                    #[trigger] qualities@[j],
                    video@[j].height,
                    video@[j].bandwidth,
                    None,
                ),
        decreases video@.len() - i,
    {
        let height: Option<u32> = video[i].height;
        let bandwidth: Option<u64> = video[i].bandwidth;
        qualities.push(
            StreamQuality {
                label: quality_label(catalogue, height, bandwidth),
                height,
                bandwidth,
                url: None,
            },
        );
        i = i + 1;
    }
    Ok(
        StreamProbe {
            protocol: String::from_str("dash"),
            live,
            duration_secs,
            qualities,
            separate_audio: has_audio,
            drm,
            is_ts: false,
        },
    )
}

/// What is known of a media playlist.
#[derive(Clone, Copy, Debug)]
pub struct MediaFacts {
    pub live: bool,
    /// Whether its segments are MPEG-TS, where that can be told.
    pub is_ts: Option<bool>,
}

/// Which variant of a master playlist is read to learn whether the stream is
/// live and what it is made of: the last and cheapest one.
pub fn sample_variant(variants: &Vec<Variant>) -> (r: Option<&str>)
    ensures
        match r {
            Some(u) => variants@.len() > 0 && u@ == variants@.last().url@,
            None => variants@.len() == 0,
        },
{
    if variants.len() == 0 {
        None
    } else {
        Some(variants[variants.len() - 1].url.as_str())
    }
}

/// Whether a stream is live and made of MPEG-TS, from its top playlist and, for
/// a master, from the variant that was read as a sample.
pub open spec fn stream_facts(
    master: bool,
    top: MediaFacts,
    has_variants: bool,
    sample: Option<MediaFacts>,
) -> (bool, bool) {
    if !master {
        (top.live, top.is_ts != Some(false))
    } else if !has_variants {
        (top.live, true)
    } else {
        match sample {
            Some(s) => (s.live, s.is_ts == Some(true)),
            None => (false, true),
        }
    }
}

/// What an HLS playlist offers: the variants of a master, or the one quality of
/// a media playlist.
pub fn probe_of_hls(
    catalogue: &Catalogue,
    master: bool,
    top: MediaFacts,
    variants: &Vec<Variant>,
    sample: Option<MediaFacts>,
    duration_secs: Option<u64>,
    drm: Option<String>,
) -> (r: StreamProbe)
    ensures
        r.protocol@ == "hls"@,
        (r.live, r.is_ts) == stream_facts(master, top, variants@.len() > 0, sample),
        !master ==> r.live == top.live,
        !master && top.is_ts is Some ==> Some(r.is_ts) == top.is_ts,
        !master && top.is_ts is None ==> r.is_ts,
        master && variants@.len() > 0 && sample is Some ==> r.live == sample->0.live,
        master && variants@.len() > 0 && sample is Some ==> r.is_ts == (sample->0.is_ts == Some(
            true,
        )),
        master && variants@.len() > 0 && sample is None ==> !r.live && r.is_ts,
        master && variants@.len() == 0 ==> r.live == top.live && r.is_ts,
        r.duration_secs == duration_secs,
        !r.separate_audio,
        r.drm == drm,
        if master {
            &&& r.qualities@.len() == variants@.len()
            &&& forall|i: int|
                0 <= i < variants@.len() ==> lists(
                    catalogue@,
                    #[trigger] r.qualities@[i],
                    variants@[i].height,
                    variants@[i].bandwidth,
                    Some(variants@[i].url@),
                )
        } else {
            &&& r.qualities@.len() == 1
            &&& r.qualities@[0].label@ == translation(catalogue@, "Only one quality"@)
            &&& r.qualities@[0].height is None
            &&& r.qualities@[0].bandwidth is None
            &&& r.qualities@[0].url is None
        },
{
    let (live, is_ts) = if !master {
        let ts: bool = match top.is_ts {
            Some(b) => b,
            None => true,
        };
        (top.live, ts)
    } else if variants.len() == 0 {
        (top.live, true)
    } else {
        match sample {
            Some(s) => {
                let ts: bool = match s.is_ts {
                    Some(b) => b,
                    None => false,
                };
                (s.live, ts)
            },
            None => (false, true),
        }
    };
    let mut qualities: Vec<StreamQuality> = Vec::new();
    if master {
        let mut i: usize = 0;
        while i < variants.len()
            invariant
                i <= variants@.len(),
                qualities@.len() == i,
                forall|j: int|
                    0 <= j < i ==> lists(
                        catalogue@,
                        #[trigger] qualities@[j],
                        variants@[j].height,
                        variants@[j].bandwidth,
                        Some(variants@[j].url@),
                    ),
            decreases variants@.len() - i,
        {
            let v = &variants[i];
            qualities.push(
                StreamQuality {
                    label: quality_label(catalogue, v.height, v.bandwidth),
                    height: v.height,
                    bandwidth: v.bandwidth,
                    url: Some(v.url.clone()),
                },
            );
            i = i + 1;
        }
    } else {
        qualities.push(
            StreamQuality {
                label: tr(catalogue, "Only one quality"),
                height: None,
                bandwidth: None,
                url: None,
            },
        );
    }
    StreamProbe {
        protocol: String::from_str("hls"),
        live,
        duration_secs,
        qualities,
        separate_audio: false,
        drm,
        is_ts,
    }
}

/// Tells what the address in a dialog leads to. A DASH manifest is told by its
/// root element first here, wherever it stands.
pub fn tell_address(body: &[u8]) -> (r: Result<Protocol, String>)
    ensures
        ({
            let text = as_text(body@);
            match r {
                Ok(Protocol::Dash) => is_mpd(text),
                Ok(Protocol::Hls) => !is_mpd(text) && is_playlist(text),
                Err(e) => !is_mpd(text) && !is_playlist(text) && e@
                    == "this URL is not an HLS or DASH manifest"@,
            }
        }),
{
    let text = decode_lossy(body);
    let chars = chars_of(text.as_str());
    if looks_like_mpd(chars.as_slice()) {
        return Ok(Protocol::Dash);
    }
    if looks_like_playlist(chars.as_slice()) {
        return Ok(Protocol::Hls);
    }
    Err(String::from_str("this URL is not an HLS or DASH manifest"))
}

/// Whether a new projection of the size is worth announcing: when it moved by
/// more than a hundredth of the one announced last.
pub open spec fn worth_announcing(projected: int, announced: int) -> bool {
    let moved = if projected >= announced {
        projected - announced
    } else {
        announced - projected
    };
    let base = if announced >= 1 {
        announced
    } else {
        1
    };
    projected > 0 && moved > base / 100
}

/// Announces a new projection of the size where that is worth it. A recording
/// has no total, so no size is claimed for it.
pub fn announce_projection(
    id: DlId,
    total_segments: Option<u64>,
    projected: u64,
    announced: u64,
) -> (r: Option<Event>)
    ensures
        match r {
            Some(e) => projected > 0 && projected != announced && worth_announcing(
                projected as int,
                announced as int,
            ) && e.is_size(
                id,
                if total_segments is Some {
                    Some(projected)
                } else {
                    None
                },
            ),
            None => !worth_announcing(projected as int, announced as int),
        },
{
    let moved: u64 = if projected >= announced {
        projected - announced
    } else {
        announced - projected
    };
    let base: u64 = if announced >= 1 {
        announced
    } else {
        1
    };
    if projected > 0 && moved > base / 100 {
        Some(
            Event::Probed {
                id,
                size: if total_segments.is_some() {
                    Some(projected)
                } else {
                    None
                },
                ranges: false,
                file_name: None,
            },
        )
    } else {
        None
    }
}

/// The status line of a stream: how many segments out of how many, or how many
/// were recorded.
pub open spec fn stream_status(
    map: Map<Seq<char>, Seq<char>>,
    total_segments: Option<u64>,
    segments: u64,
) -> Seq<char> {
    match total_segments {
        Some(t) => "Segment "@ + decimal(
            if segments <= t {
                segments as nat
            } else {
                t as nat
            },
        ) + "/"@ + decimal(t as nat),
        None => translation(map, "Recording, segments:"@) + " "@ + decimal(segments as nat),
    }
}

/// Writes the status line of a stream.
pub fn status_line(catalogue: &Catalogue, total_segments: Option<u64>, segments: u64) -> (r: String)
    ensures
        r@ == stream_status(catalogue@, total_segments, segments),
        total_segments is None ==> r@ == translation(catalogue@, "Recording, segments:"@) + " "@
            + decimal(segments as nat),
        total_segments matches Some(t) ==> (segments <= t ==> r@ == "Segment "@ + decimal(
            segments as nat,
        ) + "/"@ + decimal(t as nat)) && (segments > t ==> r@ == "Segment "@ + decimal(t as nat)
            + "/"@ + decimal(t as nat)),
{
    match total_segments {
        Some(t) => {
            let mut s = String::from_str("Segment ");
            let shown: u64 = if segments <= t {
                segments
            } else {
                t
            };
            push_decimal(&mut s, shown);
            s.append("/");
            push_decimal(&mut s, t);
            s
        },
        None => {
            let mut s = tr(catalogue, "Recording, segments:");
            s.append(" ");
            push_decimal(&mut s, segments);
            s
        },
    }
}

/// What a connection of a stream is doing.
#[derive(Clone, Copy, Debug, PartialEq, Eq, Structural)]
pub enum LaneState {
    Unused,
    Connecting,
    Receiving,
    Completed,
    Failed,
}

/// What is said of a connection; spare capacity is left blank.
pub open spec fn lane_text(map: Map<Seq<char>, Seq<char>>, state: LaneState) -> Seq<char> {
    match state {
        LaneState::Unused => Seq::empty(),
        LaneState::Connecting => translation(map, "Connecting..."@),
        LaneState::Receiving => translation(map, "Receiving data..."@),
        LaneState::Completed => translation(map, "Completed."@),
        LaneState::Failed => translation(map, "Disconnect."@),
    }
}

/// The row of a connection.
pub fn lane_row(catalogue: &Catalogue, bytes: u64, state: LaneState) -> (r: ConnRow)
    ensures
        r.downloaded == bytes,
        r.info@ == lane_text(catalogue@, state),
        state is Unused ==> r.info@.len() == 0,
        state is Connecting ==> r.info@ == translation(catalogue@, "Connecting..."@),
        state is Receiving ==> r.info@ == translation(catalogue@, "Receiving data..."@),
        state is Completed ==> r.info@ == translation(catalogue@, "Completed."@),
        state is Failed ==> r.info@ == translation(catalogue@, "Disconnect."@),
{
    let info = match state {
        LaneState::Unused => String::new(),
        LaneState::Connecting => tr(catalogue, "Connecting..."),
        LaneState::Receiving => tr(catalogue, "Receiving data..."),
        LaneState::Completed => tr(catalogue, "Completed."),
        LaneState::Failed => tr(catalogue, "Disconnect."),
    };
    ConnRow { downloaded: bytes, info }
}

/// The row of a segment in flight, for want of connections to show.
pub fn flight_row(catalogue: &Catalogue, bytes: u64) -> (r: ConnRow)
    ensures
        r.downloaded == bytes,
        r.info@ == lane_text(
            catalogue@,
            if bytes > 0 {
                LaneState::Receiving
            } else {
                LaneState::Connecting
            },
        ),
{
    if bytes > 0 {
        lane_row(catalogue, bytes, LaneState::Receiving)
    } else {
        lane_row(catalogue, bytes, LaneState::Connecting)
    }
}

/// A request for a segment carries the browser's session and asks for the
/// segment's slice: each of its cookies, its referrer and its range, where there
/// is one, is a header of its own, in this order, and there is no other.
pub proof fn law_a_segment_request_carries_its_session(
    cookies: Option<&str>,
    referer: Option<&str>,
    range: Option<String>,
)
    ensures
        ({
            let lines = segment_header_lines(cookies, referer, range);
            let c: int = if cookies matches Some(c) && c@.len() > 0 {
                1
            } else {
                0
            };
            let f: int = if referer matches Some(u) && u@.len() > 0 {
                1
            } else {
                0
            };
            let s: int = if range is Some {
                1
            } else {
                0
            };
            &&& lines.len() == c + f + s
            &&& c == 1 ==> lines[0] == "Cookie: "@ + cookies->0@
            &&& f == 1 ==> lines[c] == "Referer: "@ + referer->0@
            &&& s == 1 ==> lines[c + f] == "Range: "@ + range->0@
            &&& c == 1 ==> lines.contains("Cookie: "@ + cookies->0@)
            &&& f == 1 ==> lines.contains("Referer: "@ + referer->0@)
            &&& s == 1 ==> lines.contains("Range: "@ + range->0@)
        }),
{
    let lines = segment_header_lines(cookies, referer, range);
    let c: int = if cookies matches Some(c) && c@.len() > 0 {
        1
    } else {
        0
    };
    let f: int = if referer matches Some(u) && u@.len() > 0 {
        1
    } else {
        0
    };
    if c == 1 {
        assert(lines[0] == "Cookie: "@ + cookies->0@);
    }
    if f == 1 {
        assert(lines[c] == "Referer: "@ + referer->0@);
    }
    if range is Some {
        assert(lines[c + f] == "Range: "@ + range->0@);
    }
}

/// What a stream is, is told by its media playlist: by the playlist itself, or,
/// behind a master, by the variant that was read as a sample.
pub proof fn law_the_media_playlist_knows(master: bool, top: MediaFacts, sample: MediaFacts)
    ensures
        stream_facts(true, top, true, Some(sample)).0 == sample.live,
        stream_facts(false, top, true, Some(sample)).0 == top.live,
        stream_facts(false, top, false, None).0 == top.live,
        sample.is_ts is Some ==> stream_facts(true, top, true, Some(sample)).1
            == sample.is_ts->0,
        top.is_ts is Some ==> stream_facts(false, top, true, Some(sample)).1 == top.is_ts->0,
{
}

/// A text is told for a playlist by its first line, and for a DASH manifest by
/// its root element, wherever it stands.
pub proof fn law_manifests_are_told_by_their_marks(front: Seq<char>, rest: Seq<char>)
    ensures
        is_playlist("#EXTM3U"@ + rest),
        is_mpd(front + "<MPD"@ + rest),
{
    reveal_strlit("#EXTM3U");
    reveal_strlit("<MPD");
    let a = "#EXTM3U"@ + rest;
    assert(a[0] == '#');
    assert(trimmed_start(a) == a);
    assert(a.subrange(0, "#EXTM3U"@.len() as int) =~= "#EXTM3U"@);
    let b = front + "<MPD"@ + rest;
    let n = front.len() as int;
    assert(b.subrange(n, n + "<MPD"@.len()) =~= "<MPD"@);
    assert(crate::text::stands_at(b, "<MPD"@, n));
}

/// What is told for a playlist begins with its mark, and what is told for a DASH
/// manifest holds its root element.
pub proof fn law_nothing_else_is_a_manifest(text: Seq<char>)
    ensures
        is_playlist(text) ==> "#EXTM3U"@.len() <= trimmed_start(text).len() && trimmed_start(
            text,
        ).take("#EXTM3U"@.len() as int) == "#EXTM3U"@,
        is_mpd(text) ==> exists|i: int|
            0 <= i <= text.len() - "<MPD"@.len() && #[trigger] text.subrange(i, i + "<MPD"@.len())
                == "<MPD"@,
{
    if is_playlist(text) {
        let t = trimmed_start(text);
        assert(t.take("#EXTM3U"@.len() as int) =~= t.subrange(0, "#EXTM3U"@.len() as int));
    }
    if is_mpd(text) {
        let i = choose|i: int| crate::text::stands_at(text, "<MPD"@, i);
        assert(text.subrange(i, i + "<MPD"@.len()) == "<MPD"@);
    }
}

/// A new projection is announced when it moved by more than a hundredth, and
/// only then: small changes are not worth an event, and a size of nothing is no
/// size.
pub proof fn law_only_a_real_change_is_announced(projected: int, announced: int)
    requires
        projected >= 0,
        announced >= 0,
    ensures
        !worth_announcing(0, announced),
        !worth_announcing(announced, announced),
        projected > 0 && announced == 0 ==> worth_announcing(projected, announced),
        projected > 0 && announced > 0 && projected >= announced ==> worth_announcing(
            projected,
            announced,
        ) == (projected - announced > announced / 100),
        projected > 0 && announced > 0 && projected < announced ==> worth_announcing(
            projected,
            announced,
        ) == (announced - projected > announced / 100),
{
}

/// The tracks of an assembly are the video and, where it was fetched apart, the
/// audio behind it; its totals are theirs.
pub proof fn law_an_assembly_is_its_tracks(v: TrackPlan, a: TrackPlan)
    ensures
        Assembly::Single(v).tracks() == seq![v],
        Assembly::VideoAudio(v, a).tracks() == seq![v, a],
        Assembly::Single(v).segment_total() == v.segments,
        Assembly::VideoAudio(v, a).segment_total() == v.segments + a.segments,
        v.estimated is None ==> estimate_of(v) == 0,
        v.estimated matches Some(n) ==> estimate_of(v) == n,
        Assembly::Single(v).estimated_total() == estimate_of(v),
        Assembly::VideoAudio(v, a).estimated_total() == estimate_of(v) + estimate_of(a),
{
}

/// The key that is asked for is the first that the track needs and that is not
/// there; a track whose keys are all there asks for none.
pub proof fn law_the_first_missing_key_is_asked_for(
    keys: Map<Seq<char>, Seq<u8>>,
    p: TrackPlan,
    uri: Seq<char>,
)
    ensures
        is_first_missing(keys, p, uri) ==> !keys.dom().contains(uri) && texts(
            p.key_uris@,
        ).contains(uri) && !has_keys(keys, p),
        is_first_missing(keys, p, uri) <==> exists|i: int|
            0 <= i < p.key_uris@.len() && (#[trigger] p.key_uris@[i])@ == uri
                && !keys.dom().contains(uri) && texts(p.key_uris@.take(i)).to_set().subset_of(
                keys.dom(),
            ),
        has_keys(keys, p) <==> forall|i: int|
            0 <= i < p.key_uris@.len() ==> keys.dom().contains((#[trigger] p.key_uris@[i])@),
{
    if is_first_missing(keys, p, uri) {
        let i = choose|i: int|
            0 <= i < p.key_uris@.len() && (#[trigger] p.key_uris@[i])@ == uri
                && !keys.dom().contains(uri) && forall|j: int|
                0 <= j < i ==> keys.dom().contains((#[trigger] p.key_uris@[j])@);
        assert(texts(p.key_uris@)[i] == uri);
        let before = texts(p.key_uris@.take(i));
        assert forall|u: Seq<char>| before.to_set().contains(u) implies keys.dom().contains(u) by {
            let j = choose|j: int| 0 <= j < before.len() && before[j] == u;
            assert(p.key_uris@[j]@ == u);
        }
    }
    if exists|i: int|
        0 <= i < p.key_uris@.len() && (#[trigger] p.key_uris@[i])@ == uri && !keys.dom().contains(
            uri,
        ) && texts(p.key_uris@.take(i)).to_set().subset_of(keys.dom()) {
        let i = choose|i: int|
            0 <= i < p.key_uris@.len() && (#[trigger] p.key_uris@[i])@ == uri
                && !keys.dom().contains(uri) && texts(p.key_uris@.take(i)).to_set().subset_of(
                keys.dom(),
            );
        let before = texts(p.key_uris@.take(i));
        assert forall|j: int| 0 <= j < i implies keys.dom().contains(
            (#[trigger] p.key_uris@[j])@,
        ) by {
            assert(before[j] == p.key_uris@[j]@);
            assert(before.to_set().contains(before[j]));
        }
    }
}

/// A key that is put on the ring is found there under its place, and the others
/// stay as they were.
pub proof fn law_a_key_is_found_where_it_came_from(
    v: Seq<(String, Vec<u8>)>,
    entry: (String, Vec<u8>),
    uri: Seq<char>,
)
    ensures
        key_map(Seq::<(String, Vec<u8>)>::empty()).dom() == Set::<Seq<char>>::empty(),
        key_map(v.push(entry)).dom().contains(entry.0@),
        key_map(v.push(entry))[entry.0@] == entry.1@,
        uri != entry.0@ ==> key_map(v.push(entry)).dom().contains(uri) == key_map(
            v,
        ).dom().contains(uri),
        uri != entry.0@ && key_map(v).dom().contains(uri) ==> key_map(v.push(entry))[uri]
            == key_map(v)[uri],
{
    assert(v.push(entry).drop_last() =~= v);
    assert(key_map(Seq::<(String, Vec<u8>)>::empty()).dom() =~= Set::<Seq<char>>::empty());
}

/// Pieces put together keep every byte in its place: those of the first piece
/// come first, and those of the others follow.
pub proof fn law_pieces_follow_each_other(first: Seq<u8>, rest: Seq<Seq<u8>>)
    ensures
        joined(Seq::<Seq<u8>>::empty()) == Seq::<u8>::empty(),
        joined(seq![first] + rest) == first + joined(rest),
{
    assert((seq![first] + rest).skip(1) =~= rest);
}

/// The places from one number up to another are those numbers, in order.
pub proof fn law_places_count_up(a: int, b: int, i: int)
    requires
        a <= b,
        0 <= i < b - a,
    ensures
        from_to(a, b).len() == b - a,
        from_to(a, b)[i] == a + i,
{
}

/// An entry of the quality list says of a rendition what the manifest says.
pub proof fn law_a_list_entry_is_its_rendition(
    map: Map<Seq<char>, Seq<char>>,
    q: StreamQuality,
    height: Option<u32>,
    bandwidth: Option<u64>,
    url: Option<Seq<char>>,
)
    requires
        lists(map, q, height, bandwidth, url),
    ensures
        q.height == height,
        q.bandwidth == bandwidth,
        url is None ==> q.url is None,
        url matches Some(u) ==> q.url matches Some(s) && s@ == u,
        q.label@ == quality_text(map, height, bandwidth),
{
}

/// An assembly is keyed once every key of every track is there, of the audio as
/// well as of the video.
pub proof fn law_every_track_needs_its_keys(a: Assembling, i: int, k: int)
    requires
        a.keyed(),
        0 <= i < a.assembly().tracks().len(),
        0 <= k < a.assembly().tracks()[i].key_uris@.len(),
    ensures
        a.keys().dom().contains(a.assembly().tracks()[i].key_uris@[k]@),
{
    assert(has_keys(a.keys(), a.assembly().tracks()[i]));
}

/// A track works in files of its own, named after it, and carries on exactly
/// where its checkpoint is of use.
pub proof fn law_a_job_is_its_tracks(
    job: Job,
    temp: Seq<char>,
    track: nat,
    saved: Checkpoint,
    usable: bool,
)
    ensures
        job.is_for(temp, track as int, saved, usable) <==> job.part@ == temp + ".t"@ + decimal(
            track,
        ) && job.staging@ == temp + ".s"@ + decimal(track) && job.checkpoint@ == temp + ".t"@
            + decimal(track) + ".ck"@ && job.start_clean == !usable && (usable ==> job.resumed
            == saved) && (!usable ==> job.resumed.segments == 0 && job.resumed.bytes == 0),
{
}

/// What a track asks for is what lies behind its checkpoint, and nothing once it
/// has all.
pub proof fn law_what_is_asked_lies_behind_the_checkpoint(resumed: Checkpoint, plan: TrackPlan, i: int)
    ensures
        asked(resumed, plan).contains(i) <==> resumed.segments <= i < plan.segments,
{
    if resumed.segments <= i < plan.segments {
        assert(asked(resumed, plan)[i - resumed.segments] == i);
    }
}

} // verus!
