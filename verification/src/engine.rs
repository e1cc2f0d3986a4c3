//! The download engine's protocol: the commands it takes, the events it
//! reports, the table of running transfers, and the texts that go with them.

use crate::encode::{base64, percent_decode};
#[allow(unused_imports)]
use crate::encode::{base64_text, percent_bytes};
use crate::error::ErrorKind;
use crate::i18n::{tr, Catalogue};
#[allow(unused_imports)]
use crate::i18n::translation;
use crate::probe::Probe;
use crate::text::{chars_of, cut_after_last, cut_before, push_decimal, string_of, trim};
#[allow(unused_imports)]
use crate::bytes::as_text;
#[allow(unused_imports)]
use crate::text::{after_last, before_first, decimal, texts, trimmed};
use std::collections::HashMap;
use vstd::prelude::*;
#[allow(unused_imports)]
use vstd::utf8::encode_utf8;

verus! {

/// The identity of a download.
pub type DlId = u64;

/// A file to download.
#[derive(Clone, Debug)]
pub struct StartSpec {
    pub id: DlId,
    pub url: String,
    /// Login and password.
    pub auth: Option<(String, String)>,
    pub conns: usize,
    pub user_agent: String,
    pub temp_path: String,
    pub final_path: String,
    /// Spans already on disk from a previous run.
    pub held: Vec<(u64, u64)>,
    /// Size the previous source reported. A mirror serving a different size
    /// is a different object: held spans are dropped instead of spliced.
    pub expected_size: Option<u64>,
    /// `Cookie:` header value, verbatim.
    pub cookies: Option<String>,
    /// Aggregate cap in bytes per second; `None` is unlimited.
    pub limit: Option<u64>,
    /// Start at one connection and admit more while they pay for themselves;
    /// `conns` is then a ceiling, not a target.
    pub adaptive: bool,
    /// Stamp the finished file with the date the server reported.
    pub remote_time: bool,
}

/// An adaptive stream to assemble.
#[derive(Clone, Debug)]
pub struct StreamSpec {
    pub id: DlId,
    /// The manifest as the browser saw it.
    pub manifest: String,
    /// What the manifest was announced as; what its body is wins.
    pub protocol: String,
    /// The exact variant playlist the user picked, when they picked one.
    pub variant_url: Option<String>,
    pub height: Option<u32>,
    pub bandwidth: Option<u64>,
    /// What the user asked the finished file to be.
    pub container: String,
    pub cookies: Option<String>,
    pub referer: Option<String>,
    pub user_agent: String,
    pub temp_path: String,
    pub final_path: String,
    /// Segments in flight; zero for no preference.
    pub conns: usize,
    /// Stop a live recording after this many seconds and finish the file.
    pub max_seconds: Option<u64>,
    /// Aggregate cap in bytes per second; `None` is unlimited.
    pub limit: Option<u64>,
}

/// What a manifest offers, read before anything is downloaded.
#[derive(Clone, Debug)]
pub struct StreamProbe {
    /// `hls` or `dash`.
    pub protocol: String,
    pub live: bool,
    /// Whole seconds, when the manifest states a duration.
    pub duration_secs: Option<u64>,
    pub qualities: Vec<StreamQuality>,
    /// Audio comes in a rendition of its own.
    pub separate_audio: bool,
    /// Set when the manifest names a DRM system, which is a refusal.
    pub drm: Option<String>,
    /// The segments are MPEG-TS and can be saved as such.
    pub is_ts: bool,
}

impl Default for StreamProbe {
    fn default() -> (r: StreamProbe)
        ensures
            r.protocol@ == Seq::<char>::empty(),
            !r.live,
            r.duration_secs is None,
            r.qualities@ == Seq::<StreamQuality>::empty(),
            !r.separate_audio,
            r.drm is None,
            !r.is_ts,
    {
        StreamProbe {
            protocol: String::new(),
            live: false,
            duration_secs: None,
            qualities: Vec::new(),
            separate_audio: false,
            drm: None,
            is_ts: false,
        }
    }
}

/// One rendition the user can pick; it reads as its label.
#[derive(Clone, Debug, PartialEq, Eq)]
pub struct StreamQuality {
    pub label: String,
    pub height: Option<u32>,
    pub bandwidth: Option<u64>,
    /// The variant playlist, for HLS.
    pub url: Option<String>,
}

impl Default for StreamQuality {
    fn default() -> (r: StreamQuality)
        ensures
            r.label@ == Seq::<char>::empty(),
            r.height is None,
            r.bandwidth is None,
            r.url is None,
    {
        StreamQuality { label: String::new(), height: None, bandwidth: None, url: None }
    }
}

/// A command to the engine.
#[derive(Debug)]
pub enum Cmd {
    Start(Box<StartSpec>),
    /// Assemble a stream into one file.
    StartStream(Box<StreamSpec>),
    /// Stop the sockets and report what is there.
    Stop(DlId),
    SetLimit(DlId, Option<u64>),
    /// Say anew where the finished file lands.
    SetFinalPath(DlId, String),
    /// A transfer ended, with any outcome. It carries the ticket under which
    /// it was started, so that it can only evict its own entry.
    Done(DlId, u64),
}

/// One row of the connection table.
#[derive(Clone, Debug)]
pub struct ConnRow {
    pub downloaded: u64,
    pub info: String,
}

/// What the engine reports.
#[derive(Clone, Debug)]
pub enum Event {
    Probed { id: DlId, size: Option<u64>, ranges: bool, file_name: Option<String> },
    Status { id: DlId, line: String },
    Finished { id: DlId, size: u64 },
    /// A stop is acknowledged, with what is on disk.
    Stopped { id: DlId, done: u64, held: Vec<(u64, u64)> },
    Failed {
        id: DlId,
        error: String,
        done: u64,
        held: Vec<(u64, u64)>,
        /// The operating system refused access to a file.
        permission_denied: bool,
    },
}

/// What a link turns out to be, once its redirects have been resolved.
#[derive(Clone, Debug)]
pub struct LinkMeta {
    /// `None` when the server would not state one.
    pub size: Option<u64>,
    /// The name to save under: the one the server gave, else the last segment
    /// of the final URL's path.
    pub file_name: String,
}

/// A URL taken apart.
#[derive(Clone, Debug)]
pub struct ParsedUrl {
    pub tls: bool,
    pub ftp: bool,
    pub host: String,
    pub port: u16,
    pub path: String,
}

impl Event {
    /// Whether this reports a failure with nothing else to say of the file.
    pub open spec fn is_failure(
        self,
        id: DlId,
        error: Seq<char>,
        done: int,
        held: Seq<(u64, u64)>,
        denied: bool,
    ) -> bool {
        self matches Event::Failed { id: i, error: e, done: d, held: h, permission_denied: p } && i
            == id && e@ == error && d == done && h@ == held && p == denied
    }

    /// Whether this acknowledges a stop.
    pub open spec fn is_stop(self, id: DlId, done: int, held: Seq<(u64, u64)>) -> bool {
        self matches Event::Stopped { id: i, done: d, held: h } && i == id && d == done && h@
            == held
    }

    /// Whether this announces a size and nothing else.
    pub open spec fn is_size(self, id: DlId, size: Option<u64>) -> bool {
        self matches Event::Probed { id: i, size: s, ranges: r, file_name: f } && i == id && s
            == size && !r && f is None
    }
}

/// Copies a list of spans.
pub fn copy_spans(v: &Vec<(u64, u64)>) -> (r: Vec<(u64, u64)>)
    ensures
        r@ == v@,
{
    let mut out: Vec<(u64, u64)> = Vec::new();
    let mut i: usize = 0;
    while i < v.len()
        invariant
            i <= v@.len(),
            out@ == v@.take(i as int),
        decreases v@.len() - i,
    {
        out.push(v[i]);
        i = i + 1;
        proof {
            assert(v@.take(i as int) =~= v@.take(i - 1).push(v@[i - 1]));
        }
    }
    proof {
        assert(v@.take(i as int) =~= v@);
    }
    out
}

/// What is left of the running transfers once the one with this ticket ended.
pub open spec fn evicted<H>(running: Map<DlId, (u64, H)>, id: DlId, ticket: u64) -> Map<
    DlId,
    (u64, H),
> {
    if running.dom().contains(id) && running[id].0 == ticket {
        running.remove(id)
    } else {
        running
    }
}

/// A transfer that was stopped and started again is not evicted by the end of
/// its predecessor, which held another ticket.
pub proof fn law_an_old_ticket_evicts_nothing<H>(
    running: Map<DlId, (u64, H)>,
    id: DlId,
    old_ticket: u64,
    new_ticket: u64,
    handle: H,
)
    requires
        old_ticket != new_ticket,
    ensures
        evicted(running.insert(id, (new_ticket, handle)), id, old_ticket) == running.insert(
            id,
            (new_ticket, handle),
        ),
{
}

/// The running transfers, each under its download's identity. `H` is what the
/// engine holds of a transfer: its stop flag, its limiter, its destination.
pub struct LiveTable<H> {
    entries: HashMap<DlId, (u64, H)>,
    next: u64,
}

proof fn lemma_wf_subset<H>(old_table: LiveTable<H>, new_table: LiveTable<H>)
    requires
        old_table.wf(),
        new_table.next_ticket() == old_table.next_ticket(),
        new_table.running().submap_of(old_table.running()),
    ensures
        new_table.wf(),
{
    let a = old_table.running();
    let b = new_table.running();
    assert forall|id: DlId| #[trigger] b.dom().contains(id) implies b[id].0
        < new_table.next_ticket() by {
        assert(a.dom().contains(id));
    }
    assert forall|x: DlId, y: DlId|
        #[trigger] b.dom().contains(x) && #[trigger] b.dom().contains(y) && x != y implies b[x].0
        != b[y].0 by {
        assert(a.dom().contains(x) && a.dom().contains(y));
    }
}

impl<H> LiveTable<H> {
    /// Each running transfer with the ticket it was started under.
    pub closed spec fn running(self) -> Map<DlId, (u64, H)> {
        self.entries@
    }

    /// The ticket of the next start.
    pub closed spec fn next_ticket(self) -> u64 {
        self.next
    }

    /// No ticket that is still to be given out is in use, and none is in use
    /// twice.
    pub open spec fn wf(self) -> bool {
        &&& forall|id: DlId| #[trigger]
            self.running().dom().contains(id) ==> self.running()[id].0 < self.next_ticket()
        &&& forall|a: DlId, b: DlId|
            #[trigger] self.running().dom().contains(a) && #[trigger] self.running().dom().contains(
                b,
            ) && a != b ==> self.running()[a].0 != self.running()[b].0
    }

    pub fn new() -> (r: LiveTable<H>)
        ensures
            r.wf(),
            r.running() == Map::<DlId, (u64, H)>::empty(),
            r.next_ticket() == 0,
    {
        LiveTable { entries: HashMap::new(), next: 0 }
    }

    /// Whether there is a ticket left.
    pub fn can_start(&self) -> (r: bool)
        ensures
            r == (self.next_ticket() < u64::MAX),
    {
        self.next < u64::MAX
    }

    /// Enters a transfer that is about to run, in place of one that runs under
    /// the same identity, and gives it a ticket.
    pub fn start(&mut self, id: DlId, handle: H) -> (r: u64)
        requires
            old(self).wf(),
            old(self).next_ticket() < u64::MAX,
        ensures
            final(self).wf(),
            r == old(self).next_ticket(),
            final(self).next_ticket() == r + 1,
            final(self).running() == old(self).running().insert(id, (r, handle)),
            forall|other: DlId| #[trigger]
                old(self).running().dom().contains(other) ==> old(self).running()[other].0 != r,
    {
        broadcast use vstd::std_specs::hash::group_hash_axioms;

        let ticket: u64 = self.next;
        self.entries.insert(id, (ticket, handle));
        self.next = ticket + 1;
        proof {
            let a = old(self).running();
            let b = self.running();
            assert forall|x: DlId| #[trigger] b.dom().contains(x) implies b[x].0
                < self.next_ticket() by {
                if x != id {
                    assert(a.dom().contains(x));
                }
            }
            assert forall|x: DlId, y: DlId|
                #[trigger] b.dom().contains(x) && #[trigger] b.dom().contains(y) && x
                    != y implies b[x].0 != b[y].0 by {
                if x != id {
                    assert(a.dom().contains(x));
                }
                if y != id {
                    assert(a.dom().contains(y));
                }
            }
        }
        ticket
    }

    /// Takes a transfer out that is to be stopped; the caller raises its flag.
    pub fn stop(&mut self, id: DlId) -> (r: Option<H>)
        requires
            old(self).wf(),
        ensures
            final(self).wf(),
            final(self).next_ticket() == old(self).next_ticket(),
            final(self).running() == old(self).running().remove(id),
            match r {
                Some(h) => old(self).running().dom().contains(id) && h == old(
                    self,
                ).running()[id].1,
                None => !old(self).running().dom().contains(id),
            },
    {
        broadcast use vstd::std_specs::hash::group_hash_axioms;

        let taken = self.entries.remove(&id);
        proof {
            assert(self.entries@ =~= old(self).entries@.remove(id));
            lemma_wf_subset(*old(self), *self);
        }
        match taken {
            Some(e) => Some(e.1),
            None => None,
        }
    }

    /// What is held of a transfer, where it runs.
    pub fn get(&self, id: DlId) -> (r: Option<&H>)
        ensures
            match r {
                Some(h) => self.running().dom().contains(id) && *h == self.running()[id].1,
                None => !self.running().dom().contains(id),
            },
    {
        broadcast use vstd::std_specs::hash::group_hash_axioms;

        match self.entries.get(&id) {
            Some(e) => Some(&e.1),
            None => None,
        }
    }

    /// Drops the entry of a transfer that ended. After a quick stop and start
    /// the entry under its identity belongs to its successor, and stays.
    pub fn done(&mut self, id: DlId, ticket: u64)
        requires
            old(self).wf(),
        ensures
            final(self).wf(),
            final(self).next_ticket() == old(self).next_ticket(),
            final(self).running() == evicted(old(self).running(), id, ticket),
    {
        broadcast use vstd::std_specs::hash::group_hash_axioms;

        let own: bool = match self.entries.get(&id) {
            Some(e) => e.0 == ticket,
            None => false,
        };
        if own {
            self.entries.remove(&id);
            proof {
                lemma_wf_subset(*old(self), *self);
            }
        }
    }
}

/// The way into the engine, which starts with the first command.
pub struct Engine {
    started: bool,
    power_save: bool,
    mailbox: Vec<Cmd>,
}

impl Engine {
    pub closed spec fn is_started(self) -> bool {
        self.started
    }

    pub closed spec fn saves_power(self) -> bool {
        self.power_save
    }

    /// The commands that the engine has not taken yet, oldest first.
    pub closed spec fn waiting(self) -> Seq<Cmd> {
        self.mailbox@
    }

    pub fn new() -> (r: Engine)
        ensures
            !r.is_started(),
            !r.saves_power(),
            r.waiting() == Seq::<Cmd>::empty(),
    {
        Engine { started: false, power_save: false, mailbox: Vec::new() }
    }

    /// Takes the waiting commands, oldest first.
    pub fn take_commands(&mut self) -> (r: Vec<Cmd>)
        ensures
            r@ == old(self).waiting(),
            final(self).waiting() == Seq::<Cmd>::empty(),
            final(self).is_started() == old(self).is_started(),
            final(self).saves_power() == old(self).saves_power(),
    {
        let mut out: Vec<Cmd> = Vec::new();
        out.append(&mut self.mailbox);
        proof {
            assert(out@ =~= old(self).mailbox@);
        }
        out
    }
}

/// Switches power saving: coarser ticks and a slower cadence of events.
pub fn set_power_save(engine: &mut Engine, on: bool)
    ensures
        final(engine).saves_power() == on,
        final(engine).is_started() == old(engine).is_started(),
        final(engine).waiting() == old(engine).waiting(),
{
    engine.power_save = on;
}

/// Milliseconds between progress events.
pub fn emit_interval_ms(engine: &Engine) -> (r: u64)
    ensures
        r == (if engine.saves_power() {
            500u64
        } else {
            100u64
        }),
{
    if engine.power_save {
        500
    } else {
        100
    }
}

/// Milliseconds between the ticks of a ranged transfer.
pub fn tick_ms(engine: &Engine) -> (r: u64)
    ensures
        r == (if engine.saves_power() {
            80u64
        } else {
            20u64
        }),
{
    if engine.power_save {
        80
    } else {
        20
    }
}

/// Milliseconds between the progress events of a stream.
pub fn stream_tick_ms(engine: &Engine) -> (r: u64)
    ensures
        r == (if engine.saves_power() {
            400u64
        } else {
            100u64
        }),
{
    if engine.power_save {
        400
    } else {
        100
    }
}

/// Starts the engine without a command. The result says whether this was what
/// started it; the caller then brings its thread up.
pub fn ensure_started(engine: &mut Engine) -> (r: bool)
    ensures
        r == !old(engine).is_started(),
        final(engine).is_started(),
        final(engine).waiting() == old(engine).waiting(),
        final(engine).saves_power() == old(engine).saves_power(),
{
    let first = !engine.started;
    engine.started = true;
    first
}

/// Sends a command, starting the engine where it has not been. The result says
/// whether this was what started it.
pub fn send(engine: &mut Engine, cmd: Cmd) -> (r: bool)
    ensures
        r == !old(engine).is_started(),
        final(engine).is_started(),
        final(engine).waiting() == old(engine).waiting().push(cmd),
        final(engine).saves_power() == old(engine).saves_power(),
{
    let first = ensure_started(engine);
    engine.mailbox.push(cmd);
    first
}

/// The rate for a limiter: zero stands for unlimited.
pub fn rate_of(limit: Option<u64>) -> (r: u64)
    ensures
        r == (match limit {
            Some(n) => n,
            None => 0,
        }),
{
    match limit {
        Some(n) => n,
        None => 0,
    }
}

/// Whether a download directory is to be dropped and made anew: it cannot be
/// written to for want of permission, but is empty, so nothing is lost.
pub fn should_recreate(write_failed: Option<ErrorKind>, is_empty: bool) -> (r: bool)
    ensures
        r == (write_failed == Some(ErrorKind::PermissionDenied) && is_empty),
{
    match write_failed {
        Some(kind) => kind == ErrorKind::PermissionDenied && is_empty,
        None => false,
    }
}

/// What the user is told of a refused file access.
pub open spec fn denied_msgid() -> Seq<char> {
    "Access to the download folder was denied. Allow Hydra under System Settings > Privacy & Security > Files and Folders, or choose another folder."@
}

/// The text for a failure at `path`: that the system refused access deserves
/// an explanation, anything else is shown as it is.
pub open spec fn io_text(
    map: Map<Seq<char>, Seq<char>>,
    kind: ErrorKind,
    text: Seq<char>,
    path: Seq<char>,
) -> Seq<char> {
    if kind == ErrorKind::PermissionDenied {
        translation(map, denied_msgid()) + " ("@ + path + ")"@
    } else {
        text
    }
}

/// Explains a failure at `path` to the user.
pub fn friendly_io(catalogue: &Catalogue, kind: ErrorKind, text: &str, path: &str) -> (r: String)
    ensures
        r@ == io_text(catalogue@, kind, text@, path@),
{
    if kind == ErrorKind::PermissionDenied {
        let mut out = tr(
            catalogue,
            "Access to the download folder was denied. Allow Hydra under System Settings > Privacy & Security > Files and Folders, or choose another folder.",
        );
        out.append(" (");
        out.append(path);
        out.append(")");
        out
    } else {
        String::from_str(text)
    }
}

/// The last segment of a URL's path, without its query.
pub open spec fn last_segment(path: Seq<char>) -> Seq<char> {
    after_last(before_first(path, '?'), '/')
}

/// The name under which to save what a URL's path names: its last segment,
/// decoded. A path that ends in a slash names an index page, and so does a URL
/// that cannot be taken apart.
pub fn file_name_from_url(path: Option<&str>) -> (r: String)
    ensures
        ({
            let segment = match path {
                Some(p) => last_segment(p@),
                None => Seq::empty(),
            };
            let name = as_text(percent_bytes(encode_utf8(segment)));
            r@ == (if name.len() == 0 {
                "index.html"@
            } else {
                name
            })
        }),
{
    let name = match path {
        Some(p) => {
            let chars = chars_of(p);
            let segment = string_of(cut_after_last(cut_before(chars.as_slice(), '?'), '/'));
            percent_decode(segment.as_str())
        },
        None => {
            let empty = String::new();
            percent_decode(empty.as_str())
        },
    };
    let chars = chars_of(name.as_str());
    if chars.len() == 0 {
        String::from_str("index.html")
    } else {
        name
    }
}

/// The header lines that a download adds to its requests: its login, and the
/// browser's cookies where there are any.
pub open spec fn download_header_lines(
    auth: Option<(String, String)>,
    cookies: Option<String>,
) -> Seq<Seq<char>> {
    (match auth {
        Some((user, pass)) => seq![
            "Authorization: Basic "@ + base64_text(encode_utf8(user@ + ":"@ + pass@)),
        ],
        None => Seq::empty(),
    }) + (match cookies {
        Some(c) if trimmed(c@).len() > 0 => seq!["Cookie: "@ + trimmed(c@)],
        _ => Seq::empty(),
    })
}

/// Writes the header lines that a download adds to its requests.
pub fn download_headers(spec: &StartSpec) -> (r: Vec<String>)
    ensures
        texts(r@) == download_header_lines(spec.auth, spec.cookies),
{
    let mut headers: Vec<String> = Vec::new();
    if let Some((user, pass)) = &spec.auth {
        let mut plain = String::new();
        plain.append(user.as_str());
        plain.append(":");
        plain.append(pass.as_str());
        let code = base64(plain.as_str().as_bytes());
        let mut line = String::from_str("Authorization: Basic ");
        line.append(code.as_str());
        headers.push(line);
        proof {
            assert(plain@ =~= user@ + ":"@ + pass@);
        }
    }
    if let Some(c) = &spec.cookies {
        let chars = chars_of(c.as_str());
        let value = trim(chars.as_slice());
        if value.len() > 0 {
            let mut line = String::from_str("Cookie: ");
            line.append(string_of(value).as_str());
            headers.push(line);
        }
    }
    proof {
        assert(texts(headers@) =~= download_header_lines(spec.auth, spec.cookies));
    }
    headers
}

/// The date by which a finished file may be stamped, as the server wrote it:
/// `Last-Modified`, else the validator, which is that date where the server
/// sent no ETag.
pub fn remote_date(p: &Probe) -> (r: Option<&str>)
    ensures
        match r {
            Some(s) => match p.last_modified {
                Some(d) => s@ == d@,
                None => p.validator matches Some(v) && s@ == v@,
            },
            None => p.last_modified is None && p.validator is None,
        },
{
    match &p.last_modified {
        Some(d) => Some(d.as_str()),
        None => match &p.validator {
            Some(v) => Some(v.as_str()),
            None => None,
        },
    }
}

/// Why a protected stream is refused.
pub open spec fn drm_msgid() -> Seq<char> {
    "this stream is protected. Hydra does not bypass the technical measures that protect audio and video content, so it cannot be downloaded."@
}

/// The refusal of a protected stream in the user's language.
pub open spec fn drm_text(map: Map<Seq<char>, Seq<char>>, system: Seq<char>) -> Seq<char> {
    system + " DRM: "@ + translation(map, drm_msgid())
}

/// Why a protected stream is refused, in the user's language. The DRM system
/// is named apart from the explanation, so that a new one needs no new
/// translation.
pub fn drm_refusal(catalogue: &Catalogue, system: &str) -> (r: String)
    ensures
        r@ == drm_text(catalogue@, system@),
{
    let mut out = String::from_str(system);
    out.append(" DRM: ");
    out.append(
        tr(
            catalogue,
            "this stream is protected. Hydra does not bypass the technical measures that protect audio and video content, so it cannot be downloaded.",
        ).as_str(),
    );
    out
}

/// How a rendition reads in a list.
pub open spec fn quality_text(
    map: Map<Seq<char>, Seq<char>>,
    height: Option<u32>,
    bandwidth: Option<u64>,
) -> Seq<char> {
    let q = match height {
        Some(h) => decimal(h as nat) + (if h >= 720 {
            "p HD"@
        } else {
            "p"@
        }),
        None => translation(map, "auto"@),
    };
    match bandwidth {
        Some(b) if b > 0 => q + "  ("@ + decimal((b / 1000) as nat) + " kbps)"@,
        _ => q,
    }
}

/// Labels a rendition by its height and its bit rate.
pub fn quality_label(catalogue: &Catalogue, height: Option<u32>, bandwidth: Option<u64>) -> (r:
    String)
    ensures
        r@ == quality_text(catalogue@, height, bandwidth),
{
    let mut out = match height {
        Some(h) => {
            let mut s = String::new();
            push_decimal(&mut s, h as u64);
            proof {
                assert(s@ =~= decimal(h as nat));
            }
            if h >= 720 {
                s.append("p HD");
            } else {
                s.append("p");
            }
            s
        },
        None => tr(catalogue, "auto"),
    };
    if let Some(b) = bandwidth {
        if b > 0 {
            out.append("  (");
            push_decimal(&mut out, b / 1000);
            out.append(" kbps)");
        }
    }
    out
}

/// A report of a failure names the download, says why, and hands over what is
/// there; an acknowledged stop does so too; and an announced size is a size and
/// nothing else.
pub proof fn law_reports_say_what_they_report(
    e: Event,
    id: DlId,
    text: Seq<char>,
    n: int,
    spans: Seq<(u64, u64)>,
    denied: bool,
    size: Option<u64>,
)
    ensures
        e.is_failure(id, text, n, spans, denied) <==> (e matches Event::Failed {
            id: i,
            error,
            done,
            held,
            permission_denied,
        } && i == id && error@ == text && done == n && held@ == spans && permission_denied
            == denied),
        e.is_stop(id, n, spans) <==> (e matches Event::Stopped { id: i, done, held } && i == id
            && done == n && held@ == spans),
        e.is_size(id, size) <==> (e matches Event::Probed { id: i, size: s, ranges, file_name }
            && i == id && s == size && !ranges && file_name is None),
{
}

/// The end of a transfer takes its own entry out of the table, and no other: the
/// entry of another download stays, and so does a successor's.
pub proof fn law_an_end_evicts_its_own_entry<H>(
    running: Map<DlId, (u64, H)>,
    id: DlId,
    ticket: u64,
    other: DlId,
)
    ensures
        running.dom().contains(id) && running[id].0 == ticket ==> evicted(running, id, ticket)
            == running.remove(id),
        running.dom().contains(id) && running[id].0 != ticket ==> evicted(running, id, ticket)
            == running,
        other != id ==> evicted(running, id, ticket).dom().contains(other)
            == running.dom().contains(other),
        other != id && running.dom().contains(other) ==> evicted(running, id, ticket)[other]
            == running[other],
{
}

/// That the system refused access is explained, with the path; any other failure
/// is shown as it is.
pub proof fn law_a_refused_access_is_explained(
    map: Map<Seq<char>, Seq<char>>,
    kind: ErrorKind,
    text: Seq<char>,
    path: Seq<char>,
)
    ensures
        kind != ErrorKind::PermissionDenied ==> io_text(map, kind, text, path) == text,
        io_text(map, ErrorKind::PermissionDenied, text, path) == translation(
            map,
            "Access to the download folder was denied. Allow Hydra under System Settings > Privacy & Security > Files and Folders, or choose another folder."@,
        ) + " ("@ + path + ")"@,
{
}

/// The last segment of a path is what stands behind its last slash, and the
/// query is no part of it.
pub proof fn law_the_last_segment_names_the_file(dir: Seq<char>, name: Seq<char>, query: Seq<char>)
    requires
        !name.contains('/'),
        !name.contains('?'),
        !dir.contains('?'),
    ensures
        last_segment(dir + seq!['/'] + name) == name,
        last_segment(dir + seq!['/'] + name + seq!['?'] + query) == name,
        last_segment(dir + seq!['/']) == Seq::<char>::empty(),
{
    let path = dir + seq!['/'] + name;
    let none = Seq::<char>::empty();
    assert(!path.contains('?')) by {
        if path.contains('?') {
            let i = choose|i: int| 0 <= i < path.len() && path[i] == '?';
            if i < dir.len() {
                assert(dir[i] == '?');
            } else if i > dir.len() {
                assert(name[i - dir.len() - 1] == '?');
            }
        }
    }
    let bare = dir + seq!['/'];
    assert(!bare.contains('?')) by {
        if bare.contains('?') {
            let i = choose|i: int| 0 <= i < bare.len() && bare[i] == '?';
            if i < dir.len() {
                assert(dir[i] == '?');
            }
        }
    }
    crate::text::law_texts_are_cut_at_a_character(path, '?', query);
    crate::text::law_texts_are_cut_at_a_character(dir, '/', name);
    crate::text::law_texts_are_cut_at_a_character(bare, '?', query);
    crate::text::law_texts_are_cut_at_a_character(dir, '/', none);
    assert(bare + none =~= bare);
}

/// A download sends its login and the browser's cookies, each as a header of its
/// own, where it has them: first the login, then the cookies, and nothing else.
pub proof fn law_a_download_sends_its_login_and_cookies(
    auth: Option<(String, String)>,
    cookies: Option<String>,
)
    ensures
        ({
            let lines = download_header_lines(auth, cookies);
            let a: int = if auth is Some {
                1
            } else {
                0
            };
            let c: int = if cookies is Some && trimmed(cookies->0@).len() > 0 {
                1
            } else {
                0
            };
            &&& lines.len() == a + c
            &&& a == 1 ==> lines[0] == "Authorization: Basic "@ + base64_text(
                encode_utf8((auth->0).0@ + ":"@ + (auth->0).1@),
            )
            &&& c == 1 ==> lines[a] == "Cookie: "@ + trimmed(cookies->0@)
        }),
{
}

/// A protected stream is refused by the name of its protection, with the reason
/// in the user's language.
pub proof fn law_a_refusal_names_the_protection(map: Map<Seq<char>, Seq<char>>, system: Seq<char>)
    ensures
        drm_text(map, system).take(system.len() as int) == system,
        drm_text(map, system) == system + " DRM: "@ + translation(
            map,
            "this stream is protected. Hydra does not bypass the technical measures that protect audio and video content, so it cannot be downloaded."@,
        ),
{
    assert(drm_text(map, system).take(system.len() as int) =~= system);
}

/// A rendition reads as its height, marked where it is high definition, and its
/// bit rate in thousands where it is known.
pub proof fn law_a_rendition_reads_as_its_height_and_rate(
    map: Map<Seq<char>, Seq<char>>,
    h: u32,
    b: u64,
)
    ensures
        h >= 720 ==> quality_text(map, Some(h), None) == decimal(h as nat) + "p HD"@,
        h < 720 ==> quality_text(map, Some(h), None) == decimal(h as nat) + "p"@,
        quality_text(map, None, None) == translation(map, "auto"@),
        quality_text(map, Some(h), Some(0)) == quality_text(map, Some(h), None),
        b > 0 ==> quality_text(map, Some(h), Some(b)) == quality_text(map, Some(h), None) + "  ("@
            + decimal((b / 1000) as nat) + " kbps)"@,
        b > 0 ==> quality_text(map, None, Some(b)) == translation(map, "auto"@) + "  ("@ + decimal(
            (b / 1000) as nat,
        ) + " kbps)"@,
{
}

} // verus!
