//! The course of a file download: resolving its redirects, choosing how to
//! transfer it, resuming, counting, and what is reported at the end. Downloads
//! over FTP are here too.

use crate::engine::{
    copy_spans, friendly_io, ConnRow, DlId, Event, LinkMeta, StartSpec,
};
#[allow(unused_imports)]
use crate::engine::io_text;
use crate::error::ErrorKind;
use crate::i18n::{tr, Catalogue};
#[allow(unused_imports)]
use crate::i18n::translation;
use crate::probe::Probe;
use crate::text::chars_of;
#[allow(unused_imports)]
use crate::text::{begins, lowered, text_of, trimmed_start};
use vstd::prelude::*;

verus! {

/// What a probe response asks for.
pub enum ProbeMove {
    /// Go to this location, resolved against the URL that was probed.
    Join(String),
    /// Fetch the page and look for a redirect in it.
    TryPage,
    /// The response describes the object.
    Settled,
}

/// Whether a response may be a page that forwards elsewhere.
pub open spec fn may_forward(p: Probe, max_page: int) -> bool {
    &&& 200 <= p.status < 300
    &&& p.disposition is None
    &&& p.size <= max_page
    &&& match p.content_type {
        Some(c) => begins(lowered(trimmed_start(c@)), "text/html"@),
        None => false,
    }
}

/// Decides what a probe response asks for.
pub fn probe_move(p: &Probe, max_page: u64) -> (r: ProbeMove)
    ensures
        match r {
            ProbeMove::Join(loc) => p.redirects() && Some(loc@) == text_of(p.location),
            ProbeMove::TryPage => !p.redirects() && may_forward(*p, max_page as int),
            ProbeMove::Settled => !p.redirects() && !may_forward(*p, max_page as int),
        },
{
    if p.is_redirect() {
        return match &p.location {
            Some(l) => ProbeMove::Join(l.clone()),
            None => ProbeMove::Join(String::new()),
        };
    }
    if p.maybe_redirector(max_page) {
        ProbeMove::TryPage
    } else {
        ProbeMove::Settled
    }
}

/// The way from the URL that was asked for to the one that answers. Redirects
/// in headers and redirects in pages draw on the same budget, so a loop of
/// either kind ends.
pub struct Resolver {
    url: String,
    hops: u32,
}

/// How many hops a download follows.
pub const MAX_HOPS: u32 = 10;

impl Resolver {
    pub closed spec fn at(self) -> Seq<char> {
        self.url@
    }

    pub closed spec fn hops(self) -> u32 {
        self.hops
    }

    pub fn new(url: &str) -> (r: Resolver)
        ensures
            r.at() == url@,
            r.hops() == 0,
    {
        Resolver { url: String::from_str(url), hops: 0 }
    }

    /// The URL to probe, while the budget lasts.
    pub fn next(&self) -> (r: Option<&str>)
        ensures
            match r {
                Some(u) => self.hops() < MAX_HOPS && u@ == self.at(),
                None => self.hops() >= MAX_HOPS,
            },
    {
        if self.hops < MAX_HOPS {
            Some(self.url.as_str())
        } else {
            None
        }
    }

    /// Goes on to where a response pointed.
    pub fn follow(&mut self, url: String)
        requires
            old(self).hops() < MAX_HOPS,
        ensures
            final(self).at() == url@,
            final(self).hops() == old(self).hops() + 1,
    {
        self.url = url;
        self.hops = self.hops + 1;
    }
}

/// Reports that a download never got to its bytes; what an earlier run left
/// stays.
pub fn failed_on_the_way(spec: &StartSpec, error: String) -> (r: Event)
    ensures
        r.is_failure(spec.id, error@, 0, spec.held@, false),
{
    Event::Failed {
        id: spec.id,
        error,
        done: 0,
        held: copy_spans(&spec.held),
        permission_denied: false,
    }
}

/// Reports a redirect that leads nowhere.
pub fn unusable_redirect(catalogue: &Catalogue, spec: &StartSpec, location: &str) -> (r: Event)
    ensures
        r.is_failure(
            spec.id,
            translation(catalogue@, "Unusable redirect"@) + ": "@ + location@,
            0,
            spec.held@,
            false,
        ),
{
    let mut error = tr(catalogue, "Unusable redirect");
    error.append(": ");
    error.append(location);
    failed_on_the_way(spec, error)
}

/// Reports that the budget of hops is spent.
pub fn too_many_redirects(catalogue: &Catalogue, spec: &StartSpec) -> (r: Event)
    ensures
        r.is_failure(
            spec.id,
            translation(catalogue@, "Too many redirects"@),
            0,
            spec.held@,
            false,
        ),
{
    failed_on_the_way(spec, tr(catalogue, "Too many redirects"))
}

/// Acknowledges a stop that came while redirects were being followed.
pub fn stopped_on_the_way(spec: &StartSpec) -> (r: Event)
    ensures
        r.is_stop(spec.id, 0, spec.held@),
{
    Event::Stopped { id: spec.id, done: 0, held: copy_spans(&spec.held) }
}

/// What happened while a download was looking for its object.
pub enum ResolveEvent {
    /// The URL cannot be taken apart.
    Unparsable(String),
    /// The probe failed.
    Unanswered(String),
    /// The probe was answered.
    Answer(Probe),
    /// A location was resolved against the URL that was probed, or could not
    /// be.
    Joined { location: String, url: Option<String> },
    /// The page behind a response was looked at for a redirect.
    Page { probe: Probe, url: Option<String> },
}

/// What a download does next to find its object.
pub enum ResolveAction {
    /// Probe this URL.
    Ask(String),
    /// Resolve this location against the URL that was probed.
    Join(String),
    /// Look at the page behind this response for a redirect.
    TryPage(Probe),
    /// The object is found.
    Settle(Probe),
    /// The download is over.
    Report(Event),
}

/// Whether `action` is right once a hop led to `url`.
pub open spec fn hopped(
    map: Map<Seq<char>, Seq<char>>,
    spec: StartSpec,
    hops: int,
    url: Seq<char>,
    cancelled: bool,
    action: ResolveAction,
) -> bool {
    if cancelled {
        action matches ResolveAction::Report(e) && e.is_stop(spec.id, 0, spec.held@)
    } else if hops >= MAX_HOPS {
        action matches ResolveAction::Report(e) && e.is_failure(
            spec.id,
            translation(map, "Too many redirects"@),
            0,
            spec.held@,
            false,
        )
    } else {
        action matches ResolveAction::Ask(u) && u@ == url
    }
}

impl Resolver {
    fn after_hop(&self, catalogue: &Catalogue, spec: &StartSpec, cancelled: bool) -> (r:
        ResolveAction)
        ensures
            hopped(catalogue@, *spec, self.hops() as int, self.at(), cancelled, r),
    {
        if cancelled {
            return ResolveAction::Report(stopped_on_the_way(spec));
        }
        match self.next() {
            Some(u) => ResolveAction::Ask(String::from_str(u)),
            None => ResolveAction::Report(too_many_redirects(catalogue, spec)),
        }
    }

    /// Takes what happened and says what to do next. A stop is noticed between
    /// hops; an object that is found is not given up for it here.
    pub fn advance(
        &mut self,
        catalogue: &Catalogue,
        spec: &StartSpec,
        event: ResolveEvent,
        max_page: u64,
        cancelled: bool,
    ) -> (r: ResolveAction)
        requires
            old(self).hops() < MAX_HOPS,
        ensures
            match event {
                ResolveEvent::Unparsable(text) | ResolveEvent::Unanswered(text) => {
                    &&& *final(self) == *old(self)
                    &&& r matches ResolveAction::Report(e) && e.is_failure(
                        spec.id,
                        text@,
                        0,
                        spec.held@,
                        false,
                    )
                },
                ResolveEvent::Answer(p) => {
                    &&& *final(self) == *old(self)
                    &&& if p.redirects() {
                        r matches ResolveAction::Join(loc) && Some(loc@) == text_of(p.location)
                    } else if may_forward(p, max_page as int) {
                        r == ResolveAction::TryPage(p)
                    } else {
                        r == ResolveAction::Settle(p)
                    }
                },
                ResolveEvent::Joined { location, url } => match url {
                    Some(u) => {
                        &&& final(self).at() == u@
                        &&& final(self).hops() == old(self).hops() + 1
                        &&& hopped(
                            catalogue@,
                            *spec,
                            final(self).hops() as int,
                            u@,
                            cancelled,
                            r,
                        )
                    },
                    None => {
                        &&& *final(self) == *old(self)
                        &&& r matches ResolveAction::Report(e) && e.is_failure(
                            spec.id,
                            translation(catalogue@, "Unusable redirect"@) + ": "@ + location@,
                            0,
                            spec.held@,
                            false,
                        )
                    },
                },
                ResolveEvent::Page { probe, url } => match url {
                    Some(u) => {
                        &&& final(self).at() == u@
                        &&& final(self).hops() == old(self).hops() + 1
                        &&& hopped(
                            catalogue@,
                            *spec,
                            final(self).hops() as int,
                            u@,
                            cancelled,
                            r,
                        )
                    },
                    None => *final(self) == *old(self) && r == ResolveAction::Settle(probe),
                },
            },
    {
        match event {
            ResolveEvent::Unparsable(text) => ResolveAction::Report(failed_on_the_way(spec, text)),
            ResolveEvent::Unanswered(text) => ResolveAction::Report(failed_on_the_way(spec, text)),
            ResolveEvent::Answer(p) => match probe_move(&p, max_page) {
                ProbeMove::Join(loc) => ResolveAction::Join(loc),
                ProbeMove::TryPage => ResolveAction::TryPage(p),
                ProbeMove::Settled => ResolveAction::Settle(p),
            },
            ResolveEvent::Joined { location, url } => match url {
                Some(u) => {
                    self.follow(u);
                    self.after_hop(catalogue, spec, cancelled)
                },
                None => ResolveAction::Report(
                    unusable_redirect(catalogue, spec, location.as_str()),
                ),
            },
            ResolveEvent::Page { probe, url } => match url {
                Some(u) => {
                    self.follow(u);
                    self.after_hop(catalogue, spec, cancelled)
                },
                None => ResolveAction::Settle(probe),
            },
        }
    }
}

/// The size of the object, where the response is about it and states one.
pub open spec fn known_size(p: Probe) -> Option<u64> {
    if p.status < 300 && p.size > 0 {
        Some(p.size)
    } else {
        None
    }
}

/// The size of the object, where the response is about it and states one.
pub fn size_of(p: &Probe) -> (r: Option<u64>)
    ensures
        r == known_size(*p),
{
    if p.status < 300 && p.size > 0 {
        Some(p.size)
    } else {
        None
    }
}

/// The first of two names, or the second where there is no first.
pub open spec fn name_or(suggested: Option<String>, from_url: Seq<char>) -> Seq<char> {
    match suggested {
        Some(n) => n@,
        None => from_url,
    }
}

/// What a settled probe says of a link, given the name that the server
/// suggested and the one that the URL implies. An error status says nothing.
pub fn link_meta(p: &Probe, suggested: Option<String>, from_url: String) -> (r: Option<LinkMeta>)
    ensures
        match r {
            None => p.status >= 300,
            Some(m) => {
                &&& p.status < 300
                &&& m.size == (if p.size > 0 {
                    Some(p.size)
                } else {
                    None
                })
                &&& m.file_name@ == name_or(suggested, from_url@)
            },
        },
{
    if p.status >= 300 {
        return None;
    }
    let size: Option<u64> = if p.size > 0 {
        Some(p.size)
    } else {
        None
    };
    let file_name = match suggested {
        Some(n) => n,
        None => from_url,
    };
    Some(LinkMeta { size, file_name })
}

/// Announces what the probe of a download found, given the name that the
/// server suggested and the one that the URL implies.
pub fn announce(id: DlId, p: &Probe, suggested: Option<String>, from_url: String) -> (r: Event)
    ensures
        r matches Event::Probed { id: i, size, ranges, file_name } && {
            &&& i == id
            &&& size == known_size(*p)
            &&& ranges == p.ranges
            &&& text_of(file_name) == (if suggested is None && from_url@.len() == 0 {
                None
            } else {
                Some(name_or(suggested, from_url@))
            })
        },
{
    let file_name = match suggested {
        Some(n) => Some(n),
        None => {
            let chars = chars_of(from_url.as_str());
            if chars.len() == 0 {
                None
            } else {
                Some(from_url)
            }
        },
    };
    Event::Probed { id, size: size_of(p), ranges: p.ranges, file_name }
}

/// A span that holds something once it is cut off at the end of the object.
pub open spec fn cut_span(span: (u64, u64), size: u64) -> Option<(u64, u64)> {
    let hi = if span.1 <= size {
        span.1
    } else {
        size
    };
    if span.0 < hi {
        Some((span.0, hi))
    } else {
        None
    }
}

/// The spans of `held` that are of use for an object of this size.
pub open spec fn usable_spans(held: Seq<(u64, u64)>, size: u64) -> Seq<(u64, u64)>
    decreases held.len(),
{
    if held.len() == 0 {
        Seq::empty()
    } else {
        let before = usable_spans(held.drop_last(), size);
        match cut_span(held.last(), size) {
            Some(s) => before.push(s),
            None => before,
        }
    }
}

/// How many bytes the spans hold together.
pub open spec fn span_sum(spans: Seq<(u64, u64)>) -> int
    decreases spans.len(),
{
    if spans.len() == 0 {
        0
    } else {
        span_sum(spans.drop_last()) + (spans.last().1 - spans.last().0)
    }
}

/// The spans that may be resumed from. An object of another size is another
/// object, and nothing of the old one is spliced into it.
pub open spec fn resumable(spec: StartSpec, size: u64) -> Seq<(u64, u64)> {
    if is_changed(spec.expected_size, size) {
        Seq::empty()
    } else {
        usable_spans(spec.held@, size)
    }
}

/// Spans in order, none of which overlaps the next.
pub open spec fn in_order(spans: Seq<(u64, u64)>) -> bool {
    &&& forall|i: int| 0 <= i < spans.len() ==> (#[trigger] spans[i]).0 <= spans[i].1
    &&& forall|i: int, j: int|
        0 <= i < j < spans.len() ==> (#[trigger] spans[i]).1 <= (#[trigger] spans[j]).0
}

proof fn lemma_usable_within(held: Seq<(u64, u64)>, size: u64, limit: int)
    requires
        in_order(held),
        forall|i: int| 0 <= i < held.len() ==> (#[trigger] held[i]).1 <= limit,
        limit >= 0,
    ensures
        0 <= span_sum(usable_spans(held, size)) <= limit,
        span_sum(usable_spans(held, size)) <= size,
    decreases held.len(),
{
    if held.len() > 0 {
        let init = held.drop_last();
        let last = held.last();
        assert forall|i: int| 0 <= i < init.len() implies (#[trigger] init[i]).1 <= last.0 by {
            assert(init[i] == held[i]);
            assert(held[i].1 <= held[held.len() - 1].0);
        }
        assert(in_order(init)) by {
            assert forall|i: int, j: int| 0 <= i < j < init.len() implies (#[trigger] init[i]).1 <= (
            #[trigger] init[j]).0 by {
                assert(held[i].1 <= held[j].0);
            }
            assert forall|i: int| 0 <= i < init.len() implies (#[trigger] init[i]).0
                <= init[i].1 by {
                assert(held[i].0 <= held[i].1);
            }
        }
        assert(held[held.len() - 1].1 <= limit);
        lemma_usable_within(init, size, last.0 as int);
        let before = usable_spans(init, size);
        if let Some(s) = cut_span(last, size) {
            assert(before.push(s).drop_last() =~= before);
        } else {
            assert(held[held.len() - 1].0 <= held[held.len() - 1].1);
        }
    }
}

/// What is resumed from is never more than the object holds, when the spans
/// are in order.
pub proof fn law_resumed_bytes_fit(spec: StartSpec, size: u64)
    requires
        in_order(spec.held@),
    ensures
        0 <= span_sum(resumable(spec, size)) <= size,
{
    lemma_usable_within(spec.held@, size, u64::MAX as int);
}

proof fn lemma_usable_held(held: Seq<(u64, u64)>, size: u64, i: int)
    requires
        0 <= i < usable_spans(held, size).len(),
    ensures
        usable_spans(held, size)[i].0 < usable_spans(held, size)[i].1 <= size,
        exists|j: int|
            0 <= j < held.len() && (#[trigger] held[j]).0 == usable_spans(held, size)[i].0
                && usable_spans(held, size)[i].1 <= held[j].1,
    decreases held.len(),
{
    let init = held.drop_last();
    let before = usable_spans(init, size);
    if i < before.len() {
        lemma_usable_held(init, size, i);
        let j = choose|j: int|
            0 <= j < init.len() && (#[trigger] init[j]).0 == before[i].0 && before[i].1
                <= init[j].1;
        assert(held[j] == init[j]);
    } else {
        assert(held[held.len() - 1] == held.last());
    }
}

/// Nothing counts as fetched that is not on disk: each span that is resumed
/// from lies within a held one and within the object.
pub proof fn law_resumed_spans_are_held(spec: StartSpec, size: u64, i: int)
    requires
        0 <= i < resumable(spec, size).len(),
    ensures
        resumable(spec, size)[i].0 < resumable(spec, size)[i].1 <= size,
        exists|j: int|
            0 <= j < spec.held@.len() && (#[trigger] spec.held@[j]).0 == resumable(spec, size)[i].0
                && resumable(spec, size)[i].1 <= spec.held@[j].1,
{
    lemma_usable_held(spec.held@, size, i);
}

/// An object that changed its size is fetched from the start, over HTTP and
/// over FTP alike: nothing that was held of the old one is spliced into it.
pub proof fn law_a_changed_object_is_not_spliced(spec: StartSpec, ranged: bool, size: u64)
    requires
        spec.expected_size is Some,
        spec.expected_size->0 != size,
    ensures
        resumable(spec, size) == Seq::<(u64, u64)>::empty(),
        ftp_offset(ranged, spec.held@, spec.expected_size, size) == 0,
{
}

/// How to transfer an object in ranges.
pub struct RangedPlan {
    pub size: u64,
    /// The budget of connections.
    pub conns: usize,
    /// The validator is strong enough to assemble from several sources.
    pub strong_validator: bool,
    /// Begin with a single connection and admit the others later.
    pub start_single: bool,
    /// The spans that are there already.
    pub spans: Vec<(u64, u64)>,
    /// How many bytes those are.
    pub already: u64,
}

/// How to transfer an object.
pub enum TransferPlan {
    /// One connection, start to end: the size is unknown, or the server does
    /// not serve ranges.
    Streaming,
    Ranged(RangedPlan),
}

proof fn lemma_sum_grows(spans: Seq<(u64, u64)>, k: int)
    requires
        0 <= k <= spans.len(),
        forall|i: int| 0 <= i < spans.len() ==> (#[trigger] spans[i]).0 <= spans[i].1,
    ensures
        0 <= span_sum(spans.take(k)) <= span_sum(spans),
    decreases spans.len(),
{
    if k == spans.len() {
        assert(spans.take(k) =~= spans);
        if k > 0 {
            let init = spans.drop_last();
            assert forall|i: int| 0 <= i < init.len() implies (#[trigger] init[i]).0
                <= init[i].1 by {
                assert(spans[i].0 <= spans[i].1);
            }
            lemma_sum_grows(init, init.len() as int);
            assert(init.take(init.len() as int) =~= init);
            assert(spans[k - 1].0 <= spans[k - 1].1);
        }
    } else {
        let init = spans.drop_last();
        assert forall|i: int| 0 <= i < init.len() implies (#[trigger] init[i]).0 <= init[i].1 by {
            assert(spans[i].0 <= spans[i].1);
        }
        lemma_sum_grows(init, k);
        assert(init.take(k) =~= spans.take(k));
        assert(spans[spans.len() - 1].0 <= spans[spans.len() - 1].1);
    }
}

proof fn lemma_usable_proper(held: Seq<(u64, u64)>, size: u64)
    ensures
        usable_spans(held, size).len() <= held.len(),
        forall|i: int|
            0 <= i < usable_spans(held, size).len() ==> (#[trigger] usable_spans(held, size)[i]).0
                < usable_spans(held, size)[i].1,
    decreases held.len(),
{
    if held.len() > 0 {
        lemma_usable_proper(held.drop_last(), size);
    }
}

fn cut_spans(held: &Vec<(u64, u64)>, size: u64) -> (r: Vec<(u64, u64)>)
    ensures
        r@ == usable_spans(held@, size),
{
    let mut out: Vec<(u64, u64)> = Vec::new();
    let mut i: usize = 0;
    proof {
        assert(held@.take(0) =~= Seq::<(u64, u64)>::empty());
    }
    while i < held.len()
        invariant
            i <= held@.len(),
            out@ == usable_spans(held@.take(i as int), size),
        decreases held@.len() - i,
    {
        let (lo, end) = held[i];
        let hi: u64 = if end <= size {
            end
        } else {
            size
        };
        proof {
            assert(held@.take(i + 1).drop_last() =~= held@.take(i as int));
            assert(held@.take(i + 1).last() == held@[i as int]);
        }
        if lo < hi {
            out.push((lo, hi));
        }
        i = i + 1;
    }
    proof {
        assert(held@.take(i as int) =~= held@);
    }
    out
}

fn resumed_spans(spec: &StartSpec, size: u64) -> (r: Vec<(u64, u64)>)
    ensures
        r@ == resumable(*spec, size),
{
    match spec.expected_size {
        Some(e) => if e != size {
            Vec::new()
        } else {
            cut_spans(&spec.held, size)
        },
        None => cut_spans(&spec.held, size),
    }
}

/// Whether the bytes on disk can be counted for an object of this size.
pub fn held_fits(spec: &StartSpec, size: u64) -> (r: bool)
    ensures
        r == (span_sum(resumable(*spec, size)) <= u64::MAX),
{
    let spans = resumed_spans(spec, size);
    let mut sum: u64 = 0;
    let mut i: usize = 0;
    let ghost all = spans@;
    proof {
        lemma_usable_proper(spec.held@, size);
        assert(all.take(0) =~= Seq::<(u64, u64)>::empty());
    }
    while i < spans.len()
        invariant
            i <= spans@.len(),
            all == spans@,
            all == resumable(*spec, size),
            sum == span_sum(all.take(i as int)),
            forall|k: int| 0 <= k < all.len() ==> (#[trigger] all[k]).0 < all[k].1,
        decreases spans@.len() - i,
    {
        proof {
            assert(all.take(i + 1).drop_last() =~= all.take(i as int));
            assert(all.take(i + 1).last() == all[i as int]);
            lemma_sum_grows(all, i + 1);
        }
        let part: u64 = spans[i].1 - spans[i].0;
        if part > u64::MAX - sum {
            return false;
        }
        sum = sum + part;
        i = i + 1;
    }
    proof {
        assert(all.take(i as int) =~= all);
    }
    true
}

/// Plans the transfer of an object that was probed.
pub fn plan_transfer(spec: &StartSpec, p: &Probe) -> (r: TransferPlan)
    requires
        known_size(*p) is Some && p.ranges ==> span_sum(resumable(*spec, p.size)) <= u64::MAX,
    ensures
        match r {
            TransferPlan::Streaming => known_size(*p) is None || !p.ranges,
            TransferPlan::Ranged(plan) => {
                &&& p.ranges
                &&& known_size(*p) == Some(plan.size)
                &&& plan.conns == (if spec.conns < 1 {
                    1
                } else if spec.conns > 32 {
                    32
                } else {
                    spec.conns as int
                })
                &&& plan.strong_validator == (!p.weak_validator && p.validator is Some)
                &&& plan.start_single == (spec.adaptive && plan.conns > 1)
                &&& plan.spans@ == resumable(*spec, plan.size)
                &&& plan.already == span_sum(resumable(*spec, plan.size))
                &&& plan.size == p.size
                &&& (spec.expected_size is None || spec.expected_size == Some(p.size)) ==> forall|
                    x: u64,
                |
                    #[trigger] covers(plan.spans@, x) == (covers(spec.held@, x) && x < p.size)
                &&& spec.expected_size is Some && spec.expected_size != Some(p.size)
                    ==> plan.spans@.len() == 0 && plan.already == 0
            },
        },
{
    let size: u64 = match size_of(p) {
        Some(n) => if p.ranges {
            n
        } else {
            return TransferPlan::Streaming;
        },
        None => {
            return TransferPlan::Streaming;
        },
    };
    let conns: usize = if spec.conns < 1 {
        1
    } else if spec.conns > 32 {
        32
    } else {
        spec.conns
    };
    let spans = resumed_spans(spec, size);
    let mut already: u64 = 0;
    let mut i: usize = 0;
    let ghost all = spans@;
    proof {
        lemma_usable_proper(spec.held@, size);
        assert(all.take(0) =~= Seq::<(u64, u64)>::empty());
    }
    while i < spans.len()
        invariant
            i <= spans@.len(),
            all == spans@,
            span_sum(all) <= u64::MAX,
            already == span_sum(all.take(i as int)),
            forall|k: int| 0 <= k < all.len() ==> (#[trigger] all[k]).0 < all[k].1,
        decreases spans@.len() - i,
    {
        proof {
            assert(all.take(i + 1).drop_last() =~= all.take(i as int));
            assert(all.take(i + 1).last() == all[i as int]);
            lemma_sum_grows(all, i + 1);
        }
        already = already + (spans[i].1 - spans[i].0);
        i = i + 1;
    }
    proof {
        assert(all.take(i as int) =~= all);
    }
    proof {
        assert forall|x: u64|
            spec.expected_size is None || spec.expected_size == Some(size) implies #[trigger] covers(
            spans@,
            x,
        ) == (covers(spec.held@, x) && x < size) by {
            lemma_usable_covers(spec.held@, size, x);
        }
    }
    TransferPlan::Ranged(
        RangedPlan {
            size,
            conns,
            strong_validator: !p.weak_validator && p.validator.is_some(),
            start_single: spec.adaptive && conns > 1,
            spans,
            already,
        },
    )
}

/// Where a connection was seen last, and how many bytes it fetched in all. A
/// scheduler reports positions within ranges, not totals.
#[derive(Clone, Copy, Debug)]
pub struct ConnMeter {
    lo: u64,
    pos: u64,
    total: u64,
}

/// How many bytes lie between two sightings of a connection: the way from the
/// earlier position, when it is still in the same range and did not go back,
/// else the way from the start of its new range.
pub open spec fn progress(last_lo: int, last_pos: int, lo: int, pos: int) -> int {
    if last_lo == lo && pos >= last_pos {
        pos - last_pos
    } else if pos > lo {
        pos - lo
    } else {
        0
    }
}

/// How many bytes a series of sightings amounts to, from the given one on.
pub open spec fn counted(last_lo: int, last_pos: int, seen: Seq<(u64, u64)>) -> int
    decreases seen.len(),
{
    if seen.len() == 0 {
        0
    } else {
        let (lo, pos) = seen[0];
        progress(last_lo, last_pos, lo as int, pos as int) + counted(
            lo as int,
            pos as int,
            seen.skip(1),
        )
    }
}

impl ConnMeter {
    pub closed spec fn bytes(self) -> int {
        self.total as int
    }

    pub closed spec fn last(self) -> (u64, u64) {
        (self.lo, self.pos)
    }

    pub fn new() -> (r: ConnMeter)
        ensures
            r.bytes() == 0,
            r.last() == (0u64, 0u64),
    {
        ConnMeter { lo: 0, pos: 0, total: 0 }
    }

    /// Counts a sighting of the connection at `pos` in the range that starts
    /// at `lo`.
    pub fn sight(&mut self, lo: u64, pos: u64)
        requires
            old(self).bytes() + progress(
                old(self).last().0 as int,
                old(self).last().1 as int,
                lo as int,
                pos as int,
            ) <= u64::MAX,
        ensures
            final(self).last() == (lo, pos),
            final(self).bytes() == old(self).bytes() + progress(
                old(self).last().0 as int,
                old(self).last().1 as int,
                lo as int,
                pos as int,
            ),
    {
        if self.lo == lo && pos >= self.pos {
            self.total = self.total + (pos - self.pos);
        } else if pos > lo {
            self.total = self.total + (pos - lo);
        }
        self.lo = lo;
        self.pos = pos;
    }

    /// Whether a sighting can be counted.
    pub fn can_sight(&self, lo: u64, pos: u64) -> (r: bool)
        ensures
            r == (self.bytes() + progress(
                self.last().0 as int,
                self.last().1 as int,
                lo as int,
                pos as int,
            ) <= u64::MAX),
    {
        let step: u64 = if self.lo == lo && pos >= self.pos {
            pos - self.pos
        } else if pos > lo {
            pos - lo
        } else {
            0
        };
        step <= u64::MAX - self.total
    }

    /// How many bytes the connection fetched.
    pub fn downloaded(&self) -> (r: u64)
        ensures
            r == self.bytes(),
    {
        self.total
    }
}

/// However often a connection is looked at on its way through a range, each
/// byte counts once: the total is the way from the start of the range to the
/// last position.
pub proof fn law_each_byte_counts_once(lo: u64, seen: Seq<(u64, u64)>)
    requires
        seen.len() > 0,
        forall|i: int| 0 <= i < seen.len() ==> (#[trigger] seen[i]).0 == lo && seen[i].1 >= lo,
        forall|i: int, j: int|
            0 <= i <= j < seen.len() ==> (#[trigger] seen[i]).1 <= (#[trigger] seen[j]).1,
    ensures
        counted(0, 0, seen) == seen.last().1 - lo,
{
    let first = seen[0].1 as int;
    assert(progress(0, 0, lo as int, first) == first - lo);
    lemma_counted_within(lo, first, seen.skip(1));
    if seen.len() > 1 {
        assert(seen.skip(1).last() == seen.last());
    }
}

proof fn lemma_counted_within(lo: u64, pos: int, seen: Seq<(u64, u64)>)
    requires
        lo <= pos,
        forall|i: int| 0 <= i < seen.len() ==> (#[trigger] seen[i]).0 == lo && seen[i].1 >= pos,
        forall|i: int, j: int|
            0 <= i <= j < seen.len() ==> (#[trigger] seen[i]).1 <= (#[trigger] seen[j]).1,
    ensures
        counted(lo as int, pos, seen) == (if seen.len() == 0 {
            0
        } else {
            seen.last().1 - pos
        }),
    decreases seen.len(),
{
    if seen.len() > 0 {
        let next = seen[0].1 as int;
        let rest = seen.skip(1);
        assert forall|i: int| 0 <= i < rest.len() implies (#[trigger] rest[i]).0 == lo && rest[i].1
            >= next by {
            assert(rest[i] == seen[i + 1]);
            assert(seen[0].1 <= seen[i + 1].1);
        }
        assert forall|i: int, j: int| 0 <= i <= j < rest.len() implies (#[trigger] rest[i]).1 <= (
        #[trigger] rest[j]).1 by {
            assert(seen[i + 1].1 <= seen[j + 1].1);
        }
        lemma_counted_within(lo, next, rest);
        if rest.len() > 0 {
            assert(rest.last() == seen.last());
        }
    }
}

/// What is said of a connection: one without a range under a concurrency cap
/// is waiting, not broken.
pub open spec fn conn_msgid(has_range: bool, capped: bool, receiving: bool) -> Seq<char> {
    if !has_range {
        if capped {
            "Waiting (connection limit)..."@
        } else {
            "Disconnect."@
        }
    } else if receiving {
        "Receiving data..."@
    } else {
        "Send GET..."@
    }
}

/// The row of a connection. `receiving` says that bytes are coming in.
pub fn conn_row(
    catalogue: &Catalogue,
    downloaded: u64,
    has_range: bool,
    active_limit: usize,
    conns: usize,
    receiving: bool,
) -> (r: ConnRow)
    ensures
        r.downloaded == downloaded,
        r.info@ == translation(
            catalogue@,
            conn_msgid(has_range, active_limit < conns, receiving),
        ),
{
    let info = if !has_range {
        if active_limit < conns {
            tr(catalogue, "Waiting (connection limit)...")
        } else {
            tr(catalogue, "Disconnect.")
        }
    } else if receiving {
        tr(catalogue, "Receiving data...")
    } else {
        tr(catalogue, "Send GET...")
    };
    ConnRow { downloaded, info }
}

/// How a transfer ended.
pub enum TransferEnd {
    Complete,
    /// The user stopped it.
    Interrupted,
    Failed { kind: ErrorKind, text: String },
}

/// Reports the end of a ranged transfer with the last snapshot of what is on
/// disk; nothing where the file is complete and is to be moved into place.
pub fn ranged_end(
    catalogue: &Catalogue,
    spec: &StartSpec,
    end: TransferEnd,
    done: u64,
    held: Vec<(u64, u64)>,
) -> (r: Option<Event>)
    ensures
        match end {
            TransferEnd::Complete => r is None,
            TransferEnd::Interrupted => r matches Some(e) && e.is_stop(spec.id, done as int, held@),
            TransferEnd::Failed { kind, text } => r matches Some(e) && e.is_failure(
                spec.id,
                io_text(catalogue@, kind, text@, spec.final_path@),
                done as int,
                held@,
                kind == ErrorKind::PermissionDenied,
            ),
        },
{
    match end {
        TransferEnd::Complete => None,
        TransferEnd::Interrupted => Some(Event::Stopped { id: spec.id, done, held }),
        TransferEnd::Failed { kind, text } => Some(
            Event::Failed {
                id: spec.id,
                error: friendly_io(catalogue, kind, text.as_str(), spec.final_path.as_str()),
                done,
                held,
                permission_denied: kind == ErrorKind::PermissionDenied,
            },
        ),
    }
}

/// Reports the end of a transfer over one connection. It cannot be resumed, so
/// it leaves no spans.
pub fn streaming_end(
    catalogue: &Catalogue,
    spec: &StartSpec,
    end: TransferEnd,
    written: u64,
) -> (r: Option<Event>)
    ensures
        match end {
            TransferEnd::Complete => r is None,
            TransferEnd::Interrupted => r matches Some(e) && e.is_stop(
                spec.id,
                written as int,
                Seq::empty(),
            ),
            TransferEnd::Failed { kind, text } => r matches Some(e) && e.is_failure(
                spec.id,
                io_text(catalogue@, kind, text@, spec.temp_path@),
                written as int,
                Seq::empty(),
                kind == ErrorKind::PermissionDenied,
            ),
        },
{
    match end {
        TransferEnd::Complete => None,
        TransferEnd::Interrupted => Some(
            Event::Stopped { id: spec.id, done: written, held: Vec::new() },
        ),
        TransferEnd::Failed { kind, text } => Some(
            Event::Failed {
                id: spec.id,
                error: friendly_io(catalogue, kind, text.as_str(), spec.temp_path.as_str()),
                done: written,
                held: Vec::new(),
                permission_denied: kind == ErrorKind::PermissionDenied,
            },
        ),
    }
}

/// Reports that the file for a transfer cannot be written.
pub fn sink_failure(
    catalogue: &Catalogue,
    spec: &StartSpec,
    kind: ErrorKind,
    text: &str,
    already: u64,
) -> (r: Event)
    ensures
        r.is_failure(
            spec.id,
            io_text(catalogue@, kind, text@, spec.temp_path@),
            already as int,
            spec.held@,
            kind == ErrorKind::PermissionDenied,
        ),
{
    Event::Failed {
        id: spec.id,
        error: friendly_io(catalogue, kind, text, spec.temp_path.as_str()),
        done: already,
        held: copy_spans(&spec.held),
        permission_denied: kind == ErrorKind::PermissionDenied,
    }
}

/// Reports the outcome of moving the finished file to `final_path`. A file that
/// cannot be moved is still there, whole.
pub fn finish_file(
    catalogue: &Catalogue,
    id: DlId,
    size: u64,
    moved: Result<(), (ErrorKind, String)>,
    final_path: &str,
) -> (r: Event)
    ensures
        match moved {
            Ok(_) => r == (Event::Finished { id, size }),
            Err((kind, text)) => r.is_failure(
                id,
                io_text(catalogue@, kind, text@, final_path@),
                size as int,
                seq![(0u64, size)],
                kind == ErrorKind::PermissionDenied,
            ),
        },
{
    match moved {
        Ok(_) => Event::Finished { id, size },
        Err((kind, text)) => {
            let mut held: Vec<(u64, u64)> = Vec::new();
            held.push((0, size));
            proof {
                assert(held@ =~= seq![(0u64, size)]);
            }
            Event::Failed {
                id,
                error: friendly_io(catalogue, kind, text.as_str(), final_path),
                done: size,
                held,
                permission_denied: kind == ErrorKind::PermissionDenied,
            }
        },
    }
}

/// The text of a failure that came over FTP.
pub open spec fn ftp_text(text: Seq<char>) -> Seq<char> {
    "ftp: "@ + text
}

fn ftp_message(text: &str) -> (r: String)
    ensures
        r@ == ftp_text(text@),
{
    let mut out = String::from_str("ftp: ");
    out.append(text);
    out
}

/// Reports that the FTP server could not be asked.
pub fn ftp_probe_failure(spec: &StartSpec, text: &str) -> (r: Event)
    ensures
        r.is_failure(spec.id, ftp_text(text@), 0, spec.held@, false),
{
    failed_on_the_way(spec, ftp_message(text))
}

/// Refuses a file whose size the FTP server does not report.
pub fn ftp_refusal(catalogue: &Catalogue, spec: &StartSpec, size: u64) -> (r: Option<Event>)
    ensures
        match r {
            Some(e) => size == 0 && e.is_failure(
                spec.id,
                translation(catalogue@, "The FTP server did not report a file size"@),
                0,
                Seq::empty(),
                false,
            ),
            None => size > 0,
        },
{
    if size == 0 {
        Some(
            Event::Failed {
                id: spec.id,
                error: tr(catalogue, "The FTP server did not report a file size"),
                done: 0,
                held: Vec::new(),
                permission_denied: false,
            },
        )
    } else {
        None
    }
}

/// The end of the first span that starts at the beginning of the file.
pub open spec fn prefix_end(held: Seq<(u64, u64)>) -> Option<u64>
    decreases held.len(),
{
    if held.len() == 0 {
        None
    } else if held[0].0 == 0 {
        Some(held[0].1)
    } else {
        prefix_end(held.skip(1))
    }
}

/// Whether an object is another one than the one that was held in part: its
/// size differs from the size that was reported before.
pub open spec fn is_changed(expected_size: Option<u64>, size: u64) -> bool {
    expected_size matches Some(e) && e != size
}

/// Where an FTP transfer may start: FTP resumes at an offset, so only what is
/// there from the beginning counts, and nothing of another object does.
pub open spec fn ftp_offset(
    ranged: bool,
    held: Seq<(u64, u64)>,
    expected_size: Option<u64>,
    size: u64,
) -> u64 {
    if !ranged || is_changed(expected_size, size) {
        0
    } else {
        match prefix_end(held) {
            Some(hi) => if hi <= size {
                hi
            } else {
                size
            },
            None => 0,
        }
    }
}

/// Works out where an FTP transfer starts. A server that does not serve ranges
/// has it start over, and so does an object that changed its size.
pub fn ftp_start(
    ranged: bool,
    held: &Vec<(u64, u64)>,
    expected_size: Option<u64>,
    size: u64,
) -> (r: u64)
    ensures
        r == ftp_offset(ranged, held@, expected_size, size),
{
    if !ranged {
        return 0;
    }
    if let Some(e) = expected_size {
        if e != size {
            return 0;
        }
    }
    let mut i: usize = 0;
    proof {
        assert(held@.skip(0) =~= held@);
    }
    while i < held.len()
        invariant
            ranged,
            !is_changed(expected_size, size),
            i <= held@.len(),
            prefix_end(held@) == prefix_end(held@.skip(i as int)),
        decreases held@.len() - i,
    {
        let (lo, hi) = held[i];
        proof {
            assert(held@.skip(i as int)[0] == held@[i as int]);
        }
        if lo == 0 {
            return if hi <= size {
                hi
            } else {
                size
            };
        }
        proof {
            assert(held@.skip(i as int).skip(1) =~= held@.skip(i + 1));
        }
        i = i + 1;
    }
    0
}

/// Reports the end of an FTP transfer of which the first `done` bytes are on
/// disk; nothing where the file is complete.
pub fn ftp_end(spec: &StartSpec, end: TransferEnd, done: u64) -> (r: Option<Event>)
    ensures
        match end {
            TransferEnd::Complete => r is None,
            TransferEnd::Interrupted => r matches Some(e) && e.is_stop(
                spec.id,
                done as int,
                seq![(0u64, done)],
            ),
            TransferEnd::Failed { kind, text } => r matches Some(e) && e.is_failure(
                spec.id,
                ftp_text(text@),
                done as int,
                seq![(0u64, done)],
                false,
            ),
        },
{
    let mut held: Vec<(u64, u64)> = Vec::new();
    held.push((0, done));
    proof {
        assert(held@ =~= seq![(0u64, done)]);
    }
    match end {
        TransferEnd::Complete => None,
        TransferEnd::Interrupted => Some(Event::Stopped { id: spec.id, done, held }),
        TransferEnd::Failed { kind: _, text } => Some(
            Event::Failed {
                id: spec.id,
                error: ftp_message(text.as_str()),
                done,
                held,
                permission_denied: false,
            },
        ),
    }
}

/// Whether a byte lies in one of the spans.
pub open spec fn covers(spans: Seq<(u64, u64)>, x: u64) -> bool {
    exists|i: int| 0 <= i < spans.len() && (#[trigger] spans[i]).0 <= x < spans[i].1
}

proof fn lemma_covers_push(spans: Seq<(u64, u64)>, s: (u64, u64), x: u64)
    ensures
        covers(spans.push(s), x) == (covers(spans, x) || s.0 <= x < s.1),
{
    let all = spans.push(s);
    if covers(spans, x) {
        let i = choose|i: int| 0 <= i < spans.len() && (#[trigger] spans[i]).0 <= x < spans[i].1;
        assert(all[i] == spans[i]);
    }
    if s.0 <= x < s.1 {
        assert(all[spans.len() as int] == s);
    }
    if covers(all, x) {
        let i = choose|i: int| 0 <= i < all.len() && (#[trigger] all[i]).0 <= x < all[i].1;
        if i < spans.len() {
            assert(spans[i] == all[i]);
        }
    }
}

proof fn lemma_usable_covers(held: Seq<(u64, u64)>, size: u64, x: u64)
    ensures
        covers(usable_spans(held, size), x) == (covers(held, x) && x < size),
    decreases held.len(),
{
    if held.len() > 0 {
        let init = held.drop_last();
        lemma_usable_covers(init, size, x);
        lemma_covers_push(init, held.last(), x);
        assert(init.push(held.last()) =~= held);
        if let Some(s) = cut_span(held.last(), size) {
            lemma_covers_push(usable_spans(init, size), s, x);
        }
    }
}

/// Exactly what is on disk is resumed from: where the object is still the one
/// that was held in part, or nothing is known of its size before, a byte counts
/// as fetched if and only if it lies in a held span and within the object.
pub proof fn law_every_held_byte_is_resumed(spec: StartSpec, size: u64, x: u64)
    requires
        spec.expected_size is None || spec.expected_size == Some(size),
    ensures
        covers(resumable(spec, size), x) <==> x < size && exists|i: int|
            0 <= i < spec.held@.len() && (#[trigger] spec.held@[i]).0 <= x < spec.held@[i].1,
{
    lemma_usable_covers(spec.held@, size, x);
}

/// The bytes of several spans are those of all but the last and those of the
/// last.
pub proof fn law_span_sum_adds_up(spans: Seq<(u64, u64)>, s: (u64, u64))
    ensures
        span_sum(Seq::<(u64, u64)>::empty()) == 0,
        span_sum(spans.push(s)) == span_sum(spans) + s.1 - s.0,
{
    assert(spans.push(s).drop_last() =~= spans);
}

/// Spans that hold something and lie within the object are resumed from as they
/// are, so the bytes that need not be fetched again are all that they hold.
pub proof fn law_whole_spans_are_resumed_as_they_are(spec: StartSpec, size: u64)
    requires
        spec.expected_size is None || spec.expected_size == Some(size),
        forall|i: int|
            0 <= i < spec.held@.len() ==> (#[trigger] spec.held@[i]).0 < spec.held@[i].1 <= size,
    ensures
        resumable(spec, size) == spec.held@,
        span_sum(resumable(spec, size)) == span_sum(spec.held@),
{
    lemma_usable_whole(spec.held@, size);
}

proof fn lemma_usable_whole(held: Seq<(u64, u64)>, size: u64)
    requires
        forall|i: int| 0 <= i < held.len() ==> (#[trigger] held[i]).0 < held[i].1 <= size,
    ensures
        usable_spans(held, size) == held,
    decreases held.len(),
{
    if held.len() > 0 {
        let init = held.drop_last();
        assert forall|i: int| 0 <= i < init.len() implies (#[trigger] init[i]).0 < init[i].1
            <= size by {
            assert(held[i].0 < held[i].1 <= size);
        }
        lemma_usable_whole(init, size);
        assert(held[held.len() - 1].0 < held[held.len() - 1].1 <= size);
        assert(init.push(held.last()) =~= held);
    }
}

/// An FTP transfer carries on from the end of the part that is held from the
/// start of the file, or from the end of the file where that comes first, as
/// long as the server serves ranges and the object is still the same.
pub proof fn law_ftp_carries_on_from_the_held_prefix(
    held: Seq<(u64, u64)>,
    i: int,
    expected_size: Option<u64>,
    size: u64,
)
    requires
        0 <= i < held.len(),
        held[i].0 == 0,
        forall|j: int| 0 <= j < i ==> (#[trigger] held[j]).0 != 0,
        expected_size is None || expected_size == Some(size),
    ensures
        ftp_offset(true, held, expected_size, size) <= size,
        held[i].1 <= size ==> ftp_offset(true, held, expected_size, size) == held[i].1,
        held[i].1 > size ==> ftp_offset(true, held, expected_size, size) == size,
        ftp_offset(false, held, expected_size, size) == 0,
    decreases held.len(),
{
    if i > 0 {
        assert(held[0].0 != 0);
        let rest = held.skip(1);
        assert forall|j: int| 0 <= j < i - 1 implies (#[trigger] rest[j]).0 != 0 by {
            assert(held[j + 1].0 != 0);
        }
        law_ftp_carries_on_from_the_held_prefix(rest, i - 1, expected_size, size);
    }
}

/// Without a part from the start of the file there is nothing to carry on from.
pub proof fn law_ftp_starts_over_without_a_prefix(
    ranged: bool,
    held: Seq<(u64, u64)>,
    expected_size: Option<u64>,
    size: u64,
)
    requires
        forall|j: int| 0 <= j < held.len() ==> (#[trigger] held[j]).0 != 0,
    ensures
        ftp_offset(ranged, held, expected_size, size) == 0,
    decreases held.len(),
{
    if held.len() > 0 {
        assert(held[0].0 != 0);
        let rest = held.skip(1);
        assert forall|j: int| 0 <= j < rest.len() implies (#[trigger] rest[j]).0 != 0 by {
            assert(held[j + 1].0 != 0);
        }
        law_ftp_starts_over_without_a_prefix(ranged, rest, expected_size, size);
    }
}

/// The size of an object is what a successful response states, and nothing
/// else: neither an error page nor a redirect says how large the object is.
pub proof fn law_only_a_successful_response_states_the_size(p: Probe)
    ensures
        known_size(p) matches Some(n) ==> n == p.size && n > 0 && p.status < 300,
        p.status < 300 && p.size > 0 ==> known_size(p) is Some,
{
}

/// The name that the server suggests is taken before the one in the URL.
pub proof fn law_the_suggested_name_comes_first(name: String, from_url: Seq<char>)
    ensures
        name_or(Some(name), from_url) == name@,
        name_or(None, from_url) == from_url,
{
}

/// A page is looked at for a redirect only if it is small and successful, names
/// no file, and is HTML.
pub proof fn law_only_a_small_unnamed_page_may_forward(p: Probe, max_page: int)
    ensures
        may_forward(p, max_page) <==> (200 <= p.status < 300 && p.disposition is None && p.size
            <= max_page && (p.content_type matches Some(c) && lowered(trimmed_start(c@)).len() >= 9
            && lowered(trimmed_start(c@)).take(9) == "text/html"@)),
{
    reveal_strlit("text/html");
    if let Some(c) = p.content_type {
        let low = lowered(trimmed_start(c@));
        if low.len() >= 9 {
            assert(low.take(9) =~= low.subrange(0, 9));
        }
    }
}

/// After a hop the download asks at the new place, unless it was stopped or the
/// budget is spent, and then it reports that and keeps what it holds.
pub proof fn law_a_hop_is_followed_or_reported(
    map: Map<Seq<char>, Seq<char>>,
    spec: StartSpec,
    hops: int,
    url: Seq<char>,
    cancelled: bool,
    action: ResolveAction,
)
    requires
        hopped(map, spec, hops, url, cancelled, action),
    ensures
        !cancelled && hops < 10 ==> (action matches ResolveAction::Ask(u) && u@ == url),
        cancelled ==> (action matches ResolveAction::Report(Event::Stopped { id, done, held }) && id
            == spec.id && done == 0 && held@ == spec.held@),
        !cancelled && hops >= 10 ==> (action matches ResolveAction::Report(
            Event::Failed { id, error, done, held, permission_denied },
        ) && id == spec.id && error@ == translation(map, "Too many redirects"@) && done == 0
            && held@ == spec.held@ && !permission_denied),
{
}

/// A connection that is given another range is counted from the start of that
/// range: what it did before stays counted, and nothing is counted twice.
pub proof fn law_a_new_range_counts_from_its_start(last_lo: int, last_pos: int, lo: int, pos: int)
    requires
        lo <= pos,
    ensures
        last_lo != lo ==> progress(last_lo, last_pos, lo, pos) == pos - lo,
        last_lo == lo && last_pos <= pos ==> progress(last_lo, last_pos, lo, pos) == pos - last_pos,
        last_lo == lo && pos < last_pos ==> progress(last_lo, last_pos, lo, pos) == pos - lo,
        progress(last_lo, last_pos, lo, lo) == 0 || last_lo == lo,
{
}

/// Sightings add up one by one.
pub proof fn law_sightings_add_up(last_lo: int, last_pos: int, next: (u64, u64), seen: Seq<(u64, u64)>)
    ensures
        counted(last_lo, last_pos, Seq::<(u64, u64)>::empty()) == 0,
        counted(last_lo, last_pos, seq![next] + seen) == progress(
            last_lo,
            last_pos,
            next.0 as int,
            next.1 as int,
        ) + counted(next.0 as int, next.1 as int, seen),
{
    assert((seq![next] + seen).skip(1) =~= seen);
}

/// A connection without a range is waiting where the number of connections is
/// capped, and otherwise gone; one with a range is receiving or asking.
pub proof fn law_a_connection_says_what_it_does(capped: bool, receiving: bool)
    ensures
        conn_msgid(false, true, receiving) == "Waiting (connection limit)..."@,
        conn_msgid(false, false, receiving) == "Disconnect."@,
        conn_msgid(true, capped, true) == "Receiving data..."@,
        conn_msgid(true, capped, false) == "Send GET..."@,
{
}

/// A failure over FTP says so.
pub proof fn law_an_ftp_failure_says_so(text: Seq<char>)
    ensures
        ftp_text(text).take("ftp: "@.len() as int) == "ftp: "@,
        ftp_text(text).skip("ftp: "@.len() as int) == text,
{
    assert(ftp_text(text).take("ftp: "@.len() as int) =~= "ftp: "@);
    assert(ftp_text(text).skip("ftp: "@.len() as int) =~= text);
}

} // verus!
