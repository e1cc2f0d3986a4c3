//! Recording a live stream: which segments of a sliding window are new, when
//! the recording goes on, and how it ends.

use crate::engine::{drm_refusal, DlId, Event};
#[allow(unused_imports)]
use crate::engine::drm_text;
use crate::error::ErrorKind;
use crate::i18n::Catalogue;
use crate::stream::FinishShape;
use crate::text::{push_decimal, same_str};
#[allow(unused_imports)]
use crate::text::{decimal, texts};
use vstd::prelude::*;

verus! {

/// How far below the last taken number counts as a restarted sequence rather
/// than a stale republish. A live window is a handful of segments.
pub const RESET_GAP: u64 = 64;

/// How many passes without any segment are waited out.
pub const BARREN_LIMIT: u32 = 3;

/// Whether the origin has begun to number anew.
pub open spec fn restarts(last: Option<u64>, seq: u64) -> bool {
    match last {
        Some(l) => seq + RESET_GAP < l,
        None => false,
    }
}

/// Whether a segment was not taken yet.
pub open spec fn is_new(last: Option<u64>, seq: u64) -> bool {
    match last {
        Some(l) => seq > l || restarts(last, seq),
        None => true,
    }
}

/// The last number once a segment has been looked at.
pub open spec fn advanced(last: Option<u64>, seq: u64) -> Option<u64> {
    if is_new(last, seq) {
        Some(seq)
    } else {
        last
    }
}

/// The numbers that the origin dropped before they could be taken, first and
/// last.
pub open spec fn gap_before(last: Option<u64>, seq: u64) -> Option<(u64, u64)> {
    match last {
        Some(l) => if seq > l + 1 {
            Some(((l + 1) as u64, (seq - 1) as u64))
        } else {
            None
        },
        None => None,
    }
}

/// The last number once a window has been looked at.
pub open spec fn last_after(last: Option<u64>, seqs: Seq<u64>) -> Option<u64>
    decreases seqs.len(),
{
    if seqs.len() == 0 {
        last
    } else {
        advanced(last_after(last, seqs.drop_last()), seqs.last())
    }
}

/// The places in a window of the segments that are taken.
pub open spec fn taken(last: Option<u64>, seqs: Seq<u64>) -> Seq<int>
    decreases seqs.len(),
{
    if seqs.len() == 0 {
        Seq::empty()
    } else {
        let before = taken(last, seqs.drop_last());
        if is_new(last_after(last, seqs.drop_last()), seqs.last()) {
            before.push(seqs.len() - 1)
        } else {
            before
        }
    }
}

/// The gaps that a window reveals.
pub open spec fn gaps(last: Option<u64>, seqs: Seq<u64>) -> Seq<(u64, u64)>
    decreases seqs.len(),
{
    if seqs.len() == 0 {
        Seq::empty()
    } else {
        let before = gaps(last, seqs.drop_last());
        match gap_before(last_after(last, seqs.drop_last()), seqs.last()) {
            Some(g) => before.push(g),
            None => before,
        }
    }
}

/// How many numbers the gaps span.
pub open spec fn gap_sum(g: Seq<(u64, u64)>) -> int
    decreases g.len(),
{
    if g.len() == 0 {
        0
    } else {
        gap_sum(g.drop_last()) + (g.last().1 - g.last().0 + 1)
    }
}

/// Whether the numbering goes on through the whole window.
pub open spec fn steady(last: Option<u64>, seqs: Seq<u64>) -> bool {
    forall|i: int|
        0 <= i < seqs.len() ==> !restarts(#[trigger] last_after(last, seqs.take(i)), seqs[i])
}

/// Whether a window lists its segments in order and is no wider than the gap
/// by which a restart is told.
pub open spec fn narrow(seqs: Seq<u64>) -> bool {
    &&& forall|i: int, j: int| 0 <= i < j < seqs.len() ==> seqs[i] < seqs[j]
    &&& seqs.len() > 0 ==> seqs.last() <= seqs[0] + RESET_GAP
}

proof fn lemma_steady_prefix(last: Option<u64>, seqs: Seq<u64>)
    requires
        seqs.len() > 0,
        steady(last, seqs),
    ensures
        steady(last, seqs.drop_last()),
        !restarts(last_after(last, seqs.drop_last()), seqs.last()),
{
    let init = seqs.drop_last();
    let n = init.len() as int;
    assert(seqs.take(n) =~= init);
    assert(!restarts(last_after(last, seqs.take(n)), seqs[n]));
    assert forall|i: int| 0 <= i < init.len() implies !restarts(
        #[trigger] last_after(last, init.take(i)),
        init[i],
    ) by {
        assert(init.take(i) =~= seqs.take(i));
        assert(!restarts(last_after(last, seqs.take(i)), seqs[i]));
    }
}

/// While the numbering goes on, segments are taken in the order of their
/// numbers, each newer than everything before it, and so none is taken twice.
pub proof fn law_segments_are_taken_in_order(last: Option<u64>, seqs: Seq<u64>)
    requires
        steady(last, seqs),
    ensures
        forall|k: int|
            0 <= k < taken(last, seqs).len() ==> 0 <= #[trigger] taken(last, seqs)[k]
                < seqs.len(),
        forall|k: int|
            0 <= k < taken(last, seqs).len() && last is Some ==> seqs[#[trigger] taken(
                last,
                seqs,
            )[k]] > last->0,
        forall|k: int, m: int|
            0 <= k < m < taken(last, seqs).len() ==> seqs[#[trigger] taken(last, seqs)[k]]
                < seqs[#[trigger] taken(last, seqs)[m]],
        forall|k: int|
            0 <= k < taken(last, seqs).len() ==> last_after(last, seqs) is Some && seqs[
            #[trigger] taken(last, seqs)[k]] <= last_after(last, seqs)->0,
        last is Some ==> last_after(last, seqs) is Some && last->0 <= last_after(last, seqs)->0,
    decreases seqs.len(),
{
    if seqs.len() > 0 {
        let init = seqs.drop_last();
        lemma_steady_prefix(last, seqs);
        law_segments_are_taken_in_order(last, init);
        let before = taken(last, init);
        let all = taken(last, seqs);
        assert forall|k: int| 0 <= k < before.len() implies all[k] == before[k] && seqs[before[k]]
            == init[before[k]] by {}
        assert forall|k: int, m: int| 0 <= k < m < all.len() implies seqs[#[trigger] all[k]]
            < seqs[#[trigger] all[m]] by {
            if m < before.len() {
                assert(init[before[k]] < init[before[m]]);
            } else {
                assert(init[before[k]] <= last_after(last, init)->0);
            }
        }
        assert forall|k: int| 0 <= k < all.len() implies last_after(last, seqs) is Some && seqs[
        #[trigger] all[k]] <= last_after(last, seqs)->0 by {
            if k < before.len() {
                assert(init[before[k]] <= last_after(last, init)->0);
            }
        }
        assert forall|k: int| 0 <= k < all.len() && last is Some implies seqs[#[trigger] all[k]]
            > last->0 by {
            if k < before.len() {
                assert(init[before[k]] > last->0);
            }
        }
        assert forall|k: int| 0 <= k < all.len() implies 0 <= #[trigger] all[k] < seqs.len() by {
            if k < before.len() {
                assert(0 <= before[k] < init.len());
            }
        }
    }
}

/// While the numbering goes on, nothing goes missing unnoticed: every number
/// between what was recorded before and the end of the window is either taken
/// or in a gap that is reported.
pub proof fn law_every_number_is_taken_or_missed(last: Option<u64>, seqs: Seq<u64>)
    requires
        last is Some,
        steady(last, seqs),
    ensures
        last_after(last, seqs) is Some,
        taken(last, seqs).len() + gap_sum(gaps(last, seqs)) == last_after(last, seqs)->0 - last->0,
    decreases seqs.len(),
{
    if seqs.len() > 0 {
        let init = seqs.drop_last();
        lemma_steady_prefix(last, seqs);
        law_every_number_is_taken_or_missed(last, init);
        let l = last_after(last, init);
        let seq = seqs.last();
        if let Some(g) = gap_before(l, seq) {
            assert(gaps(last, init).push(g).drop_last() =~= gaps(last, init));
        }
    }
}

proof fn lemma_last_after_narrow(last: Option<u64>, seqs: Seq<u64>)
    requires
        narrow(seqs),
        seqs.len() > 0,
    ensures
        last_after(last, seqs) is Some,
        seqs.last() <= last_after(last, seqs)->0 <= seqs[0] + RESET_GAP,
    decreases seqs.len(),
{
    let init = seqs.drop_last();
    if init.len() > 0 {
        assert(narrow(init)) by {
            assert(init.last() == seqs[seqs.len() - 2]);
            assert(seqs[seqs.len() - 2] < seqs[seqs.len() - 1]);
        }
        lemma_last_after_narrow(last, init);
        assert(init[0] == seqs[0]);
    } else {
        assert(last_after(last, init) == last);
    }
}

proof fn lemma_nothing_new(last: u64, seqs: Seq<u64>)
    requires
        forall|i: int| 0 <= i < seqs.len() ==> #[trigger] seqs[i] <= last <= seqs[i] + RESET_GAP,
    ensures
        taken(Some(last), seqs).len() == 0,
        last_after(Some(last), seqs) == Some(last),
    decreases seqs.len(),
{
    if seqs.len() > 0 {
        let init = seqs.drop_last();
        assert forall|i: int| 0 <= i < init.len() implies #[trigger] init[i] <= last <= init[i]
            + RESET_GAP by {
            assert(seqs[i] <= last <= seqs[i] + RESET_GAP);
        }
        lemma_nothing_new(last, init);
        assert(seqs[seqs.len() - 1] <= last <= seqs[seqs.len() - 1] + RESET_GAP);
    }
}

/// A window that is published again brings nothing new: looking at it a second
/// time takes no segment and changes nothing.
pub proof fn law_a_window_is_taken_once(last: Option<u64>, seqs: Seq<u64>)
    requires
        narrow(seqs),
    ensures
        taken(last_after(last, seqs), seqs).len() == 0,
        last_after(last_after(last, seqs), seqs) == last_after(last, seqs),
{
    if seqs.len() > 0 {
        lemma_last_after_narrow(last, seqs);
        let l = last_after(last, seqs)->0;
        assert forall|i: int| 0 <= i < seqs.len() implies #[trigger] seqs[i] <= l <= seqs[i]
            + RESET_GAP by {
            if i > 0 {
                assert(seqs[0] < seqs[i]);
            }
            if i < seqs.len() - 1 {
                assert(seqs[i] < seqs[seqs.len() - 1]);
            }
        }
        lemma_nothing_new(l, seqs);
    }
}

/// An encoder that restarts and numbers its segments anew is followed at once:
/// every segment of its first window is taken, and none is reported missing.
pub proof fn law_a_restart_is_recorded_in_full(last: Option<u64>, seqs: Seq<u64>)
    requires
        seqs.len() > 0,
        restarts(last, seqs[0]),
        forall|i: int| 0 < i < seqs.len() ==> #[trigger] seqs[i] == seqs[0] + i,
    ensures
        taken(last, seqs) == Seq::new(seqs.len(), |i: int| i),
        gaps(last, seqs) == Seq::<(u64, u64)>::empty(),
        last_after(last, seqs) == Some(seqs.last()),
    decreases seqs.len(),
{
    let init = seqs.drop_last();
    if init.len() > 0 {
        assert forall|i: int| 0 < i < init.len() implies #[trigger] init[i] == init[0] + i by {
            assert(seqs[i] == seqs[0] + i);
        }
        law_a_restart_is_recorded_in_full(last, init);
        let n = init.len() as int;
        assert(seqs[n] == seqs[0] + n);
        assert(n > 1 ==> seqs[n - 1] == seqs[0] + (n - 1));
    } else {
        assert(taken(last, init) =~= Seq::<int>::empty());
        assert(gaps(last, init) =~= Seq::<(u64, u64)>::empty());
    }
    assert(taken(last, seqs) =~= Seq::new(seqs.len(), |i: int| i));
}

/// What is to be fetched of a window.
pub struct WindowPlan {
    /// The places in the window, in order.
    pub wanted: Vec<usize>,
    /// The numbers that the origin dropped, first and last of each gap.
    pub gaps: Vec<(u64, u64)>,
}

/// The places as numbers.
pub open spec fn places(v: Seq<usize>) -> Seq<int> {
    Seq::new(v.len(), |i: int| v[i] as int)
}

/// What a recording knows of one of its tracks.
#[derive(Clone, Copy, Debug)]
pub struct TrackState {
    /// The number of the last segment taken.
    pub last: Option<u64>,
    /// The initialisation segment is in the file, or there is none.
    pub init_done: bool,
    /// The segments are MPEG-TS.
    pub is_ts: bool,
}

/// What became of a segment.
pub enum SegmentEnd {
    /// It was fetched; `appended` says that it reached the file.
    Fetched { appended: bool },
    Failed(ErrorKind),
}

/// What to do after a segment.
#[derive(Clone, Copy, Debug, PartialEq, Eq, Structural)]
pub enum SegmentNext {
    /// It is part of the recording.
    Settled,
    /// It is a gap in the recording, which goes on.
    Lost,
    /// The user stopped the recording: drop what is still queued.
    Stop,
}

/// What to do after every track was looked at.
pub enum PassNext {
    /// Wait, then read the manifest again.
    Wait,
    /// Finish the file.
    Stop,
    Fail(String),
}

/// How a recording ends.
pub enum RecordEnd {
    /// Finish the file.
    Finalise,
    /// Drop the parts and report this.
    Fail(String),
}

/// A recording in progress.
pub struct Recorder {
    tracks: Vec<TrackState>,
    taken: u64,
    barren: u32,
}

impl Recorder {
    pub closed spec fn tracks(self) -> Seq<TrackState> {
        self.tracks@
    }

    /// How many segments are part of the recording.
    pub closed spec fn count(self) -> int {
        self.taken as int
    }

    /// How many passes went by while there was none.
    pub closed spec fn barren(self) -> int {
        self.barren as int
    }

    /// Passes without a segment are counted only up to the limit.
    pub open spec fn wf(self) -> bool {
        0 <= self.barren() <= BARREN_LIMIT
    }

    /// A recording of that many tracks, with nothing in it.
    pub fn new(tracks: usize) -> (r: Recorder)
        ensures
            r.wf(),
            r.tracks() == Seq::new(
                tracks as nat,
                |i: int| TrackState { last: None, init_done: false, is_ts: true },
            ),
            r.count() == 0,
            r.barren() == 0,
    {
        let mut v: Vec<TrackState> = Vec::new();
        let mut i: usize = 0;
        while i < tracks
            invariant
                i <= tracks,
                v@.len() == i,
                forall|j: int|
                    0 <= j < i ==> v@[j] == (TrackState {
                        last: None,
                        init_done: false,
                        is_ts: true,
                    }),
            decreases tracks - i,
        {
            v.push(TrackState { last: None, init_done: false, is_ts: true });
            i = i + 1;
        }
        let r = Recorder { tracks: v, taken: 0, barren: 0 };
        proof {
            assert(r.tracks() =~= Seq::new(
                tracks as nat,
                |i: int| TrackState { last: None, init_done: false, is_ts: true },
            ));
        }
        r
    }

    /// How many segments are part of the recording.
    pub fn segments(&self) -> (r: u64)
        ensures
            r == self.count(),
    {
        self.taken
    }

    /// How many tracks there are.
    pub fn track_count(&self) -> (r: usize)
        ensures
            r == self.tracks().len(),
    {
        self.tracks.len()
    }

    /// How the recorded parts become one file: video and audio are combined.
    pub fn shape(&self) -> (r: FinishShape)
        ensures
            r == (if self.tracks().len() == 2 {
                FinishShape::Mux
            } else {
                FinishShape::Wrap
            }),
    {
        if self.tracks.len() == 2 {
            FinishShape::Mux
        } else {
            FinishShape::Wrap
        }
    }

    /// Whether a track's segments are MPEG-TS.
    pub fn is_ts(&self, track: usize) -> (r: bool)
        requires
            track < self.tracks().len(),
        ensures
            r == self.tracks()[track as int].is_ts,
    {
        self.tracks[track].is_ts
    }

    /// Whether the initialisation segment of a track is still to be placed,
    /// which has to come before anything else in the file.
    pub fn wants_init(&self, track: usize) -> (r: bool)
        requires
            track < self.tracks().len(),
        ensures
            r == !self.tracks()[track as int].init_done,
    {
        !self.tracks[track].init_done
    }

    /// Notes that the initialisation segment is in place, or that there is
    /// none.
    pub fn init_placed(&mut self, track: usize)
        requires
            old(self).wf(),
            track < old(self).tracks().len(),
        ensures
            final(self).wf(),
            final(self).count() == old(self).count(),
            final(self).barren() == old(self).barren(),
            final(self).tracks() == old(self).tracks().update(
                track as int,
                TrackState { init_done: true, ..old(self).tracks()[track as int] },
            ),
    {
        let mut t = self.tracks[track];
        t.init_done = true;
        self.tracks.set(track, t);
    }

    /// Looks at the window of a track and says what to fetch. A segment counts
    /// as taken from here on: one that then cannot be fetched is a gap that
    /// the recording moves past, not one it retries into a stall.
    pub fn plan_window(&mut self, track: usize, is_ts: bool, seqs: &Vec<u64>) -> (r: WindowPlan)
        requires
            old(self).wf(),
            track < old(self).tracks().len(),
        ensures
            final(self).wf(),
            final(self).count() == old(self).count(),
            final(self).barren() == old(self).barren(),
            ({
                let last = old(self).tracks()[track as int].last;
                &&& places(r.wanted@) == taken(last, seqs@)
                &&& r.gaps@ == gaps(last, seqs@)
                &&& forall|i: int|
                    0 <= i < seqs@.len() && (last is None || seqs@[i] > last->0) && (forall|j: int|
                        0 <= j < i ==> #[trigger] seqs@[j] < seqs@[i]) ==> #[trigger] places(
                        r.wanted@,
                    ).contains(i)
                &&& final(self).tracks() == old(self).tracks().update(
                    track as int,
                    TrackState {
                        last: last_after(last, seqs@),
                        is_ts,
                        ..old(self).tracks()[track as int]
                    },
                )
            }),
    {
        let mut wanted: Vec<usize> = Vec::new();
        let mut missed: Vec<(u64, u64)> = Vec::new();
        let mut t = self.tracks[track];
        let ghost first = t.last;
        let mut last: Option<u64> = t.last;
        let mut i: usize = 0;
        proof {
            assert(seqs@.take(0) =~= Seq::<u64>::empty());
            assert(places(wanted@) =~= Seq::<int>::empty());
        }
        while i < seqs.len()
            invariant
                i <= seqs@.len(),
                last == last_after(first, seqs@.take(i as int)),
                places(wanted@) == taken(first, seqs@.take(i as int)),
                missed@ == gaps(first, seqs@.take(i as int)),
            decreases seqs@.len() - i,
        {
            let seq: u64 = seqs[i];
            proof {
                assert(seqs@.take(i + 1).drop_last() =~= seqs@.take(i as int));
                assert(seqs@.take(i + 1).last() == seq);
            }
            let fresh: bool = match last {
                Some(l) => seq > l || (l > RESET_GAP && seq < l - RESET_GAP),
                None => true,
            };
            if fresh {
                if let Some(l) = last {
                    if seq > l && seq - l > 1 {
                        missed.push((l + 1, seq - 1));
                    }
                }
                let ghost before = places(wanted@);
                wanted.push(i);
                last = Some(seq);
                proof {
                    assert(places(wanted@) =~= before.push(i as int));
                }
            }
            i = i + 1;
        }
        proof {
            assert(seqs@.take(i as int) =~= seqs@);
        }
        proof {
            assert forall|n: int|
                0 <= n < seqs@.len() && (first is None || seqs@[n] > first->0) && (forall|j: int|
                    0 <= j < n ==> #[trigger] seqs@[j] < seqs@[n]) implies #[trigger] places(
                wanted@,
            ).contains(n) by {
                law_a_newer_segment_is_taken(first, seqs@, n);
            }
        }
        t.last = last;
        t.is_ts = is_ts;
        self.tracks.set(track, t);
        WindowPlan { wanted, gaps: missed }
    }

    /// Takes the outcome of a segment.
    pub fn segment_over(&mut self, end: SegmentEnd) -> (r: SegmentNext)
        requires
            old(self).wf(),
            old(self).count() < u64::MAX,
        ensures
            final(self).wf(),
            final(self).tracks() == old(self).tracks(),
            final(self).barren() == old(self).barren(),
            final(self).count() == old(self).count() + (if r == SegmentNext::Settled {
                1int
            } else {
                0
            }),
            r == (match end {
                SegmentEnd::Fetched { appended } => if appended {
                    SegmentNext::Settled
                } else {
                    SegmentNext::Lost
                },
                SegmentEnd::Failed(kind) => if kind == ErrorKind::Interrupted {
                    SegmentNext::Stop
                } else {
                    SegmentNext::Lost
                },
            }),
    {
        match end {
            SegmentEnd::Fetched { appended } => if appended {
                self.taken = self.taken + 1;
                SegmentNext::Settled
            } else {
                SegmentNext::Lost
            },
            SegmentEnd::Failed(kind) => if kind == ErrorKind::Interrupted {
                SegmentNext::Stop
            } else {
                SegmentNext::Lost
            },
        }
    }

    /// Decides when the manifest could not be read again: what was recorded is
    /// not thrown away for it.
    pub fn refresh_failed(&self, error: String) -> (r: RecordEnd)
        ensures
            if self.count() > 0 {
                r is Finalise
            } else {
                r matches RecordEnd::Fail(e) && e@ == error@
            },
    {
        if self.taken > 0 {
            RecordEnd::Finalise
        } else {
            RecordEnd::Fail(error)
        }
    }

    /// Decides after every track was looked at. An origin that publishes
    /// nothing is given up after a few passes. Otherwise the recording ends
    /// when its length is reached, when the stream does, or when the user stops
    /// it; all of these finish the file.
    pub fn pass_over(&mut self, spent: bool, ended: bool, cancelled: bool, late: bool) -> (r:
        PassNext)
        requires
            old(self).wf(),
        ensures
            final(self).wf(),
            final(self).tracks() == old(self).tracks(),
            final(self).count() == old(self).count(),
            final(self).barren() == (if old(self).count() == 0 && old(self).barren()
                < BARREN_LIMIT {
                old(self).barren() + 1
            } else {
                old(self).barren()
            }),
            if old(self).count() == 0 && final(self).barren() >= BARREN_LIMIT {
                r matches PassNext::Fail(e) && e@
                    == "the manifest published no segments; nothing to record"@
            } else if spent || ended || cancelled || late {
                r is Stop
            } else {
                r is Wait
            },
    {
        if self.taken == 0 {
            if self.barren < BARREN_LIMIT {
                self.barren = self.barren + 1;
            }
            if self.barren >= BARREN_LIMIT {
                return PassNext::Fail(
                    String::from_str("the manifest published no segments; nothing to record"),
                );
            }
        }
        if spent || ended || cancelled || late {
            PassNext::Stop
        } else {
            PassNext::Wait
        }
    }

    /// How the recording ends when nothing went wrong: with a file, unless
    /// there is nothing to put in it.
    pub fn end(&self) -> (r: RecordEnd)
        ensures
            if self.count() == 0 {
                r matches RecordEnd::Fail(e) && e@ == "the stream produced no segments"@
            } else {
                r is Finalise
            },
    {
        if self.taken == 0 {
            RecordEnd::Fail(String::from_str("the stream produced no segments"))
        } else {
            RecordEnd::Finalise
        }
    }
}

/// What the user is told when an initialisation segment cannot be placed.
pub fn init_failure(error: &str) -> (r: String)
    ensures
        r@ == "could not place the init segment: "@ + error@,
{
    let mut s = String::from_str("could not place the init segment: ");
    s.append(error);
    s
}

/// Reports a stream that failed; nothing of it is kept for resuming.
pub fn stream_failure(id: DlId, error: String) -> (r: Event)
    ensures
        r.is_failure(id, error@, 0, Seq::empty(), false),
{
    Event::Failed { id, error, done: 0, held: Vec::new(), permission_denied: false }
}

/// Decides whether a playlist that was read again may still be recorded.
pub fn check_playlist(catalogue: &Catalogue, drm: Option<&str>, encryption: Option<&str>) -> (r:
    Result<(), String>)
    ensures
        match r {
            Ok(_) => drm is None && encryption is None,
            Err(e) => match drm {
                Some(d) => e@ == drm_text(catalogue@, d@),
                None => encryption matches Some(m) && e@ == m@
                    + " encrypted streams are not supported yet"@,
            },
        },
{
    if let Some(d) = drm {
        return Err(drm_refusal(catalogue, d));
    }
    if let Some(m) = encryption {
        let mut s = String::from_str(m);
        s.append(" encrypted streams are not supported yet");
        return Err(s);
    }
    Ok(())
}

/// Whether `i` is the first place of `id` in `ids`.
pub open spec fn first_id(ids: Seq<Seq<char>>, id: Seq<char>, i: int) -> bool {
    0 <= i < ids.len() && ids[i] == id && forall|j: int| 0 <= j < i ==> ids[j] != id
}

fn find_id(ids: &Vec<String>, id: &str) -> (r: Option<usize>)
    ensures
        match r {
            Some(i) => first_id(texts(ids@), id@, i as int),
            None => !texts(ids@).contains(id@),
        },
{
    let mut i: usize = 0;
    while i < ids.len()
        invariant
            i <= ids@.len(),
            forall|j: int| 0 <= j < i ==> texts(ids@)[j] != id@,
        decreases ids@.len() - i,
    {
        if same_str(ids[i].as_str(), id) {
            proof {
                assert(texts(ids@)[i as int] == id@);
            }
            return Some(i);
        }
        i = i + 1;
    }
    None
}

/// Finds the renditions of a recording in a manifest that was read again. They
/// are pinned by their identity, so that a refresh cannot switch to another one
/// under a half-written file.
pub fn pick_renditions(
    catalogue: &Catalogue,
    drm: Option<&str>,
    video_ids: &Vec<String>,
    audio_ids: &Vec<String>,
    video: &str,
    audio: Option<&str>,
) -> (r: Result<(usize, Option<usize>), String>)
    ensures
        match r {
            Ok((v, a)) => {
                &&& drm is None
                &&& first_id(texts(video_ids@), video@, v as int)
                &&& match (audio, a) {
                    (Some(id), Some(k)) => first_id(texts(audio_ids@), id@, k as int),
                    (None, None) => true,
                    _ => false,
                }
            },
            Err(e) => match drm {
                Some(d) => e@ == drm_text(catalogue@, d@),
                None => if !texts(video_ids@).contains(video@) {
                    e@ == "the manifest no longer offers that video rendition"@
                } else {
                    &&& audio matches Some(id) && !texts(audio_ids@).contains(id@)
                    &&& e@ == "the manifest no longer offers that audio rendition"@
                },
            },
        },
{
    if let Some(d) = drm {
        return Err(drm_refusal(catalogue, d));
    }
    let v: usize = match find_id(video_ids, video) {
        Some(i) => i,
        None => {
            return Err(String::from_str("the manifest no longer offers that video rendition"));
        },
    };
    proof {
        assert(texts(video_ids@)[v as int] == video@);
    }
    match audio {
        None => Ok((v, None)),
        Some(id) => match find_id(audio_ids, id) {
            Some(k) => Ok((v, Some(k))),
            None => Err(String::from_str("the manifest no longer offers that audio rendition")),
        },
    }
}

/// The name of a file that belongs to a track: the staging path, a letter and
/// the track's number.
pub open spec fn track_file(temp: Seq<char>, mark: Seq<char>, track: int) -> Seq<char> {
    temp + mark + decimal(track as nat)
}

fn numbered(temp: &str, mark: &str, track: usize) -> (r: String)
    ensures
        r@ == track_file(temp@, mark@, track as int),
{
    let mut s = String::from_str(temp);
    s.append(mark);
    push_decimal(&mut s, track as u64);
    s
}

/// Where a track is put together.
pub fn part_path(temp: &str, track: usize) -> (r: String)
    ensures
        r@ == track_file(temp@, ".t"@, track as int),
{
    numbered(temp, ".t", track)
}

/// Where the initialisation segment of a track is staged.
pub fn init_path(temp: &str, track: usize) -> (r: String)
    ensures
        r@ == track_file(temp@, ".i"@, track as int),
{
    numbered(temp, ".i", track)
}

/// Where the segments of a track are staged.
pub fn staging_path(temp: &str, track: usize) -> (r: String)
    ensures
        r@ == track_file(temp@, ".s"@, track as int),
{
    numbered(temp, ".s", track)
}

/// Where one segment of a window is staged. Segments are fetched side by side,
/// so each has a name of its own.
pub fn segment_path(temp: &str, track: usize, n: usize) -> (r: String)
    ensures
        r@ == track_file(temp@, ".s"@, track as int) + "."@ + decimal(n as nat),
{
    let mut s = numbered(temp, ".s", track);
    s.append(".");
    push_decimal(&mut s, n as u64);
    s
}

/// Two segments of one window are never staged under the same name.
pub proof fn law_staging_names_differ(temp: Seq<char>, track: int, a: nat, b: nat)
    requires
        a != b,
    ensures
        track_file(temp, ".s"@, track) + "."@ + decimal(a) != track_file(temp, ".s"@, track)
            + "."@ + decimal(b),
{
    let front = track_file(temp, ".s"@, track) + "."@;
    crate::text::law_decimal_reads_back(a, a as int);
    crate::text::law_decimal_reads_back(b, b as int);
    if front + decimal(a) == front + decimal(b) {
        assert((front + decimal(a)).skip(front.len() as int) =~= decimal(a));
        assert((front + decimal(b)).skip(front.len() as int) =~= decimal(b));
    }
}

proof fn lemma_last_is_one_of(last: Option<u64>, seqs: Seq<u64>)
    ensures
        last_after(last, seqs) == last || exists|j: int|
            0 <= j < seqs.len() && last_after(last, seqs) == Some(#[trigger] seqs[j]),
        last is Some || seqs.len() > 0 ==> last_after(last, seqs) is Some,
    decreases seqs.len(),
{
    if seqs.len() > 0 {
        let init = seqs.drop_last();
        lemma_last_is_one_of(last, init);
        if last_after(last, seqs) == last_after(last, init) && last_after(last, init) != last {
            let j = choose|j: int|
                0 <= j < init.len() && last_after(last, init) == Some(#[trigger] init[j]);
            assert(seqs[j] == init[j]);
        } else if last_after(last, seqs) != last {
            assert(seqs[seqs.len() - 1] == seqs.last());
        }
    }
}

proof fn lemma_taken_of_prefix(last: Option<u64>, seqs: Seq<u64>, i: int)
    requires
        0 <= i < seqs.len(),
    ensures
        taken(last, seqs).contains(i) == is_new(last_after(last, seqs.take(i)), seqs[i]),
    decreases seqs.len(),
{
    let init = seqs.drop_last();
    let before = taken(last, init);
    let all = taken(last, seqs);
    lemma_taken_in_range(last, init);
    if i == seqs.len() - 1 {
        assert(seqs.take(i) =~= init);
        if is_new(last_after(last, init), seqs[i]) {
            assert(all[before.len() as int] == i);
        } else if all.contains(i) {
            let k = choose|k: int| 0 <= k < before.len() && before[k] == i;
            assert(0 <= before[k] < init.len());
        }
    } else {
        assert(init.take(i) =~= seqs.take(i));
        lemma_taken_of_prefix(last, init, i);
        if before.contains(i) {
            let k = choose|k: int| 0 <= k < before.len() && before[k] == i;
            assert(all[k] == i);
        }
        if all.contains(i) {
            let k = choose|k: int| 0 <= k < all.len() && all[k] == i;
            assert(k < before.len());
            assert(before[k] == i);
        }
    }
}

proof fn lemma_taken_in_range(last: Option<u64>, seqs: Seq<u64>)
    ensures
        forall|k: int|
            0 <= k < taken(last, seqs).len() ==> 0 <= #[trigger] taken(last, seqs)[k]
                < seqs.len(),
        forall|k: int, m: int|
            0 <= k < m < taken(last, seqs).len() ==> #[trigger] taken(last, seqs)[k]
                < #[trigger] taken(last, seqs)[m],
    decreases seqs.len(),
{
    if seqs.len() > 0 {
        let init = seqs.drop_last();
        lemma_taken_in_range(last, init);
        let before = taken(last, init);
        let all = taken(last, seqs);
        assert forall|k: int| 0 <= k < all.len() implies 0 <= #[trigger] all[k] < seqs.len() by {
            if k < before.len() {
                assert(0 <= before[k] < init.len());
            }
        }
        assert forall|k: int, m: int| 0 <= k < m < all.len() implies #[trigger] all[k]
            < #[trigger] all[m] by {
            assert(0 <= before[k] < init.len());
            if m < before.len() {
                assert(before[k] < before[m]);
            }
        }
    }
}

/// A segment whose number is above the last one and above every number before
/// it in the window is taken, whatever else the window holds.
pub proof fn law_a_newer_segment_is_taken(last: Option<u64>, seqs: Seq<u64>, i: int)
    requires
        0 <= i < seqs.len(),
        last matches Some(l) ==> seqs[i] > l,
        forall|j: int| 0 <= j < i ==> #[trigger] seqs[j] < seqs[i],
    ensures
        taken(last, seqs).contains(i),
{
    lemma_last_is_one_of(last, seqs.take(i));
    lemma_taken_of_prefix(last, seqs, i);
    let l = last_after(last, seqs.take(i));
    if l != last {
        let j = choose|j: int| 0 <= j < i && l == Some(#[trigger] seqs.take(i)[j]);
        assert(seqs[j] < seqs[i]);
    }
}

proof fn lemma_counting_up(s: Seq<int>, n: int)
    requires
        n >= 0,
        forall|k: int| 0 <= k < s.len() ==> 0 <= #[trigger] s[k] < n,
        forall|k: int, m: int| 0 <= k < m < s.len() ==> #[trigger] s[k] < #[trigger] s[m],
        forall|i: int| 0 <= i < n ==> s.contains(i),
    ensures
        s == Seq::new(n as nat, |i: int| i),
    decreases n,
{
    if n == 0 {
        if s.len() > 0 {
            assert(0 <= s[0] < n);
        }
    } else {
        assert(s.contains(n - 1));
        let p = choose|p: int| 0 <= p < s.len() && s[p] == n - 1;
        if p < s.len() - 1 {
            assert(s[p] < s[p + 1]);
        }
        let init = s.drop_last();
        assert forall|k: int| 0 <= k < init.len() implies 0 <= #[trigger] init[k] < n - 1 by {
            assert(s[k] < s[s.len() - 1]);
            assert(0 <= s[k]);
        }
        assert forall|k: int, m: int| 0 <= k < m < init.len() implies #[trigger] init[k]
            < #[trigger] init[m] by {
            assert(s[k] < s[m]);
        }
        assert forall|i: int| 0 <= i < n - 1 implies init.contains(i) by {
            assert(s.contains(i));
            let q = choose|q: int| 0 <= q < s.len() && s[q] == i;
            assert(init[q] == i);
        }
        lemma_counting_up(init, n - 1);
        assert(s =~= init.push(n - 1));
    }
    assert(s =~= Seq::new(n as nat, |i: int| i));
}

/// A window of nothing but newer segments is taken whole, in order: so is the
/// first one of a recording, which hands over its backlog.
pub proof fn law_a_newer_window_is_taken_whole(last: Option<u64>, seqs: Seq<u64>)
    requires
        forall|i: int, j: int| 0 <= i < j < seqs.len() ==> seqs[i] < seqs[j],
        last is Some && seqs.len() > 0 ==> seqs[0] > last->0,
    ensures
        taken(last, seqs) == Seq::new(seqs.len(), |i: int| i),
        last_after(last, seqs) == (if seqs.len() == 0 {
            last
        } else {
            Some(seqs.last())
        }),
{
    lemma_taken_in_range(last, seqs);
    assert forall|i: int| 0 <= i < seqs.len() implies taken(last, seqs).contains(i) by {
        law_a_newer_segment_is_taken(last, seqs, i);
    }
    lemma_counting_up(taken(last, seqs), seqs.len() as int);
    if seqs.len() > 0 {
        let n = seqs.len() - 1;
        assert(taken(last, seqs).contains(n));
        lemma_taken_of_prefix(last, seqs, n);
        assert(seqs.take(n) =~= seqs.drop_last());
    }
}

/// The places that are taken are places of the window, in order and each once.
pub proof fn law_taken_places_are_in_order(last: Option<u64>, seqs: Seq<u64>)
    ensures
        forall|k: int|
            0 <= k < taken(last, seqs).len() ==> 0 <= #[trigger] taken(last, seqs)[k]
                < seqs.len(),
        forall|k: int, m: int|
            0 <= k < m < taken(last, seqs).len() ==> #[trigger] taken(last, seqs)[k]
                < #[trigger] taken(last, seqs)[m],
{
    lemma_taken_in_range(last, seqs);
}

/// A segment that was recorded before is not taken again: one whose number is
/// not above the last, as long as it is at most sixty-four below it.
pub proof fn law_an_old_segment_is_not_taken(last: u64, seqs: Seq<u64>, i: int)
    requires
        0 <= i < seqs.len(),
        forall|j: int| 0 <= j <= i ==> #[trigger] seqs[j] <= last <= seqs[j] + 64,
    ensures
        !taken(Some(last), seqs).contains(i),
{
    lemma_taken_of_prefix(Some(last), seqs, i);
    lemma_nothing_new(last, seqs.take(i));
    assert(seqs[i] <= last <= seqs[i] + 64);
}

/// A number more than sixty-four below the last one is a new beginning: its
/// segment is taken, and the count goes on from there.
pub proof fn law_a_far_lower_number_is_a_new_beginning(last: u64, seq: u64)
    requires
        seq + 64 < last,
    ensures
        taken(Some(last), seq![seq]) == seq![0int],
        gaps(Some(last), seq![seq]) == Seq::<(u64, u64)>::empty(),
        last_after(Some(last), seq![seq]) == Some(seq),
{
    let one = seq![seq];
    law_a_restart_is_recorded_in_full(Some(last), one);
    assert(taken(Some(last), one) =~= seq![0int]);
}

/// The numbers in a list of gaps.
pub open spec fn in_a_gap(g: Seq<(u64, u64)>, n: u64) -> bool {
    exists|k: int| 0 <= k < g.len() && (#[trigger] g[k]).0 <= n <= g[k].1
}

proof fn lemma_gap_push(g: Seq<(u64, u64)>, x: (u64, u64), n: u64)
    ensures
        in_a_gap(g.push(x), n) == (in_a_gap(g, n) || x.0 <= n <= x.1),
{
    let h = g.push(x);
    if in_a_gap(g, n) {
        let k = choose|k: int| 0 <= k < g.len() && (#[trigger] g[k]).0 <= n <= g[k].1;
        assert(h[k] == g[k]);
    }
    if x.0 <= n <= x.1 {
        assert(h[g.len() as int] == x);
    }
    if in_a_gap(h, n) {
        let k = choose|k: int| 0 <= k < h.len() && (#[trigger] h[k]).0 <= n <= h[k].1;
        if k < g.len() {
            assert(g[k] == h[k]);
        }
    }
}

/// Exactly what is missing is reported missing: of the numbers up to the end of
/// a newer window, those behind the last one recorded, or behind the first of
/// the window where there is none, that the window does not hold.
pub proof fn law_gaps_are_what_is_missing(last: Option<u64>, seqs: Seq<u64>, n: u64)
    requires
        forall|i: int, j: int| 0 <= i < j < seqs.len() ==> seqs[i] < seqs[j],
        last is Some && seqs.len() > 0 ==> seqs[0] > last->0,
    ensures
        in_a_gap(gaps(last, seqs), n) <==> seqs.len() > 0 && n < seqs.last() && n > (match last {
            Some(l) => l,
            None => seqs[0],
        }) && !seqs.contains(n),
    decreases seqs.len(),
{
    if seqs.len() > 0 {
        let init = seqs.drop_last();
        law_gaps_are_what_is_missing(last, init, n);
        law_a_newer_window_is_taken_whole(last, init);
        let end = seqs.last();
        let before = gaps(last, init);
        if seqs.contains(n) {
            let k = choose|k: int| 0 <= k < seqs.len() && seqs[k] == n;
            if k < init.len() {
                assert(init[k] == n);
            }
            if k < seqs.len() - 1 {
                assert(seqs[k] < seqs[seqs.len() - 1]);
            }
        }
        if init.contains(n) {
            let k = choose|k: int| 0 <= k < init.len() && init[k] == n;
            assert(seqs[k] == n);
        }
        if init.len() > 0 {
            assert(init.last() == seqs[seqs.len() - 2]);
            assert(seqs[seqs.len() - 2] < seqs[seqs.len() - 1]);
            assert(init[0] == seqs[0]);
            if seqs.contains(n) && !init.contains(n) {
                assert(n == end);
            }
            if init.last() < n && n < end {
                assert(!seqs.contains(n)) by {
                    if seqs.contains(n) {
                        let k = choose|k: int| 0 <= k < seqs.len() && seqs[k] == n;
                        if k < seqs.len() - 2 {
                            assert(seqs[k] < seqs[seqs.len() - 2]);
                        }
                    }
                }
            }
            if n == init.last() {
                assert(init[init.len() - 1] == n);
                assert(init.contains(n));
            }
        } else {
            assert(seqs[0] == end);
        }
        match gap_before(last_after(last, init), end) {
            Some(g) => {
                lemma_gap_push(before, g, n);
            },
            None => {},
        }
    }
}

/// A file of a track is named after it: the name begins with the staging path
/// and its mark, and two tracks never share one.
pub proof fn law_track_files_differ(temp: Seq<char>, mark: Seq<char>, a: nat, b: nat)
    ensures
        track_file(temp, mark, a as int) == temp + mark + decimal(a),
        a != b ==> track_file(temp, mark, a as int) != track_file(temp, mark, b as int),
{
    let front = temp + mark;
    crate::text::law_decimal_reads_back(a, a as int);
    crate::text::law_decimal_reads_back(b, b as int);
    if front + decimal(a) == front + decimal(b) {
        assert((front + decimal(a)).skip(front.len() as int) =~= decimal(a));
        assert((front + decimal(b)).skip(front.len() as int) =~= decimal(b));
    }
}

/// A rendition is found at the first place that carries its identity.
pub proof fn law_a_rendition_is_found_by_its_identity(ids: Seq<Seq<char>>, id: Seq<char>, i: int, k: int)
    ensures
        first_id(ids, id, i) ==> 0 <= i < ids.len() && ids[i] == id && !ids.take(i).contains(id),
        first_id(ids, id, i) && first_id(ids, id, k) ==> i == k,
        0 <= i < ids.len() && ids[i] == id && !ids.take(i).contains(id) ==> first_id(ids, id, i),
{
    if first_id(ids, id, i) && ids.take(i).contains(id) {
        let j = choose|j: int| 0 <= j < i && ids.take(i)[j] == id;
        assert(ids[j] == id);
    }
    if first_id(ids, id, i) && first_id(ids, id, k) {
        if i < k {
            assert(ids[i] != id);
        } else if k < i {
            assert(ids[k] != id);
        }
    }
    if 0 <= i < ids.len() && !ids.take(i).contains(id) {
        assert forall|j: int| 0 <= j < i implies ids[j] != id by {
            assert(ids.take(i)[j] == ids[j]);
        }
    }
}

/// The places of a plan are those of its list, in order.
pub proof fn law_places_are_those_of_the_list(v: Seq<usize>, i: int)
    requires
        0 <= i < v.len(),
    ensures
        places(v).len() == v.len(),
        places(v)[i] == v[i],
{
}

/// The numbers of several gaps are those of all but the last and those of the
/// last.
pub proof fn law_gap_sum_adds_up(g: Seq<(u64, u64)>, x: (u64, u64))
    ensures
        gap_sum(Seq::<(u64, u64)>::empty()) == 0,
        gap_sum(g.push(x)) == gap_sum(g) + (x.1 - x.0 + 1),
{
    assert(g.push(x).drop_last() =~= g);
}

} // verus!
