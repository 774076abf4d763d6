//! The live progress of a hot Run: the bounded ring of recent stream frames
//! that reconnecting subscribers replay from, and the decision of what a
//! subscriber receives first.

use crate::json::{self, Json, JsonV};
use crate::run::{self, LiveProgress, StreamFrame};
use crate::text;
use vstd::prelude::*;

verus! {

/// A frame kept in the ring, with its live sequence and mailbox size.
#[derive(Debug)]
pub struct StoredFrame {
    pub sequence: u64,
    pub bytes: usize,
    pub frame: StreamFrame,
}

/// A kept frame, by value.
pub struct FrameV {
    pub sequence: u64,
    pub bytes: nat,
    pub event: Seq<char>,
    pub id: Seq<char>,
    pub data: Seq<char>,
}

/// A kept frame, by value.
pub open spec fn frame_view(f: StoredFrame) -> FrameV {
    FrameV {
        sequence: f.sequence,
        bytes: f.bytes as nat,
        event: f.frame.event@,
        id: f.frame.id@,
        data: f.frame.data@,
    }
}

/// The frames of a ring, by value.
pub open spec fn frame_views(ring: Seq<StoredFrame>) -> Seq<FrameV> {
    ring.map_values(|f: StoredFrame| frame_view(f))
}

/// The sizes of the frames of a ring, summed.
pub open spec fn ring_size(ring: Seq<FrameV>) -> nat
    decreases ring.len(),
{
    if ring.len() == 0 {
        0
    } else {
        ring_size(ring.drop_last()) + ring.last().bytes
    }
}

/// What stays of a ring after its oldest frames are dropped until it holds
/// at most `LIVE_RING_COUNT` frames of at most `LIVE_RING_BYTES` bytes.
pub open spec fn bounded_ring(ring: Seq<FrameV>) -> Seq<FrameV>
    decreases ring.len(),
{
    if ring.len() > 0 && (ring.len() > run::LIVE_RING_COUNT || ring_size(ring) > run::LIVE_RING_BYTES) {
        bounded_ring(ring.drop_first())
    } else {
        ring
    }
}

/// Live progress, by value: state, speculative, boot epoch, sequence.
pub open spec fn progress_view(p: LiveProgress) -> (Seq<char>, bool, Seq<char>, u64) {
    (p.state@, p.speculative, p.boot_epoch@, p.sequence)
}

/// The mailbox size of a frame with these three texts.
pub open spec fn frame_size_of(id: Seq<char>, data: Seq<char>, event: Seq<char>) -> int {
    (run::byte_len(id) + run::byte_len(data) + run::byte_len(event) + 32) as int
}

/// The kept frames later than live sequence `live`, oldest first.
pub open spec fn later_frames(ring: Seq<FrameV>, live: u64) -> Seq<FrameV>
    decreases ring.len(),
{
    if ring.len() == 0 {
        Seq::empty()
    } else {
        let rest = later_frames(ring.drop_last(), live);
        if ring.last().sequence > live {
            rest.push(ring.last())
        } else {
            rest
        }
    }
}

/// The texts of frames: event, id, data.
pub open spec fn frame_texts(frames: Seq<FrameV>) -> Seq<(Seq<char>, Seq<char>, Seq<char>)> {
    frames.map_values(|f: FrameV| (f.event, f.id, f.data))
}

/// The texts of stream frames: event, id, data.
pub open spec fn stream_texts(frames: Seq<StreamFrame>) -> Seq<(Seq<char>, Seq<char>, Seq<char>)> {
    frames.map_values(|f: StreamFrame| (f.event@, f.id@, f.data@))
}

/// What a new subscriber receives first, by value.
pub enum ReplayV {
    Snapshot,
    Frames(Seq<(Seq<char>, Seq<char>, Seq<char>)>),
    GapResync,
}

/// What a new subscriber receives first.
#[derive(Debug)]
pub enum Replay {
    /// No cursor was given: the current snapshot.
    Snapshot,
    /// The kept frames after the cursor, oldest first.
    Frames(Vec<StreamFrame>),
    /// The cursor cannot be served: a gap notice, then a fresh snapshot.
    GapResync,
}

/// A replay, by value.
pub open spec fn replay_view(r: Replay) -> ReplayV {
    match r {
        Replay::Snapshot => ReplayV::Snapshot,
        Replay::Frames(v) => ReplayV::Frames(stream_texts(v@)),
        Replay::GapResync => ReplayV::GapResync,
    }
}

/// The live sequence of a reconnect cursor this Run can serve from: one of
/// this Run and boot epoch, no later than the current live sequence and no
/// later than the durable checkpoint seen.
pub open spec fn accepted_live(last: Seq<char>, run_id: Seq<char>, boot_epoch: Seq<char>, current: u64, durable: u64) -> Option<u64> {
    match run::parse_cursor_spec(last) {
        Some((r, d, b, l)) => if r == run_id && b == boot_epoch && l <= current && d <= durable {
            Some(l)
        } else {
            None
        },
        None => None,
    }
}

/// What a subscriber that presents `last` receives first: the snapshot when
/// it presents no cursor; the kept frames after its cursor when the cursor is
/// accepted, nothing after it has been dropped from the ring, and those
/// frames fit in one mailbox; otherwise a gap notice and a resync.
pub open spec fn replay_decision(
    ring: Seq<FrameV>,
    current: u64,
    durable: u64,
    run_id: Seq<char>,
    boot_epoch: Seq<char>,
    last: Option<Seq<char>>,
) -> ReplayV {
    match last {
        None => ReplayV::Snapshot,
        Some(c) => if c.len() == 0 {
            ReplayV::Snapshot
        } else {
            match accepted_live(c, run_id, boot_epoch, current, durable) {
                Some(l) => {
                    let oldest = if ring.len() > 0 { ring[0].sequence as int } else { current + 1 };
                    let later = later_frames(ring, l);
                    if l + 1 >= oldest && later.len() <= run::SUBSCRIBER_QUEUE_COUNT && ring_size(later)
                        <= run::SUBSCRIBER_QUEUE_BYTES {
                        ReplayV::Frames(frame_texts(later))
                    } else {
                        ReplayV::GapResync
                    }
                },
                None => ReplayV::GapResync,
            }
        },
    }
}

/// A new subscriber's first frames: the cursor they carry and what they hold.
#[derive(Debug)]
pub struct ReplayPlan {
    pub cursor: String,
    pub replay: Replay,
}

/// What recording one stream event does to a Run that stood at durable
/// checkpoint `durable0`, next live sequence `next0`, ring `ring0` and live
/// progress `current0`: the durable checkpoint moves to the later of the two,
/// the live sequence advances, and the frame (with the cursor at that
/// checkpoint and sequence) is returned, kept in the ring and made the live
/// progress, unless it exceeds one mailbox slot, when nothing but the two
/// counters changes and nothing is returned.
pub open spec fn recorded_from(
    durable0: u64,
    next0: u64,
    ring0: Seq<FrameV>,
    current0: Option<(Seq<char>, bool, Seq<char>, u64)>,
    after: LiveRun,
    run_id: Seq<char>,
    boot_epoch: Seq<char>,
    durable_sequence: u64,
    event: Seq<char>,
    data: Seq<char>,
    payload: JsonV,
    r: Option<StreamFrame>,
) -> bool {
    let durable = if durable0 >= durable_sequence { durable0 } else { durable_sequence };
    let sequence = next0;
    let id = run::cursor_text(run_id, durable as nat, boot_epoch, sequence as nat);
    let size = frame_size_of(id, data, event);
    &&& after.durable_view() == durable
    &&& after.next_view() == sequence + 1
    &&& size > run::MAX_SSE_FRAME_BYTES ==> {
        &&& r is None
        &&& after.ring_view() == ring0
        &&& after.current_view() == current0
    }
    &&& size <= run::MAX_SSE_FRAME_BYTES ==> (r matches Some(frame) && {
        &&& frame.event@ == event
        &&& frame.id@ == id
        &&& frame.data@ == data
        &&& after.ring_view() == bounded_ring(
            ring0.push(FrameV { sequence, bytes: size as nat, event, id, data }),
        )
        &&& after.current_view() == Some(
            (
                live_state(payload, event),
                json::field(payload, "durability"@) == JsonV::Str("speculative"@),
                boot_epoch,
                sequence,
            ),
        )
    })
}

/// `p` is what a subscriber of `run` receives first: frames carrying the
/// cursor of the current live sequence at the later of the Run's durable
/// checkpoint and `snapshot_durable`, and the replay `replay_decision` picks.
pub open spec fn plan_for(
    p: ReplayPlan,
    run: LiveRun,
    run_id: Seq<char>,
    boot_epoch: Seq<char>,
    snapshot_durable: u64,
    last: Option<Seq<char>>,
) -> bool {
    &&& p.cursor@ == run::cursor_text(
        run_id,
        (if run.durable_view() >= snapshot_durable { run.durable_view() } else { snapshot_durable }) as nat,
        boot_epoch,
        (run.next_view() - 1) as nat,
    )
    &&& replay_view(p.replay) == replay_decision(
        run.ring_view(),
        (run.next_view() - 1) as u64,
        run.durable_view(),
        run_id,
        boot_epoch,
        last,
    )
}

/// The live state of one hot Run.
#[derive(Debug)]
pub struct LiveRun {
    durable_sequence: u64,
    next_live_sequence: u64,
    current: Option<LiveProgress>,
    ring: Vec<StoredFrame>,
    ring_bytes: usize,
}

impl LiveRun {
    /// The ring and its bookkeeping agree, the ring is within bounds, and its
    /// frames are ordered by live sequence, all below the next one.
    pub closed spec fn wf(self) -> bool {
        let r = frame_views(self.ring@);
        &&& self.ring_bytes == ring_size(r)
        &&& r.len() <= run::LIVE_RING_COUNT
        &&& ring_size(r) <= run::LIVE_RING_BYTES
        &&& forall|i: int| 0 <= i < r.len() ==> (#[trigger] r[i]).bytes <= run::MAX_SSE_FRAME_BYTES
        &&& forall|i: int, j: int| 0 <= i < j < r.len() ==> r[i].sequence < r[j].sequence
        &&& forall|i: int| 0 <= i < r.len() ==> (#[trigger] r[i]).sequence < self.next_live_sequence
        &&& self.next_live_sequence >= 1
    }

    /// The highest durable checkpoint sequence seen.
    pub closed spec fn durable_view(self) -> u64 {
        self.durable_sequence
    }

    /// The live sequence the next frame gets.
    pub closed spec fn next_view(self) -> u64 {
        self.next_live_sequence
    }

    /// The frames kept for replay, oldest first.
    pub closed spec fn ring_view(self) -> Seq<FrameV> {
        frame_views(self.ring@)
    }

    /// The latest live progress.
    pub closed spec fn current_view(self) -> Option<(Seq<char>, bool, Seq<char>, u64)> {
        match self.current {
            Some(p) => Some(progress_view(p)),
            None => None,
        }
    }

    /// The ring's bounds and order, for callers.
    pub proof fn lemma_wf(self)
        requires
            self.wf(),
        ensures
            self.ring_view().len() <= run::LIVE_RING_COUNT,
            ring_size(self.ring_view()) <= run::LIVE_RING_BYTES,
            forall|i: int| 0 <= i < self.ring_view().len() ==> (#[trigger] self.ring_view()[i]).bytes
                <= run::MAX_SSE_FRAME_BYTES,
            forall|i: int, j: int| 0 <= i < j < self.ring_view().len() ==> self.ring_view()[i].sequence < self.ring_view()[j].sequence,
            forall|i: int| 0 <= i < self.ring_view().len() ==> (#[trigger] self.ring_view()[i]).sequence < self.next_view(),
    {
    }

    /// A Run with no frames yet, at durable checkpoint `durable_sequence`.
    pub fn new(durable_sequence: u64) -> (r: LiveRun)
        ensures
            r.wf(),
            r.durable_view() == durable_sequence,
            r.next_view() == 1,
            r.ring_view().len() == 0,
            r.current_view() is None,
    {
        let r = LiveRun { durable_sequence, next_live_sequence: 1, current: None, ring: Vec::new(), ring_bytes: 0 };
        assert(frame_views(r.ring@) =~= Seq::<FrameV>::empty());
        r
    }

    /// The highest durable checkpoint sequence seen.
    pub fn durable_sequence(&self) -> (s: u64)
        ensures
            s == self.durable_view(),
    {
        self.durable_sequence
    }

    /// The live sequence the next frame gets.
    pub fn next_live_sequence(&self) -> (s: u64)
        ensures
            s == self.next_view(),
    {
        self.next_live_sequence
    }

    /// The latest live progress.
    pub fn snapshot(&self) -> (p: Option<LiveProgress>)
        ensures
            match p {
                Some(x) => self.current_view() == Some(progress_view(x)),
                None => self.current_view() is None,
            },
    {
        match &self.current {
            Some(c) => Some(
                LiveProgress {
                    state: c.state.clone(),
                    speculative: c.speculative,
                    boot_epoch: c.boot_epoch.clone(),
                    sequence: c.sequence,
                },
            ),
            None => None,
        }
    }

    /// What a new subscriber receives first. Its frames carry the cursor of
    /// the current live sequence at the later of the durable checkpoint seen
    /// and `snapshot_durable`.
    pub fn subscribe_plan(
        &self,
        run_id: &str,
        boot_epoch: &str,
        snapshot_durable: u64,
        last_event_id: Option<&str>,
    ) -> (p: ReplayPlan)
        requires
            self.wf(),
        ensures
            plan_for(p, *self, run_id@, boot_epoch@, snapshot_durable, match last_event_id {
                Some(c) => Some(c@),
                None => None,
            }),
    {
        let current = self.next_live_sequence - 1;
        let durable = if self.durable_sequence >= snapshot_durable { self.durable_sequence } else { snapshot_durable };
        let cursor = run::cursor(run_id, durable, boot_epoch, current);
        let ghost last_view = match last_event_id {
            Some(c) => Some(c@),
            None => None,
        };
        let ghost expected = replay_decision(self.ring_view(), current, self.durable_sequence, run_id@, boot_epoch@, last_view);
        let last = match last_event_id {
            None => {
                return ReplayPlan { cursor, replay: Replay::Snapshot };
            },
            Some(c) => c,
        };
        if text::is_empty(last) {
            return ReplayPlan { cursor, replay: Replay::Snapshot };
        }
        let parsed = match run::parse_cursor(last) {
            Some(p) => p,
            None => {
                return ReplayPlan { cursor, replay: Replay::GapResync };
            },
        };
        if !(text::str_eq(parsed.run_id.as_str(), run_id) && text::str_eq(parsed.boot_epoch.as_str(), boot_epoch)
            && parsed.live_sequence <= current && parsed.durable_sequence <= self.durable_sequence) {
            return ReplayPlan { cursor, replay: Replay::GapResync };
        }
        let l = parsed.live_sequence;
        let oldest = if self.ring.len() > 0 { self.ring[0].sequence } else { current + 1 };
        if l + 1 < oldest {
            return ReplayPlan { cursor, replay: Replay::GapResync };
        }
        let ghost r = self.ring_view();
        let mut frames: Vec<StreamFrame> = Vec::new();
        let mut total: usize = 0;
        let mut i: usize = 0;
        while i < self.ring.len()
            invariant
                self.wf(),
                r == self.ring_view(),
                i <= self.ring@.len(),
                stream_texts(frames@) == frame_texts(later_frames(r.take(i as int), l)),
                total == ring_size(later_frames(r.take(i as int), l)),
                ring_size(r.take(i as int)) <= ring_size(r),
            decreases self.ring@.len() - i,
        {
            let ghost before = frames@;
            proof {
                assert(r.take(i as int + 1).drop_last() =~= r.take(i as int));
                assert(r.take(i as int + 1).last() == r[i as int]);
                assert(r[i as int] == frame_view(self.ring@[i as int]));
                lemma_later_size(r.take(i as int + 1), l);
                lemma_take_size(r, i as int + 1);
            }
            if self.ring[i].sequence > l {
                proof {
                    let later = later_frames(r.take(i as int), l);
                    assert(later.push(r[i as int]).drop_last() =~= later);
                    assert(later_frames(r.take(i as int + 1), l) == later.push(r[i as int]));
                    assert(ring_size(later.push(r[i as int])) == ring_size(later) + r[i as int].bytes);
                }
                frames.push(copy_frame(&self.ring[i].frame));
                proof {
                    assert(stream_texts(frames@) =~= stream_texts(before).push(
                        (r[i as int].event, r[i as int].id, r[i as int].data),
                    ));
                    assert(frame_texts(later_frames(r.take(i as int), l).push(r[i as int])) =~= frame_texts(
                        later_frames(r.take(i as int), l),
                    ).push((r[i as int].event, r[i as int].id, r[i as int].data)));
                }
                total = total + self.ring[i].bytes;
            }
            i = i + 1;
        }
        proof {
            assert(r.take(r.len() as int) =~= r);
            lemma_later_len(r, l);
        }
        if frames.len() <= run::SUBSCRIBER_QUEUE_COUNT && total <= run::SUBSCRIBER_QUEUE_BYTES {
            ReplayPlan { cursor, replay: Replay::Frames(frames) }
        } else {
            ReplayPlan { cursor, replay: Replay::GapResync }
        }
    }

    /// Records one stream event. Data longer than `MAX_SSE_DATA_BYTES` is
    /// refused and changes nothing; otherwise the frame gets the next live sequence and a
    /// cursor at the highest durable checkpoint seen; a frame too large for
    /// one mailbox slot is not kept. Otherwise the ring drops its oldest
    /// frames until it is within bounds, and the live progress moves to the
    /// new frame. Returns the frame to send to the subscribers.
    pub fn record(
        &mut self,
        run_id: &str,
        boot_epoch: &str,
        durable_sequence: u64,
        event: &str,
        data: String,
        payload: &Json,
    ) -> (r: Option<StreamFrame>)
        requires
            old(self).wf(),
            old(self).next_view() < u64::MAX,
            run::byte_len(run_id@) + run::byte_len(boot_epoch@) + run::byte_len(event@) + run::byte_len(data@)
                + 128 <= usize::MAX,
        ensures
            final(self).wf(),
            run::byte_len(data@) > run::MAX_SSE_DATA_BYTES ==> r is None && *final(self) == *old(self),
            run::byte_len(data@) <= run::MAX_SSE_DATA_BYTES ==> recorded_from(
                old(self).durable_view(),
                old(self).next_view(),
                old(self).ring_view(),
                old(self).current_view(),
                *final(self),
                run_id@,
                boot_epoch@,
                durable_sequence,
                event@,
                data@,
                payload@,
                r,
            ),
    {
        if data.as_str().len() > run::MAX_SSE_DATA_BYTES {
            return None;
        }
        let ghost before = frame_views(self.ring@);
        if durable_sequence > self.durable_sequence {
            self.durable_sequence = durable_sequence;
        }
        let sequence = self.next_live_sequence;
        self.next_live_sequence = sequence + 1;
        let id = run::cursor(run_id, self.durable_sequence, boot_epoch, sequence);
        proof {
            run::lemma_cursor_byte_len(run_id@, self.durable_sequence, boot_epoch@, sequence);
        }
        let frame = StreamFrame { event: text::owned(event), id, data };
        let bytes = run::frame_bytes(&frame);
        if bytes > run::MAX_SSE_FRAME_BYTES {
            return None;
        }
        let copy = copy_frame(&frame);
        let ghost added = FrameV { sequence, bytes: bytes as nat, event: event@, id: frame.id@, data: frame.data@ };
        let mut ring: Vec<StoredFrame> = Vec::new();
        std::mem::swap(&mut ring, &mut self.ring);
        ring.push(StoredFrame { sequence, bytes, frame: copy });
        proof {
            assert(frame_views(ring@) =~= before.push(added));
            assert(frame_views(ring@).drop_last() =~= before);
        }
        let mut total = self.ring_bytes + bytes;
        assert(total == ring_size(frame_views(ring@)));
        while ring.len() > 0 && (ring.len() > run::LIVE_RING_COUNT || total > run::LIVE_RING_BYTES)
            invariant
                total == ring_size(frame_views(ring@)),
                bounded_ring(frame_views(ring@)) == bounded_ring(before.push(added)),
                forall|i: int, j: int| 0 <= i < j < frame_views(ring@).len() ==> frame_views(ring@)[i].sequence < frame_views(ring@)[j].sequence,
                forall|i: int| 0 <= i < frame_views(ring@).len() ==> (#[trigger] frame_views(ring@)[i]).sequence <= sequence,
                forall|i: int| 0 <= i < frame_views(ring@).len() ==> (#[trigger] frame_views(ring@)[i]).bytes
                    <= run::MAX_SSE_FRAME_BYTES,
            decreases ring@.len(),
        {
            let ghost r0 = frame_views(ring@);
            let removed = ring.remove(0);
            proof {
                lemma_ring_size_front(r0);
                assert(frame_views(ring@) =~= r0.drop_first());
            }
            total = total - removed.bytes;
        }
        proof {
            let r = frame_views(ring@);
            assert(bounded_ring(r) == r);
        }
        self.ring = ring;
        self.ring_bytes = total;
        let state = live_state_of(payload, event);
        let null = Json::Null;
        let speculative = match crate::policy::field_of(payload, "durability", &null) {
            Json::String(d) => text::str_eq(d.as_str(), "speculative"),
            _ => false,
        };
        proof {
            reveal_strlit("speculative");
        }
        self.current = Some(LiveProgress { state, speculative, boot_epoch: text::owned(boot_epoch), sequence });
        Some(frame)
    }
}

/// The state a live update reports: the payload's `state` when it is a
/// string, the event name otherwise.
pub open spec fn live_state(payload: JsonV, event: Seq<char>) -> Seq<char> {
    match json::as_str(json::field(payload, "state"@)) {
        Some(s) => s,
        None => event,
    }
}

fn live_state_of(payload: &Json, event: &str) -> (s: String)
    ensures
        s@ == live_state(payload@, event@),
{
    let null = Json::Null;
    match crate::policy::field_of(payload, "state", &null).as_str() {
        Some(s) => s.clone(),
        None => text::owned(event),
    }
}

/// The frames a new subscriber is sent first, by value: the snapshot frame,
/// the replayed frames, or a gap notice then a resync, all but the replayed
/// frames carrying the plan's cursor.
pub open spec fn opening_texts(
    cursor: Seq<char>,
    replay: ReplayV,
    snapshot_data: Seq<char>,
    gap_data: Seq<char>,
    resync_data: Seq<char>,
) -> Seq<(Seq<char>, Seq<char>, Seq<char>)> {
    match replay {
        ReplayV::Snapshot => seq![("snapshot"@, cursor, snapshot_data)],
        ReplayV::Frames(frames) => frames,
        ReplayV::GapResync => seq![("gap"@, cursor, gap_data), ("resync"@, cursor, resync_data)],
    }
}

/// The frames a new subscriber is sent first under `plan`, with the texts of
/// the snapshot, the gap notice and the resync.
pub fn opening_frames(plan: ReplayPlan, snapshot_data: String, gap_data: String, resync_data: String) -> (v: Vec<
    StreamFrame,
>)
    ensures
        stream_texts(v@) == opening_texts(
            plan.cursor@,
            replay_view(plan.replay),
            snapshot_data@,
            gap_data@,
            resync_data@,
        ),
{
    let ReplayPlan { cursor, replay } = plan;
    match replay {
        Replay::Snapshot => {
            let v = vec![StreamFrame { event: text::owned("snapshot"), id: cursor, data: snapshot_data }];
            assert(stream_texts(v@) =~= seq![("snapshot"@, v@[0].id@, snapshot_data@)]);
            v
        },
        Replay::Frames(frames) => frames,
        Replay::GapResync => {
            let v = vec![
                StreamFrame { event: text::owned("gap"), id: cursor.clone(), data: gap_data },
                StreamFrame { event: text::owned("resync"), id: cursor, data: resync_data },
            ];
            assert(stream_texts(v@) =~= seq![("gap"@, v@[0].id@, gap_data@), ("resync"@, v@[1].id@, resync_data@)]);
            v
        },
    }
}

/// A copy of a frame.
pub fn copy_frame(f: &StreamFrame) -> (r: StreamFrame)
    ensures
        r.event@ == f.event@,
        r.id@ == f.id@,
        r.data@ == f.data@,
{
    StreamFrame { event: f.event.clone(), id: f.id.clone(), data: f.data.clone() }
}

/// Dropping the oldest frame removes its size.
proof fn lemma_ring_size_front(ring: Seq<FrameV>)
    requires
        ring.len() > 0,
    ensures
        ring_size(ring) == ring[0].bytes + ring_size(ring.drop_first()),
    decreases ring.len(),
{
    if ring.len() > 1 {
        lemma_ring_size_front(ring.drop_last());
        assert(ring.drop_last().drop_first() =~= ring.drop_first().drop_last());
    } else {
        assert(ring.drop_first() =~= Seq::<FrameV>::empty());
        assert(ring.drop_last() =~= Seq::<FrameV>::empty());
    }
}

/// The frames after a sequence take no more room than the whole ring.
proof fn lemma_later_size(ring: Seq<FrameV>, live: u64)
    ensures
        ring_size(later_frames(ring, live)) <= ring_size(ring),
        later_frames(ring, live).len() <= ring.len(),
    decreases ring.len(),
{
    if ring.len() > 0 {
        lemma_later_size(ring.drop_last(), live);
        let rest = later_frames(ring.drop_last(), live);
        if ring.last().sequence > live {
            assert(rest.push(ring.last()).drop_last() =~= rest);
        }
    }
}

/// The later frames of a whole ring are as many as its later frames.
proof fn lemma_later_len(ring: Seq<FrameV>, live: u64)
    ensures
        later_frames(ring, live).len() <= ring.len(),
{
    lemma_later_size(ring, live);
}

/// A prefix of a ring takes no more room than the ring.
proof fn lemma_take_size(ring: Seq<FrameV>, n: int)
    requires
        0 <= n <= ring.len(),
    ensures
        ring_size(ring.take(n)) <= ring_size(ring),
    decreases ring.len() - n,
{
    if n < ring.len() {
        lemma_take_size(ring, n + 1);
        assert(ring.take(n + 1).drop_last() =~= ring.take(n));
    } else {
        assert(ring.take(n) =~= ring);
    }
}

/// A subscriber that reconnects with the cursor of the current live
/// sequence is sent no frames again: the replay is empty.
pub proof fn lemma_head_cursor_replays_nothing(run: LiveRun, run_id: Seq<char>, boot_epoch: Seq<char>, c: Seq<char>)
    requires
        run.wf(),
        c.len() > 0,
        accepted_live(c, run_id, boot_epoch, (run.next_view() - 1) as u64, run.durable_view()) == Some(
            (run.next_view() - 1) as u64,
        ),
    ensures
        replay_decision(
            run.ring_view(),
            (run.next_view() - 1) as u64,
            run.durable_view(),
            run_id,
            boot_epoch,
            Some(c),
        ) == ReplayV::Frames(Seq::empty()),
{
    let current = (run.next_view() - 1) as u64;
    run.lemma_wf();
    lemma_none_later(run.ring_view(), current);
    assert(frame_texts(Seq::<FrameV>::empty()) =~= Seq::empty());
}

/// No kept frame is later than a sequence every frame is at most.
proof fn lemma_none_later(ring: Seq<FrameV>, live: u64)
    requires
        forall|i: int| 0 <= i < ring.len() ==> (#[trigger] ring[i]).sequence <= live,
    ensures
        later_frames(ring, live) == Seq::<FrameV>::empty(),
    decreases ring.len(),
{
    if ring.len() > 0 {
        assert(ring.last() == ring[ring.len() - 1]);
        lemma_none_later(ring.drop_last(), live);
    }
}


/// What stays of a ring is its newest frames, in order.
proof fn lemma_bounded_suffix(ring: Seq<FrameV>)
    ensures
        bounded_ring(ring).len() <= ring.len(),
        forall|i: int|
            0 <= i < bounded_ring(ring).len() ==> #[trigger] bounded_ring(ring)[i] == ring[ring.len()
                - bounded_ring(ring).len() + i],
    decreases ring.len(),
{
    if ring.len() > 0 && (ring.len() > run::LIVE_RING_COUNT || ring_size(ring) > run::LIVE_RING_BYTES) {
        lemma_bounded_suffix(ring.drop_first());
    }
}

/// A frame that fits the ring on its own is never dropped when it is the newest.
proof fn lemma_bounded_keeps_newest(ring: Seq<FrameV>)
    requires
        ring.len() > 0,
        ring.last().bytes <= run::LIVE_RING_BYTES,
    ensures
        bounded_ring(ring).len() > 0,
    decreases ring.len(),
{
    if ring.len() == 1 {
        assert(ring.drop_last() =~= Seq::<FrameV>::empty());
        assert(ring_size(ring.drop_last()) == 0);
        assert(ring_size(ring) == ring.last().bytes);
    } else if ring.len() > run::LIVE_RING_COUNT || ring_size(ring) > run::LIVE_RING_BYTES {
        assert(ring.drop_first().last() == ring.last());
        lemma_bounded_keeps_newest(ring.drop_first());
    }
}

/// When only the newest frame is later than a sequence, it is all that is later.
proof fn lemma_later_only_newest(ring: Seq<FrameV>, live: u64)
    requires
        ring.len() > 0,
        ring.last().sequence > live,
        forall|i: int| 0 <= i < ring.len() - 1 ==> (#[trigger] ring[i]).sequence <= live,
    ensures
        later_frames(ring, live) == seq![ring.last()],
{
    let rest = ring.drop_last();
    assert forall|i: int| 0 <= i < rest.len() implies (#[trigger] rest[i]).sequence <= live by {
        assert(rest[i] == ring[i]);
    }
    lemma_none_later(rest, live);
    assert(Seq::<FrameV>::empty().push(ring.last()) =~= seq![ring.last()]);
}

/// A subscriber that was up to date before a frame was recorded, and
/// reconnects with the cursor it last saw, is sent exactly that frame.
pub proof fn lemma_reconnect_receives_recorded_frame(
    before: LiveRun,
    after: LiveRun,
    run_id: Seq<char>,
    boot_epoch: Seq<char>,
    durable_sequence: u64,
    event: Seq<char>,
    data: Seq<char>,
    payload: JsonV,
    frame: StreamFrame,
    c: Seq<char>,
)
    requires
        before.wf(),
        recorded_from(
            before.durable_view(),
            before.next_view(),
            before.ring_view(),
            before.current_view(),
            after,
            run_id,
            boot_epoch,
            durable_sequence,
            event,
            data,
            payload,
            Some(frame),
        ),
        accepted_live(c, run_id, boot_epoch, (before.next_view() - 1) as u64, before.durable_view()) == Some(
            (before.next_view() - 1) as u64,
        ),
    ensures
        replay_decision(
            after.ring_view(),
            (after.next_view() - 1) as u64,
            after.durable_view(),
            run_id,
            boot_epoch,
            Some(c),
        ) == ReplayV::Frames(seq![(event, frame.id@, data)]),
{
    let l = (before.next_view() - 1) as u64;
    before.lemma_wf();
    let durable = if before.durable_view() >= durable_sequence { before.durable_view() } else { durable_sequence };
    let id = run::cursor_text(run_id, durable as nat, boot_epoch, before.next_view() as nat);
    let size = frame_size_of(id, data, event);
    let added = FrameV { sequence: before.next_view(), bytes: size as nat, event, id, data };
    let grown = before.ring_view().push(added);
    let kept = after.ring_view();
    assert(kept == bounded_ring(grown));
    if c.len() == 0 {
        assert(text::split_fields(c, '.') =~= seq![Seq::<char>::empty()]);
    }
    assert(accepted_live(c, run_id, boot_epoch, (after.next_view() - 1) as u64, after.durable_view()) == Some(l));
    lemma_bounded_suffix(grown);
    lemma_bounded_keeps_newest(grown);
    let off = grown.len() - kept.len();
    assert(kept.last() == grown[off + kept.len() - 1]);
    assert(kept.last() == added);
    assert forall|i: int| 0 <= i < kept.len() - 1 implies (#[trigger] kept[i]).sequence <= l by {
        assert(kept[i] == grown[off + i]);
        assert(grown[off + i] == before.ring_view()[off + i]);
    }
    assert(kept[0] == grown[off]);
    lemma_later_only_newest(kept, l);
    assert(ring_size(seq![added]) == size) by {
        assert(seq![added].drop_last() =~= Seq::<FrameV>::empty());
        assert(ring_size(seq![added].drop_last()) == 0);
    }
    assert(frame_texts(seq![added]) =~= seq![(event, frame.id@, data)]);
}

} // verus!
