//! The live hub: the hot Runs of this daemon, each with its ring of recent
//! stream frames and its number of open subscriptions, at most
//! `MAX_HOT_RUNS` of them, under one boot epoch.

use crate::ident;
use crate::json::{Json, JsonV};
use crate::live::{self, FrameV, LiveRun, ReplayPlan};
use crate::run::{self, LiveProgress, RunError, StreamFrame};
use crate::text;
use vstd::prelude::*;

verus! {

/// A hot Run, by value: its identifier, its live state and its number of
/// open subscriptions.
pub type HotV = (Seq<char>, LiveRun, nat);

/// The first hot Run with identifier `key`.
pub open spec fn key_index(runs: Seq<HotV>, key: Seq<char>) -> Option<int>
    decreases runs.len(),
{
    if runs.len() == 0 {
        None
    } else if runs[0].0 == key {
        Some(0)
    } else {
        match key_index(runs.drop_first(), key) {
            Some(i) => Some(i + 1),
            None => None,
        }
    }
}

/// The first hot Run nobody subscribes to.
pub open spec fn idle_index(runs: Seq<HotV>) -> Option<int>
    decreases runs.len(),
{
    if runs.len() == 0 {
        None
    } else if runs[0].2 == 0 {
        Some(0)
    } else {
        match idle_index(runs.drop_first()) {
            Some(i) => Some(i + 1),
            None => None,
        }
    }
}

/// The hot Runs left to make room for a new one: when all `MAX_HOT_RUNS`
/// places are taken, the first Run nobody subscribes to leaves, if there is
/// one.
pub open spec fn make_room(runs: Seq<HotV>) -> Seq<HotV> {
    if runs.len() >= run::MAX_HOT_RUNS {
        match idle_index(runs) {
            Some(e) => runs.remove(e),
            None => runs,
        }
    } else {
        runs
    }
}

/// A Run's live state just after it became hot at durable checkpoint
/// `durable`: no frames, no progress, live sequence 1.
pub open spec fn fresh(l: LiveRun, durable: u64) -> bool {
    &&& l.wf()
    &&& l.durable_view() == durable
    &&& l.next_view() == 1
    &&& l.ring_view().len() == 0
    &&& l.current_view() is None
}

/// `after` equals `before` but for entry `i`.
pub open spec fn same_but(before: Seq<HotV>, after: Seq<HotV>, i: int) -> bool {
    &&& after.len() == before.len()
    &&& forall|j: int| 0 <= j < before.len() && j != i ==> after[j] == before[j]
}

/// `after` is `base` with one more entry at its end.
pub open spec fn extends(base: Seq<HotV>, after: Seq<HotV>) -> bool {
    &&& after.len() == base.len() + 1
    &&& forall|j: int| 0 <= j < base.len() ==> after[j] == base[j]
}

/// The hot Runs and their live state.
#[derive(Debug)]
pub struct HotRun {
    run_id: String,
    live: LiveRun,
    subscribers: usize,
}

/// The live hub of this daemon.
#[derive(Debug)]
pub struct LiveHub {
    boot_epoch: String,
    runs: Vec<HotRun>,
}

/// A hot Run, by value.
pub closed spec fn hot_view(h: HotRun) -> HotV {
    (h.run_id@, h.live, h.subscribers as nat)
}

impl LiveHub {
    /// At most `MAX_HOT_RUNS` hot Runs, one per identifier, each with a
    /// well-formed live state.
    pub closed spec fn wf(self) -> bool {
        let r = self.runs_view();
        &&& r.len() <= run::MAX_HOT_RUNS
        &&& forall|i: int| 0 <= i < r.len() ==> (#[trigger] r[i]).1.wf()
        &&& forall|i: int, j: int| 0 <= i < j < r.len() ==> r[i].0 != r[j].0
    }

    /// The hot Runs, oldest first.
    pub closed spec fn runs_view(self) -> Seq<HotV> {
        self.runs@.map_values(|h: HotRun| hot_view(h))
    }

    /// The boot epoch every cursor of this hub carries.
    pub closed spec fn boot_view(self) -> Seq<char> {
        self.boot_epoch@
    }

    /// The invariant, for callers.
    pub proof fn lemma_wf(self)
        requires
            self.wf(),
        ensures
            self.runs_view().len() <= run::MAX_HOT_RUNS,
            forall|i: int, j: int|
                0 <= i < j < self.runs_view().len() ==> self.runs_view()[i].0 != self.runs_view()[j].0,
            forall|i: int| 0 <= i < self.runs_view().len() ==> (#[trigger] self.runs_view()[i]).1.wf(),
    {
    }

    /// A hub with no hot Runs under the boot epoch `boot_epoch`.
    pub fn with_boot_epoch(boot_epoch: String) -> (h: LiveHub)
        ensures
            h.wf(),
            h.boot_view() == boot_epoch@,
            h.runs_view().len() == 0,
    {
        let h = LiveHub { boot_epoch, runs: Vec::new() };
        assert(h.runs_view() =~= Seq::<HotV>::empty());
        h
    }

    /// A hub with no hot Runs under a fresh random boot epoch `boot-…`;
    /// `None` when the operating system's random source failed.
    pub fn new() -> (h: Option<LiveHub>)
        ensures
            h matches Some(hub) ==> {
                &&& hub.wf()
                &&& hub.runs_view().len() == 0
                &&& exists|b: Seq<u8>| b.len() == 16 && hub.boot_view() == #[trigger] ident::id_text("boot"@, b)
            },
    {
        match ident::random_id("boot") {
            Some(boot) => Some(LiveHub::with_boot_epoch(boot)),
            None => None,
        }
    }

    /// The boot epoch every cursor of this hub carries.
    pub fn boot_epoch(&self) -> (s: &str)
        ensures
            s@ == self.boot_view(),
    {
        self.boot_epoch.as_str()
    }

    /// The first hot Run with identifier `run_id`.
    fn find(&self, run_id: &str) -> (r: Option<usize>)
        ensures
            match r {
                Some(i) => key_index(self.runs_view(), run_id@) == Some(i as int),
                None => key_index(self.runs_view(), run_id@) is None,
            },
    {
        let ghost rv = self.runs_view();
        let mut i: usize = 0;
        while i < self.runs.len()
            invariant
                rv == self.runs_view(),
                i <= self.runs@.len(),
                forall|j: int| 0 <= j < i ==> (#[trigger] rv[j]).0 != run_id@,
            decreases self.runs@.len() - i,
        {
            if text::str_eq(self.runs[i].run_id.as_str(), run_id) {
                proof {
                    lemma_key_index_first(rv, run_id@, i as int);
                }
                return Some(i);
            }
            i = i + 1;
        }
        proof {
            lemma_key_index_none(rv, run_id@);
        }
        None
    }

    /// The first hot Run nobody subscribes to.
    fn find_idle(&self) -> (r: Option<usize>)
        ensures
            match r {
                Some(i) => idle_index(self.runs_view()) == Some(i as int),
                None => idle_index(self.runs_view()) is None,
            },
    {
        let ghost rv = self.runs_view();
        let mut i: usize = 0;
        while i < self.runs.len()
            invariant
                rv == self.runs_view(),
                i <= self.runs@.len(),
                forall|j: int| 0 <= j < i ==> (#[trigger] rv[j]).2 != 0,
            decreases self.runs@.len() - i,
        {
            if self.runs[i].subscribers == 0 {
                proof {
                    lemma_idle_index_first(rv, i as int);
                }
                return Some(i);
            }
            i = i + 1;
        }
        proof {
            lemma_idle_index_none(rv);
        }
        None
    }

    /// When all places are taken, the first Run nobody subscribes to leaves.
    fn make_room(&mut self)
        requires
            old(self).wf(),
        ensures
            final(self).wf(),
            final(self).boot_view() == old(self).boot_view(),
            final(self).runs_view() == make_room(old(self).runs_view()),
    {
        if self.runs.len() >= run::MAX_HOT_RUNS {
            match self.find_idle() {
                Some(e) => {
                    let ghost before = self.runs_view();
                    proof {
                        lemma_idle_index_found(before);
                    }
                    let _gone = self.runs.remove(e);
                    proof {
                        assert(self.runs_view() =~= before.remove(e as int));
                        assert forall|i: int| 0 <= i < self.runs_view().len() implies (#[trigger] self.runs_view()[i]).1.wf() by {
                            if i < e {
                                assert(self.runs_view()[i] == before[i]);
                            } else {
                                assert(self.runs_view()[i] == before[i + 1]);
                            }
                        }
                        assert forall|i: int, j: int| 0 <= i < j < self.runs_view().len() implies self.runs_view()[i].0
                            != self.runs_view()[j].0 by {
                            let a = if i < e { i } else { i + 1 };
                            let b = if j < e { j } else { j + 1 };
                            assert(self.runs_view()[i] == before[a]);
                            assert(self.runs_view()[j] == before[b]);
                        }
                    }
                },
                None => {},
            }
        }
    }

    /// Adds a hot Run `run_id`, absent so far, at durable checkpoint
    /// `durable` with `subscribers` subscriptions, when a place is free.
    fn add(&mut self, run_id: &str, durable: u64, subscribers: usize)
        requires
            old(self).wf(),
            old(self).runs_view().len() < run::MAX_HOT_RUNS,
            key_index(old(self).runs_view(), run_id@) is None,
        ensures
            final(self).wf(),
            final(self).boot_view() == old(self).boot_view(),
            extends(old(self).runs_view(), final(self).runs_view()),
            final(self).runs_view().last().0 == run_id@,
            final(self).runs_view().last().2 == subscribers,
            fresh(final(self).runs_view().last().1, durable),
    {
        let ghost before = self.runs_view();
        proof {
            lemma_key_index_absent(before, run_id@);
        }
        let live = LiveRun::new(durable);
        self.runs.push(HotRun { run_id: text::owned(run_id), live, subscribers });
        proof {
            assert(self.runs_view() =~= before.push((run_id@, live, subscribers as nat)));
        }
    }

    /// The live progress of hot Run `run_id`, if it has any.
    pub fn snapshot(&self, run_id: &str) -> (p: Option<LiveProgress>)
        requires
            self.wf(),
        ensures
            match key_index(self.runs_view(), run_id@) {
                Some(i) => match p {
                    Some(x) => self.runs_view()[i].1.current_view() == Some(live::progress_view(x)),
                    None => self.runs_view()[i].1.current_view() is None,
                },
                None => p is None,
            },
    {
        match self.find(run_id) {
            Some(i) => {
                proof {
                    lemma_key_index_found(self.runs_view(), run_id@);
                    assert(self.runs_view()[i as int] == hot_view(self.runs@[i as int]));
                }
                self.runs[i].live.snapshot()
            },
            None => None,
        }
    }

    /// Sets the number of open subscriptions of hot Run `run_id`, when it is
    /// hot.
    pub fn set_subscribers(&mut self, run_id: &str, count: usize)
        requires
            old(self).wf(),
        ensures
            final(self).wf(),
            final(self).boot_view() == old(self).boot_view(),
            match key_index(old(self).runs_view(), run_id@) {
                Some(i) => {
                    &&& same_but(old(self).runs_view(), final(self).runs_view(), i)
                    &&& final(self).runs_view()[i] == (old(self).runs_view()[i].0, old(self).runs_view()[i].1, count as nat)
                },
                None => final(self).runs_view() == old(self).runs_view(),
            },
    {
        match self.find(run_id) {
            Some(i) => {
                let ghost before = self.runs_view();
                proof {
                    lemma_key_index_found(before, run_id@);
                }
                let mut h = self.runs.remove(i);
                h.subscribers = count;
                self.runs.insert(i, h);
                proof {
                    assert(self.runs_view() =~= before.update(i as int, (before[i as int].0, before[i as int].1, count as nat)));
                    lemma_update_keeps(before, self.runs_view(), i as int);
                }
            },
            None => {},
        }
    }

    /// Records one stream event of Run `run_id` and returns the frame to send
    /// to its subscribers. Data longer than `MAX_SSE_DATA_BYTES` is refused.
    /// A Run that is not hot becomes hot only with a `live` event, after the
    /// first Run nobody subscribes to leaves when all places are taken; when
    /// no place can be had, nothing is recorded. A Run whose live sequence is
    /// exhausted records nothing more.
    pub fn emit(
        &mut self,
        run_id: &str,
        durable_sequence: u64,
        event: &str,
        data: String,
        payload: &Json,
    ) -> (r: Option<StreamFrame>)
        requires
            old(self).wf(),
            run::byte_len(run_id@) + run::byte_len(old(self).boot_view()) + run::byte_len(event@) + run::byte_len(
                data@,
            ) + 128 <= usize::MAX,
        ensures
            final(self).wf(),
            final(self).boot_view() == old(self).boot_view(),
            ({
                let runs = old(self).runs_view();
                let after = final(self).runs_view();
                if run::byte_len(data@) > run::MAX_SSE_DATA_BYTES {
                    r is None && after == runs
                } else {
                    match key_index(runs, run_id@) {
                        Some(i) => if runs[i].1.next_view() == u64::MAX {
                            r is None && after == runs
                        } else {
                            &&& same_but(runs, after, i)
                            &&& after[i].0 == runs[i].0
                            &&& after[i].2 == runs[i].2
                            &&& live::recorded_from(
                                runs[i].1.durable_view(),
                                runs[i].1.next_view(),
                                runs[i].1.ring_view(),
                                runs[i].1.current_view(),
                                after[i].1,
                                run_id@,
                                old(self).boot_view(),
                                durable_sequence,
                                event@,
                                data@,
                                payload@,
                                r,
                            )
                        },
                        None => {
                            let base = make_room(runs);
                            if event@ != "live"@ {
                                r is None && after == runs
                            } else if base.len() >= run::MAX_HOT_RUNS {
                                r is None && after == runs
                            } else {
                                &&& extends(base, after)
                                &&& after.last().0 == run_id@
                                &&& after.last().2 == 0
                                &&& live::recorded_from(
                                    durable_sequence,
                                    1,
                                    Seq::<FrameV>::empty(),
                                    None,
                                    after.last().1,
                                    run_id@,
                                    old(self).boot_view(),
                                    durable_sequence,
                                    event@,
                                    data@,
                                    payload@,
                                    r,
                                )
                            }
                        },
                    }
                }
            }),
    {
        if data.as_str().len() > run::MAX_SSE_DATA_BYTES {
            return None;
        }
        let ghost runs = self.runs_view();
        let index = match self.find(run_id) {
            Some(i) => {
                proof {
                    lemma_key_index_found(runs, run_id@);
                    assert(runs[i as int] == hot_view(self.runs@[i as int]));
                }
                if self.runs[i].live.next_live_sequence() == u64::MAX {
                    return None;
                }
                i
            },
            None => {
                proof {
                    reveal_strlit("live");
                }
                if !text::str_eq(event, "live") {
                    return None;
                }
                let ghost before_room = self.runs_view();
                self.make_room();
                if self.runs.len() >= run::MAX_HOT_RUNS {
                    proof {
                        lemma_make_room_full(runs);
                    }
                    return None;
                }
                proof {
                    lemma_make_room_keys(runs, run_id@);
                }
                self.add(run_id, durable_sequence, 0);
                self.runs.len() - 1
            },
        };
        let ghost mid = self.runs_view();
        let mut h = self.runs.remove(index);
        let ghost old_live = h.live;
        proof {
            assert(mid[index as int] == hot_view(h));
        }
        let frame = h.live.record(run_id, self.boot_epoch.as_str(), durable_sequence, event, data, payload);
        self.runs.insert(index, h);
        proof {
            assert(self.runs_view() =~= mid.update(index as int, (mid[index as int].0, h.live, mid[index as int].2)));
            lemma_update_keeps(mid, self.runs_view(), index as int);
            let after = self.runs_view();
            assert(after[index as int].1 == h.live);
            assert(live::recorded_from(
                old_live.durable_view(),
                old_live.next_view(),
                old_live.ring_view(),
                old_live.current_view(),
                h.live,
                run_id@,
                self.boot_epoch@,
                durable_sequence,
                event@,
                data@,
                payload@,
                frame,
            ));
            if key_index(runs, run_id@) is None {
                assert(fresh(old_live, durable_sequence));
                assert(old_live.ring_view() == Seq::<FrameV>::empty());
                assert(after.last() == after[index as int]);
            } else {
                assert(mid == runs);
            }
        }
        frame
    }

    /// Opens a subscription to Run `run_id` for a subscriber that presents
    /// `last_event_id`, and returns what it receives first. A Run that is not
    /// hot becomes hot at durable checkpoint `snapshot_durable`, after the
    /// first Run nobody subscribes to leaves when all places are taken; when
    /// no place can be had, the subscription is refused.
    pub fn subscribe(&mut self, run_id: &str, last_event_id: Option<&str>, snapshot_durable: u64) -> (r: Result<
        ReplayPlan,
        RunError,
    >)
        requires
            old(self).wf(),
        ensures
            final(self).wf(),
            final(self).boot_view() == old(self).boot_view(),
            ({
                let runs = old(self).runs_view();
                let after = final(self).runs_view();
                let last = match last_event_id {
                    Some(c) => Some(c@),
                    None => None,
                };
                match key_index(runs, run_id@) {
                    Some(i) => {
                        &&& same_but(runs, after, i)
                        &&& after[i].0 == runs[i].0
                        &&& after[i].1 == runs[i].1
                        &&& after[i].2 == if runs[i].2 < usize::MAX { runs[i].2 + 1 } else { runs[i].2 }
                        &&& r matches Ok(p) && live::plan_for(p, runs[i].1, run_id@, old(self).boot_view(), snapshot_durable, last)
                    },
                    None => {
                        let base = make_room(runs);
                        if base.len() >= run::MAX_HOT_RUNS {
                            r == Err::<ReplayPlan, RunError>(RunError::SubscriberFull) && after == runs
                        } else {
                            &&& extends(base, after)
                            &&& after.last().0 == run_id@
                            &&& after.last().2 == 1
                            &&& fresh(after.last().1, snapshot_durable)
                            &&& r matches Ok(p) && live::plan_for(p, after.last().1, run_id@, old(self).boot_view(), snapshot_durable, last)
                        }
                    },
                }
            }),
    {
        let ghost runs = self.runs_view();
        match self.find(run_id) {
            Some(i) => {
                proof {
                    lemma_key_index_found(runs, run_id@);
                    assert(runs[i as int] == hot_view(self.runs@[i as int]));
                }
                let plan = self.runs[i].live.subscribe_plan(run_id, self.boot_epoch.as_str(), snapshot_durable, last_event_id);
                let mut h = self.runs.remove(i);
                h.subscribers = h.subscribers.saturating_add(1);
                self.runs.insert(i, h);
                proof {
                    assert(self.runs_view() =~= runs.update(i as int, (runs[i as int].0, runs[i as int].1, h.subscribers as nat)));
                    lemma_update_keeps(runs, self.runs_view(), i as int);
                }
                Ok(plan)
            },
            None => {
                self.make_room();
                if self.runs.len() >= run::MAX_HOT_RUNS {
                    proof {
                        lemma_make_room_full(runs);
                    }
                    return Err(RunError::SubscriberFull);
                }
                proof {
                    lemma_make_room_keys(runs, run_id@);
                }
                self.add(run_id, snapshot_durable, 1);
                let last = self.runs.len() - 1;
                proof {
                    assert(self.runs_view()[last as int] == hot_view(self.runs@[last as int]));
                }
                let plan = self.runs[last].live.subscribe_plan(run_id, self.boot_epoch.as_str(), snapshot_durable, last_event_id);
                Ok(plan)
            },
        }
    }
}

/// What `key_index` finds is the first entry with the key.
proof fn lemma_key_index_first(runs: Seq<HotV>, key: Seq<char>, i: int)
    requires
        0 <= i < runs.len(),
        runs[i].0 == key,
        forall|j: int| 0 <= j < i ==> (#[trigger] runs[j]).0 != key,
    ensures
        key_index(runs, key) == Some(i),
    decreases i,
{
    if i > 0 {
        assert(runs[0].0 != key);
        assert forall|j: int| 0 <= j < i - 1 implies (#[trigger] runs.drop_first()[j]).0 != key by {
            assert(runs.drop_first()[j] == runs[j + 1]);
        }
        lemma_key_index_first(runs.drop_first(), key, i - 1);
    }
}

/// No entry has the key when none of them has it.
proof fn lemma_key_index_none(runs: Seq<HotV>, key: Seq<char>)
    requires
        forall|j: int| 0 <= j < runs.len() ==> (#[trigger] runs[j]).0 != key,
    ensures
        key_index(runs, key) is None,
    decreases runs.len(),
{
    if runs.len() > 0 {
        assert(runs[0].0 != key);
        assert forall|j: int| 0 <= j < runs.len() - 1 implies (#[trigger] runs.drop_first()[j]).0 != key by {
            assert(runs.drop_first()[j] == runs[j + 1]);
        }
        lemma_key_index_none(runs.drop_first(), key);
    }
}

/// An entry `key_index` finds has the key.
proof fn lemma_key_index_found(runs: Seq<HotV>, key: Seq<char>)
    ensures
        key_index(runs, key) matches Some(i) ==> 0 <= i < runs.len() && runs[i].0 == key,
    decreases runs.len(),
{
    if runs.len() > 0 && runs[0].0 != key {
        lemma_key_index_found(runs.drop_first(), key);
    }
}

/// When `key_index` finds nothing, no entry has the key.
proof fn lemma_key_index_absent(runs: Seq<HotV>, key: Seq<char>)
    ensures
        key_index(runs, key) is None ==> forall|j: int| 0 <= j < runs.len() ==> (#[trigger] runs[j]).0 != key,
    decreases runs.len(),
{
    if runs.len() > 0 && runs[0].0 != key {
        lemma_key_index_absent(runs.drop_first(), key);
        if key_index(runs, key) is None {
            assert forall|j: int| 0 <= j < runs.len() implies (#[trigger] runs[j]).0 != key by {
                if j > 0 {
                    assert(runs[j] == runs.drop_first()[j - 1]);
                }
            }
        }
    }
}

/// What `idle_index` finds is the first entry nobody subscribes to.
proof fn lemma_idle_index_first(runs: Seq<HotV>, i: int)
    requires
        0 <= i < runs.len(),
        runs[i].2 == 0,
        forall|j: int| 0 <= j < i ==> (#[trigger] runs[j]).2 != 0,
    ensures
        idle_index(runs) == Some(i),
    decreases i,
{
    if i > 0 {
        assert(runs[0].2 != 0);
        assert forall|j: int| 0 <= j < i - 1 implies (#[trigger] runs.drop_first()[j]).2 != 0 by {
            assert(runs.drop_first()[j] == runs[j + 1]);
        }
        lemma_idle_index_first(runs.drop_first(), i - 1);
    }
}

/// No entry is idle when every entry has subscribers.
proof fn lemma_idle_index_none(runs: Seq<HotV>)
    requires
        forall|j: int| 0 <= j < runs.len() ==> (#[trigger] runs[j]).2 != 0,
    ensures
        idle_index(runs) is None,
    decreases runs.len(),
{
    if runs.len() > 0 {
        assert(runs[0].2 != 0);
        assert forall|j: int| 0 <= j < runs.len() - 1 implies (#[trigger] runs.drop_first()[j]).2 != 0 by {
            assert(runs.drop_first()[j] == runs[j + 1]);
        }
        lemma_idle_index_none(runs.drop_first());
    }
}

/// An entry `idle_index` finds exists.
proof fn lemma_idle_index_found(runs: Seq<HotV>)
    ensures
        idle_index(runs) matches Some(i) ==> 0 <= i < runs.len(),
    decreases runs.len(),
{
    if runs.len() > 0 && runs[0].2 != 0 {
        lemma_idle_index_found(runs.drop_first());
    }
}

/// When no room can be made, the Runs stay as they were.
proof fn lemma_make_room_full(runs: Seq<HotV>)
    requires
        runs.len() <= run::MAX_HOT_RUNS,
        make_room(runs).len() >= run::MAX_HOT_RUNS,
    ensures
        make_room(runs) == runs,
{
    lemma_idle_index_found(runs);
}

/// Making room keeps a key absent.
proof fn lemma_make_room_keys(runs: Seq<HotV>, key: Seq<char>)
    requires
        key_index(runs, key) is None,
    ensures
        key_index(make_room(runs), key) is None,
{
    lemma_key_index_absent(runs, key);
    lemma_idle_index_found(runs);
    let m = make_room(runs);
    assert forall|j: int| 0 <= j < m.len() implies (#[trigger] m[j]).0 != key by {
        if runs.len() >= run::MAX_HOT_RUNS {
            if let Some(e) = idle_index(runs) {
                if j < e {
                    assert(m[j] == runs[j]);
                } else {
                    assert(m[j] == runs[j + 1]);
                }
            }
        }
    }
    lemma_key_index_none(m, key);
}

/// Replacing one entry by one with the same identifier keeps the others.
proof fn lemma_update_keeps(before: Seq<HotV>, after: Seq<HotV>, i: int)
    requires
        0 <= i < before.len(),
        after.len() == before.len(),
        after[i].0 == before[i].0,
        forall|j: int| 0 <= j < before.len() && j != i ==> after[j] == before[j],
    ensures
        same_but(before, after, i),
{
}


/// Whatever emits and subscriptions a hub has taken, it tracks at most
/// `MAX_HOT_RUNS` Runs, one per identifier, and each Run's ring holds at most
/// `LIVE_RING_COUNT` frames of at most `LIVE_RING_BYTES` bytes in all, each
/// frame at most `MAX_SSE_FRAME_BYTES`, in increasing live sequence and all
/// below the Run's next sequence.
pub proof fn lemma_hub_bounds(hub: LiveHub)
    requires
        hub.wf(),
    ensures
        hub.runs_view().len() <= run::MAX_HOT_RUNS,
        forall|i: int, j: int| 0 <= i < j < hub.runs_view().len() ==> hub.runs_view()[i].0 != hub.runs_view()[j].0,
        forall|i: int|
            0 <= i < hub.runs_view().len() ==> {
                let live = (#[trigger] hub.runs_view()[i]).1;
                let ring = live.ring_view();
                &&& ring.len() <= run::LIVE_RING_COUNT
                &&& live::ring_size(ring) <= run::LIVE_RING_BYTES
                &&& forall|k: int| 0 <= k < ring.len() ==> (#[trigger] ring[k]).bytes <= run::MAX_SSE_FRAME_BYTES
                &&& forall|k: int, m: int| 0 <= k < m < ring.len() ==> ring[k].sequence < ring[m].sequence
                &&& forall|k: int| 0 <= k < ring.len() ==> (#[trigger] ring[k]).sequence < live.next_view()
            },
{
    hub.lemma_wf();
    assert forall|i: int| 0 <= i < hub.runs_view().len() implies {
        let live = (#[trigger] hub.runs_view()[i]).1;
        let ring = live.ring_view();
        &&& ring.len() <= run::LIVE_RING_COUNT
        &&& live::ring_size(ring) <= run::LIVE_RING_BYTES
        &&& forall|k: int| 0 <= k < ring.len() ==> (#[trigger] ring[k]).bytes <= run::MAX_SSE_FRAME_BYTES
        &&& forall|k: int, m: int| 0 <= k < m < ring.len() ==> ring[k].sequence < ring[m].sequence
        &&& forall|k: int| 0 <= k < ring.len() ==> (#[trigger] ring[k]).sequence < live.next_view()
    } by {
        hub.runs_view()[i].1.lemma_wf();
    }
}

} // verus!
