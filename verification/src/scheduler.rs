//! The Run scheduler's decisions. The scheduler thread owns the I/O: it
//! receives wake signals and completed Activations, reads queued Runs,
//! reserves queue bytes and hands work to the executor. What it does next is
//! decided here, from its state and what just happened.
//!
//! Times are milliseconds on the scheduler's monotonic clock.

use crate::run;
use crate::text;
use vstd::prelude::*;

verus! {

/// How long a freshly admitted Run stays visibly queued before the
/// scheduler scans for it.
pub const MINIMUM_QUEUE_VISIBILITY_MILLIS: u64 = 250;

/// How long the scheduler waits for a completion while Runs are active.
pub const SCHEDULER_TICK_MILLIS: u64 = 10;

/// A signal on the scheduler's wake channel.
#[derive(Clone, Copy, Debug, PartialEq, Eq)]
pub enum Signal {
    /// New work may be queued.
    Wake,
    /// The service is shutting down.
    Stop,
    /// Every sender is gone.
    Disconnected,
}

/// What the scheduler waits for next.
#[derive(Clone, Copy, Debug, PartialEq, Eq)]
pub enum Wait {
    /// Wait up to this many milliseconds for a completed Activation.
    Completion(u64),
    /// Wait up to this many milliseconds for a signal.
    SignalFor(u64),
    /// Wait for a signal, however long it takes.
    Signal,
    /// Do not wait: look again at once.
    Continue,
}

/// What to do with a candidate Run once its stored state has been read and
/// its queue bytes asked for.
#[derive(Clone, Copy, Debug, PartialEq, Eq)]
pub enum Dispatch {
    /// Hand it to the executor.
    Send,
    /// It is no longer queued (or already active): pass it by.
    Skip,
    /// Its queue bytes could not be reserved, or no Run more may be active:
    /// end this pass.
    Stop,
}

/// The dispatch decision for Run `run_id`, whose stored state reads `state`,
/// with the ready and result queue bytes reserved or not, while `active` are
/// active. Only a Run still queued is ever sent.
pub open spec fn dispatch_of(
    active: Seq<Seq<char>>,
    run_id: Seq<char>,
    state: Seq<char>,
    ready_reserved: bool,
    result_reserved: bool,
) -> Dispatch {
    if state != "queued"@ || holds(active, run_id) {
        Dispatch::Skip
    } else if !ready_reserved || !result_reserved || active.len() >= run::MAX_HOT_RUNS {
        Dispatch::Stop
    } else {
        Dispatch::Send
    }
}

/// The scheduler's state: the Runs it has handed to the executor and not
/// yet seen complete, whether it is stopping, and whether (and from when) a
/// scan for queued Runs is due.
#[derive(Debug)]
pub struct Scheduler {
    active: Vec<String>,
    stopping: bool,
    scan_requested: bool,
    scan_after: u64,
}

/// `s` holds `x`.
pub open spec fn holds(s: Seq<Seq<char>>, x: Seq<char>) -> bool {
    s.contains(x)
}

/// `s` without its entries `x`, the others in order.
pub open spec fn without(s: Seq<Seq<char>>, x: Seq<char>) -> Seq<Seq<char>>
    decreases s.len(),
{
    if s.len() == 0 {
        Seq::empty()
    } else {
        let rest = without(s.drop_last(), x);
        if s.last() == x {
            rest
        } else {
            rest.push(s.last())
        }
    }
}

/// The first entry of `queued` that is not active.
pub open spec fn first_inactive(queued: Seq<Seq<char>>, active: Seq<Seq<char>>) -> Option<int>
    decreases queued.len(),
{
    if queued.len() == 0 {
        None
    } else if !holds(active, queued[0]) {
        Some(0)
    } else {
        match first_inactive(queued.drop_first(), active) {
            Some(i) => Some(i + 1),
            None => None,
        }
    }
}

impl Scheduler {
    /// At most `MAX_HOT_RUNS` active Runs, none twice.
    pub closed spec fn wf(self) -> bool {
        let a = self.active_view();
        &&& a.len() <= run::MAX_HOT_RUNS
        &&& forall|i: int, j: int| 0 <= i < j < a.len() ==> a[i] != a[j]
    }

    /// The active Runs, in the order they were dispatched.
    pub closed spec fn active_view(self) -> Seq<Seq<char>> {
        self.active@.map_values(|s: String| s@)
    }

    /// Whether the scheduler is stopping.
    pub closed spec fn stopping_view(self) -> bool {
        self.stopping
    }

    /// Whether a scan for queued Runs is requested.
    pub closed spec fn scan_requested_view(self) -> bool {
        self.scan_requested
    }

    /// From when the requested scan is due.
    pub closed spec fn scan_after_view(self) -> u64 {
        self.scan_after
    }

    /// The invariant, for callers.
    pub proof fn lemma_wf(self)
        requires
            self.wf(),
        ensures
            self.active_view().len() <= run::MAX_HOT_RUNS,
            forall|i: int, j: int| 0 <= i < j < self.active_view().len() ==> self.active_view()[i] != self.active_view()[j],
    {
    }

    /// A scheduler with nothing active, not stopping, and no scan requested.
    pub fn new() -> (s: Scheduler)
        ensures
            s.wf(),
            s.active_view().len() == 0,
            !s.stopping_view(),
            !s.scan_requested_view(),
            s.scan_after_view() == 0,
    {
        let s = Scheduler { active: Vec::new(), stopping: false, scan_requested: false, scan_after: 0 };
        assert(s.active_view() =~= Seq::<Seq<char>>::empty());
        s
    }

    /// Whether the scheduler is stopping.
    pub fn is_stopping(&self) -> (b: bool)
        ensures
            b == self.stopping_view(),
    {
        self.stopping
    }

    /// Whether any Run is active.
    pub fn has_active(&self) -> (b: bool)
        ensures
            b == (self.active_view().len() > 0),
    {
        self.active.len() > 0
    }

    /// Takes one signal at time `now`: a stop or a lost channel makes the
    /// scheduler stop; a wake requests a scan due after the minimum queue
    /// visibility, unless a scan is already requested.
    pub fn on_signal(&mut self, signal: Signal, now: u64)
        requires
            old(self).wf(),
        ensures
            final(self).wf(),
            final(self).active_view() == old(self).active_view(),
            match signal {
                Signal::Wake => {
                    &&& final(self).stopping_view() == old(self).stopping_view()
                    &&& final(self).scan_requested_view()
                    &&& final(self).scan_after_view() == if old(self).scan_requested_view() {
                        old(self).scan_after_view()
                    } else if now + MINIMUM_QUEUE_VISIBILITY_MILLIS <= u64::MAX {
                        (now + MINIMUM_QUEUE_VISIBILITY_MILLIS) as u64
                    } else {
                        u64::MAX
                    }
                },
                _ => {
                    &&& final(self).stopping_view()
                    &&& final(self).scan_requested_view() == old(self).scan_requested_view()
                    &&& final(self).scan_after_view() == old(self).scan_after_view()
                },
            },
    {
        match signal {
            Signal::Wake => {
                if !self.scan_requested {
                    self.scan_requested = true;
                    self.scan_after = now.saturating_add(MINIMUM_QUEUE_VISIBILITY_MILLIS);
                }
            },
            _ => {
                self.stopping = true;
            },
        }
    }

    /// Takes the completion of Run `run_id` at time `now`: the Run is no
    /// longer active, the others stay in order, and a scan is due at once.
    pub fn on_completed(&mut self, run_id: &str, now: u64)
        requires
            old(self).wf(),
        ensures
            final(self).wf(),
            final(self).active_view() == without(old(self).active_view(), run_id@),
            final(self).stopping_view() == old(self).stopping_view(),
            final(self).scan_requested_view(),
            final(self).scan_after_view() == now,
    {
        let ghost before = self.active_view();
        let mut kept: Vec<String> = Vec::new();
        let mut i: usize = 0;
        while i < self.active.len()
            invariant
                before == self.active_view(),
                i <= self.active@.len(),
                kept@.map_values(|s: String| s@) == without(before.take(i as int), run_id@),
            decreases self.active@.len() - i,
        {
            let ghost kv = kept@.map_values(|s: String| s@);
            proof {
                assert(before.take(i as int + 1).drop_last() =~= before.take(i as int));
                assert(before.take(i as int + 1).last() == before[i as int]);
                assert(before[i as int] == self.active@[i as int]@);
            }
            if !text::str_eq(self.active[i].as_str(), run_id) {
                kept.push(text::owned(self.active[i].as_str()));
                proof {
                    assert(kept@.map_values(|s: String| s@) =~= kv.push(before[i as int]));
                }
            }
            i = i + 1;
        }
        proof {
            assert(before.take(before.len() as int) =~= before);
            lemma_without(before, run_id@);
        }
        self.active = kept;
        self.scan_requested = true;
        self.scan_after = now;
    }

    /// Whether a requested scan is due at time `now`.
    pub fn scan_due(&self, now: u64) -> (b: bool)
        ensures
            b == (self.scan_requested_view() && now >= self.scan_after_view()),
    {
        self.scan_requested && now >= self.scan_after
    }

    /// Whether another Run may be dispatched: fewer than `MAX_HOT_RUNS` are
    /// active.
    pub fn has_room(&self) -> (b: bool)
        ensures
            b == (self.active_view().len() < run::MAX_HOT_RUNS),
    {
        self.active.len() < run::MAX_HOT_RUNS
    }

    /// The scan found nothing more to dispatch (or could not read): no scan
    /// is requested until the next signal or completion.
    pub fn on_scan_exhausted(&mut self)
        requires
            old(self).wf(),
        ensures
            final(self).wf(),
            final(self).active_view() == old(self).active_view(),
            final(self).stopping_view() == old(self).stopping_view(),
            !final(self).scan_requested_view(),
            final(self).scan_after_view() == old(self).scan_after_view(),
    {
        self.scan_requested = false;
    }

    /// The first queued Run, in queue order, that is not active.
    pub fn next_candidate(&self, queued: &Vec<String>) -> (r: Option<usize>)
        ensures
            match r {
                Some(i) => first_inactive(queued@.map_values(|s: String| s@), self.active_view()) == Some(i as int),
                None => first_inactive(queued@.map_values(|s: String| s@), self.active_view()) is None,
            },
    {
        let ghost q = queued@.map_values(|s: String| s@);
        let mut i: usize = 0;
        while i < queued.len()
            invariant
                q == queued@.map_values(|s: String| s@),
                i <= queued@.len(),
                forall|j: int| 0 <= j < i ==> holds(self.active_view(), #[trigger] q[j]),
            decreases queued@.len() - i,
        {
            if !self.is_active(queued[i].as_str()) {
                proof {
                    assert(q[i as int] == queued@[i as int]@);
                    lemma_first_inactive_at(q, self.active_view(), i as int);
                }
                return Some(i);
            }
            proof {
                assert(q[i as int] == queued@[i as int]@);
            }
            i = i + 1;
        }
        proof {
            lemma_first_inactive_none(q, self.active_view());
        }
        None
    }

    /// What to do with candidate `run_id` whose stored state reads `state`,
    /// given whether its ready and result queue bytes were reserved.
    pub fn dispatch(&self, run_id: &str, state: &str, ready_reserved: bool, result_reserved: bool) -> (d: Dispatch)
        ensures
            d == dispatch_of(self.active_view(), run_id@, state@, ready_reserved, result_reserved),
    {
        proof {
            reveal_strlit("queued");
        }
        if !text::str_eq(state, "queued") || self.is_active(run_id) {
            Dispatch::Skip
        } else if !ready_reserved || !result_reserved || !self.has_room() {
            Dispatch::Stop
        } else {
            Dispatch::Send
        }
    }

    /// Whether Run `run_id` is active.
    pub fn is_active(&self, run_id: &str) -> (b: bool)
        ensures
            b == holds(self.active_view(), run_id@),
    {
        let ghost a = self.active_view();
        let mut i: usize = 0;
        while i < self.active.len()
            invariant
                a == self.active_view(),
                i <= self.active@.len(),
                forall|j: int| 0 <= j < i ==> a[j] != run_id@,
            decreases self.active@.len() - i,
        {
            if text::str_eq(self.active[i].as_str(), run_id) {
                assert(a[i as int] == run_id@);
                return true;
            }
            i = i + 1;
        }
        false
    }

    /// Run `run_id`, queued and not active, was handed to the executor: it
    /// is active now.
    pub fn on_dispatched(&mut self, run_id: &str)
        requires
            old(self).wf(),
            old(self).active_view().len() < run::MAX_HOT_RUNS,
            !holds(old(self).active_view(), run_id@),
        ensures
            final(self).wf(),
            final(self).active_view() == old(self).active_view().push(run_id@),
            final(self).stopping_view() == old(self).stopping_view(),
            final(self).scan_requested_view() == old(self).scan_requested_view(),
            final(self).scan_after_view() == old(self).scan_after_view(),
    {
        let ghost before = self.active_view();
        self.active.push(text::owned(run_id));
        proof {
            assert(self.active_view() =~= before.push(run_id@));
            assert forall|i: int, j: int| 0 <= i < j < self.active_view().len() implies self.active_view()[i]
                != self.active_view()[j] by {
                if j == before.len() {
                    assert(self.active_view()[i] == before[i]);
                }
            }
        }
    }

    /// What to wait for at time `now`, after a pass that did (`dispatched`)
    /// or did not hand out work: a completion, for one tick, while Runs are
    /// active; otherwise, when nothing was handed out, a signal, until the
    /// requested scan is due (at least one millisecond) or, with no scan
    /// requested, for as long as it takes; otherwise nothing.
    pub fn wait(&self, dispatched: bool, now: u64) -> (w: Wait)
        ensures
            self.active_view().len() > 0 ==> w == Wait::Completion(SCHEDULER_TICK_MILLIS),
            self.active_view().len() == 0 && dispatched ==> w == Wait::Continue,
            self.active_view().len() == 0 && !dispatched && self.scan_requested_view() ==> w == Wait::SignalFor(
                if self.scan_after_view() > now + 1 { (self.scan_after_view() - now) as u64 } else { 1 },
            ),
            self.active_view().len() == 0 && !dispatched && !self.scan_requested_view() ==> w == Wait::Signal,
    {
        if self.active.len() > 0 {
            Wait::Completion(SCHEDULER_TICK_MILLIS)
        } else if dispatched {
            Wait::Continue
        } else if self.scan_requested {
            let remaining = if self.scan_after > now { self.scan_after - now } else { 0 };
            Wait::SignalFor(if remaining > 1 { remaining } else { 1 })
        } else {
            Wait::Signal
        }
    }
}

/// What `first_inactive` finds is the first entry that is not active.
proof fn lemma_first_inactive_at(queued: Seq<Seq<char>>, active: Seq<Seq<char>>, i: int)
    requires
        0 <= i < queued.len(),
        !holds(active, queued[i]),
        forall|j: int| 0 <= j < i ==> holds(active, #[trigger] queued[j]),
    ensures
        first_inactive(queued, active) == Some(i),
    decreases i,
{
    if i > 0 {
        assert(holds(active, queued[0]));
        assert forall|j: int| 0 <= j < i - 1 implies holds(active, #[trigger] queued.drop_first()[j]) by {
            assert(queued.drop_first()[j] == queued[j + 1]);
        }
        lemma_first_inactive_at(queued.drop_first(), active, i - 1);
    }
}

/// Nothing is found when every entry is active.
proof fn lemma_first_inactive_none(queued: Seq<Seq<char>>, active: Seq<Seq<char>>)
    requires
        forall|j: int| 0 <= j < queued.len() ==> holds(active, #[trigger] queued[j]),
    ensures
        first_inactive(queued, active) is None,
    decreases queued.len(),
{
    if queued.len() > 0 {
        assert(holds(active, queued[0]));
        assert forall|j: int| 0 <= j < queued.len() - 1 implies holds(active, #[trigger] queued.drop_first()[j]) by {
            assert(queued.drop_first()[j] == queued[j + 1]);
        }
        lemma_first_inactive_none(queued.drop_first(), active);
    }
}

/// Dropping the entries `x` of a sequence without repeats keeps every other
/// entry, no `x`, and no repeats.
pub proof fn lemma_without(s: Seq<Seq<char>>, x: Seq<char>)
    requires
        forall|i: int, j: int| 0 <= i < j < s.len() ==> s[i] != s[j],
    ensures
        !without(s, x).contains(x),
        forall|y: Seq<char>| y != x ==> (without(s, x).contains(y) <==> s.contains(y)),
        forall|i: int, j: int| 0 <= i < j < without(s, x).len() ==> without(s, x)[i] != without(s, x)[j],
        without(s, x).len() <= s.len(),
    decreases s.len(),
{
    if s.len() > 0 {
        let p = s.drop_last();
        lemma_without(p, x);
        let r = without(p, x);
        assert forall|y: Seq<char>| s.contains(y) <==> (p.contains(y) || y == s.last()) by {
            if s.contains(y) {
                let w = choose|w: int| 0 <= w < s.len() && s[w] == y;
                if w < s.len() - 1 {
                    assert(p[w] == y);
                }
            }
            if p.contains(y) {
                let w = choose|w: int| 0 <= w < p.len() && p[w] == y;
                assert(s[w] == y);
            }
            if y == s.last() {
                assert(s[s.len() - 1] == y);
            }
        }
        if s.last() != x {
            let t = s.last();
            assert forall|y: Seq<char>| r.push(t).contains(y) <==> (r.contains(y) || y == t) by {
                if r.push(t).contains(y) {
                    let w = choose|w: int| 0 <= w < r.len() + 1 && r.push(t)[w] == y;
                    if w < r.len() {
                        assert(r[w] == y);
                    }
                }
                if r.contains(y) {
                    let w = choose|w: int| 0 <= w < r.len() && r[w] == y;
                    assert(r.push(t)[w] == y);
                }
                if y == t {
                    assert(r.push(t)[r.len() as int] == y);
                }
            }
            assert(!p.contains(t)) by {
                if p.contains(t) {
                    let w = choose|w: int| 0 <= w < p.len() && p[w] == t;
                    assert(s[w] == s[s.len() - 1]);
                }
            }
            assert forall|i: int, j: int| 0 <= i < j < r.push(t).len() implies r.push(t)[i] != r.push(t)[j] by {
                if j == r.len() {
                    assert(r.push(t)[i] == r[i]);
                    assert(r.contains(r[i]));
                }
            }
        }
    }
}


/// Dropping what a sequence does not hold leaves it as it is.
proof fn lemma_without_absent(s: Seq<Seq<char>>, x: Seq<char>)
    requires
        !s.contains(x),
    ensures
        without(s, x) == s,
    decreases s.len(),
{
    if s.len() > 0 {
        let p = s.drop_last();
        assert(!p.contains(x)) by {
            if p.contains(x) {
                let w = choose|w: int| 0 <= w < p.len() && p[w] == x;
                assert(s[w] == x);
            }
        }
        lemma_without_absent(p, x);
        assert(s[s.len() - 1] == s.last());
        assert(p.push(s.last()) =~= s);
    }
}

/// The completion of a Run that was just dispatched leaves the active Runs
/// as they were before the dispatch.
pub proof fn lemma_completion_undoes_dispatch(active: Seq<Seq<char>>, run_id: Seq<char>)
    requires
        !holds(active, run_id),
    ensures
        without(active.push(run_id), run_id) == active,
{
    assert(active.push(run_id).drop_last() =~= active);
    lemma_without_absent(active, run_id);
}


/// A Run is sent only when its stored state reads `queued`, both of its
/// queue reservations were made, and the scheduler may take it on: fewer
/// than `MAX_HOT_RUNS` Runs are active and it is not one of them.
pub proof fn lemma_only_queued_runs_are_sent(
    active: Seq<Seq<char>>,
    run_id: Seq<char>,
    state: Seq<char>,
    ready_reserved: bool,
    result_reserved: bool,
)
    requires
        dispatch_of(active, run_id, state, ready_reserved, result_reserved) == Dispatch::Send,
    ensures
        state == "queued"@,
        ready_reserved && result_reserved,
        active.len() < run::MAX_HOT_RUNS,
        !holds(active, run_id),
{
}

} // verus!
