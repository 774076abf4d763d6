//! The Causal Trace of a Run: its hash-chained events, Durable Checkpoints
//! and Activations, and the integrity rules that a stored trace must meet
//! before it is served.

use crate::json::{self, Json, JsonV};
use crate::run::RunError;
use crate::text;
use vstd::prelude::*;

verus! {

/// One stored Causal Trace event.
#[derive(Debug)]
pub struct TraceEventView {
    pub event_sequence: u64,
    pub logical_order: Option<u64>,
    pub checkpoint_sequence: u64,
    pub phase: String,
    pub event_type: String,
    pub payload: Json,
    pub previous_hash: String,
    pub event_hash: String,
    pub occurred_at: i64,
}

/// One stored Durable Checkpoint.
#[derive(Debug)]
pub struct CheckpointView {
    pub sequence: u64,
    pub state: String,
    pub logical_order: u64,
    pub snapshot: Json,
    pub trace_head_hash: String,
    pub checkpoint_hash: String,
    pub committed_at: i64,
}

/// One stored Activation.
#[derive(Debug)]
pub struct ActivationView {
    pub activation_id: String,
    pub node_instance_id: String,
    pub logical_order: u64,
    pub attempt: u32,
    pub outcome: String,
    pub input: Json,
    pub output: Option<Json>,
    pub input_digest: String,
    pub output_digest: Option<String>,
    pub provenance: Json,
    pub failure: Option<Json>,
    pub checkpoint_sequence: u64,
    pub timing: crate::run::TimingView,
}

/// Which integrity rule a stored trace breaks.
#[derive(Clone, Copy, Debug, PartialEq, Eq, Structural)]
pub enum TraceFault {
    EventSequence,
    Chain,
    EventHash,
    Head,
    CheckpointSequence,
    CheckpointHead,
    CheckpointHash,
    InputDigest,
    OutputDigest,
    ActivationCheckpoint,
    ActivationEvent,
}

/// The message each fault is reported with.
pub open spec fn fault_message(f: TraceFault) -> Seq<char> {
    match f {
        TraceFault::EventSequence => "Causal Trace event sequence is discontinuous"@,
        TraceFault::Chain => "Causal Trace chain is discontinuous"@,
        TraceFault::EventHash => "Causal Trace event hash failed"@,
        TraceFault::Head => "Causal Trace head does not match the Run projection"@,
        TraceFault::CheckpointSequence => "Durable Checkpoint sequence is discontinuous"@,
        TraceFault::CheckpointHead => "Durable Checkpoint trace head is unavailable"@,
        TraceFault::CheckpointHash => "Durable Checkpoint hash failed"@,
        TraceFault::InputDigest => "Activation input digest failed"@,
        TraceFault::OutputDigest => "Activation output digest failed"@,
        TraceFault::ActivationCheckpoint => "Activation Durable Checkpoint is unavailable"@,
        TraceFault::ActivationEvent => "Activation Causal Trace event is unavailable"@,
    }
}

/// The hash event `i` must name as its predecessor: `genesis` for the
/// first, the previous event's hash after that.
pub open spec fn expected_previous(events: Seq<TraceEventView>, i: int) -> Seq<char> {
    if i == 0 {
        "genesis"@
    } else {
        events[i - 1].event_hash@
    }
}

/// The fault of event `i`, given the hash recomputed over it.
pub open spec fn event_fault(events: Seq<TraceEventView>, hashes: Seq<String>, i: int) -> Option<TraceFault> {
    let e = events[i];
    if e.event_sequence != i + 1 {
        Some(TraceFault::EventSequence)
    } else if e.previous_hash@ != expected_previous(events, i) {
        Some(TraceFault::Chain)
    } else if hashes[i]@ != e.event_hash@ {
        Some(TraceFault::EventHash)
    } else {
        None
    }
}

/// Whether some event belongs to checkpoint `sequence` and has hash `head`.
pub open spec fn head_event_exists(events: Seq<TraceEventView>, sequence: u64, head: Seq<char>) -> bool {
    exists|k: int| 0 <= k < events.len() && (#[trigger] events[k]).checkpoint_sequence == sequence && events[k].event_hash@ == head
}

/// The fault of checkpoint `i`, given the hash recomputed over it.
pub open spec fn checkpoint_fault(
    events: Seq<TraceEventView>,
    checkpoints: Seq<CheckpointView>,
    hashes: Seq<String>,
    i: int,
) -> Option<TraceFault> {
    let c = checkpoints[i];
    if c.sequence != i + 1 {
        Some(TraceFault::CheckpointSequence)
    } else if !head_event_exists(events, c.sequence, c.trace_head_hash@) {
        Some(TraceFault::CheckpointHead)
    } else if hashes[i]@ != c.checkpoint_hash@ {
        Some(TraceFault::CheckpointHash)
    } else {
        None
    }
}

/// An optional string, by value.
pub open spec fn opt_view(s: Option<String>) -> Option<Seq<char>> {
    match s {
        Some(t) => Some(t@),
        None => None,
    }
}

/// Whether event `e` records the outcome of activation `a`.
pub open spec fn records_outcome(e: TraceEventView, a: ActivationView) -> bool {
    &&& e.logical_order == Some(a.logical_order)
    &&& e.checkpoint_sequence == a.checkpoint_sequence
    &&& e.event_type@ == "activation_outcome"@
    &&& json::as_str(json::field(e.payload@, "activation_id"@)) == Some(a.activation_id@)
    &&& json::as_str(json::field(e.payload@, "outcome"@)) == Some(a.outcome@)
    &&& json::as_str(json::field(e.payload@, "input_digest"@)) == Some(a.input_digest@)
    &&& json::as_str(json::field(e.payload@, "output_digest"@)) == opt_view(a.output_digest)
}

/// The fault of activation `i`, given the digests recomputed over its input
/// and output.
pub open spec fn activation_fault(
    events: Seq<TraceEventView>,
    checkpoints: Seq<CheckpointView>,
    activations: Seq<ActivationView>,
    input_digests: Seq<String>,
    output_digests: Seq<Option<String>>,
    i: int,
) -> Option<TraceFault> {
    let a = activations[i];
    if input_digests[i]@ != a.input_digest@ {
        Some(TraceFault::InputDigest)
    } else if opt_view(output_digests[i]) != opt_view(a.output_digest) {
        Some(TraceFault::OutputDigest)
    } else if !(exists|k: int| 0 <= k < checkpoints.len() && (#[trigger] checkpoints[k]).sequence == a.checkpoint_sequence) {
        Some(TraceFault::ActivationCheckpoint)
    } else if !(exists|k: int| 0 <= k < events.len() && records_outcome(#[trigger] events[k], a)) {
        Some(TraceFault::ActivationEvent)
    } else {
        None
    }
}

/// The first fault among the first `n` items, where `f(i)` is item `i`'s.
pub open spec fn first_fault(f: spec_fn(int) -> Option<TraceFault>, n: nat) -> Option<TraceFault>
    decreases n,
{
    if n == 0 {
        None
    } else {
        match first_fault(f, (n - 1) as nat) {
            Some(x) => Some(x),
            None => f(n - 1),
        }
    }
}

/// The first rule a stored trace breaks: the events in order, then the
/// head, then the checkpoints in order, then the activations in order.
pub open spec fn trace_fault(
    events: Seq<TraceEventView>,
    checkpoints: Seq<CheckpointView>,
    activations: Seq<ActivationView>,
    expected_head: Seq<char>,
    event_hashes: Seq<String>,
    checkpoint_hashes: Seq<String>,
    input_digests: Seq<String>,
    output_digests: Seq<Option<String>>,
) -> Option<TraceFault> {
    match first_fault(|i: int| event_fault(events, event_hashes, i), events.len()) {
        Some(f) => Some(f),
        None => if expected_previous(events, events.len() as int) != expected_head {
            Some(TraceFault::Head)
        } else {
            match first_fault(|i: int| checkpoint_fault(events, checkpoints, checkpoint_hashes, i), checkpoints.len()) {
                Some(f) => Some(f),
                None => first_fault(
                    |i: int| activation_fault(events, checkpoints, activations, input_digests, output_digests, i),
                    activations.len(),
                ),
            }
        },
    }
}

/// The error a fault is answered with.
fn fault(f: TraceFault) -> (r: Result<(), RunError>)
    ensures
        r matches Err(RunError::Integrity(m)) && m@ == fault_message(f),
{
    let message = match f {
        TraceFault::EventSequence => "Causal Trace event sequence is discontinuous",
        TraceFault::Chain => "Causal Trace chain is discontinuous",
        TraceFault::EventHash => "Causal Trace event hash failed",
        TraceFault::Head => "Causal Trace head does not match the Run projection",
        TraceFault::CheckpointSequence => "Durable Checkpoint sequence is discontinuous",
        TraceFault::CheckpointHead => "Durable Checkpoint trace head is unavailable",
        TraceFault::CheckpointHash => "Durable Checkpoint hash failed",
        TraceFault::InputDigest => "Activation input digest failed",
        TraceFault::OutputDigest => "Activation output digest failed",
        TraceFault::ActivationCheckpoint => "Activation Durable Checkpoint is unavailable",
        TraceFault::ActivationEvent => "Activation Causal Trace event is unavailable",
    };
    Err(RunError::Integrity(text::owned(message)))
}

/// Whether two optional strings are equal.
fn same_opt(a: &Option<String>, b: &Option<String>) -> (r: bool)
    ensures
        r == (opt_view(*a) == opt_view(*b)),
{
    match (a, b) {
        (Some(x), Some(y)) => text::str_eq(x.as_str(), y.as_str()),
        (None, None) => true,
        _ => false,
    }
}

/// Whether a payload member is the string `expected`, or, for `None`,
/// not a string.
fn member_is(payload: &Json, key: &str, expected: Option<&str>) -> (r: bool)
    ensures
        r == (json::as_str(json::field(payload@, key@)) == match expected {
            Some(e) => Some(e@),
            None => None::<Seq<char>>,
        }),
{
    let null = Json::Null;
    let value = crate::policy::field_of(payload, key, &null);
    match (value.as_str(), expected) {
        (Some(s), Some(e)) => text::str_eq(s.as_str(), e),
        (None, None) => true,
        _ => false,
    }
}

/// Whether event `e` records the outcome of activation `a`.
fn records(e: &TraceEventView, a: &ActivationView) -> (r: bool)
    ensures
        r == records_outcome(*e, *a),
{
    let output = match &a.output_digest {
        Some(d) => Some(d.as_str()),
        None => None,
    };
    e.logical_order == Some(a.logical_order) && e.checkpoint_sequence == a.checkpoint_sequence && text::str_eq(
        e.event_type.as_str(),
        "activation_outcome",
    ) && member_is(&e.payload, "activation_id", Some(a.activation_id.as_str())) && member_is(
        &e.payload,
        "outcome",
        Some(a.outcome.as_str()),
    ) && member_is(&e.payload, "input_digest", Some(a.input_digest.as_str())) && member_is(
        &e.payload,
        "output_digest",
        output,
    )
}

/// Checks a stored trace against its integrity rules. The hash of each
/// event and checkpoint and the digests of each activation's input and
/// output are recomputed by the caller with the canonical digest and
/// passed in, position by position.
pub fn verify_trace(
    events: &Vec<TraceEventView>,
    checkpoints: &Vec<CheckpointView>,
    activations: &Vec<ActivationView>,
    expected_trace_head: &str,
    event_hashes: &Vec<String>,
    checkpoint_hashes: &Vec<String>,
    input_digests: &Vec<String>,
    output_digests: &Vec<Option<String>>,
) -> (r: Result<(), RunError>)
    requires
        event_hashes@.len() == events@.len(),
        checkpoint_hashes@.len() == checkpoints@.len(),
        input_digests@.len() == activations@.len(),
        output_digests@.len() == activations@.len(),
    ensures
        match trace_fault(
            events@,
            checkpoints@,
            activations@,
            expected_trace_head@,
            event_hashes@,
            checkpoint_hashes@,
            input_digests@,
            output_digests@,
        ) {
            None => r is Ok,
            Some(f) => r matches Err(RunError::Integrity(m)) && m@ == fault_message(f),
        },
{
    let ghost ef = |i: int| event_fault(events@, event_hashes@, i);
    let ghost cf = |i: int| checkpoint_fault(events@, checkpoints@, checkpoint_hashes@, i);
    let ghost af = |i: int| activation_fault(events@, checkpoints@, activations@, input_digests@, output_digests@, i);
    let mut i: usize = 0;
    while i < events.len()
        invariant
            0 <= i <= events@.len(),
            event_hashes@.len() == events@.len(),
            ef == (|k: int| event_fault(events@, event_hashes@, k)),
            first_fault(ef, i as nat) is None,
        decreases events@.len() - i,
    {
        let e = &events[i];
        let expected_sequence: u64 = (i as u64) + 1;
        let previous_ok = if i == 0 {
            text::str_eq(e.previous_hash.as_str(), "genesis")
        } else {
            text::str_eq(e.previous_hash.as_str(), events[i - 1].event_hash.as_str())
        };
        if e.event_sequence != expected_sequence || !previous_ok || !text::str_eq(
            event_hashes[i].as_str(),
            e.event_hash.as_str(),
        ) {
            let f = if e.event_sequence != expected_sequence {
                TraceFault::EventSequence
            } else if !previous_ok {
                TraceFault::Chain
            } else {
                TraceFault::EventHash
            };
            proof {
                assert(ef(i as int) == Some(f));
                lemma_first_fault_stays(ef, (i + 1) as nat, events@.len());
            }
            return fault(f);
        }
        assert(ef(i as int) is None);
        i = i + 1;
    }
    let head_ok = if events.len() == 0 {
        text::str_eq(expected_trace_head, "genesis")
    } else {
        text::str_eq(events[events.len() - 1].event_hash.as_str(), expected_trace_head)
    };
    if !head_ok {
        return fault(TraceFault::Head);
    }
    assert(expected_previous(events@, events@.len() as int) == expected_trace_head@);
    let mut c: usize = 0;
    while c < checkpoints.len()
        invariant
            0 <= c <= checkpoints@.len(),
            checkpoint_hashes@.len() == checkpoints@.len(),
            cf == (|k: int| checkpoint_fault(events@, checkpoints@, checkpoint_hashes@, k)),
            first_fault(cf, c as nat) is None,
            ef == (|k: int| event_fault(events@, event_hashes@, k)),
            first_fault(ef, events@.len()) is None,
            expected_previous(events@, events@.len() as int) == expected_trace_head@,
        decreases checkpoints@.len() - c,
    {
        let cp = &checkpoints[c];
        let expected_sequence: u64 = (c as u64) + 1;
        let sequence_ok = cp.sequence == expected_sequence;
        let mut head_found = false;
        let mut k: usize = 0;
        while k < events.len()
            invariant
                0 <= k <= events@.len(),
                head_found == exists|q: int| 0 <= q < k && (#[trigger] events@[q]).checkpoint_sequence == cp.sequence
                    && events@[q].event_hash@ == cp.trace_head_hash@,
            decreases events@.len() - k,
        {
            if events[k].checkpoint_sequence == cp.sequence && text::str_eq(
                events[k].event_hash.as_str(),
                cp.trace_head_hash.as_str(),
            ) {
                head_found = true;
            }
            k = k + 1;
        }
        if !sequence_ok || !head_found || !text::str_eq(checkpoint_hashes[c].as_str(), cp.checkpoint_hash.as_str()) {
            let f = if !sequence_ok {
                TraceFault::CheckpointSequence
            } else if !head_found {
                TraceFault::CheckpointHead
            } else {
                TraceFault::CheckpointHash
            };
            proof {
                assert(cf(c as int) == Some(f));
                lemma_first_fault_stays(cf, (c + 1) as nat, checkpoints@.len());
            }
            return fault(f);
        }
        assert(cf(c as int) is None);
        c = c + 1;
    }
    let mut a: usize = 0;
    while a < activations.len()
        invariant
            0 <= a <= activations@.len(),
            input_digests@.len() == activations@.len(),
            output_digests@.len() == activations@.len(),
            af == (|k: int| activation_fault(events@, checkpoints@, activations@, input_digests@, output_digests@, k)),
            first_fault(af, a as nat) is None,
            cf == (|k: int| checkpoint_fault(events@, checkpoints@, checkpoint_hashes@, k)),
            first_fault(cf, checkpoints@.len()) is None,
            ef == (|k: int| event_fault(events@, event_hashes@, k)),
            first_fault(ef, events@.len()) is None,
            expected_previous(events@, events@.len() as int) == expected_trace_head@,
        decreases activations@.len() - a,
    {
        let act = &activations[a];
        let input_ok = text::str_eq(input_digests[a].as_str(), act.input_digest.as_str());
        let output_ok = same_opt(&output_digests[a], &act.output_digest);
        let mut checkpoint_found = false;
        let mut k: usize = 0;
        while k < checkpoints.len()
            invariant
                0 <= k <= checkpoints@.len(),
                checkpoint_found == exists|q: int| 0 <= q < k && (#[trigger] checkpoints@[q]).sequence == act.checkpoint_sequence,
            decreases checkpoints@.len() - k,
        {
            if checkpoints[k].sequence == act.checkpoint_sequence {
                checkpoint_found = true;
            }
            k = k + 1;
        }
        let mut event_found = false;
        let mut q: usize = 0;
        while q < events.len()
            invariant
                0 <= q <= events@.len(),
                event_found == exists|p: int| 0 <= p < q && records_outcome(#[trigger] events@[p], *act),
            decreases events@.len() - q,
        {
            if records(&events[q], act) {
                event_found = true;
            }
            q = q + 1;
        }
        if !input_ok || !output_ok || !checkpoint_found || !event_found {
            let f = if !input_ok {
                TraceFault::InputDigest
            } else if !output_ok {
                TraceFault::OutputDigest
            } else if !checkpoint_found {
                TraceFault::ActivationCheckpoint
            } else {
                TraceFault::ActivationEvent
            };
            proof {
                assert(af(a as int) == Some(f));
                lemma_first_fault_stays(af, (a + 1) as nat, activations@.len());
            }
            return fault(f);
        }
        assert(af(a as int) is None);
        a = a + 1;
    }
    Ok(())
}

/// Once a fault is found, it stays the first.
proof fn lemma_first_fault_stays(f: spec_fn(int) -> Option<TraceFault>, m: nat, n: nat)
    requires
        m <= n,
        first_fault(f, m) is Some,
    ensures
        first_fault(f, n) == first_fault(f, m),
    decreases n - m,
{
    if m < n {
        lemma_first_fault_stays(f, m, (n - 1) as nat);
    }
}

} // verus!
