//! The Run ledger's decisions: which admission requests are accepted, replayed
//! or refused, what a cancellation records, what a completed Activation
//! commits, and how a Run row reads back.
//!
//! The service reads the rows these decisions need inside one immediate
//! transaction, asks here what to do, and writes what the answer says.

use crate::invocation;
use crate::json::{self, Json, JsonV};
use crate::run::{self, ActivationOutcome, CorrectnessView, DurableProgress, RunError, RunView};
use crate::text;
use vstd::prelude::*;

verus! {

/// A request to admit one Run of the current publication of a workflow.
#[derive(Debug)]
pub struct AdmitRunRequest {
    pub run_request_id: String,
    pub publication_event_id: String,
    pub revision_id: String,
    pub plan_digest: String,
    pub captured_invocation: Json,
}

/// The field an admission request is refused for, if any: the first of the
/// workflow identifier, the request, publication event and revision
/// identifiers, the plan digest, and a credential-named field in the captured
/// invocation.
pub open spec fn admit_request_refusal(workflow_id: Seq<char>, request: AdmitRunRequest) -> Option<Seq<char>> {
    if !run::is_run_identifier(workflow_id) {
        Some("workflow_id"@)
    } else if !run::is_run_identifier(request.run_request_id@) {
        Some("run_request_id"@)
    } else if !run::is_run_identifier(request.publication_event_id@) {
        Some("publication_event_id"@)
    } else if !run::is_run_identifier(request.revision_id@) {
        Some("revision_id"@)
    } else if !run::is_tagged_digest(request.plan_digest@) {
        Some("plan_digest"@)
    } else if invocation::has_sensitive_field(request.captured_invocation@) {
        Some("captured_invocation_sensitive_field"@)
    } else {
        None
    }
}

/// Checks an admission request before it reaches the writer, given the
/// length of the captured invocation's canonical encoding (`None` when it
/// could not be encoded), and returns the writer-queue weight of the
/// admission: that length plus 4 KiB, saturating.
pub fn check_admit_request(workflow_id: &str, request: &AdmitRunRequest, invocation_len: Option<usize>) -> (r:
    Result<usize, RunError>)
    ensures
        match admit_request_refusal(workflow_id@, *request) {
            Some(f) => r matches Err(RunError::Invalid(g)) && g@ == f,
            None => match invocation_len {
                None => r matches Err(RunError::Invalid(g)) && g@ == "captured_invocation"@,
                Some(n) => if n > run::MAX_INVOCATION_BYTES {
                    r matches Err(RunError::TooLarge(g)) && g@ == "captured_invocation"@
                } else {
                    r == Ok::<usize, RunError>((n + 4096) as usize)
                },
            },
        },
{
    run::validate_identifier(workflow_id, "workflow_id")?;
    run::validate_identifier(request.run_request_id.as_str(), "run_request_id")?;
    run::validate_identifier(request.publication_event_id.as_str(), "publication_event_id")?;
    run::validate_identifier(request.revision_id.as_str(), "revision_id")?;
    run::validate_tagged_digest(request.plan_digest.as_str(), "plan_digest")?;
    invocation::reject_sensitive_keys(&request.captured_invocation)?;
    match invocation_len {
        None => Err(RunError::Invalid("captured_invocation")),
        Some(n) => invocation::invocation_weight(n),
    }
}

/// An earlier Run with the same request identifier: `Ok` with its identifier
/// when it was admitted for the same request digest (the admission is
/// replayed), a conflict otherwise.
pub fn replay_admission(run_id: &str, stored_digest: &str, request_digest: &str) -> (r: Result<String, RunError>)
    ensures
        stored_digest@ == request_digest@ ==> (r matches Ok(s) && s@ == run_id@),
        stored_digest@ != request_digest@ ==> r matches Err(RunError::RequestIdentityConflict),
{
    if text::str_eq(stored_digest, request_digest) {
        Ok(text::owned(run_id))
    } else {
        Err(RunError::RequestIdentityConflict)
    }
}

/// Admission is refused while `MAX_NONTERMINAL_RUNS` Runs are queued or
/// waiting for their cancellation.
pub fn check_capacity(nonterminal: i64) -> (r: Result<(), RunError>)
    ensures
        nonterminal >= run::MAX_NONTERMINAL_RUNS ==> r matches Err(RunError::AdmissionFull),
        nonterminal < run::MAX_NONTERMINAL_RUNS ==> r is Ok,
{
    if nonterminal >= 64 {
        Err(RunError::AdmissionFull)
    } else {
        Ok(())
    }
}

/// The current publication of a workflow, as its head row joins it.
#[derive(Debug)]
pub struct PublicationHead {
    pub event_id: String,
    pub revision_id: String,
    pub revision_digest: String,
    pub plan_id: String,
    pub plan_digest: String,
}

/// The publication an admission is pinned to: refused when the workflow has
/// no current publication, or when the request names another event, revision
/// or plan than the current one.
pub fn admission_target(head: Option<PublicationHead>, request: &AdmitRunRequest) -> (r: Result<
    PublicationHead,
    RunError,
>)
    ensures
        match head {
            None => r matches Err(RunError::NoCurrentPublication),
            Some(h) => if h.event_id@ == request.publication_event_id@ && h.revision_id@ == request.revision_id@
                && h.plan_digest@ == request.plan_digest@ {
                r == Ok::<PublicationHead, RunError>(h)
            } else {
                r matches Err(RunError::StalePublication)
            },
        },
{
    match head {
        None => Err(RunError::NoCurrentPublication),
        Some(h) => {
            if text::str_eq(h.event_id.as_str(), request.publication_event_id.as_str()) && text::str_eq(
                h.revision_id.as_str(),
                request.revision_id.as_str(),
            ) && text::str_eq(h.plan_digest.as_str(), request.plan_digest.as_str()) {
                Ok(h)
            } else {
                Err(RunError::StalePublication)
            }
        },
    }
}

/// The stored plan belongs to the head: its recomputed digest is the pinned
/// plan digest and it names the head's revision digest.
pub fn check_plan_linkage(head: &PublicationHead, computed_plan_digest: &str, plan_revision_digest: &str) -> (r:
    Result<(), RunError>)
    ensures
        r is Ok <==> (computed_plan_digest@ == head.plan_digest@ && plan_revision_digest@ == head.revision_digest@),
        r matches Err(e) ==> (e matches RunError::Integrity(m) && m@ == "pinned plan digest or revision linkage failed"@),
{
    if text::str_eq(computed_plan_digest, head.plan_digest.as_str()) && text::str_eq(
        plan_revision_digest,
        head.revision_digest.as_str(),
    ) {
        Ok(())
    } else {
        Err(RunError::Integrity(text::owned("pinned plan digest or revision linkage failed")))
    }
}

/// The member `key` of an envelope is the text `value`.
pub open spec fn names(envelope: JsonV, key: Seq<char>, value: Seq<char>) -> bool {
    json::field(envelope, key) == JsonV::Str(value)
}

/// The head's publication event envelope names the head's event, revision,
/// revision digest and plan digest.
pub fn check_envelope_linkage(head: &PublicationHead, envelope: &Json) -> (r: Result<(), RunError>)
    ensures
        r is Ok <==> ({
            &&& names(envelope@, "event_id"@, head.event_id@)
            &&& names(envelope@, "target_revision_id"@, head.revision_id@)
            &&& names(envelope@, "revision_digest"@, head.revision_digest@)
            &&& names(envelope@, "plan_digest"@, head.plan_digest@)
        }),
        r matches Err(e) ==> (e matches RunError::Integrity(m) && m@ == "current publication event linkage failed"@),
{
    let ok = names_text(envelope, "event_id", head.event_id.as_str()) && names_text(
        envelope,
        "target_revision_id",
        head.revision_id.as_str(),
    ) && names_text(envelope, "revision_digest", head.revision_digest.as_str()) && names_text(
        envelope,
        "plan_digest",
        head.plan_digest.as_str(),
    );
    if ok {
        Ok(())
    } else {
        Err(RunError::Integrity(text::owned("current publication event linkage failed")))
    }
}

/// Whether member `key` of `envelope` is the text `value`.
fn names_text(envelope: &Json, key: &str, value: &str) -> (r: bool)
    ensures
        r == names(envelope@, key@, value@),
{
    let null = Json::Null;
    match crate::policy::field_of(envelope, key, &null) {
        Json::String(s) => text::str_eq(s.as_str(), value),
        _ => false,
    }
}

/// What a cancellation request does.
#[derive(Debug, PartialEq, Eq)]
pub enum CancelStep {
    /// The request identifier was used before with another request.
    Conflict,
    /// The Run had already ended; `accepted` when this very request ended it.
    AlreadyTerminal { accepted: bool },
    /// The Run already waits for its cancellation.
    AlreadyRequested,
    /// Record the cancellation at checkpoint `checkpoint`: the Run is
    /// cancelled at once when no Activation of it is running (`terminal`),
    /// else it waits for the running one.
    Record { checkpoint: u64, terminal: bool },
}

/// The state a recorded cancellation leaves the Run in.
pub open spec fn cancel_state(terminal: bool) -> Seq<char> {
    if terminal {
        "cancelled"@
    } else {
        "cancel_requested"@
    }
}

/// The trace event type of a recorded cancellation.
pub open spec fn cancel_event_type(terminal: bool) -> Seq<char> {
    if terminal {
        "run_cancelled_before_activation"@
    } else {
        "cancellation_requested"@
    }
}

/// Decides a cancellation request against the Run's stored cancellation
/// (identifier and digest of the request that was recorded, if any) and its
/// durable progress; `active` tells whether an Activation of the Run is
/// running.
pub fn cancel_decision(
    stored_request_id: Option<&str>,
    stored_digest: Option<&str>,
    request_id: &str,
    request_digest: &str,
    durable: &DurableProgress,
    active: bool,
) -> (step: CancelStep)
    requires
        durable.checkpoint_sequence < u64::MAX,
    ensures
        ({
            let same_id = stored_request_id matches Some(s) && s@ == request_id@;
            let same_digest = stored_digest matches Some(d) && d@ == request_digest@;
            if same_id && !same_digest {
                step == CancelStep::Conflict
            } else if durable.terminal {
                step == CancelStep::AlreadyTerminal { accepted: same_id }
            } else if durable.state@ == "cancel_requested"@ {
                step == CancelStep::AlreadyRequested
            } else {
                step == CancelStep::Record { checkpoint: (durable.checkpoint_sequence + 1) as u64, terminal: !active }
            }
        }),
{
    let same_id = match stored_request_id {
        Some(s) => text::str_eq(s, request_id),
        None => false,
    };
    let same_digest = match stored_digest {
        Some(d) => text::str_eq(d, request_digest),
        None => false,
    };
    if same_id && !same_digest {
        CancelStep::Conflict
    } else if durable.terminal {
        CancelStep::AlreadyTerminal { accepted: same_id }
    } else if text::str_eq(durable.state.as_str(), "cancel_requested") {
        proof {
            reveal_strlit("cancel_requested");
        }
        CancelStep::AlreadyRequested
    } else {
        proof {
            reveal_strlit("cancel_requested");
        }
        CancelStep::Record { checkpoint: durable.checkpoint_sequence + 1, terminal: !active }
    }
}

/// The state and trace event type a recorded cancellation writes.
pub fn cancel_names(terminal: bool) -> (r: (&'static str, &'static str))
    ensures
        r.0@ == cancel_state(terminal),
        r.1@ == cancel_event_type(terminal),
{
    if terminal {
        ("cancelled", "run_cancelled_before_activation")
    } else {
        ("cancel_requested", "cancellation_requested")
    }
}

/// The stream event an accepted cancellation announces: `terminal` when the
/// Run ended, `durable` otherwise.
pub fn cancellation_event(terminal: bool) -> (e: &'static str)
    ensures
        e@ == if terminal { "terminal"@ } else { "durable"@ },
{
    if terminal {
        "terminal"
    } else {
        "durable"
    }
}

/// The Activation counters of a Run.
#[derive(Clone, Copy, Debug, PartialEq, Eq)]
pub struct Counters {
    pub attempted: u64,
    pub succeeded: u64,
    pub cancelled: u64,
    pub failed: u64,
    pub output_count: u64,
}

/// What a completed Activation commits.
#[derive(Debug, PartialEq, Eq)]
pub struct CompletionRecord {
    /// The checkpoint the completion is committed at.
    pub checkpoint: u64,
    /// The outcome recorded.
    pub outcome: ActivationOutcome,
    /// The counters recorded.
    pub counters: Counters,
    /// Whether a cancellation won over the Activation's own outcome; its
    /// output, failure and correctness digest are then dropped, the digest
    /// of a cancelled Run recorded, and its own outcome kept as provenance.
    pub cancel_won: bool,
}

/// What committing a completed Activation does.
#[derive(Debug, PartialEq, Eq)]
pub enum CompletionStep {
    /// The Run had already ended: nothing is written.
    AlreadyTerminal,
    /// Commit this record.
    Record(CompletionRecord),
}

/// The terminal state an outcome leaves a Run in.
pub open spec fn outcome_state(outcome: ActivationOutcome) -> Seq<char> {
    match outcome {
        ActivationOutcome::Success => "succeeded"@,
        ActivationOutcome::Cancelled => "cancelled"@,
        ActivationOutcome::PermanentFailure => "failed"@,
    }
}

/// Decides what a completed Activation commits, given the Run's durable
/// progress: nothing when the Run already ended; otherwise the next
/// checkpoint, where a pending cancellation wins over the Activation's own
/// outcome (recorded as cancelled, with nothing succeeded, failed or
/// output, one cancelled).
pub fn completion_decision(durable: &DurableProgress, outcome: ActivationOutcome, counters: Counters) -> (step:
    CompletionStep)
    requires
        durable.checkpoint_sequence < u64::MAX,
    ensures
        durable.terminal ==> step == CompletionStep::AlreadyTerminal,
        !durable.terminal ==> ({
            let cancel_won = durable.state@ == "cancel_requested"@;
            step == CompletionStep::Record(
                CompletionRecord {
                    checkpoint: (durable.checkpoint_sequence + 1) as u64,
                    outcome: if cancel_won { ActivationOutcome::Cancelled } else { outcome },
                    counters: if cancel_won {
                        Counters { succeeded: 0, failed: 0, cancelled: 1, output_count: 0, ..counters }
                    } else {
                        counters
                    },
                    cancel_won,
                },
            )
        }),
{
    if durable.terminal {
        return CompletionStep::AlreadyTerminal;
    }
    let cancel_won = text::str_eq(durable.state.as_str(), "cancel_requested");
    proof {
        reveal_strlit("cancel_requested");
    }
    let record = if cancel_won {
        CompletionRecord {
            checkpoint: durable.checkpoint_sequence + 1,
            outcome: ActivationOutcome::Cancelled,
            counters: Counters {
                attempted: counters.attempted,
                succeeded: 0,
                cancelled: 1,
                failed: 0,
                output_count: 0,
            },
            cancel_won,
        }
    } else {
        CompletionRecord { checkpoint: durable.checkpoint_sequence + 1, outcome, counters, cancel_won }
    };
    CompletionStep::Record(record)
}

/// The terminal state `outcome` leaves a Run in.
pub fn outcome_state_name(outcome: ActivationOutcome) -> (s: &'static str)
    ensures
        s@ == outcome_state(outcome),
{
    match outcome {
        ActivationOutcome::Success => "succeeded",
        ActivationOutcome::Cancelled => "cancelled",
        ActivationOutcome::PermanentFailure => "failed",
    }
}

/// What finishing a cancellation that was pending when the daemon stopped
/// commits: the next checkpoint, the `cancelled` state, and the logical
/// order to resume from.
#[derive(Debug, PartialEq, Eq)]
pub struct RecoveryRecord {
    pub checkpoint: u64,
    pub next_logical_order: u64,
}

/// The record that finishes a recovered cancellation of a Run at `durable`.
pub fn recovery_record(durable: &DurableProgress) -> (r: RecoveryRecord)
    requires
        durable.checkpoint_sequence < u64::MAX,
        durable.logical_order < u64::MAX,
    ensures
        r.checkpoint == durable.checkpoint_sequence + 1,
        r.next_logical_order == durable.logical_order + 1,
{
    RecoveryRecord {
        checkpoint: durable.checkpoint_sequence + 1,
        next_logical_order: durable.logical_order + 1,
    }
}

/// One row of the Run projection, as stored.
#[derive(Debug)]
pub struct RunRow {
    pub run_id: String,
    pub run_request_id: String,
    pub workflow_id: String,
    pub publication_event_id: String,
    pub revision_id: String,
    pub revision_digest: String,
    pub plan_id: String,
    pub plan_digest: String,
    pub state: String,
    pub checkpoint_sequence: i64,
    pub logical_order: i64,
    pub attempted: i64,
    pub succeeded: i64,
    pub cancelled: i64,
    pub failed: i64,
    pub output_count: i64,
    pub correctness_digest: Option<String>,
    pub digest_complete: i64,
    pub admitted_at: i64,
    pub started_at: Option<i64>,
    pub updated_at: i64,
    pub terminal_at: Option<i64>,
}

/// A stored count read back as the unsigned count it was written from.
pub open spec fn unsigned(v: i64) -> u64 {
    v as u64
}

/// Reads a stored count back: the bits of the signed column as unsigned.
fn as_count(v: i64) -> (r: u64)
    ensures
        r == unsigned(v),
{
    v as u64
}

/// The public view of a Run row, without live progress: the row's
/// identities and counts, its state and whether that state is terminal, the
/// canonicalization and digest algorithm names, and the queue profile.
pub fn run_view_from_row(row: RunRow, canonicalization: &str, algorithm: &str) -> (v: RunView)
    ensures
        v.schema@ == run::RUN_SCHEMA@,
        v.run_id@ == row.run_id@,
        v.run_request_id@ == row.run_request_id@,
        v.workflow_id@ == row.workflow_id@,
        v.publication_event_id@ == row.publication_event_id@,
        v.revision_id@ == row.revision_id@,
        v.revision_digest@ == row.revision_digest@,
        v.plan_id@ == row.plan_id@,
        v.plan_digest@ == row.plan_digest@,
        v.durable.state@ == row.state@,
        v.durable.terminal == run::is_terminal_state(row.state@),
        v.durable.checkpoint_sequence == unsigned(row.checkpoint_sequence),
        v.durable.logical_order == unsigned(row.logical_order),
        v.durable.updated_at == row.updated_at,
        v.live is None,
        v.correctness.canonicalization@ == canonicalization@,
        v.correctness.algorithm@ == algorithm@,
        v.correctness.digest == row.correctness_digest,
        v.correctness.complete == (row.digest_complete == 1),
        v.correctness.attempted == unsigned(row.attempted),
        v.correctness.succeeded == unsigned(row.succeeded),
        v.correctness.cancelled == unsigned(row.cancelled),
        v.correctness.failed == unsigned(row.failed),
        v.correctness.output_count == unsigned(row.output_count),
        v.admitted_at == row.admitted_at,
        v.started_at == row.started_at,
        v.terminal_at == row.terminal_at,
        v.queue_profile.profile@ == run::QUEUE_PROFILE@,
        v.queue_profile.maximum_nonterminal_runs == run::MAX_NONTERMINAL_RUNS,
        v.queue_profile.maximum_hot_runs == run::MAX_HOT_RUNS,
{
    let terminal = run::is_terminal(row.state.as_str());
    RunView {
        schema: text::owned(run::RUN_SCHEMA),
        run_id: row.run_id,
        run_request_id: row.run_request_id,
        workflow_id: row.workflow_id,
        publication_event_id: row.publication_event_id,
        revision_id: row.revision_id,
        revision_digest: row.revision_digest,
        plan_id: row.plan_id,
        plan_digest: row.plan_digest,
        durable: DurableProgress {
            state: row.state,
            checkpoint_sequence: as_count(row.checkpoint_sequence),
            logical_order: as_count(row.logical_order),
            terminal,
            updated_at: row.updated_at,
        },
        live: None,
        correctness: CorrectnessView {
            canonicalization: text::owned(canonicalization),
            algorithm: text::owned(algorithm),
            digest: row.correctness_digest,
            complete: row.digest_complete == 1,
            attempted: as_count(row.attempted),
            succeeded: as_count(row.succeeded),
            cancelled: as_count(row.cancelled),
            failed: as_count(row.failed),
            output_count: as_count(row.output_count),
        },
        admitted_at: row.admitted_at,
        started_at: row.started_at,
        terminal_at: row.terminal_at,
        queue_profile: run::queue_profile(),
    }
}

} // verus!
