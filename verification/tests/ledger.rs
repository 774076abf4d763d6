use workflowd::clock::{clamped_millis, now_millis, stored_millis};
use workflowd::ident::{id_from_bytes, random_id};
use workflowd::json::Json;
use workflowd::ledger::{
    admission_target, cancel_decision, cancel_names, cancellation_event, check_admit_request, check_capacity,
    check_envelope_linkage, check_plan_linkage, completion_decision, outcome_state_name, recovery_record,
    replay_admission, run_view_from_row, AdmitRunRequest, CancelStep, CompletionRecord, CompletionStep, Counters,
    PublicationHead, RecoveryRecord, RunRow,
};
use workflowd::run::{ActivationOutcome, DurableProgress, RunError, TimingView};
use workflowd::scheduler::{Dispatch, Scheduler, Signal, Wait};
use workflowd::trace::{verify_trace, ActivationView, CheckpointView, TraceEventView};

fn digest(c: char) -> String {
    format!("sha256:{}", c.to_string().repeat(64))
}

fn request() -> AdmitRunRequest {
    AdmitRunRequest {
        run_request_id: "request-1".into(),
        publication_event_id: "event-1".into(),
        revision_id: "revision-1".into(),
        plan_digest: digest('a'),
        captured_invocation: Json::Object(vec![("input".into(), Json::String("x".into()))]),
    }
}

fn head() -> PublicationHead {
    PublicationHead {
        event_id: "event-1".into(),
        revision_id: "revision-1".into(),
        revision_digest: digest('b'),
        plan_id: "plan-1".into(),
        plan_digest: digest('a'),
    }
}

fn durable(state: &str, checkpoint: u64, terminal: bool) -> DurableProgress {
    DurableProgress { state: state.into(), checkpoint_sequence: checkpoint, logical_order: 0, terminal, updated_at: 0 }
}

#[test]
fn admission_requests_are_checked_field_by_field() {
    assert_eq!(check_admit_request("wf-1", &request(), Some(100)).unwrap(), 4196);
    assert!(matches!(check_admit_request("bad id", &request(), Some(1)), Err(RunError::Invalid("workflow_id"))));
    let mut r = request();
    r.run_request_id = String::new();
    assert!(matches!(check_admit_request("wf-1", &r, Some(1)), Err(RunError::Invalid("run_request_id"))));
    let mut r = request();
    r.publication_event_id = "a b".into();
    assert!(matches!(check_admit_request("wf-1", &r, Some(1)), Err(RunError::Invalid("publication_event_id"))));
    let mut r = request();
    r.revision_id = "!".into();
    assert!(matches!(check_admit_request("wf-1", &r, Some(1)), Err(RunError::Invalid("revision_id"))));
    let mut r = request();
    r.plan_digest = "sha256:short".into();
    assert!(matches!(check_admit_request("wf-1", &r, Some(1)), Err(RunError::Invalid("plan_digest"))));
    let mut r = request();
    r.captured_invocation = Json::Object(vec![("api_key".into(), Json::String("x".into()))]);
    assert!(matches!(
        check_admit_request("wf-1", &r, Some(1)),
        Err(RunError::Invalid("captured_invocation_sensitive_field"))
    ));
    assert!(matches!(check_admit_request("wf-1", &request(), None), Err(RunError::Invalid("captured_invocation"))));
    assert!(matches!(
        check_admit_request("wf-1", &request(), Some(8193)),
        Err(RunError::TooLarge("captured_invocation"))
    ));
}

#[test]
fn admissions_replay_or_conflict_by_digest() {
    assert_eq!(replay_admission("run-1", &digest('c'), &digest('c')).unwrap(), "run-1");
    assert!(matches!(replay_admission("run-1", &digest('c'), &digest('d')), Err(RunError::RequestIdentityConflict)));
}

#[test]
fn admission_capacity_is_bounded() {
    assert!(check_capacity(63).is_ok());
    assert!(matches!(check_capacity(64), Err(RunError::AdmissionFull)));
}

#[test]
fn admissions_pin_the_current_publication() {
    let target = admission_target(Some(head()), &request()).unwrap();
    assert_eq!(target.plan_id, "plan-1");
    assert!(matches!(admission_target(None, &request()), Err(RunError::NoCurrentPublication)));
    let mut stale = head();
    stale.event_id = "event-2".into();
    assert!(matches!(admission_target(Some(stale), &request()), Err(RunError::StalePublication)));
    assert!(check_plan_linkage(&head(), &digest('a'), &digest('b')).is_ok());
    match check_plan_linkage(&head(), &digest('e'), &digest('b')) {
        Err(RunError::Integrity(m)) => assert_eq!(m, "pinned plan digest or revision linkage failed"),
        other => panic!("unexpected {other:?}"),
    }
    let envelope = Json::Object(vec![
        ("event_id".into(), Json::String("event-1".into())),
        ("plan_digest".into(), Json::String(digest('a'))),
        ("revision_digest".into(), Json::String(digest('b'))),
        ("target_revision_id".into(), Json::String("revision-1".into())),
    ]);
    assert!(check_envelope_linkage(&head(), &envelope).is_ok());
    match check_envelope_linkage(&head(), &Json::Null) {
        Err(RunError::Integrity(m)) => assert_eq!(m, "current publication event linkage failed"),
        other => panic!("unexpected {other:?}"),
    }
}

#[test]
fn cancellations_are_recorded_once() {
    let queued = durable("queued", 1, false);
    assert_eq!(
        cancel_decision(None, None, "cancel-1", &digest('a'), &queued, false),
        CancelStep::Record { checkpoint: 2, terminal: true }
    );
    assert_eq!(
        cancel_decision(None, None, "cancel-1", &digest('a'), &queued, true),
        CancelStep::Record { checkpoint: 2, terminal: false }
    );
    let waiting = durable("cancel_requested", 2, false);
    assert_eq!(
        cancel_decision(Some("cancel-1"), Some(&digest('a')), "cancel-1", &digest('a'), &waiting, true),
        CancelStep::AlreadyRequested
    );
    assert_eq!(
        cancel_decision(Some("cancel-1"), Some(&digest('a')), "cancel-1", &digest('b'), &waiting, true),
        CancelStep::Conflict
    );
    let done = durable("cancelled", 2, true);
    assert_eq!(
        cancel_decision(Some("cancel-1"), Some(&digest('a')), "cancel-1", &digest('a'), &done, false),
        CancelStep::AlreadyTerminal { accepted: true }
    );
    assert_eq!(
        cancel_decision(Some("cancel-1"), Some(&digest('a')), "cancel-2", &digest('a'), &done, false),
        CancelStep::AlreadyTerminal { accepted: false }
    );
    assert_eq!(cancel_names(true), ("cancelled", "run_cancelled_before_activation"));
    assert_eq!(cancel_names(false), ("cancel_requested", "cancellation_requested"));
    assert_eq!(cancellation_event(true), "terminal");
    assert_eq!(cancellation_event(false), "durable");
}

#[test]
fn a_pending_cancellation_wins_over_a_late_outcome() {
    let counters = Counters { attempted: 1, succeeded: 1, cancelled: 0, failed: 0, output_count: 3 };
    assert_eq!(
        completion_decision(&durable("queued", 1, false), ActivationOutcome::Success, counters),
        CompletionStep::Record(CompletionRecord {
            checkpoint: 2,
            outcome: ActivationOutcome::Success,
            counters,
            cancel_won: false
        })
    );
    assert_eq!(
        completion_decision(&durable("cancel_requested", 2, false), ActivationOutcome::Success, counters),
        CompletionStep::Record(CompletionRecord {
            checkpoint: 3,
            outcome: ActivationOutcome::Cancelled,
            counters: Counters { attempted: 1, succeeded: 0, cancelled: 1, failed: 0, output_count: 0 },
            cancel_won: true
        })
    );
    assert_eq!(
        completion_decision(&durable("succeeded", 2, true), ActivationOutcome::Success, counters),
        CompletionStep::AlreadyTerminal
    );
    assert_eq!(outcome_state_name(ActivationOutcome::Success), "succeeded");
    assert_eq!(outcome_state_name(ActivationOutcome::Cancelled), "cancelled");
    assert_eq!(outcome_state_name(ActivationOutcome::PermanentFailure), "failed");
}

#[test]
fn recovered_cancellations_advance_one_checkpoint() {
    let mut d = durable("cancel_requested", 4, false);
    d.logical_order = 2;
    assert_eq!(recovery_record(&d), RecoveryRecord { checkpoint: 5, next_logical_order: 3 });
}

#[test]
fn run_rows_read_back_as_views() {
    let row = RunRow {
        run_id: "run-1".into(),
        run_request_id: "request-1".into(),
        workflow_id: "wf-1".into(),
        publication_event_id: "event-1".into(),
        revision_id: "revision-1".into(),
        revision_digest: digest('b'),
        plan_id: "plan-1".into(),
        plan_digest: digest('a'),
        state: "succeeded".into(),
        checkpoint_sequence: 3,
        logical_order: 1,
        attempted: 1,
        succeeded: 1,
        cancelled: 0,
        failed: 0,
        output_count: 2,
        correctness_digest: Some(digest('c')),
        digest_complete: 1,
        admitted_at: 10,
        started_at: Some(11),
        updated_at: 12,
        terminal_at: Some(12),
    };
    let view = run_view_from_row(row, "canon/1", "sha256");
    assert_eq!(view.schema, "canopy.run/v1alpha1");
    assert!(view.durable.terminal);
    assert_eq!(view.durable.checkpoint_sequence, 3);
    assert!(view.correctness.complete);
    assert_eq!(view.correctness.output_count, 2);
    assert_eq!(view.correctness.canonicalization, "canon/1");
    assert!(view.live.is_none());
    assert_eq!(view.queue_profile.maximum_hot_runs, 16);
}

#[test]
fn identifiers_are_prefixed_url_safe_base64() {
    let id = id_from_bytes("run", &[0u8; 16]);
    assert_eq!(id, "run-AAAAAAAAAAAAAAAAAAAAAA");
    let id = id_from_bytes("boot", &[0xfb, 0xff]);
    assert_eq!(id, "boot--_8");
    let fresh = random_id("run").unwrap();
    assert!(fresh.starts_with("run-"));
    assert_eq!(fresh.len(), 4 + 22);
    assert!(fresh[4..].chars().all(|c| c.is_ascii_alphanumeric() || c == '-' || c == '_'));
    assert_ne!(random_id("run").unwrap(), fresh);
}

#[test]
fn the_scheduler_waits_dispatches_and_completes() {
    let mut s = Scheduler::new();
    assert_eq!(s.wait(false, 0), Wait::Signal);
    s.on_signal(Signal::Wake, 1000);
    assert!(!s.scan_due(1249));
    assert!(s.scan_due(1250));
    assert_eq!(s.wait(false, 1200), Wait::SignalFor(50));
    assert_eq!(s.wait(false, 1300), Wait::SignalFor(1));
    s.on_signal(Signal::Wake, 1100);
    assert!(s.scan_due(1250));
    let queued: Vec<String> = vec!["run-a".into(), "run-b".into()];
    assert_eq!(s.next_candidate(&queued), Some(0));
    assert!(s.has_room());
    s.on_dispatched("run-a");
    assert!(s.is_active("run-a"));
    assert_eq!(s.next_candidate(&queued), Some(1));
    s.on_dispatched("run-b");
    assert_eq!(s.next_candidate(&queued), None);
    s.on_scan_exhausted();
    assert!(!s.scan_due(5000));
    assert_eq!(s.wait(false, 2000), Wait::Completion(10));
    s.on_completed("run-a", 3000);
    assert!(!s.is_active("run-a"));
    assert!(s.is_active("run-b"));
    assert!(s.scan_due(3000));
    s.on_completed("run-b", 3001);
    assert!(!s.has_active());
    assert_eq!(s.wait(true, 3001), Wait::Continue);
    s.on_signal(Signal::Stop, 4000);
    assert!(s.is_stopping());
}

#[test]
fn the_scheduler_holds_at_most_sixteen_active_runs() {
    let mut s = Scheduler::new();
    for i in 0..16 {
        assert!(s.has_room());
        s.on_dispatched(&format!("run-{i}"));
    }
    assert!(!s.has_room());
    s.on_completed("run-3", 0);
    assert!(s.has_room());
    s.on_signal(Signal::Disconnected, 1);
    assert!(s.is_stopping());
}

#[test]
fn completing_a_fresh_dispatch_restores_the_active_runs() {
    let mut s = Scheduler::new();
    s.on_dispatched("run-a");
    s.on_dispatched("run-b");
    s.on_dispatched("run-c");
    s.on_completed("run-c", 10);
    assert!(s.is_active("run-a"));
    assert!(s.is_active("run-b"));
    assert!(!s.is_active("run-c"));
    let queued: Vec<String> = vec!["run-a".into(), "run-b".into(), "run-c".into()];
    assert_eq!(s.next_candidate(&queued), Some(2));
}

fn event(sequence: u64, previous: &str, hash: &str) -> TraceEventView {
    TraceEventView {
        event_sequence: sequence,
        logical_order: None,
        checkpoint_sequence: 1,
        phase: "control".into(),
        event_type: "run_admitted".into(),
        payload: Json::Object(vec![]),
        previous_hash: previous.into(),
        event_hash: hash.into(),
        occurred_at: 0,
    }
}

fn checkpoint(sequence: u64, head: &str, hash: &str) -> CheckpointView {
    CheckpointView {
        sequence,
        state: "queued".into(),
        logical_order: 0,
        snapshot: Json::Object(vec![]),
        trace_head_hash: head.into(),
        checkpoint_hash: hash.into(),
        committed_at: 0,
    }
}

fn integrity(r: Result<(), RunError>) -> String {
    match r {
        Err(RunError::Integrity(m)) => m,
        other => panic!("unexpected {other:?}"),
    }
}

#[test]
fn traces_are_checked_link_by_link() {
    let events = vec![event(1, "genesis", "h1")];
    let checkpoints = vec![checkpoint(1, "h1", "c1")];
    let ok = verify_trace(&events, &checkpoints, &vec![], "h1", &vec!["h1".into()], &vec!["c1".into()], &vec![], &vec![]);
    assert!(ok.is_ok());
    assert!(verify_trace(&vec![], &vec![], &vec![], "genesis", &vec![], &vec![], &vec![], &vec![]).is_ok());
    let gap = vec![event(2, "genesis", "h1")];
    assert_eq!(
        integrity(verify_trace(&gap, &vec![], &vec![], "h1", &vec!["h1".into()], &vec![], &vec![], &vec![])),
        "Causal Trace event sequence is discontinuous"
    );
    let broken = vec![event(1, "other", "h1")];
    assert_eq!(
        integrity(verify_trace(&broken, &vec![], &vec![], "h1", &vec!["h1".into()], &vec![], &vec![], &vec![])),
        "Causal Trace chain is discontinuous"
    );
    assert_eq!(
        integrity(verify_trace(&events, &vec![], &vec![], "h1", &vec!["hx".into()], &vec![], &vec![], &vec![])),
        "Causal Trace event hash failed"
    );
    assert_eq!(
        integrity(verify_trace(&events, &vec![], &vec![], "h9", &vec!["h1".into()], &vec![], &vec![], &vec![])),
        "Causal Trace head does not match the Run projection"
    );
    assert_eq!(
        integrity(verify_trace(&events, &checkpoints, &vec![], "h1", &vec!["h1".into()], &vec!["cx".into()], &vec![], &vec![])),
        "Durable Checkpoint hash failed"
    );
    let unavailable = vec![checkpoint(1, "hz", "c1")];
    assert_eq!(
        integrity(verify_trace(&events, &unavailable, &vec![], "h1", &vec!["h1".into()], &vec!["c1".into()], &vec![], &vec![])),
        "Durable Checkpoint trace head is unavailable"
    );
    let activation = ActivationView {
        activation_id: "act-1".into(),
        node_instance_id: "a".into(),
        logical_order: 1,
        attempt: 1,
        outcome: "success".into(),
        input: Json::Null,
        output: None,
        input_digest: "d-in".into(),
        output_digest: None,
        provenance: Json::Null,
        failure: None,
        checkpoint_sequence: 1,
        timing: TimingView { started_at: 0, completed_at: 1, elapsed_micros: 1 },
    };
    assert_eq!(
        integrity(verify_trace(&events, &checkpoints, &vec![activation], "h1", &vec!["h1".into()], &vec!["c1".into()], &vec!["d-other".into()], &vec![None])),
        "Activation input digest failed"
    );
}

#[test]
fn clock_readings_convert_to_store_milliseconds() {
    assert_eq!(clamped_millis(Some(1_700_000_000_000)), 1_700_000_000_000);
    assert_eq!(clamped_millis(Some(u128::MAX)), i64::MAX);
    assert_eq!(clamped_millis(None), 0);
    assert_eq!(stored_millis(Some(42)), 42);
    assert_eq!(stored_millis(Some(1u128 << 64)), 0);
    assert_eq!(stored_millis(Some((1u128 << 63) + 5)), i64::MIN + 5);
    assert_eq!(stored_millis(None), 0);
    assert!(now_millis() > 0);
}

#[test]
fn only_a_still_queued_run_with_its_bytes_reserved_is_sent() {
    let mut s = Scheduler::new();
    assert_eq!(s.dispatch("run-a", "queued", true, true), Dispatch::Send);
    assert_eq!(s.dispatch("run-a", "cancelled", true, true), Dispatch::Skip);
    assert_eq!(s.dispatch("run-a", "", true, true), Dispatch::Skip);
    assert_eq!(s.dispatch("run-a", "queued", false, true), Dispatch::Stop);
    assert_eq!(s.dispatch("run-a", "queued", true, false), Dispatch::Stop);
    s.on_dispatched("run-a");
    assert_eq!(s.dispatch("run-a", "queued", true, true), Dispatch::Skip);
    for i in 0..15 {
        s.on_dispatched(&format!("run-{i}"));
    }
    assert_eq!(s.dispatch("run-z", "queued", true, true), Dispatch::Stop);
}

#[test]
fn identifiers_use_unpadded_url_safe_base64() {
    assert_eq!(id_from_bytes("x", b"Man"), "x-TWFu");
    assert_eq!(id_from_bytes("x", b"Ma"), "x-TWE");
    assert_eq!(id_from_bytes("x", b"M"), "x-TQ");
    assert_eq!(id_from_bytes("x", &[0xfb, 0xff, 0xbf]), "x--_-_");
    assert_eq!(id_from_bytes("x", &[]), "x-");
    assert_eq!(id_from_bytes("run", &[0u8; 16]), "run-AAAAAAAAAAAAAAAAAAAAAA");
}
