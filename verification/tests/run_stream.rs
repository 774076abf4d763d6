use workflowd::budget::ByteBudget;
use workflowd::hub::LiveHub;
use workflowd::invocation::{invocation_weight, reject_sensitive_keys};
use workflowd::json::{Json, JsonNumber, NumberKind};
use workflowd::live::{opening_frames, LiveRun, Replay};
use workflowd::run::{
    bounded_stream_data, cursor, frame_bytes, is_terminal, outcome_name, parse_cursor, queue_profile,
    result_weight, candidate_weight, validate_identifier, validate_tagged_digest, ActivationOutcome, RunError,
    StreamFrame, SUBSCRIBER_QUEUE_COUNT,
};

fn to_json(v: &serde_json::Value) -> Json {
    match v {
        serde_json::Value::Null => Json::Null,
        serde_json::Value::Bool(b) => Json::Bool(*b),
        serde_json::Value::Number(n) => {
            let f = n.as_f64().unwrap_or(0.0);
            let kind = if let Some(u) = n.as_u64() {
                NumberKind::PosInt(u)
            } else if let Some(i) = n.as_i64() {
                NumberKind::NegInt(i)
            } else {
                NumberKind::Float
            };
            Json::Number(JsonNumber { kind, float_bits: f.to_bits(), text: n.to_string(), float_text: format!("{}", f) })
        }
        serde_json::Value::String(s) => Json::String(s.clone()),
        serde_json::Value::Array(items) => Json::Array(items.iter().map(to_json).collect()),
        serde_json::Value::Object(map) => {
            Json::Object(map.iter().map(|(k, v)| (k.clone(), to_json(v))).collect())
        }
    }
}

fn parse(text: &str) -> Json {
    to_json(&serde_json::from_str(text).unwrap())
}

#[test]
fn byte_budget_releases_capacity() {
    let mut budget = ByteBudget::new(10);
    let first = budget.reserve(8).unwrap();
    assert!(budget.reserve(3).is_none());
    budget.release(first);
    assert!(budget.reserve(10).is_some());
}

#[test]
fn cursor_rejects_other_shapes() {
    let value = cursor("run-1", 2, "boot-1", 3);
    let parsed = parse_cursor(&value).unwrap();
    assert_eq!(parsed.run_id, "run-1");
    assert_eq!(parsed.durable_sequence, 2);
    assert_eq!(parsed.live_sequence, 3);
    assert!(parse_cursor("not-a-cursor").is_none());
}

#[test]
fn rejects_obvious_secret_fields_from_retained_trace() {
    assert!(reject_sensitive_keys(&parse(r#"{"password": "do-not-store"}"#)).is_err());
    assert!(reject_sensitive_keys(&parse(r#"{"service_access_token": "never"}"#)).is_err());
    assert!(reject_sensitive_keys(&parse(r#"{"safe": {"manual": true, "token_count": 3}}"#)).is_ok());
}

#[test]
fn replay_larger_than_one_mailbox_becomes_gap_and_resync() {
    let mut hub = LiveHub::new().unwrap();
    let run_id = "run-mailbox-bound";
    for sequence in 0..=SUBSCRIBER_QUEUE_COUNT {
        let mut payload: serde_json::Value =
            serde_json::from_str(r#"{ "state": "running", "durability": "speculative", "sequence": 0 }"#).unwrap();
        payload["sequence"] = serde_json::Value::from(sequence);
        let data = serde_json::to_string(&payload).unwrap();
        assert!(hub.emit(run_id, 1, "live", data, &to_json(&payload)).is_some());
    }
    let initial = cursor(run_id, 1, hub.boot_epoch(), 0);
    let plan = hub.subscribe(run_id, Some(&initial), 1).unwrap();
    assert!(matches!(plan.replay, Replay::GapResync));
    let mut frames = opening_frames(plan, "snapshot".into(), "gap-data".into(), "resync-data".into()).into_iter();
    assert_eq!(frames.next().unwrap().event, "gap");
    assert_eq!(frames.next().unwrap().event, "resync");
    assert!(frames.next().is_none());
}

#[test]
fn cursor_text_has_the_documented_shape() {
    assert_eq!(cursor("run-7", 12, "boot-x", 0), "v1.run-7.12.boot-x.0");
    assert_eq!(cursor("r", 18446744073709551615, "b", 1), "v1.r.18446744073709551615.b.1");
}

#[test]
fn parse_cursor_refuses_wrong_versions_counts_and_numbers() {
    assert!(parse_cursor("v2.run.1.boot.2").is_none());
    assert!(parse_cursor("v1.run.1.boot").is_none());
    assert!(parse_cursor("v1.run.1.boot.2.3").is_none());
    assert!(parse_cursor("v1.run.x.boot.2").is_none());
    assert!(parse_cursor("v1.run.1.boot.18446744073709551616").is_none());
    let p = parse_cursor("v1.run.+4.boot.5").unwrap();
    assert_eq!(p.durable_sequence, 4);
    assert_eq!(p.boot_epoch, "boot");
}

#[test]
fn identifiers_and_digests_are_validated() {
    assert!(validate_identifier("run-1_a:b.c", "run_id").is_ok());
    assert!(matches!(validate_identifier("", "run_id"), Err(RunError::Invalid("run_id"))));
    assert!(matches!(validate_identifier("has space", "run_id"), Err(RunError::Invalid("run_id"))));
    assert!(validate_identifier(&"a".repeat(160), "x").is_ok());
    assert!(validate_identifier(&"a".repeat(161), "x").is_err());
    let good = format!("sha256:{}", "ab".repeat(32));
    assert!(validate_tagged_digest(&good, "plan_digest").is_ok());
    assert!(matches!(validate_tagged_digest("sha256:xyz", "plan_digest"), Err(RunError::Invalid("plan_digest"))));
    let upper = format!("sha256:{}", "AB".repeat(32));
    assert!(validate_tagged_digest(&upper, "plan_digest").is_ok());
    let wrong = format!("sha512:{}", "ab".repeat(32));
    assert!(validate_tagged_digest(&wrong, "plan_digest").is_err());
}

#[test]
fn terminal_states_and_outcome_names() {
    assert!(is_terminal("succeeded"));
    assert!(is_terminal("failed"));
    assert!(is_terminal("cancelled"));
    assert!(!is_terminal("queued"));
    assert!(!is_terminal("cancel_requested"));
    assert_eq!(outcome_name(&ActivationOutcome::Success), "success");
    assert_eq!(outcome_name(&ActivationOutcome::Cancelled), "cancelled");
    assert_eq!(outcome_name(&ActivationOutcome::PermanentFailure), "permanent_failure");
}

#[test]
fn queue_profile_reports_every_bound() {
    let p = queue_profile();
    assert_eq!(p.profile, "eco-balanced/v1alpha1");
    assert_eq!(p.maximum_nonterminal_runs, 64);
    assert_eq!(p.maximum_hot_runs, 16);
    assert_eq!(p.ready.count, 1024);
    assert_eq!(p.ready.bytes, 4 * 1024 * 1024);
    assert_eq!(p.live_ring_per_run.count, 256);
    assert_eq!(p.subscribers.count, 32);
    assert_eq!(p.subscribers.mailbox.bytes, 256 * 1024);
    assert_eq!(p.maximum_inline_invocation_bytes, 8192);
}

#[test]
fn weights_and_frame_sizes() {
    assert_eq!(result_weight(Some(100)), 4196);
    assert_eq!(result_weight(None), 69632);
    assert_eq!(result_weight(Some(usize::MAX)), usize::MAX);
    assert_eq!(candidate_weight(Some(10)), 8202);
    assert_eq!(candidate_weight(None), 16384);
    assert_eq!(invocation_weight(8192).unwrap(), 12288);
    assert!(matches!(invocation_weight(8193), Err(RunError::TooLarge("captured_invocation"))));
    let frame = StreamFrame { event: "live".into(), id: "v1.r.1.b.2".into(), data: "{}".into() };
    assert_eq!(frame_bytes(&frame), 4 + 10 + 2 + 32);
    assert!(bounded_stream_data("x".repeat(3584)).is_ok());
    assert!(matches!(bounded_stream_data("x".repeat(3585)), Err(RunError::TooLarge("sse_event"))));
}

#[test]
fn budget_refusal_changes_nothing_and_release_restores() {
    let mut budget = ByteBudget::new(5);
    assert!(budget.reserve(6).is_none());
    assert_eq!(budget.used(), 0);
    let a = budget.reserve(5).unwrap();
    assert_eq!(a.bytes(), 5);
    assert!(budget.reserve(1).is_none());
    assert_eq!(budget.used(), 5);
    budget.release(a);
    assert_eq!(budget.used(), 0);
    assert_eq!(budget.maximum(), 5);
}

fn emit(hub: &mut LiveHub, run_id: &str, durable: u64, event: &str, state: &str) -> Option<StreamFrame> {
    let mut payload: serde_json::Value = serde_json::from_str(r#"{ "state": "", "durability": "speculative" }"#).unwrap();
    payload["state"] = serde_json::Value::String(state.into());
    hub.emit(run_id, durable, event, serde_json::to_string(&payload).unwrap(), &to_json(&payload))
}

#[test]
fn emitted_frames_carry_cursors_and_progress() {
    let mut hub = LiveHub::with_boot_epoch("boot-t".into());
    let first = emit(&mut hub, "run-a", 3, "live", "running").unwrap();
    assert_eq!(first.event, "live");
    assert_eq!(first.id, "v1.run-a.3.boot-t.1");
    let second = emit(&mut hub, "run-a", 2, "durable", "running").unwrap();
    assert_eq!(second.id, "v1.run-a.3.boot-t.2");
    let progress = hub.snapshot("run-a").unwrap();
    assert_eq!(progress.state, "running");
    assert!(progress.speculative);
    assert_eq!(progress.boot_epoch, "boot-t");
    assert_eq!(progress.sequence, 2);
    assert!(hub.snapshot("run-b").is_none());
}

#[test]
fn a_run_becomes_hot_only_with_a_live_event() {
    let mut hub = LiveHub::with_boot_epoch("boot".into());
    assert!(emit(&mut hub, "run-a", 1, "terminal", "succeeded").is_none());
    assert!(hub.snapshot("run-a").is_none());
    assert!(emit(&mut hub, "run-a", 1, "live", "running").is_some());
    assert!(emit(&mut hub, "run-a", 2, "terminal", "succeeded").is_some());
    assert_eq!(hub.snapshot("run-a").unwrap().state, "succeeded");
}

#[test]
fn oversized_data_is_refused_without_a_sequence() {
    let mut hub = LiveHub::with_boot_epoch("boot".into());
    assert!(emit(&mut hub, "run-a", 1, "live", "running").is_some());
    let big = "x".repeat(3585);
    assert!(hub.emit("run-a", 1, "live", big, &Json::Null).is_none());
    let next = emit(&mut hub, "run-a", 1, "live", "running").unwrap();
    assert_eq!(next.id, "v1.run-a.1.boot.2");
}

#[test]
fn hot_runs_are_bounded_and_idle_ones_make_room() {
    let mut hub = LiveHub::with_boot_epoch("boot".into());
    for i in 0..16 {
        let id = format!("run-{i}");
        assert!(emit(&mut hub, &id, 1, "live", "running").is_some());
        hub.set_subscribers(&id, 1);
    }
    assert!(emit(&mut hub, "run-extra", 1, "live", "running").is_none());
    assert!(matches!(hub.subscribe("run-extra", None, 1), Err(RunError::SubscriberFull)));
    hub.set_subscribers("run-3", 0);
    assert!(emit(&mut hub, "run-extra", 1, "live", "running").is_some());
    assert!(hub.snapshot("run-3").is_none());
    assert!(hub.snapshot("run-extra").is_some());
}

#[test]
fn subscribers_without_a_cursor_get_a_snapshot() {
    let mut hub = LiveHub::with_boot_epoch("boot".into());
    let plan = hub.subscribe("run-a", None, 7).unwrap();
    assert!(matches!(plan.replay, Replay::Snapshot));
    assert_eq!(plan.cursor, "v1.run-a.7.boot.0");
    let plan = hub.subscribe("run-a", Some(""), 9).unwrap();
    assert!(matches!(plan.replay, Replay::Snapshot));
    assert_eq!(plan.cursor, "v1.run-a.9.boot.0");
}

#[test]
fn reconnects_replay_exactly_the_later_frames() {
    let mut hub = LiveHub::with_boot_epoch("boot".into());
    let mut frames = vec![];
    for _ in 0..5 {
        frames.push(emit(&mut hub, "run-a", 1, "live", "running").unwrap());
    }
    let plan = hub.subscribe("run-a", Some(&frames[1].id), 1).unwrap();
    match plan.replay {
        Replay::Frames(later) => {
            let ids: Vec<&str> = later.iter().map(|f| f.id.as_str()).collect();
            assert_eq!(ids, vec![frames[2].id.as_str(), frames[3].id.as_str(), frames[4].id.as_str()]);
        }
        other => panic!("expected frames, got {other:?}"),
    }
    assert_eq!(plan.cursor, "v1.run-a.1.boot.5");
    let head = hub.subscribe("run-a", Some(&frames[4].id), 1).unwrap();
    assert!(matches!(head.replay, Replay::Frames(ref v) if v.is_empty()));
}

#[test]
fn foreign_or_future_cursors_need_a_resync() {
    let mut hub = LiveHub::with_boot_epoch("boot".into());
    for _ in 0..3 {
        emit(&mut hub, "run-a", 1, "live", "running").unwrap();
    }
    let other_boot = cursor("run-a", 1, "boot-old", 1);
    assert!(matches!(hub.subscribe("run-a", Some(&other_boot), 1).unwrap().replay, Replay::GapResync));
    let other_run = cursor("run-b", 1, "boot", 1);
    assert!(matches!(hub.subscribe("run-a", Some(&other_run), 1).unwrap().replay, Replay::GapResync));
    let future = cursor("run-a", 1, "boot", 9);
    assert!(matches!(hub.subscribe("run-a", Some(&future), 1).unwrap().replay, Replay::GapResync));
    let ahead = cursor("run-a", 5, "boot", 1);
    assert!(matches!(hub.subscribe("run-a", Some(&ahead), 1).unwrap().replay, Replay::GapResync));
    assert!(matches!(hub.subscribe("run-a", Some("garbage"), 1).unwrap().replay, Replay::GapResync));
}

#[test]
fn the_ring_drops_its_oldest_frames() {
    let mut live = LiveRun::new(1);
    let payload = Json::Null;
    let mut first_id = String::new();
    for i in 0..300u64 {
        let frame = live.record("run-a", "boot", 1, "live", "{}".into(), &payload).unwrap();
        if i == 0 {
            first_id = frame.id.clone();
        }
    }
    assert_eq!(live.next_live_sequence(), 301);
    let plan = live.subscribe_plan("run-a", "boot", 1, Some(&first_id));
    assert!(matches!(plan.replay, Replay::GapResync));
    let recent = cursor("run-a", 1, "boot", 290);
    let plan = live.subscribe_plan("run-a", "boot", 1, Some(&recent));
    assert!(matches!(plan.replay, Replay::Frames(ref v) if v.len() == 10));
}

#[test]
fn an_up_to_date_subscriber_reconnects_to_exactly_the_new_frame() {
    let mut live = LiveRun::new(1);
    let payload = Json::Null;
    let mut last_seen = String::new();
    for _ in 0..3 {
        last_seen = live.record("run-a", "boot", 1, "live", "{}".into(), &payload).unwrap().id;
    }
    let frame = live.record("run-a", "boot", 4, "live", "{\"n\":4}".into(), &payload).unwrap();
    assert_eq!(frame.id, "v1.run-a.4.boot.4");
    let plan = live.subscribe_plan("run-a", "boot", 1, Some(&last_seen));
    match plan.replay {
        Replay::Frames(later) => {
            assert_eq!(later.len(), 1);
            assert_eq!(later[0].id, frame.id);
            assert_eq!(later[0].data, "{\"n\":4}");
            assert_eq!(later[0].event, "live");
        }
        other => panic!("expected frames, got {other:?}"),
    }
}

#[test]
fn a_budget_counts_exactly_its_live_permits() {
    let mut budget = ByteBudget::new(10);
    let a = budget.reserve(3).unwrap();
    let b = budget.reserve(4).unwrap();
    assert_eq!(budget.used(), 7);
    assert!(budget.reserve(4).is_none());
    assert_eq!(budget.used(), 7);
    budget.release(a);
    assert_eq!(budget.used(), 4);
    let c = budget.reserve(6).unwrap();
    assert_eq!(budget.used(), 10);
    budget.release(b);
    budget.release(c);
    assert_eq!(budget.used(), 0);
    assert_eq!(budget.maximum(), 10);
}

#[test]
fn opening_frames_follow_the_replay_plan() {
    let mut live = LiveRun::new(1);
    let payload = Json::Null;
    let first = live.record("run-a", "boot", 1, "live", "{}".into(), &payload).unwrap();
    let second = live.record("run-a", "boot", 1, "live", "{\"n\":2}".into(), &payload).unwrap();
    let fresh = opening_frames(live.subscribe_plan("run-a", "boot", 1, None), "snap".into(), "gap".into(), "re".into());
    assert_eq!(fresh.len(), 1);
    assert_eq!(fresh[0].event, "snapshot");
    assert_eq!(fresh[0].id, "v1.run-a.1.boot.2");
    assert_eq!(fresh[0].data, "snap");
    let replayed =
        opening_frames(live.subscribe_plan("run-a", "boot", 1, Some(&first.id)), "snap".into(), "gap".into(), "re".into());
    assert_eq!(replayed.len(), 1);
    assert_eq!(replayed[0].id, second.id);
    let gap = opening_frames(live.subscribe_plan("run-a", "boot", 1, Some("garbage")), "snap".into(), "g".into(), "r".into());
    assert_eq!(gap.len(), 2);
    assert_eq!((gap[0].event.as_str(), gap[0].data.as_str()), ("gap", "g"));
    assert_eq!((gap[1].event.as_str(), gap[1].data.as_str()), ("resync", "r"));
    assert_eq!(gap[0].id, "v1.run-a.1.boot.2");
}
