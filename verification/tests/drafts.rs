use workflowd::config::{bind_address, sqlite_min_version_text, state_directory, tls_config, ConfigError};
use workflowd::diagnostic::CompileDiagnostic;
use workflowd::diff::{draft_diff, DiffConnections, DiffNodes};
use workflowd::draft::{
    apply_command, catalog, contract, draft_problem, err, identifier, manual_configuration, new_draft, objects,
    storage, trim_text, CreateWorkflow, DraftCommand, DraftError, DraftOperation,
};
use workflowd::json::Json;
use workflowd::model::{Layout, NodeContractLock, NodeInstance, WorkflowDraft};
use workflowd::plan::{
    CompileOutcome, ExecutionPlan, PlanCompilerIdentity, PlanProfile, PlanRevision,
};
use workflowd::publication::{
    accept_compilation, preview, publication_evidence, publication_view, publish_precondition,
    required_acknowledgements, revision_problem, revision_status, rollback_target, PublishRequest, RevisionError,
    RevisionRow,
};

fn manual_lock() -> NodeContractLock {
    NodeContractLock {
        namespace: "canopy".into(),
        name: "manual-trigger".into(),
        version: "1.0.0".into(),
        api_version: "v1alpha1".into(),
        digest: format!("sha256:{}", "1".repeat(64)),
    }
}

fn manual_config() -> Json {
    Json::Object(vec![("capture_mode".into(), Json::String("manual".into()))])
}

fn node(id: &str, name: &str) -> NodeInstance {
    NodeInstance {
        id: id.into(),
        name: name.into(),
        contract_lock: manual_lock(),
        configuration: manual_config(),
        layout: Layout { x_bits: 1.5f64.to_bits(), y_bits: 2.0f64.to_bits() },
        annotation: String::new(),
        compatibility_metadata: Json::Object(vec![]),
    }
}

fn created() -> WorkflowDraft {
    new_draft(CreateWorkflow {
        workflow_id: "wf-1".into(),
        name: "  Orders  ".into(),
        annotation: "note".into(),
        settings: Json::Object(vec![]),
        compatibility_metadata: Json::Object(vec![]),
    })
    .unwrap()
}

fn command(version: u64, operation: DraftOperation) -> DraftCommand {
    DraftCommand { command_id: "cmd-1".into(), base_draft_version: version, operation }
}

#[test]
fn new_drafts_are_trimmed_and_validated() {
    let d = created();
    assert_eq!(d.name, "Orders");
    assert_eq!(d.draft_version, 0);
    assert!(d.nodes.is_empty());
    let bad = new_draft(CreateWorkflow {
        workflow_id: "wf 1".into(),
        name: "x".into(),
        annotation: String::new(),
        settings: Json::Object(vec![]),
        compatibility_metadata: Json::Object(vec![]),
    });
    assert!(matches!(bad, Err(DraftError::Invalid(f)) if f == "identity"));
    let unnamed = new_draft(CreateWorkflow {
        workflow_id: "wf-1".into(),
        name: " \t ".into(),
        annotation: String::new(),
        settings: Json::Object(vec![]),
        compatibility_metadata: Json::Object(vec![]),
    });
    assert!(matches!(unnamed, Err(DraftError::Invalid(f)) if f == "name"));
    let metadata = new_draft(CreateWorkflow {
        workflow_id: "wf-1".into(),
        name: "x".into(),
        annotation: String::new(),
        settings: Json::Null,
        compatibility_metadata: Json::Object(vec![]),
    });
    assert!(matches!(metadata, Err(DraftError::Invalid(f)) if f == "metadata"));
}

#[test]
fn commands_advance_the_version_or_change_nothing() {
    let mut d = created();
    let accepted = apply_command(&mut d, "wf-1", command(0, DraftOperation::AddNode { node_instance: node("a", "A") }), &manual_lock()).unwrap();
    assert_eq!(accepted.draft_version, 1);
    assert_eq!(accepted.affected_identities, vec!["a".to_string()]);
    assert_eq!(d.draft_version, 1);
    assert_eq!(d.nodes.len(), 1);
    let stale = apply_command(&mut d, "wf-1", command(0, DraftOperation::SetWorkflowAnnotation { annotation: "x".into() }), &manual_lock());
    assert!(matches!(stale, Err(DraftError::Stale { current: 1 })));
    assert_eq!(d.annotation, "note");
    let duplicate = apply_command(&mut d, "wf-1", command(1, DraftOperation::AddNode { node_instance: node("a", "B") }), &manual_lock());
    assert!(matches!(duplicate, Err(DraftError::DuplicateIdentity)));
    let mut foreign = node("b", "B");
    foreign.contract_lock.version = "2.0.0".into();
    let refused = apply_command(&mut d, "wf-1", command(1, DraftOperation::AddNode { node_instance: foreign }), &manual_lock());
    assert!(matches!(refused, Err(DraftError::InvalidContractLock)));
    let missing = apply_command(
        &mut d,
        "wf-1",
        command(1, DraftOperation::ConfigureNode { node_instance_id: "zz".into(), configuration: manual_config() }),
        &manual_lock(),
    );
    assert!(matches!(missing, Err(DraftError::NotFound)));
    let wrong = apply_command(
        &mut d,
        "wf-1",
        command(1, DraftOperation::ConfigureNode { node_instance_id: "a".into(), configuration: Json::Object(vec![]) }),
        &manual_lock(),
    );
    assert!(matches!(wrong, Err(DraftError::Invalid(f)) if f == "manual_trigger_configuration"));
    assert_eq!(d.draft_version, 1);
    let annotated = apply_command(&mut d, "wf-1", command(1, DraftOperation::SetWorkflowAnnotation { annotation: "new".into() }), &manual_lock()).unwrap();
    assert_eq!(annotated.affected_identities, vec!["wf-1".to_string()]);
    assert_eq!(d.annotation, "new");
    assert_eq!(d.draft_version, 2);
}

#[test]
fn draft_checks_and_helpers() {
    assert!(identifier("a.b-c_d").is_ok());
    assert!(matches!(identifier(""), Err(DraftError::Invalid(f)) if f == "identity"));
    assert!(objects(&Json::Object(vec![]), &Json::Object(vec![])).is_ok());
    assert!(matches!(objects(&Json::Null, &Json::Object(vec![])), Err(DraftError::Invalid(f)) if f == "metadata"));
    assert!(manual_configuration(&manual_config()).is_ok());
    assert!(manual_configuration(&Json::Object(vec![("capture_mode".into(), Json::String("cron".into()))])).is_err());
    assert_eq!(err("boom".into()), "boom");
    assert!(matches!(storage("disk".into()), DraftError::Storage(m) if m == "disk"));
    assert_eq!(trim_text("\u{3000} a b \n"), "a b");
    let c = contract(&manual_lock(), &manual_config(), "canopy", "manual-trigger", "1.0.0");
    assert!(c.is_ok());
    assert!(matches!(contract(&manual_lock(), &manual_config(), "canopy", "other", "1.0.0"), Err(DraftError::NotFound)));
    let cat = catalog(&manual_lock(), &Json::Null);
    assert_eq!(cat.contract_api_version, "v1alpha1");
    assert_eq!(cat.nodes[0].display_name, "Manual Trigger");
}

#[test]
fn draft_problems_map_to_statuses() {
    assert_eq!(draft_problem(DraftError::NotFound).status, 404);
    let stale = draft_problem(DraftError::Stale { current: 4 });
    assert_eq!((stale.status, stale.code, stale.current_draft_version), (409, "stale_draft_version", Some(4)));
    assert_eq!(draft_problem(DraftError::AlreadyExists).code, "workflow_exists");
    assert_eq!(draft_problem(DraftError::DuplicateIdentity).code, "duplicate_identity");
    assert_eq!(draft_problem(DraftError::InvalidContractLock).status, 422);
    assert_eq!(draft_problem(DraftError::Invalid("x".into())).code, "invalid_draft_command");
    assert_eq!(draft_problem(DraftError::Storage("x".into())).status, 500);
}

#[test]
fn diffs_report_node_and_field_changes() {
    let mut published = created();
    published.nodes.push(node("a", "A"));
    published.nodes.push(node("b", "B"));
    let mut current = created();
    current.draft_version = 3;
    current.name = "Renamed".into();
    let mut changed = node("a", "A2");
    changed.layout = Layout { x_bits: 9.0f64.to_bits(), y_bits: 2.0f64.to_bits() };
    current.nodes.push(changed);
    current.nodes.push(node("c", "C"));
    let v = draft_diff("wf-1", &current, Some((2, &published)));
    assert_eq!(v.published_revision, Some(2));
    assert_eq!(v.draft_version, 3);
    assert_eq!(v.nodes.added.iter().map(|n| n.id.as_str()).collect::<Vec<_>>(), vec!["c"]);
    assert_eq!(v.nodes.removed.iter().map(|n| n.id.as_str()).collect::<Vec<_>>(), vec!["b"]);
    assert_eq!(v.nodes.modified.len(), 1);
    assert_eq!(v.nodes.modified[0].changed, vec!["name".to_string(), "layout".to_string()]);
    assert!(v.workflow_fields.name);
    assert!(!v.workflow_fields.annotation);
    let none = draft_diff("wf-1", &current, None);
    assert!(none.published_revision.is_none());
    assert!(none.nodes.added.is_empty());
    assert!(DiffNodes::empty().modified.is_empty());
    assert!(DiffConnections::empty().added.is_empty());
}

fn plan() -> ExecutionPlan {
    ExecutionPlan {
        plan_format: "canopy.execution-plan/1".into(),
        compiler: PlanCompilerIdentity { algorithm: "canopy.compiler/1".into(), contract_api: "v1alpha1".into() },
        compatibility_profile: PlanProfile { id: "native".into(), contract_api: "v1alpha1".into() },
        revision: PlanRevision { workflow_id: "wf-1".into(), draft_version: 1, document_digest: "sha256:d".into() },
        contract_locks: vec![],
        nodes: vec![],
        connections: vec![],
        topological_order: vec![],
        plan_digest: "sha256:p".into(),
    }
}

fn designated() -> CompileDiagnostic {
    CompileDiagnostic::warning("duplicate_node_name", "nodes/a", "twin".into(), true)
}

#[test]
fn publication_needs_the_lease_the_version_and_acknowledgements() {
    assert!(matches!(publish_precondition(false, 1, 1), Err(RevisionError::LeaseRequired)));
    assert!(matches!(publish_precondition(true, 1, 2), Err(RevisionError::Stale { current: 2 })));
    assert!(publish_precondition(true, 2, 2).is_ok());
    let missing = required_acknowledgements(&vec![designated()], &vec![]);
    assert_eq!(missing, vec!["duplicate_node_name".to_string()]);
    assert!(required_acknowledgements(&vec![designated()], &vec!["duplicate_node_name".into()]).is_empty());
    let refused = accept_compilation(CompileOutcome::Plan { plan: plan(), diagnostics: vec![designated()] }, &vec![]);
    assert!(matches!(refused, Err(RevisionError::WarningsUnacknowledged { required }) if required == vec!["duplicate_node_name".to_string()]));
    let accepted = accept_compilation(
        CompileOutcome::Plan { plan: plan(), diagnostics: vec![designated()] },
        &vec!["duplicate_node_name".into()],
    );
    assert!(accepted.is_ok());
    let failed = accept_compilation(
        CompileOutcome::Failed { diagnostics: vec![CompileDiagnostic::error("x", "y", "z".into())] },
        &vec![],
    );
    assert!(matches!(failed, Err(RevisionError::Compilation { diagnostics }) if diagnostics.len() == 1));
}

#[test]
fn evidence_keeps_only_relevant_acknowledgements() {
    let request = PublishRequest {
        editor_session_id: "session-1".into(),
        lease_generation: 7,
        base_draft_version: 1,
        acknowledged_warnings: vec!["other".into(), "duplicate_node_name".into()],
    };
    let evidence = publication_evidence(1, &request, &vec![designated()]);
    assert_eq!(evidence.acknowledged_warnings, vec!["duplicate_node_name".to_string()]);
    assert_eq!(evidence.lease_generation, 7);
    assert_eq!(evidence.signature_algorithm, "canopy.revision-signature/1");
}

#[test]
fn previews_rollbacks_and_listings() {
    let p = preview("wf-1", 1, CompileOutcome::Plan { plan: plan(), diagnostics: vec![] });
    assert_eq!(p.status, "ok");
    assert_eq!(p.plan.unwrap().plan_digest, "sha256:p");
    let w = preview("wf-1", 1, CompileOutcome::Plan { plan: plan(), diagnostics: vec![designated()] });
    assert_eq!(w.status, "warnings");
    let f = preview("wf-1", 1, CompileOutcome::Failed { diagnostics: vec![] });
    assert_eq!(f.status, "failed");
    assert!(f.plan.is_none());
    assert_eq!(rollback_target(Some(3)).unwrap(), 2);
    assert!(matches!(rollback_target(Some(1)), Err(RevisionError::NoPrecedingRevision)));
    assert!(matches!(rollback_target(None), Err(RevisionError::NoPrecedingRevision)));
    assert_eq!(revision_status(Some(2), 2), "current");
    assert_eq!(revision_status(Some(2), 1), "superseded");
    assert_eq!(revision_status(None, 1), "superseded");
    let row = |n: u64| RevisionRow {
        revision_number: n,
        draft_version: n,
        document_digest: "d".into(),
        plan_digest: "p".into(),
        plan_format: "f".into(),
        compiler_algorithm: "c".into(),
        signature: "s".into(),
        published_at: 0,
    };
    let view = publication_view("wf-1", Some(2), vec![row(1), row(2)]);
    assert_eq!(view.revisions[0].status, "superseded");
    assert_eq!(view.revisions[1].status, "current");
}

#[test]
fn revision_problems_map_to_statuses() {
    assert_eq!(revision_problem(RevisionError::NotFound).status, 404);
    assert_eq!(revision_problem(RevisionError::LeaseRequired).status, 423);
    let stale = revision_problem(RevisionError::Stale { current: 3 });
    assert_eq!(stale.current_draft_version, Some(3));
    let blocked = revision_problem(RevisionError::Compilation { diagnostics: vec![] });
    assert_eq!(blocked.code, "compilation_failed");
    let unack = revision_problem(RevisionError::WarningsUnacknowledged { required: vec!["w".into()] });
    assert_eq!(unack.required_acknowledgements, Some(vec!["w".to_string()]));
    assert_eq!(revision_problem(RevisionError::NoPrecedingRevision).code, "no_preceding_revision");
    assert_eq!(revision_problem(RevisionError::Storage("x".into())).status, 500);
    assert!(matches!(RevisionError::from("io".to_string()), RevisionError::Storage(m) if m == "io"));
}

#[test]
fn configuration_defaults_and_tls_pairing() {
    assert_eq!(bind_address(None), "127.0.0.1:8787");
    assert_eq!(bind_address(Some("0.0.0.0:1".into())), "0.0.0.0:1");
    assert_eq!(state_directory(None), "/var/lib/workflow-rust");
    assert_eq!(sqlite_min_version_text(None), "3047002");
    assert!(tls_config(None, None).unwrap().is_none());
    let both = tls_config(Some("c.pem".into()), Some("k.pem".into())).unwrap().unwrap();
    assert_eq!((both.certificate.as_str(), both.private_key.as_str()), ("c.pem", "k.pem"));
    match tls_config(Some("c.pem".into()), None) {
        Err(ConfigError::Configuration(m)) => assert_eq!(m, "WORKFLOWD_TLS_CERT and WORKFLOWD_TLS_KEY must be set together"),
        other => panic!("unexpected {other:?}"),
    }
}

#[test]
fn a_draft_against_an_identical_revision_shows_no_change() {
    let mut d = created();
    d.nodes.push(node("a", "A"));
    d.nodes.push(node("b", "B"));
    d.connections.push(Json::Object(vec![
        ("source".into(), Json::Object(vec![("node".into(), Json::String("a".into())), ("output_port".into(), Json::String("invocation".into()))])),
        ("target".into(), Json::Object(vec![("node".into(), Json::String("b".into())), ("input_port".into(), Json::String("items".into()))])),
    ]));
    let mut same = created();
    same.nodes.push(node("a", "A"));
    same.nodes.push(node("b", "B"));
    same.connections.push(Json::Object(vec![
        ("source".into(), Json::Object(vec![("node".into(), Json::String("a".into())), ("output_port".into(), Json::String("invocation".into()))])),
        ("target".into(), Json::Object(vec![("node".into(), Json::String("b".into())), ("input_port".into(), Json::String("items".into()))])),
    ]));
    let v = draft_diff("wf-1", &d, Some((1, &same)));
    assert!(v.nodes.added.is_empty() && v.nodes.removed.is_empty() && v.nodes.modified.is_empty());
    assert!(v.connections.added.is_empty() && v.connections.removed.is_empty());
    assert!(!v.workflow_fields.name && !v.workflow_fields.settings);
    same.connections.clear();
    let v = draft_diff("wf-1", &d, Some((1, &same)));
    assert_eq!(v.connections.added, vec!["a:invocation -> b:items".to_string()]);
}

#[test]
fn a_listing_flags_exactly_the_pointed_revision_current() {
    let row = |n: u64| RevisionRow {
        revision_number: n,
        draft_version: n,
        document_digest: "d".into(),
        plan_digest: "p".into(),
        plan_format: "f".into(),
        compiler_algorithm: "c".into(),
        signature: "s".into(),
        published_at: n as i64,
    };
    let view = publication_view("wf-1", Some(2), vec![row(1), row(2), row(3)]);
    let current: Vec<u64> =
        view.revisions.iter().filter(|r| r.status == "current").map(|r| r.revision_number).collect();
    assert_eq!(current, vec![2]);
    let none = publication_view("wf-1", None, vec![row(1), row(2)]);
    assert!(none.revisions.iter().all(|r| r.status == "superseded"));
}
