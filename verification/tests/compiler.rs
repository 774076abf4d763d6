use std::collections::BTreeSet;
use workflowd::catalog::{lock_key, ContractCatalog, ContractEntry};
use workflowd::compiler::compile_workflow;
use workflowd::diagnostic::CompileDiagnostic;
use workflowd::json::{Json, JsonNumber, NumberKind};
use workflowd::model::{Layout, NodeContractLock, NodeInstance, WorkflowDraft};
use workflowd::plan::{CompileOutcome, ExecutionPlan, LANE_INLINE_NATIVE};
use workflowd::policy::CompilePolicy;
use workflowd::topology::{topological_order, Topology};

fn to_json(v: &serde_json::Value) -> Json {
    match v {
        serde_json::Value::Null => Json::Null,
        serde_json::Value::Bool(b) => Json::Bool(*b),
        serde_json::Value::Number(n) => {
            let f = n.as_f64().unwrap_or(0.0);
            let kind = if let Some(u) = n.as_u64() {
                NumberKind::PosInt(u)
            } else if let Some(i) = n.as_i64() {
                NumberKind::NegInt(i)
            } else {
                NumberKind::Float
            };
            Json::Number(JsonNumber { kind, float_bits: f.to_bits(), text: n.to_string(), float_text: format!("{}", f) })
        }
        serde_json::Value::String(s) => Json::String(s.clone()),
        serde_json::Value::Array(items) => Json::Array(items.iter().map(to_json).collect()),
        serde_json::Value::Object(map) => {
            Json::Object(map.iter().map(|(k, v)| (k.clone(), to_json(v))).collect())
        }
    }
}

fn v(text: &str) -> serde_json::Value {
    serde_json::from_str(text).unwrap()
}

fn resources() -> serde_json::Value {
    v(r#"{
        "artifact_bytes": 0,
        "concurrency": 1,
        "cpu_millis": 100,
        "input_bytes": 1024,
        "input_count": 1,
        "memory_bytes": 1048576,
        "output_bytes": 1024,
        "output_count": 1,
        "wall_millis": 1000
    }"#)
}

fn manual_contract() -> serde_json::Value {
    let mut contract = v(r#"{
        "identity": { "namespace": "canopy", "name": "manual-trigger", "version": "1.0.0" },
        "compatibility": { "profile": "native" },
        "activation": { "shape": "source", "ordering": "ordered", "bounded_batch": null },
        "capabilities": [],
        "effects": {
            "class": "pure",
            "deterministic": true,
            "idempotent": true,
            "retry": "never",
            "reconciliation": "none",
            "approval_required": false
        },
        "configuration": {
            "defaults": { "capture_mode": "manual" },
            "schema": {
                "type": "object",
                "required": ["capture_mode"],
                "properties": { "capture_mode": { "type": "string", "enum": ["manual"] } },
                "additionalProperties": false
            }
        },
        "ports": {
            "inputs": [],
            "outputs": [{ "id": "invocation", "schema": { "type": "dynamic-item" } }]
        },
        "resources": {}
    }"#);
    contract["resources"]["default"] = resources();
    contract["resources"]["hard"] = resources();
    contract
}

fn digest_of(name: &str) -> String {
    let mut hex = String::new();
    for (i, b) in name.bytes().cycle().take(32).enumerate() {
        hex.push_str(&format!("{:02x}", b.wrapping_add(i as u8)));
    }
    format!("sha256:{hex}")
}

fn lock(contract: &serde_json::Value) -> NodeContractLock {
    let name = contract["identity"]["name"].as_str().unwrap();
    NodeContractLock {
        namespace: "canopy".into(),
        name: name.into(),
        version: "1.0.0".into(),
        api_version: "v1alpha1".into(),
        digest: digest_of(name),
    }
}

fn entry(contract: &serde_json::Value) -> ContractEntry {
    ContractEntry { lock: lock(contract), contract: to_json(contract) }
}

fn catalog() -> ContractCatalog {
    let mut catalog = ContractCatalog::new();
    catalog.insert(entry(&manual_contract()));
    catalog
}

fn manual_lock() -> NodeContractLock {
    lock(&manual_contract())
}

fn passthrough(base: serde_json::Value, name: &str) -> serde_json::Value {
    let mut contract = base;
    contract["identity"]["name"] = serde_json::Value::String(name.into());
    contract["activation"]["shape"] = serde_json::Value::String("per_item_stream".into());
    contract["configuration"]["defaults"] = v("{}");
    contract["configuration"]["schema"] = v(r#"{ "type": "object", "additionalProperties": true }"#);
    contract["ports"]["inputs"] = v(r#"[
        {
            "cardinality": "one",
            "id": "items",
            "multiplicity": "many",
            "required": false,
            "schema": { "type": "dynamic-item" }
        }
    ]"#);
    contract
}

fn node(id: &str, name: &str, contract_lock: NodeContractLock, configuration: serde_json::Value) -> NodeInstance {
    NodeInstance {
        id: id.into(),
        name: name.into(),
        contract_lock,
        configuration: to_json(&configuration),
        layout: Layout { x_bits: 0.0f64.to_bits(), y_bits: 0.0f64.to_bits() },
        annotation: String::new(),
        compatibility_metadata: Json::Object(vec![]),
    }
}

fn trigger(id: &str, name: &str, contract_lock: NodeContractLock) -> NodeInstance {
    let mut n = node(id, name, contract_lock, v(r#"{ "capture_mode": "manual" }"#));
    n.layout = Layout { x_bits: 120.0f64.to_bits(), y_bits: 80.0f64.to_bits() };
    n
}

fn draft(nodes: Vec<NodeInstance>, connections: Vec<serde_json::Value>) -> WorkflowDraft {
    WorkflowDraft {
        workflow_id: "wf-test".into(),
        name: "Compiler test".into(),
        draft_version: 1,
        nodes,
        connections: connections.iter().map(to_json).collect(),
        annotation: String::new(),
        settings: Json::Object(vec![]),
        compatibility_metadata: to_json(&v(r#"{ "profile": "native" }"#)),
    }
}

fn compile(document: &WorkflowDraft, catalog: &ContractCatalog) -> CompileOutcome {
    let digests: Vec<String> = document.nodes.iter().map(|n| digest_of(&n.id)).collect();
    compile_workflow(document, catalog, &CompilePolicy::current(), &digest_of("document"), &digests, seal)
}

/// Stands in for the canonical digest of a plan body: the body is handed
/// over without a digest of its own.
fn seal(body: &ExecutionPlan) -> String {
    assert!(body.plan_digest.is_empty());
    digest_of(&format!("plan/{}/{}", body.revision.workflow_id, body.topological_order.join(",")))
}

fn connection(from: &str, to: &str) -> serde_json::Value {
    let mut c = v(r#"{
        "source": { "node": "", "output_port": "invocation" },
        "target": { "node": "", "input_port": "items" }
    }"#);
    c["source"]["node"] = serde_json::Value::String(from.into());
    c["target"]["node"] = serde_json::Value::String(to.into());
    c
}

fn failed_with(outcome: &CompileOutcome, code: &str) -> bool {
    match outcome {
        CompileOutcome::Failed { diagnostics } => diagnostics.iter().any(|d| d.code == code),
        CompileOutcome::Plan { .. } => false,
    }
}

#[test]
fn compile_is_deterministic_and_digested() {
    let catalog = catalog();
    let document = draft(vec![trigger("trigger-a", "Start", manual_lock())], vec![]);
    let plan = match compile(&document, &catalog) {
        CompileOutcome::Plan { plan, diagnostics } => {
            assert!(diagnostics.iter().any(|d| d.code == "unconnected_trigger_output"));
            plan
        }
        CompileOutcome::Failed { diagnostics } => panic!("expected plan: {diagnostics:?}"),
    };
    let again = match compile(&document, &catalog) {
        CompileOutcome::Plan { plan, .. } => plan,
        CompileOutcome::Failed { diagnostics } => panic!("expected plan: {diagnostics:?}"),
    };
    assert_eq!(format!("{plan:?}"), format!("{again:?}"));
    assert!(plan.plan_digest.starts_with("sha256:"));
    assert_eq!(plan.plan_digest, digest_of("plan/wf-test/trigger-a"));
    assert_eq!(plan.revision.document_digest, digest_of("document"));
    assert_eq!(plan.topological_order, vec!["trigger-a".to_string()]);
    assert_eq!(plan.nodes[0].lane, LANE_INLINE_NATIVE);
    assert_eq!(plan.nodes[0].activation.shape, "source");
}

#[test]
fn missing_and_duplicate_sources_are_errors() {
    let catalog = catalog();
    let empty = draft(vec![], vec![]);
    assert!(failed_with(&compile(&empty, &catalog), "workflow_requires_source"));
    let both = draft(vec![trigger("a", "One", manual_lock()), trigger("b", "Two", manual_lock())], vec![]);
    assert!(failed_with(&compile(&both, &catalog), "multiple_triggers"));
}

#[test]
fn lock_identity_and_digest_are_verified_separately() {
    let catalog = catalog();
    let mut foreign = manual_lock();
    foreign.name = "generate-items".into();
    let unknown = draft(vec![trigger("a", "Start", foreign)], vec![]);
    assert!(failed_with(&compile(&unknown, &catalog), "unknown_contract_lock"));
    let mut tampered = manual_lock();
    tampered.digest = format!("sha256:{}", "0".repeat(64));
    let mismatched = draft(vec![trigger("a", "Start", tampered)], vec![]);
    assert!(failed_with(&compile(&mismatched, &catalog), "contract_lock_digest_mismatch"));
}

#[test]
fn configuration_schema_and_expressions_are_enforced() {
    let catalog = catalog();
    let mut wrong = trigger("a", "Start", manual_lock());
    wrong.configuration = to_json(&v(r#"{ "capture_mode": "cron" }"#));
    assert!(failed_with(&compile(&draft(vec![wrong], vec![]), &catalog), "invalid_configuration"));
    let mut extra = trigger("a", "Start", manual_lock());
    extra.configuration = to_json(&v(r#"{ "capture_mode": "manual", "unknown": true }"#));
    assert!(failed_with(&compile(&draft(vec![extra], vec![]), &catalog), "invalid_configuration"));
    let mut expression = trigger("a", "Start", manual_lock());
    expression.annotation = "{{ $json.x }}".into();
    match compile(&draft(vec![expression], vec![]), &catalog) {
        CompileOutcome::Plan { .. } => {}
        CompileOutcome::Failed { diagnostics } => panic!("annotation must not fail compilation: {diagnostics:?}"),
    }
    let mut configured = trigger("a", "Start", manual_lock());
    configured.configuration = to_json(&v(r#"{ "capture_mode": "{{ manual }}" }"#));
    assert!(failed_with(&compile(&draft(vec![configured], vec![]), &catalog), "unsupported_expression"));
}

#[test]
fn capabilities_effects_and_budgets_follow_the_profile_policy() {
    let base = manual_contract();
    let mut contract = passthrough(base.clone(), "policy-cap");
    contract["capabilities"] = v(r#"["canopy/native/egress"]"#);
    let mut contract2 = passthrough(base.clone(), "policy-effect");
    contract2["effects"]["class"] = serde_json::Value::String("external_write".into());
    let mut contract3 = passthrough(base.clone(), "policy-budget");
    contract3["resources"]["hard"]["wall_millis"] = serde_json::Value::from(999_999u64);
    let mut catalog = ContractCatalog::new();
    catalog.insert(entry(&contract));
    catalog.insert(entry(&contract2));
    catalog.insert(entry(&contract3));
    catalog.insert(entry(&manual_contract()));
    let document = draft(
        vec![
            trigger("t", "Start", manual_lock()),
            node("cap", "Capability", lock(&contract), v("{}")),
            node("fx", "Effect", lock(&contract2), v("{}")),
            node("budget", "Budget", lock(&contract3), v("{}")),
        ],
        vec![],
    );
    let CompileOutcome::Failed { diagnostics } = compile(&document, &catalog) else {
        panic!("expected policy errors")
    };
    let codes: BTreeSet<&str> = diagnostics.iter().map(|d| d.code.as_str()).collect();
    assert!(codes.contains("capability_not_allowed"));
    assert!(codes.contains("effect_not_allowed"));
    assert!(codes.contains("budget_exceeds_policy"));
}

#[test]
fn connections_validate_ports_and_cycles() {
    let base = manual_contract();
    let contract_a = passthrough(base.clone(), "port-a");
    let contract_b = passthrough(base.clone(), "port-b");
    let mut catalog = ContractCatalog::new();
    catalog.insert(entry(&manual_contract()));
    catalog.insert(entry(&contract_a));
    catalog.insert(entry(&contract_b));

    let unknown_port = draft(
        vec![trigger("a", "Start", manual_lock()), node("b", "B", lock(&contract_a), v("{}"))],
        vec![v(r#"{
            "source": { "node": "a", "output_port": "invocation" },
            "target": { "node": "b", "input_port": "missing" }
        }"#)],
    );
    assert!(failed_with(&compile(&unknown_port, &catalog), "connection_unknown_input_port"));

    let cycle = draft(
        vec![
            trigger("a", "Start", manual_lock()),
            node("b", "B", lock(&contract_a), v("{}")),
            node("c", "C", lock(&contract_b), v("{}")),
        ],
        vec![connection("a", "b"), connection("b", "c"), connection("c", "b")],
    );
    assert!(failed_with(&compile(&cycle, &catalog), "unexpected_cycle"));

    let self_loop = draft(
        vec![trigger("a", "Start", manual_lock()), node("b", "B", lock(&contract_a), v("{}"))],
        vec![connection("a", "b"), connection("b", "b")],
    );
    assert!(failed_with(&compile(&self_loop, &catalog), "self_connection"));
}

#[test]
fn connected_plan_records_topological_order_and_depth() {
    let contract_b = passthrough(manual_contract(), "stream-b");
    let mut catalog = ContractCatalog::new();
    catalog.insert(entry(&manual_contract()));
    catalog.insert(entry(&contract_b));
    let document = draft(
        vec![trigger("a", "Start", manual_lock()), node("b", "B", lock(&contract_b), v("{}"))],
        vec![connection("a", "b")],
    );
    let CompileOutcome::Plan { plan, diagnostics } = compile(&document, &catalog) else {
        panic!("expected a connected plan")
    };
    assert!(diagnostics.is_empty());
    assert_eq!(plan.topological_order, vec!["a".to_string(), "b".to_string()]);
    assert_eq!(plan.nodes[0].depth, 0);
    assert_eq!(plan.nodes[1].depth, 1);
    assert_eq!(plan.connections.len(), 1);
    assert_eq!(plan.contract_locks.len(), 2);
}

#[test]
fn duplicate_names_are_designated_warnings() {
    let base = manual_contract();
    let contract_b = passthrough(base.clone(), "twin-b");
    let contract_c = passthrough(base, "twin-c");
    let mut catalog = ContractCatalog::new();
    catalog.insert(entry(&manual_contract()));
    catalog.insert(entry(&contract_b));
    catalog.insert(entry(&contract_c));
    let document = draft(
        vec![
            trigger("a", "Start", manual_lock()),
            node("b", "Twin", lock(&contract_b), v("{}")),
            node("c", "Twin", lock(&contract_c), v("{}")),
        ],
        vec![connection("a", "b")],
    );
    let CompileOutcome::Plan { diagnostics, .. } = compile(&document, &catalog) else {
        panic!("expected warnings-only compilation")
    };
    let twin = diagnostics.iter().filter(|d| d.code == "duplicate_node_name").count();
    assert_eq!(twin, 2);
    assert!(diagnostics.iter().all(|d| d.severity == "warning"));
    assert!(diagnostics.iter().any(|d| d.code == "unconnected_node" && d.path.ends_with("c")));
}

#[test]
fn plan_pins_configuration_digests_and_document() {
    let catalog = catalog();
    let document = draft(vec![trigger("a", "Start", manual_lock())], vec![]);
    let CompileOutcome::Plan { plan, .. } = compile(&document, &catalog) else { panic!("expected plan") };
    assert_eq!(plan.nodes[0].configuration_digest, digest_of("a"));
    assert_eq!(plan.revision.document_digest, digest_of("document"));
    assert_eq!(plan.revision.workflow_id, "wf-test");
    assert_eq!(plan.revision.draft_version, 1);
    assert_eq!(plan.plan_format, "canopy.execution-plan/1");
    assert_eq!(plan.contract_locks.len(), 1);
    assert!(plan.nodes[0].effects.deterministic);
    assert_eq!(plan.nodes[0].budgets.hard.wall_millis, 1000);
}

#[test]
fn duplicate_node_ids_and_unknown_connection_nodes_fail() {
    let catalog = catalog();
    let twice = draft(vec![trigger("a", "One", manual_lock()), trigger("a", "Two", manual_lock())], vec![]);
    assert!(failed_with(&compile(&twice, &catalog), "duplicate_node_id"));
    let dangling = draft(vec![trigger("a", "Start", manual_lock())], vec![connection("a", "zzz")]);
    assert!(failed_with(&compile(&dangling, &catalog), "connection_unknown_node"));
}

#[test]
fn diagnostics_constructors_and_error_detection() {
    let e = CompileDiagnostic::error("code_e", "nodes/a", "broken".into());
    assert_eq!(e.severity, "error");
    assert!(!e.require_acknowledgement);
    let w = CompileDiagnostic::warning("code_w", "nodes/b", "careful".into(), true);
    assert_eq!(w.severity, "warning");
    assert!(w.require_acknowledgement);
    assert!(!CompileDiagnostic::has_errors(&[w]));
    assert!(CompileDiagnostic::has_errors(&[e]));
}

#[test]
fn topological_order_reports_cycles_by_path() {
    let nodes = vec![
        node("a", "A", manual_lock(), v("{}")),
        node("b", "B", manual_lock(), v("{}")),
        node("c", "C", manual_lock(), v("{}")),
    ];
    match topological_order(&nodes, &[(0, 1), (1, 2)]) {
        Topology::Order((order, depth)) => {
            assert_eq!(order, vec![0, 1, 2]);
            assert_eq!(depth, vec![0, 1, 2]);
        }
        Topology::Cycle(path) => panic!("unexpected cycle {path}"),
    }
    match topological_order(&nodes, &[(1, 2), (2, 1)]) {
        Topology::Cycle(path) => assert_eq!(path, "b -> c"),
        Topology::Order(_) => panic!("expected a cycle"),
    }
}
