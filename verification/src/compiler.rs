//! The deterministic revision compiler: one Workflow document, the Node
//! Contract catalog of one Compatibility Profile, and one versioned policy
//! in; an Execution Plan with its warnings, or the diagnostics that fail
//! compilation, out. It reads nothing else, so the same inputs always give
//! the same result.

use crate::catalog::{self, ContractCatalog, ContractEntry, EntryV};
use crate::diagnostic::{self, CompileDiagnostic, DiagV};
use crate::json::{self, Json, JsonV};
use crate::model::{self, LockV, NodeContractLock, NodeInstance, NodeV, WorkflowDraft};
use crate::plan::{
    self, CompileOutcome, ConnectionV, ExecutionPlan, PlanActivation, PlanBudgets, PlanCompilerIdentity,
    PlanConnection, PlanEffects, PlanNode, PlanNodeV, PlanPort, PlanProfile, PlanRevision,
};
use crate::policy::{self, CompilePolicy, PolicyV};
use crate::schema;
use crate::text;
use crate::topology::{self, Topology};
use vstd::prelude::*;

verus! {

// ---------------------------------------------------------------------------
// Node Instances and their contracts.

/// `nodes/<id>`.
pub open spec fn node_path(id: Seq<char>) -> Seq<char> {
    "nodes/"@ + id
}

/// Whether an earlier Node Instance has the same identity as node `i`.
pub open spec fn repeats_id(nodes: Seq<NodeV>, i: int) -> bool {
    exists|j: int| 0 <= j < i && nodes[j].id == nodes[i].id
}

/// The catalog entry node `i` resolves to: none for a repeated identity or
/// a lock the catalog does not hold.
pub open spec fn found_entry(nodes: Seq<NodeV>, cat: Seq<EntryV>, i: int) -> Option<EntryV> {
    if repeats_id(nodes, i) {
        None
    } else {
        catalog::entry_at(cat, catalog::lock_key_of(nodes[i].lock))
    }
}

/// Whether node `i`'s lock matches its catalog entry exactly and names the
/// accepted contract API, so that its contract rules are checked.
pub open spec fn lock_accepted(nodes: Seq<NodeV>, cat: Seq<EntryV>, i: int) -> bool {
    match found_entry(nodes, cat, i) {
        Some(e) => e.lock == nodes[i].lock && nodes[i].lock.api_version == plan::CONTRACT_API@,
        None => false,
    }
}

/// The activation shape a contract declares.
pub open spec fn shape_of(contract: JsonV) -> Option<Seq<char>> {
    json::as_str(policy::at2(contract, "activation"@, "shape"@))
}

/// A string member, or the empty string.
pub open spec fn str_or_empty(v: JsonV) -> Seq<char> {
    match json::as_str(v) {
        Some(s) => s,
        None => Seq::empty(),
    }
}

/// Whether node `i` is one of the Workflow's source Node Instances.
pub open spec fn is_source_node(nodes: Seq<NodeV>, cat: Seq<EntryV>, i: int) -> bool {
    lock_accepted(nodes, cat, i) && shape_of(found_entry(nodes, cat, i).unwrap().contract) == Some(
        "source"@,
    )
}

/// Whether node `i` resolved to a catalog entry of a source contract.
pub open spec fn entry_is_source(nodes: Seq<NodeV>, cat: Seq<EntryV>, i: int) -> bool {
    match found_entry(nodes, cat, i) {
        Some(e) => shape_of(e.contract) == Some("source"@),
        None => false,
    }
}

/// One error per capability that the policy does not grant.
pub open spec fn capability_diags(caps: Seq<Seq<char>>, allowed: Seq<Seq<char>>, path: Seq<char>) -> Seq<DiagV>
    decreases caps.len(),
{
    if caps.len() == 0 {
        Seq::empty()
    } else {
        capability_diags(caps.drop_last(), allowed, path) + if allowed.contains(caps.last()) {
            Seq::empty()
        } else {
            seq![
                diagnostic::error_v(
                    "capability_not_allowed"@,
                    path + ".contract"@,
                    "capability "@ + caps.last() + " is not granted by this Compatibility Profile"@,
                ),
            ]
        }
    }
}

/// The capabilities a contract declares.
pub open spec fn declared_capabilities(contract: JsonV) -> Seq<Seq<char>> {
    match json::as_array(json::field(contract, "capabilities"@)) {
        Some(list) => schema::strings_of(list),
        None => Seq::empty(),
    }
}

/// The profile, capability and effect rules of a contract.
pub open spec fn effect_rule_diags(contract: JsonV, p: PolicyV, path: Seq<char>) -> Seq<DiagV> {
    let profile = str_or_empty(policy::at2(contract, "compatibility"@, "profile"@));
    let class = str_or_empty(policy::at2(contract, "effects"@, "class"@));
    (if profile != plan::PROFILE_ID@ {
        seq![
            diagnostic::error_v(
                "compatibility_profile_mismatch"@,
                path,
                "Node Contract compatibility profile "@ + profile + " does not match the active profile "@
                    + plan::PROFILE_ID@,
            ),
        ]
    } else {
        Seq::empty()
    }) + (match json::as_array(json::field(contract, "capabilities"@)) {
        Some(list) => capability_diags(schema::strings_of(list), p.allowed_capabilities, path),
        None => Seq::empty(),
    }) + (if p.allowed_effect_classes.contains(class) {
        Seq::empty()
    } else {
        seq![
            diagnostic::error_v(
                "effect_not_allowed"@,
                path + ".contract"@,
                "Effect class "@ + class + " is not runnable in this Compatibility Profile"@,
            ),
        ]
    }) + (if json::as_bool(policy::at2(contract, "effects"@, "approval_required"@)) == Some(true) {
        seq![
            diagnostic::error_v(
                "approval_required"@,
                path + ".contract"@,
                "Nodes whose effects require approval are not runnable in this Compatibility Profile"@,
            ),
        ]
    } else {
        Seq::empty()
    }) + (if json::as_bool(policy::at2(contract, "effects"@, "deterministic"@)) != Some(true) {
        seq![
            diagnostic::error_v(
                "non_deterministic_effect"@,
                path + ".contract"@,
                "Only deterministic Node Contracts produce reproducible Runs in this Compatibility Profile"@,
            ),
        ]
    } else {
        Seq::empty()
    })
}

/// Every rule a contract imposes on a node whose lock was accepted.
pub open spec fn contract_diags(node: NodeV, contract: JsonV, p: PolicyV, path: Seq<char>) -> Seq<DiagV> {
    effect_rule_diags(contract, p, path) + policy::budget_diags(contract, path, p) + schema::schema_diags(
        node.configuration,
        policy::at2(contract, "configuration"@, "schema"@),
        path + ".configuration"@,
    ) + schema::expression_diags(node.configuration, path + ".configuration"@)
}

/// The diagnostics for node `i`.
pub open spec fn node_diags(nodes: Seq<NodeV>, cat: Seq<EntryV>, p: PolicyV, i: int) -> Seq<DiagV> {
    let node = nodes[i];
    let path = node_path(node.id);
    if repeats_id(nodes, i) {
        seq![
            diagnostic::error_v(
                "duplicate_node_id"@,
                path,
                "Node Instance identity appears more than once in the Workflow"@,
            ),
        ]
    } else {
        match catalog::entry_at(cat, catalog::lock_key_of(node.lock)) {
            None => seq![
                diagnostic::error_v(
                    "unknown_contract_lock"@,
                    path + ".contract_lock"@,
                    "Node Contract Lock is not part of this Compatibility Profile catalog"@,
                ),
            ],
            Some(e) => if e.lock != node.lock {
                seq![
                    diagnostic::error_v(
                        "contract_lock_digest_mismatch"@,
                        path + ".contract_lock"@,
                        "Node Contract Lock digest does not match the catalog contract"@,
                    ),
                ]
            } else if node.lock.api_version != plan::CONTRACT_API@ {
                seq![
                    diagnostic::error_v(
                        "unsupported_contract_api"@,
                        path + ".contract_lock"@,
                        "Node Contract api_version "@ + node.lock.api_version
                            + " is not accepted by this compiler"@,
                    ),
                ]
            } else {
                contract_diags(node, e.contract, p, path)
            },
        }
    }
}

/// The diagnostics of the first `n` nodes, in order.
pub open spec fn nodes_diags(nodes: Seq<NodeV>, cat: Seq<EntryV>, p: PolicyV, n: nat) -> Seq<DiagV>
    decreases n,
{
    if n == 0 {
        Seq::empty()
    } else {
        nodes_diags(nodes, cat, p, (n - 1) as nat) + node_diags(nodes, cat, p, n - 1)
    }
}

/// The source nodes among the first `n`, ascending.
pub open spec fn source_nodes(nodes: Seq<NodeV>, cat: Seq<EntryV>, n: nat) -> Seq<int>
    decreases n,
{
    if n == 0 {
        Seq::empty()
    } else if is_source_node(nodes, cat, n - 1) {
        source_nodes(nodes, cat, (n - 1) as nat).push(n - 1)
    } else {
        source_nodes(nodes, cat, (n - 1) as nat)
    }
}

// ---------------------------------------------------------------------------
// Display names.

/// How many of the first `n` nodes carry `name`.
pub open spec fn name_count(nodes: Seq<NodeV>, name: Seq<char>, n: nat) -> nat
    decreases n,
{
    if n == 0 {
        0
    } else {
        name_count(nodes, name, (n - 1) as nat) + if nodes[n - 1].name == name {
            1nat
        } else {
            0nat
        }
    }
}

/// Node `a` sorts before node `b`: by display name, then by position.
pub open spec fn name_before(nodes: Seq<NodeV>, a: int, b: int) -> bool {
    text::seq_lt(nodes[a].name, nodes[b].name) || (nodes[a].name == nodes[b].name && a < b)
}

/// `s` with `x` inserted before the first node that sorts after it.
pub open spec fn insert_by_name(nodes: Seq<NodeV>, s: Seq<int>, x: int) -> Seq<int>
    decreases s.len(),
{
    if s.len() == 0 {
        seq![x]
    } else if name_before(nodes, x, s[0]) {
        seq![x] + s
    } else {
        seq![s[0]] + insert_by_name(nodes, s.drop_first(), x)
    }
}

/// The nodes among the first `n` whose display name another node shares,
/// sorted by name and then position.
pub open spec fn shared_names(nodes: Seq<NodeV>, n: nat) -> Seq<int>
    decreases n,
{
    if n == 0 {
        Seq::empty()
    } else if name_count(nodes, nodes[n - 1].name, nodes.len()) > 1 {
        insert_by_name(nodes, shared_names(nodes, (n - 1) as nat), n - 1)
    } else {
        shared_names(nodes, (n - 1) as nat)
    }
}

/// The designated warning for a node whose display name is shared.
pub open spec fn shared_name_warning(node: NodeV) -> DiagV {
    diagnostic::warning_v(
        "duplicate_node_name"@,
        node_path(node.id),
        "Node Instances share the display name "@ + node.name + "; display names are not unique identities"@,
        true,
    )
}

/// The warnings for shared display names, in name order.
pub open spec fn name_diags(nodes: Seq<NodeV>) -> Seq<DiagV> {
    shared_names(nodes, nodes.len()).map_values(|i: int| shared_name_warning(nodes[i]))
}

/// The rule that a Workflow has exactly one source.
pub open spec fn source_count_diags(count: nat) -> Seq<DiagV> {
    if count == 0 {
        seq![
            diagnostic::error_v(
                "workflow_requires_source"@,
                "workflow"@,
                "Workflow requires exactly one source Node Instance; add a Manual Trigger"@,
            ),
        ]
    } else if count > 1 {
        seq![
            diagnostic::error_v(
                "multiple_triggers"@,
                "workflow"@,
                "Workflow declares "@ + text::decimal(count) + " source Node Instances; exactly one is allowed"@,
            ),
        ]
    } else {
        Seq::empty()
    }
}

// ---------------------------------------------------------------------------
// Connections.

/// `connections[<index>]`.
pub open spec fn connection_path(index: nat) -> Seq<char> {
    "connections["@ + text::decimal(index) + "]"@
}

/// The `invalid_connection` error.
pub open spec fn invalid_connection(path: Seq<char>, message: Seq<char>) -> DiagV {
    diagnostic::error_v("invalid_connection"@, path, message)
}

/// Reads one endpoint: an object of exactly `node` and `port_key`, both
/// non-empty strings. Values of other shapes are skipped silently.
pub open spec fn endpoint(value: JsonV, side: Seq<char>, port_key: Seq<char>, path: Seq<char>) -> (
    Seq<DiagV>,
    Option<(Seq<char>, Seq<char>)>,
) {
    match value {
        JsonV::Object(o) => if o.len() != 2 || json::lookup(o, "node"@) is None || json::lookup(o, port_key) is None {
            (
                seq![
                    invalid_connection(
                        path,
                        "Connection endpoint "@ + side + " must declare exactly node and "@ + port_key,
                    ),
                ],
                None,
            )
        } else {
            match (json::as_str(json::field(value, "node"@)), json::as_str(json::field(value, port_key))) {
                (Some(node), Some(port)) => if node.len() == 0 || port.len() == 0 {
                    (seq![invalid_connection(path, "Connection endpoint identities must be non-empty"@)], None)
                } else {
                    (Seq::empty(), Some((node, port)))
                },
                _ => (Seq::empty(), None),
            }
        },
        _ => (Seq::empty(), None),
    }
}

/// The key under which duplicate Connections are recognised.
pub open spec fn edge_key(c: ConnectionV) -> Seq<char> {
    c.source_node + "|"@ + c.source_port + "|"@ + c.target_node + "|"@ + c.target_port
}

/// Reads Connection `index` given the Connections accepted before it.
pub open spec fn connection_step(accepted: Seq<ConnectionV>, raw: JsonV, index: nat) -> (Seq<DiagV>, Option<ConnectionV>) {
    let path = connection_path(index);
    let bad = invalid_connection(path, "Connection must declare exactly source and target endpoints"@);
    match raw {
        JsonV::Object(o) => if o.len() != 2 || json::lookup(o, "source"@) is None || json::lookup(o, "target"@) is None {
            (seq![bad], None)
        } else {
            let (d1, s) = endpoint(json::field(raw, "source"@), "source"@, "output_port"@, path + ".source"@);
            match s {
                None => (d1, None),
                Some((sn, sp)) => {
                    let (d2, t) = endpoint(json::field(raw, "target"@), "target"@, "input_port"@, path + ".target"@);
                    match t {
                        None => (d2, None),
                        Some((tn, tp)) => if sn == tn {
                            (
                                seq![
                                    diagnostic::error_v(
                                        "self_connection"@,
                                        path,
                                        "A Connection cannot route a Node Instance to itself without an explicit loop construct"@,
                                    ),
                                ],
                                None,
                            )
                        } else {
                            let c = ConnectionV { source_node: sn, source_port: sp, target_node: tn, target_port: tp };
                            if exists|k: int| 0 <= k < accepted.len() && edge_key(#[trigger] accepted[k]) == edge_key(c) {
                                (
                                    seq![
                                        diagnostic::error_v(
                                            "duplicate_connection"@,
                                            path,
                                            "The same source and target port pair is declared more than once"@,
                                        ),
                                    ],
                                    None,
                                )
                            } else {
                                (Seq::empty(), Some(c))
                            }
                        },
                    }
                },
            }
        },
        _ => (seq![bad], None),
    }
}

/// Reads the first `n` Connections: their diagnostics and the accepted ones.
pub open spec fn connections_read(conns: Seq<JsonV>, n: nat) -> (Seq<DiagV>, Seq<ConnectionV>)
    decreases n,
{
    if n == 0 {
        (Seq::empty(), Seq::empty())
    } else {
        let (d, acc) = connections_read(conns, (n - 1) as nat);
        let (d2, c) = connection_step(acc, conns[n - 1], (n - 1) as nat);
        (
            d + d2,
            match c {
                Some(c) => acc.push(c),
                None => acc,
            },
        )
    }
}

/// The last of the first `n` nodes with identity `id` (a later node with the
/// same identity replaces an earlier one).
pub open spec fn last_index(nodes: Seq<NodeV>, id: Seq<char>, n: nat) -> Option<int>
    decreases n,
{
    if n == 0 {
        None
    } else if nodes[n - 1].id == id {
        Some(n - 1)
    } else {
        last_index(nodes, id, (n - 1) as nat)
    }
}

/// The `id`s of the port objects in a list.
pub open spec fn ids_of(ports: Seq<JsonV>) -> Seq<Seq<char>>
    decreases ports.len(),
{
    if ports.len() == 0 {
        Seq::empty()
    } else {
        let rest = ids_of(ports.drop_last());
        match json::as_str(json::field(ports.last(), "id"@)) {
            Some(id) => rest.push(id),
            None => rest,
        }
    }
}

/// The port identities a contract declares under `ports.<which>`.
pub open spec fn port_ids(contract: JsonV, which: Seq<char>) -> Seq<Seq<char>> {
    match json::as_array(policy::at2(contract, "ports"@, which)) {
        Some(list) => ids_of(list),
        None => Seq::empty(),
    }
}

/// What resolving one accepted Connection against the nodes gives: its
/// diagnostics, the source node whose trigger output it uses, and the edge.
pub open spec fn resolve(nodes: Seq<NodeV>, cat: Seq<EntryV>, c: ConnectionV) -> (Seq<DiagV>, Option<int>, Option<(int, int)>) {
    match (last_index(nodes, c.source_node, nodes.len()), last_index(nodes, c.target_node, nodes.len())) {
        (Some(si), Some(ti)) => match found_entry(nodes, cat, si) {
            None => (Seq::empty(), None, None),
            Some(se) => if !port_ids(se.contract, "outputs"@).contains(c.source_port) {
                (
                    seq![
                        diagnostic::error_v(
                            "connection_unknown_output_port"@,
                            "connections/"@ + text::decimal(si as nat) + ".source"@,
                            "output port "@ + c.source_port + " is not declared by the source contract"@,
                        ),
                    ],
                    None,
                    None,
                )
            } else {
                let trigger = if shape_of(se.contract) == Some("source"@) {
                    Some(si)
                } else {
                    None
                };
                match found_entry(nodes, cat, ti) {
                    None => (Seq::empty(), trigger, None),
                    Some(te) => if !port_ids(te.contract, "inputs"@).contains(c.target_port) {
                        (
                            seq![
                                diagnostic::error_v(
                                    "connection_unknown_input_port"@,
                                    "connections/"@ + text::decimal(ti as nat) + ".target"@,
                                    "input port "@ + c.target_port + " is not declared by the target contract"@,
                                ),
                            ],
                            trigger,
                            None,
                        )
                    } else {
                        (Seq::empty(), trigger, Some((si, ti)))
                    },
                }
            },
        },
        _ => (
            seq![
                diagnostic::error_v(
                    "connection_unknown_node"@,
                    "connections/"@ + c.source_node,
                    "Connection references a Node Instance that does not exist"@,
                ),
            ],
            None,
            None,
        ),
    }
}

/// Resolves the first `n` accepted Connections: diagnostics, the nodes whose
/// trigger output is used, and the edges between node positions.
pub open spec fn resolve_all(nodes: Seq<NodeV>, cat: Seq<EntryV>, conns: Seq<ConnectionV>, n: nat) -> (
    Seq<DiagV>,
    Set<int>,
    Seq<(usize, usize)>,
)
    decreases n,
{
    if n == 0 {
        (Seq::empty(), Set::empty(), Seq::empty())
    } else {
        let (d, used, edges) = resolve_all(nodes, cat, conns, (n - 1) as nat);
        let (d2, t, e) = resolve(nodes, cat, conns[n - 1]);
        (
            d + d2,
            match t {
                Some(s) => used.insert(s),
                None => used,
            },
            match e {
                Some((s, t)) => edges.push((s as usize, t as usize)),
                None => edges,
            },
        )
    }
}

// ---------------------------------------------------------------------------
// The whole compilation.

/// The accepted Connections of a document.
pub open spec fn accepted_connections(d: model::DraftV) -> Seq<ConnectionV> {
    connections_read(d.connections, d.connections.len()).1
}

/// The edges between node positions.
pub open spec fn plan_edges(d: model::DraftV, cat: Seq<EntryV>) -> Seq<(usize, usize)> {
    resolve_all(d.nodes, cat, accepted_connections(d), accepted_connections(d).len()).2
}

/// Every diagnostic found before the nodes are ordered, in order, before the
/// list is bounded.
pub open spec fn checked_diags(d: model::DraftV, cat: Seq<EntryV>, p: PolicyV) -> Seq<DiagV> {
    let n = d.nodes.len();
    nodes_diags(d.nodes, cat, p, n) + name_diags(d.nodes) + source_count_diags(source_nodes(d.nodes, cat, n).len())
        + connections_read(d.connections, d.connections.len()).0 + resolve_all(
        d.nodes,
        cat,
        accepted_connections(d),
        accepted_connections(d).len(),
    ).0
}

/// Whether the bounded list of checked diagnostics holds an error.
pub open spec fn fails_checks(d: model::DraftV, cat: Seq<EntryV>, p: PolicyV) -> bool {
    diagnostic::any_error(diagnostic::capped(checked_diags(d, cat, p)))
}

/// The identities of the nodes.
pub open spec fn ids(nodes: Seq<NodeV>) -> Seq<Seq<char>> {
    nodes.map_values(|n: NodeV| n.id)
}

/// Whether the edges leave some node unordered (a cycle).
pub open spec fn has_cycle(d: model::DraftV, cat: Seq<EntryV>) -> bool {
    topology::kahn_result(d.nodes.len(), plan_edges(d, cat)).order.len() < d.nodes.len()
}

/// The error reporting a cycle.
pub open spec fn cycle_error(d: model::DraftV, cat: Seq<EntryV>) -> DiagV {
    diagnostic::error_v(
        "unexpected_cycle"@,
        topology::cycle_text(ids(d.nodes), plan_edges(d, cat)),
        "Cycles are only valid through explicit loop, map, wait, or retry constructs; none exist in this Compatibility Profile"@,
    )
}

/// Warnings for source nodes whose output no Connection uses.
pub open spec fn trigger_warnings(nodes: Seq<NodeV>, sources: Seq<int>, used: Set<int>) -> Seq<DiagV>
    decreases sources.len(),
{
    if sources.len() == 0 {
        Seq::empty()
    } else {
        trigger_warnings(nodes, sources.drop_last(), used) + if used.contains(sources.last()) {
            Seq::empty()
        } else {
            seq![
                diagnostic::warning_v(
                    "unconnected_trigger_output"@,
                    node_path(nodes[sources.last()].id),
                    "The Manual Trigger output is not consumed; a Run will complete without downstream work"@,
                    true,
                ),
            ]
        }
    }
}

/// Whether some edge enters node `i`.
pub open spec fn has_input(edges: Seq<(usize, usize)>, i: int) -> bool {
    exists|k: int| 0 <= k < edges.len() && edges[k].1 as int == i
}

/// Warnings for the first `n` nodes that are not sources and that no edge enters.
pub open spec fn input_warnings(nodes: Seq<NodeV>, cat: Seq<EntryV>, edges: Seq<(usize, usize)>, n: nat) -> Seq<DiagV>
    decreases n,
{
    if n == 0 {
        Seq::empty()
    } else {
        input_warnings(nodes, cat, edges, (n - 1) as nat) + if !entry_is_source(nodes, cat, n - 1) && !has_input(
            edges,
            n - 1,
        ) {
            seq![
                diagnostic::warning_v(
                    "unconnected_node"@,
                    node_path(nodes[n - 1].id),
                    "Node Instance receives no input Connection and will never execute"@,
                    false,
                ),
            ]
        } else {
            Seq::empty()
        }
    }
}

/// The diagnostics of a compilation that produced a plan.
pub open spec fn plan_diags(d: model::DraftV, cat: Seq<EntryV>, p: PolicyV) -> Seq<DiagV> {
    let n = d.nodes.len();
    let conns = accepted_connections(d);
    let used = resolve_all(d.nodes, cat, conns, conns.len()).1;
    diagnostic::capped(
        checked_diags(d, cat, p) + trigger_warnings(d.nodes, source_nodes(d.nodes, cat, n), used) + input_warnings(
            d.nodes,
            cat,
            plan_edges(d, cat),
            n,
        ),
    )
}

/// The diagnostics of a failed compilation.
pub open spec fn failure_diags(d: model::DraftV, cat: Seq<EntryV>, p: PolicyV) -> Seq<DiagV> {
    if fails_checks(d, cat, p) {
        diagnostic::capped(checked_diags(d, cat, p))
    } else {
        diagnostic::capped(checked_diags(d, cat, p).push(cycle_error(d, cat)))
    }
}

/// Whether compilation fails: an error among the checked diagnostics, or a cycle.
pub open spec fn compile_fails(d: model::DraftV, cat: Seq<EntryV>, p: PolicyV) -> bool {
    fails_checks(d, cat, p) || has_cycle(d, cat)
}

// ---------------------------------------------------------------------------
// The plan.

/// The planned form of node `i`, whose contract is `e`.
pub open spec fn planned_node(node: NodeV, e: EntryV, digest: Seq<char>, depth: int) -> PlanNodeV {
    let c = e.contract;
    PlanNodeV {
        instance_id: node.id,
        name: node.name,
        contract: e.lock,
        configuration_digest: digest,
        shape: str_or_empty(policy::at2(c, "activation"@, "shape"@)),
        ordering: str_or_empty(policy::at2(c, "activation"@, "ordering"@)),
        bounded_batch: policy::at2(c, "activation"@, "bounded_batch"@),
        class: str_or_empty(policy::at2(c, "effects"@, "class"@)),
        deterministic: json::as_bool(policy::at2(c, "effects"@, "deterministic"@)) == Some(true),
        idempotent: json::as_bool(policy::at2(c, "effects"@, "idempotent"@)) == Some(true),
        retry: str_or_empty(policy::at2(c, "effects"@, "retry"@)),
        reconciliation: str_or_empty(policy::at2(c, "effects"@, "reconciliation"@)),
        approval_required: json::as_bool(policy::at2(c, "effects"@, "approval_required"@)) == Some(true),
        capabilities: declared_capabilities(c),
        default_budget: policy::budget_of(c, "default"@),
        hard_budget: policy::budget_of(c, "hard"@),
        lane: plan::LANE_INLINE_NATIVE@,
        depth: depth as u64,
    }
}

/// The planned nodes for the first `n` positions of `order`, skipping any
/// node without a catalog entry.
pub open spec fn planned_nodes(
    nodes: Seq<NodeV>,
    cat: Seq<EntryV>,
    digests: Seq<Seq<char>>,
    order: Seq<int>,
    depth: Seq<int>,
    n: nat,
) -> Seq<PlanNodeV>
    decreases n,
{
    if n == 0 {
        Seq::empty()
    } else {
        let rest = planned_nodes(nodes, cat, digests, order, depth, (n - 1) as nat);
        let i = order[n - 1];
        match found_entry(nodes, cat, i) {
            Some(e) => rest.push(planned_node(nodes[i], e, digests[i], depth[i])),
            None => rest,
        }
    }
}

/// A contract's place in the plan's lock list: namespace, name, version.
pub type LockName = (Seq<char>, Seq<char>, Seq<char>);

/// Lexicographic order of lock names.
pub open spec fn lock_name_lt(a: LockName, b: LockName) -> bool {
    text::seq_lt(a.0, b.0) || (a.0 == b.0 && (text::seq_lt(a.1, b.1) || (a.1 == b.1 && text::seq_lt(a.2, b.2))))
}

/// `s` with `x` added in order, once.
pub open spec fn insert_lock_name(s: Seq<LockName>, x: LockName) -> Seq<LockName>
    decreases s.len(),
{
    if s.len() == 0 {
        seq![x]
    } else if s[0] == x {
        s
    } else if lock_name_lt(x, s[0]) {
        seq![x] + s
    } else {
        seq![s[0]] + insert_lock_name(s.drop_first(), x)
    }
}

/// The lock names of the contracts planned for the first `n` positions of
/// `order`, ascending and without repeats.
pub open spec fn lock_names(nodes: Seq<NodeV>, cat: Seq<EntryV>, order: Seq<int>, n: nat) -> Seq<LockName>
    decreases n,
{
    if n == 0 {
        Seq::empty()
    } else {
        let rest = lock_names(nodes, cat, order, (n - 1) as nat);
        match found_entry(nodes, cat, order[n - 1]) {
            Some(e) => insert_lock_name(rest, (e.lock.namespace, e.lock.name, e.lock.version)),
            None => rest,
        }
    }
}

/// The locks the plan lists: each lock name looked up in the catalog.
pub open spec fn plan_locks(cat: Seq<EntryV>, names: Seq<LockName>) -> Seq<LockV>
    decreases names.len(),
{
    if names.len() == 0 {
        Seq::empty()
    } else {
        let rest = plan_locks(cat, names.drop_last());
        let x = names.last();
        match catalog::entry_at(cat, x.0 + "/"@ + x.1 + "/"@ + x.2) {
            Some(e) => rest.push(e.lock),
            None => rest,
        }
    }
}

/// What a compiled plan holds, field by field.
pub open spec fn is_compiled_plan(
    plan: ExecutionPlan,
    d: model::DraftV,
    cat: Seq<EntryV>,
    document_digest: Seq<char>,
    digests: Seq<Seq<char>>,
) -> bool {
    let k = topology::kahn_result(d.nodes.len(), plan_edges(d, cat));
    &&& plan.plan_format@ == plan::PLAN_FORMAT@
    &&& plan.compiler.algorithm@ == plan::COMPILER_ALGORITHM@
    &&& plan.compiler.contract_api@ == plan::CONTRACT_API@
    &&& plan.compatibility_profile.id@ == plan::PROFILE_ID@
    &&& plan.compatibility_profile.contract_api@ == plan::CONTRACT_API@
    &&& plan.revision.workflow_id@ == d.workflow_id
    &&& plan.revision.draft_version == d.draft_version
    &&& plan.revision.document_digest@ == document_digest
    &&& plan.contract_locks@.map_values(|l: NodeContractLock| l@) == plan_locks(
        cat,
        lock_names(d.nodes, cat, k.order, k.order.len()),
    )
    &&& plan.nodes@.map_values(|n: PlanNode| n@) == planned_nodes(
        d.nodes,
        cat,
        digests,
        k.order,
        k.depth,
        k.order.len(),
    )
    &&& plan::conn_views(plan.connections@) == accepted_connections(d)
    &&& plan.topological_order@.map_values(|s: String| s@) == k.order.map_values(|i: int| d.nodes[i].id)
    &&& forall|q: int| 0 <= q < k.order.len() ==> 0 <= #[trigger] k.order[q] < d.nodes.len()
}


// ---------------------------------------------------------------------------
// Executable checks.

/// Whether `s` is one of `list`.
pub fn contains_str(list: &Vec<String>, s: &str) -> (r: bool)
    ensures
        r == policy::string_views(list@).contains(s@),
{
    let mut i: usize = 0;
    while i < list.len()
        invariant
            0 <= i <= list@.len(),
            forall|k: int| 0 <= k < i ==> list@[k]@ != s@,
        decreases list@.len() - i,
    {
        if text::str_eq(list[i].as_str(), s) {
            assert(policy::string_views(list@)[i as int] == s@);
            return true;
        }
        i = i + 1;
    }
    proof {
        if policy::string_views(list@).contains(s@) {
            let k = choose|k: int| 0 <= k < policy::string_views(list@).len() && policy::string_views(list@)[k] == s@;
            assert(list@[k]@ == s@);
        }
    }
    false
}

/// `prefix` followed by `rest`.
fn concat(prefix: &str, rest: &str) -> (r: String)
    ensures
        r@ == prefix@ + rest@,
{
    let mut r = text::owned(prefix);
    text::push_str(&mut r, rest);
    r
}

/// Adds `d` to the bounded list, which held `capped(base + done)`.
proof fn lemma_push_one(base: Seq<DiagV>, done: Seq<DiagV>, d: DiagV)
    ensures
        diagnostic::capped(diagnostic::capped(base + done).push(d)) == diagnostic::capped(base + (done + seq![d])),
{
    assert(diagnostic::capped(base + done).push(d) =~= diagnostic::capped(base + done) + seq![d]);
    diagnostic::lemma_capped_steps(base, done, seq![d]);
}

/// The capability rule: one error per declared capability the policy does
/// not grant.
fn check_capabilities(contract: &Json, policy: &CompilePolicy, path: &str, diags: &mut Vec<CompileDiagnostic>)
    requires
        old(diags)@.len() <= diagnostic::MAX_DIAGNOSTICS,
    ensures
        diagnostic::diag_views(final(diags)@) == diagnostic::capped(
            diagnostic::diag_views(old(diags)@) + match json::as_array(json::field(contract@, "capabilities"@)) {
                Some(list) => capability_diags(schema::strings_of(list), policy@.allowed_capabilities, path@),
                None => Seq::<DiagV>::empty(),
            },
        ),
        final(diags)@.len() <= diagnostic::MAX_DIAGNOSTICS,
{
    let ghost base = diagnostic::diag_views(diags@);
    proof {
        diagnostic::lemma_capped_empty(base);
    }
    let null = Json::Null;
    let declared = policy::field_of(contract, "capabilities", &null);
    let list = match declared.as_array() {
        Some(list) => list,
        None => {
            return;
        },
    };
    proof {
        json::lemma_jvs(list@);
    }
    let ghost lv = json::jvs(list@);
    let ghost allowed = policy@.allowed_capabilities;
    let mut i: usize = 0;
    assert(lv.take(0) =~= Seq::<JsonV>::empty());
    while i < list.len()
        invariant
            0 <= i <= list@.len(),
            lv == json::jvs(list@),
            lv.len() == list@.len(),
            forall|k: int| 0 <= k < list@.len() ==> #[trigger] lv[k] == json::jv(list@[k]),
            allowed == policy@.allowed_capabilities,
            diags@.len() <= diagnostic::MAX_DIAGNOSTICS,
            diagnostic::diag_views(diags@) == diagnostic::capped(
                base + capability_diags(schema::strings_of(lv.take(i as int)), allowed, path@),
            ),
        decreases list@.len() - i,
    {
        assert(lv.take(i + 1).drop_last() =~= lv.take(i as int));
        assert(lv.take(i + 1).last() == json::jv(list@[i as int]));
        let ghost before = schema::strings_of(lv.take(i as int));
        if let Json::String(cap) = &list[i] {
            let ghost after = schema::strings_of(lv.take(i + 1));
            assert(after == before.push(cap@));
            assert(after.drop_last() =~= before);
            if !contains_str(&policy.allowed_capabilities, cap.as_str()) {
                let mut message = text::owned("capability ");
                text::push_str(&mut message, cap.as_str());
                text::push_str(&mut message, " is not granted by this Compatibility Profile");
                let at = concat(path, ".contract");
                let d = CompileDiagnostic::error("capability_not_allowed", at.as_str(), message);
                diagnostic::push_diagnostic(diags, d);
                proof {
                    lemma_push_one(base, capability_diags(before, allowed, path@), d@);
                    assert(capability_diags(after, allowed, path@) == capability_diags(before, allowed, path@) + seq![d@]);
                }
            } else {
                assert(capability_diags(after, allowed, path@) =~= capability_diags(before, allowed, path@));
            }
        } else {
            assert(schema::strings_of(lv.take(i + 1)) == before);
        }
        i = i + 1;
    }
    assert(lv.take(i as int) =~= lv);
}

/// The profile, capability and effect rules of a contract.
fn check_effect_rules(contract: &Json, policy: &CompilePolicy, path: &str, diags: &mut Vec<CompileDiagnostic>)
    requires
        old(diags)@.len() <= diagnostic::MAX_DIAGNOSTICS,
    ensures
        diagnostic::diag_views(final(diags)@) == diagnostic::capped(
            diagnostic::diag_views(old(diags)@) + effect_rule_diags(contract@, policy@, path@),
        ),
        final(diags)@.len() <= diagnostic::MAX_DIAGNOSTICS,
{
    let ghost base = diagnostic::diag_views(diags@);
    let ghost mut done: Seq<DiagV> = Seq::empty();
    proof {
        diagnostic::lemma_capped_empty(base);
        assert(base + done =~= base);
    }
    let null = Json::Null;
    let compatibility = policy::field_of(contract, "compatibility", &null);
    let profile_value = policy::field_of(compatibility, "profile", &null);
    let empty = String::new();
    let profile = match profile_value.as_str() {
        Some(p) => p,
        None => &empty,
    };
    if !text::str_eq(profile.as_str(), plan::PROFILE_ID) {
        let mut message = text::owned("Node Contract compatibility profile ");
        text::push_str(&mut message, profile.as_str());
        text::push_str(&mut message, " does not match the active profile ");
        text::push_str(&mut message, plan::PROFILE_ID);
        let d = CompileDiagnostic::error("compatibility_profile_mismatch", path, message);
        diagnostic::push_diagnostic(diags, d);
        proof {
            lemma_push_one(base, done, d@);
            done = done + seq![d@];
        }
    }
    let ghost after_profile = done;
    check_capabilities(contract, policy, path, diags);
    let ghost caps = match json::as_array(json::field(contract@, "capabilities"@)) {
        Some(list) => capability_diags(schema::strings_of(list), policy@.allowed_capabilities, path@),
        None => Seq::<DiagV>::empty(),
    };
    proof {
        diagnostic::lemma_capped_steps(base, done, caps);
        done = done + caps;
    }
    let effects = policy::field_of(contract, "effects", &null);
    let class_value = policy::field_of(effects, "class", &null);
    let class = match class_value.as_str() {
        Some(c) => c,
        None => &empty,
    };
    if !contains_str(&policy.allowed_effect_classes, class.as_str()) {
        let mut message = text::owned("Effect class ");
        text::push_str(&mut message, class.as_str());
        text::push_str(&mut message, " is not runnable in this Compatibility Profile");
        let at = concat(path, ".contract");
        let d = CompileDiagnostic::error("effect_not_allowed", at.as_str(), message);
        diagnostic::push_diagnostic(diags, d);
        proof {
            lemma_push_one(base, done, d@);
            done = done + seq![d@];
        }
    }
    if policy::field_of(effects, "approval_required", &null).as_bool() == Some(true) {
        let at = concat(path, ".contract");
        let d = CompileDiagnostic::error(
            "approval_required",
            at.as_str(),
            text::owned("Nodes whose effects require approval are not runnable in this Compatibility Profile"),
        );
        diagnostic::push_diagnostic(diags, d);
        proof {
            lemma_push_one(base, done, d@);
            done = done + seq![d@];
        }
    }
    if policy::field_of(effects, "deterministic", &null).as_bool() != Some(true) {
        let at = concat(path, ".contract");
        let d = CompileDiagnostic::error(
            "non_deterministic_effect",
            at.as_str(),
            text::owned("Only deterministic Node Contracts produce reproducible Runs in this Compatibility Profile"),
        );
        diagnostic::push_diagnostic(diags, d);
        proof {
            lemma_push_one(base, done, d@);
            done = done + seq![d@];
        }
    }
    assert(done =~= effect_rule_diags(contract@, policy@, path@));
}

/// Every rule a contract imposes on a node whose lock was accepted.
fn check_contract(node: &NodeInstance, contract: &Json, policy: &CompilePolicy, path: &str, diags: &mut Vec<CompileDiagnostic>)
    requires
        old(diags)@.len() <= diagnostic::MAX_DIAGNOSTICS,
    ensures
        diagnostic::diag_views(final(diags)@) == diagnostic::capped(
            diagnostic::diag_views(old(diags)@) + contract_diags(node@, contract@, policy@, path@),
        ),
        final(diags)@.len() <= diagnostic::MAX_DIAGNOSTICS,
{
    let ghost base = diagnostic::diag_views(diags@);
    check_effect_rules(contract, policy, path, diags);
    let ghost a = effect_rule_diags(contract@, policy@, path@);
    policy::check_budgets(contract, path, policy, diags);
    let ghost b = policy::budget_diags(contract@, path@, policy@);
    proof {
        diagnostic::lemma_capped_steps(base, a, b);
    }
    let null = Json::Null;
    let configuration = policy::field_of(contract, "configuration", &null);
    let schema_value = policy::field_of(configuration, "schema", &null);
    let at = concat(path, ".configuration");
    schema::validate_schema(&node.configuration, schema_value, at.as_str(), diags);
    let ghost c = schema::schema_diags(node.configuration@, schema_value@, at@);
    proof {
        diagnostic::lemma_capped_steps(base, a + b, c);
    }
    schema::scan_expressions(&node.configuration, at.as_str(), diags);
    let ghost e = schema::expression_diags(node.configuration@, at@);
    proof {
        diagnostic::lemma_capped_steps(base, a + b + c, e);
        assert(a + b + c + e =~= contract_diags(node@, contract@, policy@, path@));
    }
}

/// Whether an earlier node has the identity of node `i`.
fn repeats_identity(nodes: &[NodeInstance], i: usize) -> (r: bool)
    requires
        i < nodes@.len(),
    ensures
        r == repeats_id(model::node_views(nodes@), i as int),
{
    let ghost views = model::node_views(nodes@);
    let mut j: usize = 0;
    while j < i
        invariant
            0 <= j <= i,
            i < nodes@.len(),
            views == model::node_views(nodes@),
            forall|k: int| 0 <= k < j ==> views[k].id != views[i as int].id,
        decreases i - j,
    {
        if text::str_eq(nodes[j].id.as_str(), nodes[i].id.as_str()) {
            assert(views[j as int].id == views[i as int].id);
            return true;
        }
        j = j + 1;
    }
    false
}

/// Checks node `i`: its identity, its lock against the catalog, and, when
/// the lock is accepted, the rules of its contract. Returns the catalog
/// entry it resolved to and whether it is a source.
fn check_node<'a>(
    nodes: &[NodeInstance],
    catalog: &'a ContractCatalog,
    policy: &CompilePolicy,
    i: usize,
    diags: &mut Vec<CompileDiagnostic>,
) -> (r: (Option<&'a ContractEntry>, bool))
    requires
        i < nodes@.len(),
        old(diags)@.len() <= diagnostic::MAX_DIAGNOSTICS,
    ensures
        diagnostic::diag_views(final(diags)@) == diagnostic::capped(
            diagnostic::diag_views(old(diags)@) + node_diags(model::node_views(nodes@), catalog@, policy@, i as int),
        ),
        final(diags)@.len() <= diagnostic::MAX_DIAGNOSTICS,
        match r.0 {
            Some(e) => found_entry(model::node_views(nodes@), catalog@, i as int) == Some(e@),
            None => found_entry(model::node_views(nodes@), catalog@, i as int) is None,
        },
        r.1 == is_source_node(model::node_views(nodes@), catalog@, i as int),
{
    let ghost base = diagnostic::diag_views(diags@);
    let ghost views = model::node_views(nodes@);
    let node = &nodes[i];
    assert(views[i as int] == node@);
    let path = concat("nodes/", node.id.as_str());
    if repeats_identity(nodes, i) {
        let d = CompileDiagnostic::error(
            "duplicate_node_id",
            path.as_str(),
            text::owned("Node Instance identity appears more than once in the Workflow"),
        );
        diagnostic::push_diagnostic(diags, d);
        assert(base.push(d@) =~= base + node_diags(views, catalog@, policy@, i as int));
        return (None, false);
    }
    let key = catalog::lock_key(&node.contract_lock);
    let lock_path = concat(path.as_str(), ".contract_lock");
    let entry = match catalog.get(key.as_str()) {
        Some(e) => e,
        None => {
            let d = CompileDiagnostic::error(
                "unknown_contract_lock",
                lock_path.as_str(),
                text::owned("Node Contract Lock is not part of this Compatibility Profile catalog"),
            );
            diagnostic::push_diagnostic(diags, d);
            assert(base.push(d@) =~= base + node_diags(views, catalog@, policy@, i as int));
            return (None, false);
        },
    };
    if !node.contract_lock.same_as(&entry.lock) {
        let d = CompileDiagnostic::error(
            "contract_lock_digest_mismatch",
            lock_path.as_str(),
            text::owned("Node Contract Lock digest does not match the catalog contract"),
        );
        diagnostic::push_diagnostic(diags, d);
        assert(base.push(d@) =~= base + node_diags(views, catalog@, policy@, i as int));
        return (Some(entry), false);
    }
    if !text::str_eq(node.contract_lock.api_version.as_str(), plan::CONTRACT_API) {
        let mut message = text::owned("Node Contract api_version ");
        text::push_str(&mut message, node.contract_lock.api_version.as_str());
        text::push_str(&mut message, " is not accepted by this compiler");
        let d = CompileDiagnostic::error("unsupported_contract_api", lock_path.as_str(), message);
        diagnostic::push_diagnostic(diags, d);
        assert(base.push(d@) =~= base + node_diags(views, catalog@, policy@, i as int));
        return (Some(entry), false);
    }
    check_contract(node, &entry.contract, policy, path.as_str(), diags);
    let null = Json::Null;
    let activation = policy::field_of(&entry.contract, "activation", &null);
    let shape = policy::field_of(activation, "shape", &null);
    let is_source = match shape.as_str() {
        Some(s) => text::str_eq(s.as_str(), "source"),
        None => false,
    };
    (Some(entry), is_source)
}


/// Checks every node in order; returns each node's catalog entry and the
/// source nodes.
fn check_nodes<'a>(
    nodes: &[NodeInstance],
    catalog: &'a ContractCatalog,
    policy: &CompilePolicy,
    diags: &mut Vec<CompileDiagnostic>,
) -> (r: (Vec<Option<&'a ContractEntry>>, Vec<usize>))
    requires
        old(diags)@.len() <= diagnostic::MAX_DIAGNOSTICS,
    ensures
        diagnostic::diag_views(final(diags)@) == diagnostic::capped(
            diagnostic::diag_views(old(diags)@) + nodes_diags(model::node_views(nodes@), catalog@, policy@, nodes@.len()),
        ),
        final(diags)@.len() <= diagnostic::MAX_DIAGNOSTICS,
        r.0@.len() == nodes@.len(),
        forall|i: int| 0 <= i < nodes@.len() ==> match #[trigger] r.0@[i] {
            Some(e) => found_entry(model::node_views(nodes@), catalog@, i) == Some(e@),
            None => found_entry(model::node_views(nodes@), catalog@, i) is None,
        },
        topology::ints(r.1@) == source_nodes(model::node_views(nodes@), catalog@, nodes@.len()),
{
    let ghost base = diagnostic::diag_views(diags@);
    let ghost views = model::node_views(nodes@);
    let mut entries: Vec<Option<&'a ContractEntry>> = Vec::new();
    let mut sources: Vec<usize> = Vec::new();
    let mut i: usize = 0;
    proof {
        diagnostic::lemma_capped_empty(base);
        assert(base + nodes_diags(views, catalog@, policy@, 0) =~= base);
        assert(topology::ints(sources@) =~= Seq::<int>::empty());
    }
    while i < nodes.len()
        invariant
            0 <= i <= nodes@.len(),
            views == model::node_views(nodes@),
            diags@.len() <= diagnostic::MAX_DIAGNOSTICS,
            diagnostic::diag_views(diags@) == diagnostic::capped(base + nodes_diags(views, catalog@, policy@, i as nat)),
            entries@.len() == i,
            forall|k: int| 0 <= k < i ==> match #[trigger] entries@[k] {
                Some(e) => found_entry(views, catalog@, k) == Some(e@),
                None => found_entry(views, catalog@, k) is None,
            },
            topology::ints(sources@) == source_nodes(views, catalog@, i as nat),
        decreases nodes@.len() - i,
    {
        let (entry, is_source) = check_node(nodes, catalog, policy, i, diags);
        proof {
            diagnostic::lemma_capped_append(
                base + nodes_diags(views, catalog@, policy@, i as nat),
                node_diags(views, catalog@, policy@, i as int),
            );
            assert(base + nodes_diags(views, catalog@, policy@, i as nat) + node_diags(views, catalog@, policy@, i as int)
                =~= base + nodes_diags(views, catalog@, policy@, (i + 1) as nat));
        }
        entries.push(entry);
        if is_source {
            proof {
                topology::lemma_ints_push(sources@, i);
            }
            sources.push(i);
        }
        i = i + 1;
    }
    (entries, sources)
}

/// How many nodes carry `name`.
fn count_name(nodes: &[NodeInstance], name: &str) -> (c: usize)
    ensures
        c == name_count(model::node_views(nodes@), name@, nodes@.len()),
{
    let ghost views = model::node_views(nodes@);
    let mut c: usize = 0;
    let mut i: usize = 0;
    while i < nodes.len()
        invariant
            0 <= i <= nodes@.len(),
            views == model::node_views(nodes@),
            c == name_count(views, name@, i as nat),
            c <= i,
        decreases nodes@.len() - i,
    {
        if text::str_eq(nodes[i].name.as_str(), name) {
            c = c + 1;
        }
        i = i + 1;
    }
    c
}

/// Whether node `a` sorts before node `b` by name, then position.
fn sorts_before(nodes: &[NodeInstance], a: usize, b: usize) -> (r: bool)
    requires
        a < nodes@.len(),
        b < nodes@.len(),
    ensures
        r == name_before(model::node_views(nodes@), a as int, b as int),
{
    let x = nodes[a].name.as_str();
    let y = nodes[b].name.as_str();
    text::str_lt(x, y) || (text::str_eq(x, y) && a < b)
}

/// `insert_by_name` puts `x` just before the first node that sorts after it.
proof fn lemma_insert_by_name(nodes: Seq<NodeV>, s: Seq<int>, x: int, p: int)
    requires
        0 <= p <= s.len(),
        forall|k: int| 0 <= k < p ==> !name_before(nodes, x, #[trigger] s[k]),
        p < s.len() ==> name_before(nodes, x, s[p]),
    ensures
        insert_by_name(nodes, s, x) == s.insert(p, x),
    decreases s.len(),
{
    if s.len() == 0 {
        assert(s.insert(p, x) =~= seq![x]);
    } else if p == 0 {
        assert(s.insert(0, x) =~= seq![x] + s);
    } else {
        assert(!name_before(nodes, x, s[0]));
        lemma_insert_by_name(nodes, s.drop_first(), x, p - 1);
        assert(seq![s[0]] + s.drop_first().insert(p - 1, x) =~= s.insert(p, x));
    }
}

/// The designated warnings for nodes that share a display name, in name order.
fn warn_shared_names(nodes: &[NodeInstance], diags: &mut Vec<CompileDiagnostic>)
    requires
        old(diags)@.len() <= diagnostic::MAX_DIAGNOSTICS,
    ensures
        diagnostic::diag_views(final(diags)@) == diagnostic::capped(
            diagnostic::diag_views(old(diags)@) + name_diags(model::node_views(nodes@)),
        ),
        final(diags)@.len() <= diagnostic::MAX_DIAGNOSTICS,
{
    let ghost base = diagnostic::diag_views(diags@);
    let ghost views = model::node_views(nodes@);
    let mut sorted: Vec<usize> = Vec::new();
    let mut i: usize = 0;
    assert(topology::ints(sorted@) =~= Seq::<int>::empty());
    while i < nodes.len()
        invariant
            0 <= i <= nodes@.len(),
            views == model::node_views(nodes@),
            views.len() == nodes@.len(),
            topology::ints(sorted@) == shared_names(views, i as nat),
            forall|k: int| 0 <= k < sorted@.len() ==> (#[trigger] sorted@[k]) < i,
        decreases nodes@.len() - i,
    {
        if count_name(nodes, nodes[i].name.as_str()) > 1 {
            let ghost s = topology::ints(sorted@);
            let mut p: usize = 0;
            while p < sorted.len() && !sorts_before(nodes, i, sorted[p])
                invariant
                    0 <= p <= sorted@.len(),
                    i < nodes@.len(),
                    s == topology::ints(sorted@),
                    views == model::node_views(nodes@),
                    forall|k: int| 0 <= k < sorted@.len() ==> (#[trigger] sorted@[k]) < i,
                    forall|k: int| 0 <= k < p ==> !name_before(views, i as int, #[trigger] s[k]),
                decreases sorted@.len() - p,
            {
                p = p + 1;
            }
            proof {
                lemma_insert_by_name(views, s, i as int, p as int);
            }
            sorted.insert(p, i);
            proof {
                assert(topology::ints(sorted@) =~= s.insert(p as int, i as int));
                assert forall|k: int| 0 <= k < sorted@.len() implies (#[trigger] sorted@[k]) < i + 1 by {
                    if k < p {
                        assert(sorted@[k] == old_sorted_at(s, k));
                    }
                }
            }
        }
        i = i + 1;
    }
    let ghost order = shared_names(views, nodes@.len());
    let ghost warnings = name_diags(views);
    assert(warnings.len() == order.len());
    let mut j: usize = 0;
    proof {
        diagnostic::lemma_capped_empty(base);
        assert(base + warnings.take(0) =~= base);
    }
    while j < sorted.len()
        invariant
            0 <= j <= sorted@.len(),
            views == model::node_views(nodes@),
            views.len() == nodes@.len(),
            topology::ints(sorted@) == order,
            order == shared_names(views, nodes@.len()),
            warnings == name_diags(views),
            warnings.len() == order.len(),
            forall|k: int| 0 <= k < sorted@.len() ==> (#[trigger] sorted@[k]) < nodes@.len(),
            diags@.len() <= diagnostic::MAX_DIAGNOSTICS,
            diagnostic::diag_views(diags@) == diagnostic::capped(base + warnings.take(j as int)),
        decreases sorted@.len() - j,
    {
        let k = sorted[j];
        assert(order[j as int] == k as int);
        let node = &nodes[k];
        assert(views[k as int] == node@);
        let path = concat("nodes/", node.id.as_str());
        let mut message = text::owned("Node Instances share the display name ");
        text::push_str(&mut message, node.name.as_str());
        text::push_str(&mut message, "; display names are not unique identities");
        let d = CompileDiagnostic::warning("duplicate_node_name", path.as_str(), message, true);
        diagnostic::push_diagnostic(diags, d);
        proof {
            assert(warnings[j as int] == shared_name_warning(views[k as int]));
            assert(d@ == warnings[j as int]);
            lemma_push_one(base, warnings.take(j as int), d@);
            assert(warnings.take(j as int) + seq![d@] =~= warnings.take(j + 1));
        }
        j = j + 1;
    }
    assert(warnings.take(j as int) =~= warnings);
}

spec fn old_sorted_at(s: Seq<int>, k: int) -> int {
    s[k]
}


/// The rule that a Workflow has exactly one source.
fn check_source_count(count: usize, diags: &mut Vec<CompileDiagnostic>)
    requires
        old(diags)@.len() <= diagnostic::MAX_DIAGNOSTICS,
    ensures
        diagnostic::diag_views(final(diags)@) == diagnostic::capped(
            diagnostic::diag_views(old(diags)@) + source_count_diags(count as nat),
        ),
        final(diags)@.len() <= diagnostic::MAX_DIAGNOSTICS,
{
    let ghost base = diagnostic::diag_views(diags@);
    if count == 0 {
        let d = CompileDiagnostic::error(
            "workflow_requires_source",
            "workflow",
            text::owned("Workflow requires exactly one source Node Instance; add a Manual Trigger"),
        );
        diagnostic::push_diagnostic(diags, d);
        assert(base.push(d@) =~= base + source_count_diags(count as nat));
    } else if count > 1 {
        let mut message = text::owned("Workflow declares ");
        let digits = text::decimal_chars(count as u64);
        text::push_chars(&mut message, digits.as_slice());
        text::push_str(&mut message, " source Node Instances; exactly one is allowed");
        let d = CompileDiagnostic::error("multiple_triggers", "workflow", message);
        diagnostic::push_diagnostic(diags, d);
        assert(base.push(d@) =~= base + source_count_diags(count as nat));
    } else {
        proof {
            diagnostic::lemma_capped_empty(base);
        }
    }
}

/// Reads one endpoint of a Connection.
fn read_endpoint(value: &Json, side: &str, port_key: &str, path: &str, diags: &mut Vec<CompileDiagnostic>) -> (r:
    Option<(String, String)>)
    requires
        old(diags)@.len() <= diagnostic::MAX_DIAGNOSTICS,
    ensures
        diagnostic::diag_views(final(diags)@) == diagnostic::capped(
            diagnostic::diag_views(old(diags)@) + endpoint(value@, side@, port_key@, path@).0,
        ),
        final(diags)@.len() <= diagnostic::MAX_DIAGNOSTICS,
        match r {
            Some((n, p)) => endpoint(value@, side@, port_key@, path@).1 == Some((n@, p@)),
            None => endpoint(value@, side@, port_key@, path@).1 is None,
        },
{
    let ghost base = diagnostic::diag_views(diags@);
    proof {
        diagnostic::lemma_capped_empty(base);
    }
    let o = match value {
        Json::Object(o) => o,
        _ => {
            return None;
        },
    };
    proof {
        json::lemma_jv_entries(o@);
    }
    if o.len() != 2 || json::member(o, "node").is_none() || json::member(o, port_key).is_none() {
        let mut message = text::owned("Connection endpoint ");
        text::push_str(&mut message, side);
        text::push_str(&mut message, " must declare exactly node and ");
        text::push_str(&mut message, port_key);
        let d = CompileDiagnostic::error("invalid_connection", path, message);
        diagnostic::push_diagnostic(diags, d);
        assert(base.push(d@) =~= base + endpoint(value@, side@, port_key@, path@).0);
        return None;
    }
    let null = Json::Null;
    let node = match policy::field_of(value, "node", &null).as_str() {
        Some(n) => n,
        None => {
            return None;
        },
    };
    let port = match policy::field_of(value, port_key, &null).as_str() {
        Some(p) => p,
        None => {
            return None;
        },
    };
    if text::is_empty(node.as_str()) || text::is_empty(port.as_str()) {
        let d = CompileDiagnostic::error(
            "invalid_connection",
            path,
            text::owned("Connection endpoint identities must be non-empty"),
        );
        diagnostic::push_diagnostic(diags, d);
        assert(base.push(d@) =~= base + endpoint(value@, side@, port_key@, path@).0);
        return None;
    }
    Some((node.clone(), port.clone()))
}

/// The duplicate-recognition key of a Connection.
fn edge_key_of(c: &PlanConnection) -> (r: String)
    ensures
        r@ == edge_key(c@),
{
    let mut r = text::owned(c.source.node.as_str());
    text::push_str(&mut r, "|");
    text::push_str(&mut r, c.source.port.as_str());
    text::push_str(&mut r, "|");
    text::push_str(&mut r, c.target.node.as_str());
    text::push_str(&mut r, "|");
    text::push_str(&mut r, c.target.port.as_str());
    r
}

/// Whether one of `accepted` has the key of `c`.
fn repeats_edge(accepted: &Vec<PlanConnection>, c: &PlanConnection) -> (r: bool)
    ensures
        r == exists|k: int| 0 <= k < accepted@.len() && edge_key(#[trigger] plan::conn_views(accepted@)[k]) == edge_key(c@),
{
    let ghost views = plan::conn_views(accepted@);
    let key = edge_key_of(c);
    let mut i: usize = 0;
    while i < accepted.len()
        invariant
            0 <= i <= accepted@.len(),
            views == plan::conn_views(accepted@),
            key@ == edge_key(c@),
            forall|k: int| 0 <= k < i ==> edge_key(#[trigger] views[k]) != edge_key(c@),
        decreases accepted@.len() - i,
    {
        let other = edge_key_of(&accepted[i]);
        if text::str_eq(other.as_str(), key.as_str()) {
            assert(edge_key(views[i as int]) == edge_key(c@));
            return true;
        }
        i = i + 1;
    }
    false
}

/// `connections[<index>]`.
fn connection_path_of(index: usize) -> (r: String)
    ensures
        r@ == connection_path(index as nat),
{
    let mut r = text::owned("connections[");
    let digits = text::decimal_chars(index as u64);
    text::push_chars(&mut r, digits.as_slice());
    text::push_str(&mut r, "]");
    r
}

/// Reads Connection `index`, given those accepted before it.
fn read_connection(
    raw: &Json,
    index: usize,
    accepted: &Vec<PlanConnection>,
    diags: &mut Vec<CompileDiagnostic>,
) -> (r: Option<PlanConnection>)
    requires
        old(diags)@.len() <= diagnostic::MAX_DIAGNOSTICS,
    ensures
        diagnostic::diag_views(final(diags)@) == diagnostic::capped(
            diagnostic::diag_views(old(diags)@) + connection_step(
                plan::conn_views(accepted@),
                raw@,
                index as nat,
            ).0,
        ),
        final(diags)@.len() <= diagnostic::MAX_DIAGNOSTICS,
        match r {
            Some(c) => connection_step(plan::conn_views(accepted@), raw@, index as nat).1 == Some(c@),
            None => connection_step(plan::conn_views(accepted@), raw@, index as nat).1 is None,
        },
{
    let ghost base = diagnostic::diag_views(diags@);
    let ghost acc = plan::conn_views(accepted@);
    let ghost step = connection_step(acc, raw@, index as nat);
    let path = connection_path_of(index);
    let o = match raw {
        Json::Object(o) => o,
        _ => {
            let d = CompileDiagnostic::error(
                "invalid_connection",
                path.as_str(),
                text::owned("Connection must declare exactly source and target endpoints"),
            );
            diagnostic::push_diagnostic(diags, d);
            assert(base.push(d@) =~= base + step.0);
            return None;
        },
    };
    proof {
        json::lemma_jv_entries(o@);
    }
    if o.len() != 2 || json::member(o, "source").is_none() || json::member(o, "target").is_none() {
        let d = CompileDiagnostic::error(
            "invalid_connection",
            path.as_str(),
            text::owned("Connection must declare exactly source and target endpoints"),
        );
        diagnostic::push_diagnostic(diags, d);
        assert(base.push(d@) =~= base + step.0);
        return None;
    }
    let null = Json::Null;
    let source_path = concat(path.as_str(), ".source");
    let source = read_endpoint(
        policy::field_of(raw, "source", &null),
        "source",
        "output_port",
        source_path.as_str(),
        diags,
    );
    let (source_node, source_port) = match source {
        Some(s) => s,
        None => {
            return None;
        },
    };
    let ghost mid = diagnostic::diag_views(diags@);
    assert(endpoint(json::field(raw@, "source"@), "source"@, "output_port"@, source_path@).0 =~= Seq::<DiagV>::empty());
    assert(mid == diagnostic::capped(base)) by {
        assert(base + Seq::<DiagV>::empty() =~= base);
    }
    let target_path = concat(path.as_str(), ".target");
    let target = read_endpoint(
        policy::field_of(raw, "target", &null),
        "target",
        "input_port",
        target_path.as_str(),
        diags,
    );
    proof {
        diagnostic::lemma_capped_append(base, endpoint(json::field(raw@, "target"@), "target"@, "input_port"@, target_path@).0);
    }
    let (target_node, target_port) = match target {
        Some(t) => t,
        None => {
            return None;
        },
    };
    proof {
        diagnostic::lemma_capped_empty(base);
        assert(base + Seq::<DiagV>::empty() =~= base);
    }
    if text::str_eq(source_node.as_str(), target_node.as_str()) {
        let d = CompileDiagnostic::error(
            "self_connection",
            path.as_str(),
            text::owned("A Connection cannot route a Node Instance to itself without an explicit loop construct"),
        );
        diagnostic::push_diagnostic(diags, d);
        assert(base.push(d@) =~= base + step.0);
        return None;
    }
    let c = PlanConnection {
        source: PlanPort { node: source_node, port: source_port },
        target: PlanPort { node: target_node, port: target_port },
    };
    if repeats_edge(accepted, &c) {
        let d = CompileDiagnostic::error(
            "duplicate_connection",
            path.as_str(),
            text::owned("The same source and target port pair is declared more than once"),
        );
        diagnostic::push_diagnostic(diags, d);
        assert(base.push(d@) =~= base + step.0);
        return None;
    }
    assert(base + step.0 =~= base);
    Some(c)
}

/// Reads every Connection; returns the accepted ones.
fn read_connections(connections: &Vec<Json>, diags: &mut Vec<CompileDiagnostic>) -> (r: Vec<PlanConnection>)
    requires
        old(diags)@.len() <= diagnostic::MAX_DIAGNOSTICS,
    ensures
        diagnostic::diag_views(final(diags)@) == diagnostic::capped(
            diagnostic::diag_views(old(diags)@) + connections_read(json::jvs(connections@), connections@.len()).0,
        ),
        final(diags)@.len() <= diagnostic::MAX_DIAGNOSTICS,
        plan::conn_views(r@) == connections_read(json::jvs(connections@), connections@.len()).1,
{
    let ghost base = diagnostic::diag_views(diags@);
    proof {
        json::lemma_jvs(connections@);
        diagnostic::lemma_capped_empty(base);
    }
    let ghost cv = json::jvs(connections@);
    let mut accepted: Vec<PlanConnection> = Vec::new();
    let mut i: usize = 0;
    assert(plan::conn_views(accepted@) =~= Seq::<ConnectionV>::empty());
    assert(base + Seq::<DiagV>::empty() =~= base);
    while i < connections.len()
        invariant
            0 <= i <= connections@.len(),
            cv == json::jvs(connections@),
            cv.len() == connections@.len(),
            forall|k: int| 0 <= k < connections@.len() ==> #[trigger] cv[k] == json::jv(connections@[k]),
            diags@.len() <= diagnostic::MAX_DIAGNOSTICS,
            diagnostic::diag_views(diags@) == diagnostic::capped(base + connections_read(cv, i as nat).0),
            plan::conn_views(accepted@) == connections_read(cv, i as nat).1,
        decreases connections@.len() - i,
    {
        let ghost prior = connections_read(cv, i as nat);
        let c = read_connection(&connections[i], i, &accepted, diags);
        let ghost step = connection_step(prior.1, cv[i as int], i as nat);
        proof {
            diagnostic::lemma_capped_append(base + prior.0, step.0);
            assert(base + prior.0 + step.0 =~= base + connections_read(cv, (i + 1) as nat).0);
        }
        match c {
            Some(c) => {
                let ghost cview = c@;
                accepted.push(c);
                assert(plan::conn_views(accepted@) =~= prior.1.push(cview));
            },
            None => {},
        }
        i = i + 1;
    }
    accepted
}


/// The position of the last node with identity `id`.
fn last_index_of(nodes: &[NodeInstance], id: &str) -> (r: Option<usize>)
    ensures
        match r {
            Some(i) => i < nodes@.len() && last_index(model::node_views(nodes@), id@, nodes@.len()) == Some(i as int),
            None => last_index(model::node_views(nodes@), id@, nodes@.len()) is None,
        },
{
    let ghost views = model::node_views(nodes@);
    let mut i: usize = nodes.len();
    while i > 0
        invariant
            0 <= i <= nodes@.len(),
            views == model::node_views(nodes@),
            last_index(views, id@, nodes@.len()) == last_index(views, id@, i as nat),
        decreases i,
    {
        if text::str_eq(nodes[i - 1].id.as_str(), id) {
            return Some(i - 1);
        }
        i = i - 1;
    }
    None
}

/// Whether a contract declares port `port` under `ports.<which>`.
fn declares_port(contract: &Json, which: &str, port: &str) -> (r: bool)
    ensures
        r == port_ids(contract@, which@).contains(port@),
{
    let null = Json::Null;
    let ports = policy::field_of(contract, "ports", &null);
    let listed = policy::field_of(ports, which, &null);
    let list = match listed.as_array() {
        Some(list) => list,
        None => {
            return false;
        },
    };
    proof {
        json::lemma_jvs(list@);
    }
    let ghost lv = json::jvs(list@);
    let mut found = false;
    let mut i: usize = 0;
    assert(lv.take(0) =~= Seq::<JsonV>::empty());
    while i < list.len()
        invariant
            0 <= i <= list@.len(),
            lv == json::jvs(list@),
            lv.len() == list@.len(),
            forall|k: int| 0 <= k < list@.len() ==> #[trigger] lv[k] == json::jv(list@[k]),
            found == ids_of(lv.take(i as int)).contains(port@),
            null == Json::Null,
        decreases list@.len() - i,
    {
        let ghost before = ids_of(lv.take(i as int));
        assert(lv.take(i + 1).drop_last() =~= lv.take(i as int));
        assert(lv.take(i + 1).last() == json::jv(list@[i as int]));
        let id = policy::field_of(&list[i], "id", &null);
        if let Some(name) = id.as_str() {
            let same = text::str_eq(name.as_str(), port);
            proof {
                let after = ids_of(lv.take(i + 1));
                assert(after == before.push(name@));
                if after.contains(port@) {
                    let k = choose|k: int| 0 <= k < after.len() && after[k] == port@;
                    if k < before.len() {
                        assert(before[k] == port@);
                    }
                }
                if before.contains(port@) {
                    let k = choose|k: int| 0 <= k < before.len() && before[k] == port@;
                    assert(after[k] == port@);
                }
                if same {
                    assert(after[before.len() as int] == port@);
                }
            }
            found = found || same;
        } else {
            assert(ids_of(lv.take(i + 1)) == before);
        }
        i = i + 1;
    }
    assert(lv.take(i as int) =~= lv);
    found
}

/// Whether `entries` holds each node's catalog entry.
pub open spec fn entries_match(entries: Seq<Option<&ContractEntry>>, nodes: Seq<NodeV>, cat: Seq<EntryV>) -> bool {
    &&& entries.len() == nodes.len()
    &&& forall|i: int| 0 <= i < nodes.len() ==> match #[trigger] entries[i] {
        Some(e) => found_entry(nodes, cat, i) == Some(e@),
        None => found_entry(nodes, cat, i) is None,
    }
}

/// Resolves one accepted Connection against the nodes.
fn resolve_connection(
    nodes: &[NodeInstance],
    catalog: &ContractCatalog,
    entries: &Vec<Option<&ContractEntry>>,
    c: &PlanConnection,
    diags: &mut Vec<CompileDiagnostic>,
) -> (r: (Option<usize>, Option<(usize, usize)>))
    requires
        old(diags)@.len() <= diagnostic::MAX_DIAGNOSTICS,
        entries_match(entries@, model::node_views(nodes@), catalog@),
    ensures
        diagnostic::diag_views(final(diags)@) == diagnostic::capped(
            diagnostic::diag_views(old(diags)@) + resolve(model::node_views(nodes@), catalog@, c@).0,
        ),
        final(diags)@.len() <= diagnostic::MAX_DIAGNOSTICS,
        match r.0 {
            Some(s) => resolve(model::node_views(nodes@), catalog@, c@).1 == Some(s as int) && s < nodes@.len(),
            None => resolve(model::node_views(nodes@), catalog@, c@).1 is None,
        },
        match r.1 {
            Some((s, t)) => resolve(model::node_views(nodes@), catalog@, c@).2 == Some((s as int, t as int))
                && s < nodes@.len() && t < nodes@.len(),
            None => resolve(model::node_views(nodes@), catalog@, c@).2 is None,
        },
{
    let ghost base = diagnostic::diag_views(diags@);
    let ghost views = model::node_views(nodes@);
    let ghost res = resolve(views, catalog@, c@);
    proof {
        diagnostic::lemma_capped_empty(base);
    }
    let source_index = last_index_of(nodes, c.source.node.as_str());
    let target_index = last_index_of(nodes, c.target.node.as_str());
    let (si, ti) = match (source_index, target_index) {
        (Some(si), Some(ti)) => (si, ti),
        _ => {
            let path = concat("connections/", c.source.node.as_str());
            let d = CompileDiagnostic::error(
                "connection_unknown_node",
                path.as_str(),
                text::owned("Connection references a Node Instance that does not exist"),
            );
            diagnostic::push_diagnostic(diags, d);
            assert(base.push(d@) =~= base + res.0);
            return (None, None);
        },
    };
    let source_entry = match entries[si] {
        Some(e) => e,
        None => {
            return (None, None);
        },
    };
    if !declares_port(&source_entry.contract, "outputs", c.source.port.as_str()) {
        let mut path = text::owned("connections/");
        let digits = text::decimal_chars(si as u64);
        text::push_chars(&mut path, digits.as_slice());
        text::push_str(&mut path, ".source");
        let mut message = text::owned("output port ");
        text::push_str(&mut message, c.source.port.as_str());
        text::push_str(&mut message, " is not declared by the source contract");
        let d = CompileDiagnostic::error("connection_unknown_output_port", path.as_str(), message);
        diagnostic::push_diagnostic(diags, d);
        assert(base.push(d@) =~= base + res.0);
        return (None, None);
    }
    let null = Json::Null;
    let activation = policy::field_of(&source_entry.contract, "activation", &null);
    let shape = policy::field_of(activation, "shape", &null);
    let is_source = match shape.as_str() {
        Some(s) => text::str_eq(s.as_str(), "source"),
        None => false,
    };
    let trigger = if is_source { Some(si) } else { None };
    let target_entry = match entries[ti] {
        Some(e) => e,
        None => {
            return (trigger, None);
        },
    };
    if !declares_port(&target_entry.contract, "inputs", c.target.port.as_str()) {
        let mut path = text::owned("connections/");
        let digits = text::decimal_chars(ti as u64);
        text::push_chars(&mut path, digits.as_slice());
        text::push_str(&mut path, ".target");
        let mut message = text::owned("input port ");
        text::push_str(&mut message, c.target.port.as_str());
        text::push_str(&mut message, " is not declared by the target contract");
        let d = CompileDiagnostic::error("connection_unknown_input_port", path.as_str(), message);
        diagnostic::push_diagnostic(diags, d);
        assert(base.push(d@) =~= base + res.0);
        return (trigger, None);
    }
    (trigger, Some((si, ti)))
}

/// Resolves every accepted Connection: which nodes' trigger outputs are
/// used, and the edges between node positions.
fn resolve_connections(
    nodes: &[NodeInstance],
    catalog: &ContractCatalog,
    entries: &Vec<Option<&ContractEntry>>,
    accepted: &Vec<PlanConnection>,
    diags: &mut Vec<CompileDiagnostic>,
) -> (r: (Vec<bool>, Vec<(usize, usize)>))
    requires
        old(diags)@.len() <= diagnostic::MAX_DIAGNOSTICS,
        entries_match(entries@, model::node_views(nodes@), catalog@),
    ensures
        ({
            let res = resolve_all(model::node_views(nodes@), catalog@, plan::conn_views(accepted@), accepted@.len());
            &&& diagnostic::diag_views(final(diags)@) == diagnostic::capped(diagnostic::diag_views(old(diags)@) + res.0)
            &&& final(diags)@.len() <= diagnostic::MAX_DIAGNOSTICS
            &&& r.0@.len() == nodes@.len()
            &&& forall|i: int| 0 <= i < nodes@.len() ==> #[trigger] r.0@[i] == res.1.contains(i)
            &&& r.1@ == res.2
            &&& topology::edges_within(r.1@, nodes@.len())
        }),
{
    let ghost base = diagnostic::diag_views(diags@);
    let ghost views = model::node_views(nodes@);
    let ghost cv = plan::conn_views(accepted@);
    let mut used: Vec<bool> = Vec::new();
    let mut k: usize = 0;
    while k < nodes.len()
        invariant
            0 <= k <= nodes@.len(),
            used@.len() == k,
            forall|i: int| 0 <= i < k ==> !(#[trigger] used@[i]),
        decreases nodes@.len() - k,
    {
        used.push(false);
        k = k + 1;
    }
    let mut edges: Vec<(usize, usize)> = Vec::new();
    let mut i: usize = 0;
    proof {
        diagnostic::lemma_capped_empty(base);
        assert(base + Seq::<DiagV>::empty() =~= base);
        assert(edges@ =~= Seq::<(usize, usize)>::empty());
    }
    while i < accepted.len()
        invariant
            0 <= i <= accepted@.len(),
            views == model::node_views(nodes@),
            cv == plan::conn_views(accepted@),
            entries_match(entries@, views, catalog@),
            diags@.len() <= diagnostic::MAX_DIAGNOSTICS,
            diagnostic::diag_views(diags@) == diagnostic::capped(base + resolve_all(views, catalog@, cv, i as nat).0),
            used@.len() == nodes@.len(),
            forall|j: int| 0 <= j < nodes@.len() ==> #[trigger] used@[j] == resolve_all(views, catalog@, cv, i as nat).1.contains(j),
            edges@ == resolve_all(views, catalog@, cv, i as nat).2,
            topology::edges_within(edges@, nodes@.len()),
        decreases accepted@.len() - i,
    {
        let ghost prior = resolve_all(views, catalog@, cv, i as nat);
        assert(cv[i as int] == accepted@[i as int]@);
        let (trigger, edge) = resolve_connection(nodes, catalog, entries, &accepted[i], diags);
        let ghost res = resolve(views, catalog@, cv[i as int]);
        proof {
            diagnostic::lemma_capped_append(base + prior.0, res.0);
            assert(base + prior.0 + res.0 =~= base + resolve_all(views, catalog@, cv, (i + 1) as nat).0);
        }
        if let Some(s) = trigger {
            used.set(s, true);
        }
        if let Some(e) = edge {
            edges.push(e);
        }
        proof {
            let next = resolve_all(views, catalog@, cv, (i + 1) as nat);
            assert forall|j: int| 0 <= j < nodes@.len() implies #[trigger] used@[j] == next.1.contains(j) by {
                if let Some(s) = trigger {
                    if j != s as int {
                        assert(next.1.contains(j) == prior.1.contains(j));
                    }
                }
            }
            assert forall|q: int| 0 <= q < edges@.len() implies (#[trigger] edges@[q]).0 < nodes@.len()
                && edges@[q].1 < nodes@.len() by {
                if q < prior.2.len() {
                    assert(edges@[q] == prior.2[q]);
                }
            }
        }
        i = i + 1;
    }
    (used, edges)
}


/// The strings of a JSON array, in order.
fn strings_in(list: &Vec<Json>) -> (r: Vec<String>)
    ensures
        policy::string_views(r@) == schema::strings_of(json::jvs(list@)),
{
    proof {
        json::lemma_jvs(list@);
    }
    let ghost lv = json::jvs(list@);
    let mut r: Vec<String> = Vec::new();
    let mut i: usize = 0;
    assert(lv.take(0) =~= Seq::<JsonV>::empty());
    assert(policy::string_views(r@) =~= Seq::<Seq<char>>::empty());
    while i < list.len()
        invariant
            0 <= i <= list@.len(),
            lv == json::jvs(list@),
            lv.len() == list@.len(),
            forall|k: int| 0 <= k < list@.len() ==> #[trigger] lv[k] == json::jv(list@[k]),
            policy::string_views(r@) == schema::strings_of(lv.take(i as int)),
        decreases list@.len() - i,
    {
        assert(lv.take(i + 1).drop_last() =~= lv.take(i as int));
        assert(lv.take(i + 1).last() == json::jv(list@[i as int]));
        if let Json::String(t) = &list[i] {
            let ghost before = policy::string_views(r@);
            r.push(t.clone());
            assert(policy::string_views(r@) =~= before.push(t@));
        }
        i = i + 1;
    }
    assert(lv.take(i as int) =~= lv);
    r
}

/// A string member's text, or the empty string.
fn text_of(value: &Json) -> (r: String)
    ensures
        r@ == str_or_empty(value@),
{
    match value.as_str() {
        Some(t) => t.clone(),
        None => String::new(),
    }
}

/// The planned form of a node whose contract is `e`.
fn plan_node(node: &NodeInstance, e: &ContractEntry, digest: &String, depth: u64) -> (r: PlanNode)
    ensures
        r@ == planned_node(node@, e@, digest@, depth as int),
{
    let null = Json::Null;
    let c = &e.contract;
    let activation = policy::field_of(c, "activation", &null);
    let effects = policy::field_of(c, "effects", &null);
    let capabilities = match policy::field_of(c, "capabilities", &null).as_array() {
        Some(list) => strings_in(list),
        None => Vec::new(),
    };
    let r = PlanNode {
        instance_id: node.id.clone(),
        name: node.name.clone(),
        contract: e.lock.duplicate(),
        configuration_digest: digest.clone(),
        activation: PlanActivation {
            shape: text_of(policy::field_of(activation, "shape", &null)),
            ordering: text_of(policy::field_of(activation, "ordering", &null)),
            bounded_batch: json::clone_json(policy::field_of(activation, "bounded_batch", &null)),
        },
        effects: PlanEffects {
            class: text_of(policy::field_of(effects, "class", &null)),
            deterministic: policy::field_of(effects, "deterministic", &null).as_bool() == Some(true),
            idempotent: policy::field_of(effects, "idempotent", &null).as_bool() == Some(true),
            retry: text_of(policy::field_of(effects, "retry", &null)),
            reconciliation: text_of(policy::field_of(effects, "reconciliation", &null)),
            approval_required: policy::field_of(effects, "approval_required", &null).as_bool() == Some(true),
        },
        capabilities,
        budgets: PlanBudgets { default: policy::budget_from(c, "default"), hard: policy::budget_from(c, "hard") },
        lane: text::owned(plan::LANE_INLINE_NATIVE),
        depth,
    };
    assert(r@.capabilities =~= declared_capabilities(c@));
    r
}

/// A lock name, by value.
pub open spec fn name_view(x: (String, String, String)) -> LockName {
    (x.0@, x.1@, x.2@)
}

/// The lock names of a list, by value.
pub open spec fn name_views(v: Seq<(String, String, String)>) -> Seq<LockName> {
    v.map_values(|x: (String, String, String)| name_view(x))
}

/// Whether lock name `a` sorts before `b`.
fn lock_name_before(a: &(String, String, String), b: &(String, String, String)) -> (r: bool)
    ensures
        r == lock_name_lt(name_view(*a), name_view(*b)),
{
    text::str_lt(a.0.as_str(), b.0.as_str()) || (text::str_eq(a.0.as_str(), b.0.as_str()) && (text::str_lt(
        a.1.as_str(),
        b.1.as_str(),
    ) || (text::str_eq(a.1.as_str(), b.1.as_str()) && text::str_lt(a.2.as_str(), b.2.as_str()))))
}

/// Whether two lock names are the same.
fn lock_name_same(a: &(String, String, String), b: &(String, String, String)) -> (r: bool)
    ensures
        r == (name_view(*a) == name_view(*b)),
{
    text::str_eq(a.0.as_str(), b.0.as_str()) && text::str_eq(a.1.as_str(), b.1.as_str()) && text::str_eq(
        a.2.as_str(),
        b.2.as_str(),
    )
}

/// Where `insert_lock_name` puts a name.
proof fn lemma_insert_lock_name(s: Seq<LockName>, x: LockName, p: int)
    requires
        0 <= p <= s.len(),
        forall|k: int| 0 <= k < p ==> #[trigger] s[k] != x && !lock_name_lt(x, s[k]),
        p < s.len() ==> (s[p] == x || lock_name_lt(x, s[p])),
    ensures
        insert_lock_name(s, x) == if p < s.len() && s[p] == x {
            s
        } else {
            s.insert(p, x)
        },
    decreases s.len(),
{
    if s.len() == 0 {
        assert(s.insert(p, x) =~= seq![x]);
    } else if p == 0 {
        assert(s.insert(0, x) =~= seq![x] + s);
    } else {
        assert(s[0] != x && !lock_name_lt(x, s[0]));
        lemma_insert_lock_name(s.drop_first(), x, p - 1);
        if p < s.len() && s[p] == x {
            assert(seq![s[0]] + s.drop_first() =~= s);
        } else {
            assert(seq![s[0]] + s.drop_first().insert(p - 1, x) =~= s.insert(p, x));
        }
    }
}

/// Adds a lock name in order, once.
fn add_lock_name(names: &mut Vec<(String, String, String)>, x: (String, String, String))
    ensures
        name_views(final(names)@) == insert_lock_name(name_views(old(names)@), name_view(x)),
{
    let ghost s = name_views(names@);
    let mut p: usize = 0;
    while p < names.len() && !lock_name_same(&names[p], &x) && !lock_name_before(&x, &names[p])
        invariant
            0 <= p <= names@.len(),
            s == name_views(names@),
            names@ == old(names)@,
            forall|k: int| 0 <= k < p ==> #[trigger] s[k] != name_view(x) && !lock_name_lt(name_view(x), s[k]),
        decreases names@.len() - p,
    {
        p = p + 1;
    }
    proof {
        lemma_insert_lock_name(s, name_view(x), p as int);
    }
    if p < names.len() && lock_name_same(&names[p], &x) {
        return;
    }
    let ghost xv = name_view(x);
    names.insert(p, x);
    assert(name_views(names@) =~= s.insert(p as int, xv));
}

/// Builds the plan from the checked document.
fn build_plan(
    document: &WorkflowDraft,
    catalog: &ContractCatalog,
    entries: &Vec<Option<&ContractEntry>>,
    document_digest: &str,
    configuration_digests: &Vec<String>,
    order: &Vec<usize>,
    depth: &Vec<u64>,
    connections: Vec<PlanConnection>,
) -> (plan: ExecutionPlan)
    requires
        entries_match(entries@, document@.nodes, catalog@),
        configuration_digests@.len() == document.nodes@.len(),
        depth@.len() == document.nodes@.len(),
        forall|k: int| 0 <= k < order@.len() ==> (#[trigger] order@[k]) < document.nodes@.len(),
    ensures
        plan.plan_format@ == plan::PLAN_FORMAT@,
        plan.compiler.algorithm@ == plan::COMPILER_ALGORITHM@,
        plan.compiler.contract_api@ == plan::CONTRACT_API@,
        plan.compatibility_profile.id@ == plan::PROFILE_ID@,
        plan.compatibility_profile.contract_api@ == plan::CONTRACT_API@,
        plan.revision.workflow_id@ == document@.workflow_id,
        plan.revision.draft_version == document.draft_version,
        plan.revision.document_digest@ == document_digest@,
        plan.contract_locks@.map_values(|l: NodeContractLock| l@) == plan_locks(
            catalog@,
            lock_names(document@.nodes, catalog@, topology::ints(order@), order@.len()),
        ),
        plan.nodes@.map_values(|n: PlanNode| n@) == planned_nodes(
            document@.nodes,
            catalog@,
            policy::string_views(configuration_digests@),
            topology::ints(order@),
            topology::ints64(depth@),
            order@.len(),
        ),
        plan::conn_views(plan.connections@) == plan::conn_views(connections@),
        plan.topological_order@.map_values(|s: String| s@) == topology::ints(order@).map_values(
            |i: int| document@.nodes[i].id,
        ),
        plan.plan_digest@ == Seq::<char>::empty(),
{
    let ghost views = document@.nodes;
    let ghost digests = policy::string_views(configuration_digests@);
    let ghost ord = topology::ints(order@);
    let ghost dep = topology::ints64(depth@);
    let nodes = document.nodes.as_slice();
    let mut plan_nodes: Vec<PlanNode> = Vec::new();
    let mut names: Vec<(String, String, String)> = Vec::new();
    let mut ids: Vec<String> = Vec::new();
    let mut i: usize = 0;
    assert(plan_nodes@.map_values(|n: PlanNode| n@) =~= Seq::<PlanNodeV>::empty());
    assert(name_views(names@) =~= Seq::<LockName>::empty());
    assert(ids@.map_values(|s: String| s@) =~= Seq::<Seq<char>>::empty());
    while i < order.len()
        invariant
            0 <= i <= order@.len(),
            views == document@.nodes,
            views == model::node_views(nodes@),
            nodes@ == document.nodes@,
            digests == policy::string_views(configuration_digests@),
            ord == topology::ints(order@),
            dep == topology::ints64(depth@),
            entries_match(entries@, views, catalog@),
            configuration_digests@.len() == nodes@.len(),
            depth@.len() == nodes@.len(),
            forall|k: int| 0 <= k < order@.len() ==> (#[trigger] order@[k]) < nodes@.len(),
            plan_nodes@.map_values(|n: PlanNode| n@) == planned_nodes(views, catalog@, digests, ord, dep, i as nat),
            name_views(names@) == lock_names(views, catalog@, ord, i as nat),
            ids@.map_values(|s: String| s@) == ord.take(i as int).map_values(|x: int| views[x].id),
        decreases order@.len() - i,
    {
        let index = order[i];
        assert(ord[i as int] == index as int);
        let node = &nodes[index];
        assert(views[index as int] == node@);
        let ghost ids_before = ids@.map_values(|s: String| s@);
        let id = node.id.clone();
        assert(id@ == views[index as int].id);
        ids.push(id);
        assert(ids@.map_values(|s: String| s@) =~= ids_before.push(views[index as int].id));
        assert(ord.take(i + 1).map_values(|x: int| views[x].id) =~= ord.take(i as int).map_values(
            |x: int| views[x].id,
        ).push(views[index as int].id)) by {
            assert(ord.take(i + 1) =~= ord.take(i as int).push(index as int));
        }
        match entries[index] {
            Some(e) => {
                let ghost before = plan_nodes@.map_values(|n: PlanNode| n@);
                let pn = plan_node(node, e, &configuration_digests[index], depth[index]);
                assert(digests[index as int] == configuration_digests@[index as int]@);
                assert(dep[index as int] == depth@[index as int] as int);
                plan_nodes.push(pn);
                assert(plan_nodes@.map_values(|n: PlanNode| n@) =~= before.push(pn@));
                add_lock_name(&mut names, (e.lock.namespace.clone(), e.lock.name.clone(), e.lock.version.clone()));
            },
            None => {},
        }
        i = i + 1;
    }
    let ghost name_list = name_views(names@);
    let mut locks: Vec<NodeContractLock> = Vec::new();
    let mut j: usize = 0;
    assert(locks@.map_values(|l: NodeContractLock| l@) =~= Seq::<LockV>::empty());
    while j < names.len()
        invariant
            0 <= j <= names@.len(),
            name_list == name_views(names@),
            locks@.map_values(|l: NodeContractLock| l@) == plan_locks(catalog@, name_list.take(j as int)),
        decreases names@.len() - j,
    {
        let mut key = names[j].0.clone();
        text::push_str(&mut key, "/");
        text::push_str(&mut key, names[j].1.as_str());
        text::push_str(&mut key, "/");
        text::push_str(&mut key, names[j].2.as_str());
        assert(name_list.take(j + 1).drop_last() =~= name_list.take(j as int));
        assert(name_list.take(j + 1).last() == name_list[j as int]);
        match catalog.get(key.as_str()) {
            Some(e) => {
                let ghost before = locks@.map_values(|l: NodeContractLock| l@);
                let lock = e.lock.duplicate();
                locks.push(lock);
                assert(locks@.map_values(|l: NodeContractLock| l@) =~= before.push(e@.lock));
            },
            None => {},
        }
        j = j + 1;
    }
    assert(name_list.take(j as int) =~= name_list);
    assert(ord.take(i as int) =~= ord);
    ExecutionPlan {
        plan_format: text::owned(plan::PLAN_FORMAT),
        compiler: PlanCompilerIdentity {
            algorithm: text::owned(plan::COMPILER_ALGORITHM),
            contract_api: text::owned(plan::CONTRACT_API),
        },
        compatibility_profile: PlanProfile {
            id: text::owned(plan::PROFILE_ID),
            contract_api: text::owned(plan::CONTRACT_API),
        },
        revision: PlanRevision {
            workflow_id: document.workflow_id.clone(),
            draft_version: document.draft_version,
            document_digest: text::owned(document_digest),
        },
        contract_locks: locks,
        nodes: plan_nodes,
        connections,
        topological_order: ids,
        plan_digest: String::new(),
    }
}


/// Warnings for source nodes whose output no Connection uses.
fn warn_unused_triggers(
    nodes: &[NodeInstance],
    sources: &Vec<usize>,
    used: &Vec<bool>,
    Ghost(used_set): Ghost<Set<int>>,
    diags: &mut Vec<CompileDiagnostic>,
)
    requires
        old(diags)@.len() <= diagnostic::MAX_DIAGNOSTICS,
        used@.len() == nodes@.len(),
        forall|i: int| 0 <= i < nodes@.len() ==> #[trigger] used@[i] == used_set.contains(i),
        forall|k: int| 0 <= k < sources@.len() ==> (#[trigger] sources@[k]) < nodes@.len(),
    ensures
        diagnostic::diag_views(final(diags)@) == diagnostic::capped(
            diagnostic::diag_views(old(diags)@) + trigger_warnings(
                model::node_views(nodes@),
                topology::ints(sources@),
                used_set,
            ),
        ),
        final(diags)@.len() <= diagnostic::MAX_DIAGNOSTICS,
{
    let ghost base = diagnostic::diag_views(diags@);
    let ghost views = model::node_views(nodes@);
    let ghost src = topology::ints(sources@);
    let mut i: usize = 0;
    proof {
        diagnostic::lemma_capped_empty(base);
        assert(src.take(0) =~= Seq::<int>::empty());
        assert(base + Seq::<DiagV>::empty() =~= base);
    }
    while i < sources.len()
        invariant
            0 <= i <= sources@.len(),
            views == model::node_views(nodes@),
            src == topology::ints(sources@),
            used@.len() == nodes@.len(),
            forall|j: int| 0 <= j < nodes@.len() ==> #[trigger] used@[j] == used_set.contains(j),
            forall|k: int| 0 <= k < sources@.len() ==> (#[trigger] sources@[k]) < nodes@.len(),
            diags@.len() <= diagnostic::MAX_DIAGNOSTICS,
            diagnostic::diag_views(diags@) == diagnostic::capped(base + trigger_warnings(views, src.take(i as int), used_set)),
        decreases sources@.len() - i,
    {
        let s = sources[i];
        let ghost before = trigger_warnings(views, src.take(i as int), used_set);
        assert(src.take(i + 1).drop_last() =~= src.take(i as int));
        assert(src.take(i + 1).last() == s as int);
        if !used[s] {
            assert(views[s as int] == nodes@[s as int]@);
            let path = concat("nodes/", nodes[s].id.as_str());
            let d = CompileDiagnostic::warning(
                "unconnected_trigger_output",
                path.as_str(),
                text::owned("The Manual Trigger output is not consumed; a Run will complete without downstream work"),
                true,
            );
            diagnostic::push_diagnostic(diags, d);
            proof {
                lemma_push_one(base, before, d@);
            }
        } else {
            assert(trigger_warnings(views, src.take(i + 1), used_set) =~= before);
        }
        i = i + 1;
    }
    assert(src.take(i as int) =~= src);
}

/// Warnings for nodes that are not sources and that no edge enters.
fn warn_unconnected(
    nodes: &[NodeInstance],
    catalog: &ContractCatalog,
    entries: &Vec<Option<&ContractEntry>>,
    edges: &Vec<(usize, usize)>,
    diags: &mut Vec<CompileDiagnostic>,
)
    requires
        old(diags)@.len() <= diagnostic::MAX_DIAGNOSTICS,
        entries_match(entries@, model::node_views(nodes@), catalog@),
        topology::edges_within(edges@, nodes@.len()),
    ensures
        diagnostic::diag_views(final(diags)@) == diagnostic::capped(
            diagnostic::diag_views(old(diags)@) + input_warnings(
                model::node_views(nodes@),
                catalog@,
                edges@,
                nodes@.len(),
            ),
        ),
        final(diags)@.len() <= diagnostic::MAX_DIAGNOSTICS,
{
    let ghost base = diagnostic::diag_views(diags@);
    let ghost views = model::node_views(nodes@);
    let mut entered: Vec<bool> = Vec::new();
    let mut k: usize = 0;
    while k < nodes.len()
        invariant
            0 <= k <= nodes@.len(),
            entered@.len() == k,
            forall|i: int| 0 <= i < k ==> !(#[trigger] entered@[i]),
        decreases nodes@.len() - k,
    {
        entered.push(false);
        k = k + 1;
    }
    let mut e: usize = 0;
    while e < edges.len()
        invariant
            0 <= e <= edges@.len(),
            entered@.len() == nodes@.len(),
            topology::edges_within(edges@, nodes@.len()),
            forall|i: int| 0 <= i < nodes@.len() ==> #[trigger] entered@[i] == exists|q: int| 0 <= q < e && edges@[q].1 as int == i,
        decreases edges@.len() - e,
    {
        let (_, t) = edges[e];
        assert(edges@[e as int].1 < nodes@.len());
        entered.set(t, true);
        proof {
            assert forall|i: int| 0 <= i < nodes@.len() implies #[trigger] entered@[i] == exists|q: int| 0 <= q < e + 1 && edges@[q].1 as int == i by {
                if i == t as int {
                    assert(edges@[e as int].1 as int == i);
                }
            }
        }
        e = e + 1;
    }
    let mut i: usize = 0;
    proof {
        diagnostic::lemma_capped_empty(base);
        assert(base + Seq::<DiagV>::empty() =~= base);
    }
    while i < nodes.len()
        invariant
            0 <= i <= nodes@.len(),
            views == model::node_views(nodes@),
            entries_match(entries@, views, catalog@),
            entered@.len() == nodes@.len(),
            forall|j: int| 0 <= j < nodes@.len() ==> #[trigger] entered@[j] == has_input(edges@, j),
            diags@.len() <= diagnostic::MAX_DIAGNOSTICS,
            diagnostic::diag_views(diags@) == diagnostic::capped(base + input_warnings(views, catalog@, edges@, i as nat)),
        decreases nodes@.len() - i,
    {
        let ghost before = input_warnings(views, catalog@, edges@, i as nat);
        let null = Json::Null;
        let is_source = match entries[i] {
            Some(entry) => {
                let activation = policy::field_of(&entry.contract, "activation", &null);
                let shape = policy::field_of(activation, "shape", &null);
                match shape.as_str() {
                    Some(s) => text::str_eq(s.as_str(), "source"),
                    None => false,
                }
            },
            None => false,
        };
        assert(is_source == entry_is_source(views, catalog@, i as int));
        if !is_source && !entered[i] {
            assert(views[i as int] == nodes@[i as int]@);
            let path = concat("nodes/", nodes[i].id.as_str());
            let d = CompileDiagnostic::warning(
                "unconnected_node",
                path.as_str(),
                text::owned("Node Instance receives no input Connection and will never execute"),
                false,
            );
            diagnostic::push_diagnostic(diags, d);
            proof {
                lemma_push_one(base, before, d@);
            }
        } else {
            assert(input_warnings(views, catalog@, edges@, (i + 1) as nat) =~= before);
        }
        i = i + 1;
    }
}

/// `r` is what compiling `d` against `cat` and `p` gives: the failure
/// diagnostics when compilation fails, else the compiled plan with its
/// warnings.
pub open spec fn compiles_to<F: Fn(&ExecutionPlan) -> String>(
    r: CompileOutcome,
    d: model::DraftV,
    cat: Seq<EntryV>,
    p: PolicyV,
    document_digest: Seq<char>,
    digests: Seq<Seq<char>>,
    seal: F,
) -> bool {
    match r {
        CompileOutcome::Failed { diagnostics } => {
            &&& compile_fails(d, cat, p)
            &&& diagnostic::diag_views(diagnostics@) == failure_diags(d, cat, p)
        },
        CompileOutcome::Plan { plan, diagnostics } => {
            &&& !compile_fails(d, cat, p)
            &&& diagnostic::diag_views(diagnostics@) == plan_diags(d, cat, p)
            &&& is_compiled_plan(plan, d, cat, document_digest, digests)
            &&& plan::sealed_by(seal, plan)
        },
    }
}

/// Compiles a Workflow document against the catalog and policy.
///
/// The document digest and the digest of each node's configuration are
/// computed by the caller with the canonical digest of the Node Contract
/// library. The plan is sealed with `seal`, which the caller gives the
/// canonical digest of the plan body: the plan with an empty digest.
pub fn compile_workflow<F: Fn(&ExecutionPlan) -> String>(
    document: &WorkflowDraft,
    contracts: &ContractCatalog,
    policy: &CompilePolicy,
    document_digest: &str,
    configuration_digests: &Vec<String>,
    seal: F,
) -> (r: CompileOutcome)
    requires
        configuration_digests@.len() == document.nodes@.len(),
        forall|body: &ExecutionPlan| #[trigger] call_requires(seal, (body,)),
    ensures
        compiles_to(
            r,
            document@,
            contracts@,
            policy@,
            document_digest@,
            policy::string_views(configuration_digests@),
            seal,
        ),
{
    let ghost d = document@;
    let ghost cat = contracts@;
    let ghost p = policy@;
    let ghost views = d.nodes;
    let nodes = document.nodes.as_slice();
    assert(views == model::node_views(nodes@));
    let mut diags: Vec<CompileDiagnostic> = Vec::new();
    assert(diagnostic::diag_views(diags@) =~= Seq::<DiagV>::empty());
    let ghost base = diagnostic::diag_views(diags@);
    let (entries, sources) = check_nodes(nodes, contracts, policy, &mut diags);
    let ghost a = nodes_diags(views, cat, p, views.len());
    warn_shared_names(nodes, &mut diags);
    let ghost b = name_diags(views);
    proof {
        diagnostic::lemma_capped_steps(base, a, b);
    }
    proof {
        assert(topology::ints(sources@).len() == sources@.len());
    }
    check_source_count(sources.len(), &mut diags);
    let ghost c = source_count_diags(source_nodes(views, cat, views.len()).len());
    proof {
        diagnostic::lemma_capped_steps(base, a + b, c);
    }
    proof {
        json::lemma_jvs(document.connections@);
        assert(d.connections == json::jvs(document.connections@));
    }
    let accepted = read_connections(&document.connections, &mut diags);
    let ghost e = connections_read(d.connections, d.connections.len()).0;
    proof {
        diagnostic::lemma_capped_steps(base, a + b + c, e);
    }
    let ghost conns = accepted_connections(d);
    assert(plan::conn_views(accepted@) == conns);
    let (used, edges) = resolve_connections(nodes, contracts, &entries, &accepted, &mut diags);
    let ghost res = resolve_all(views, cat, conns, conns.len());
    proof {
        diagnostic::lemma_capped_steps(base, a + b + c + e, res.0);
        assert(base + (a + b + c + e + res.0) =~= checked_diags(d, cat, p));
        assert(edges@ == plan_edges(d, cat));
    }
    assert(diagnostic::diag_views(diags@) == diagnostic::capped(checked_diags(d, cat, p)));
    if CompileDiagnostic::has_errors(diags.as_slice()) {
        return CompileOutcome::Failed { diagnostics: diags };
    }
    proof {
        assert(forall|k: int| 0 <= k < sources@.len() ==> (#[trigger] sources@[k]) < nodes@.len()) by {
            assert forall|k: int| 0 <= k < sources@.len() implies (#[trigger] sources@[k]) < nodes@.len() by {
                lemma_sources_within(views, cat, views.len(), k);
                assert(topology::ints(sources@)[k] == sources@[k] as int);
            }
        }
    }
    let (order, depth) = match topology::topological_order(nodes, edges.as_slice()) {
        Topology::Order(found) => found,
        Topology::Cycle(path) => {
            assert(topology::node_ids(nodes@) =~= ids(views));
            let d2 = CompileDiagnostic::error(
                "unexpected_cycle",
                path.as_str(),
                text::owned(
                    "Cycles are only valid through explicit loop, map, wait, or retry constructs; none exist in this Compatibility Profile",
                ),
            );
            diagnostic::push_diagnostic(&mut diags, d2);
            proof {
                assert(d2@ == cycle_error(d, cat));
                diagnostic::lemma_capped_append(checked_diags(d, cat, p), seq![d2@]);
                assert(diagnostic::capped(checked_diags(d, cat, p)).push(d2@) =~= diagnostic::capped(checked_diags(d, cat, p)) + seq![d2@]);
                assert(checked_diags(d, cat, p) + seq![d2@] =~= checked_diags(d, cat, p).push(d2@));
            }
            return CompileOutcome::Failed { diagnostics: diags };
        },
    };
    let ghost checked = checked_diags(d, cat, p);
    warn_unused_triggers(nodes, &sources, &used, Ghost(res.1), &mut diags);
    let ghost tw = trigger_warnings(views, source_nodes(views, cat, views.len()), res.1);
    proof {
        diagnostic::lemma_capped_append(checked, tw);
    }
    warn_unconnected(nodes, contracts, &entries, &edges, &mut diags);
    let ghost iw = input_warnings(views, cat, edges@, views.len());
    proof {
        diagnostic::lemma_capped_append(checked + tw, iw);
    }
    let ghost k = topology::kahn_result(views.len(), edges@);
    proof {
        assert forall|q: int| 0 <= q < order@.len() implies (#[trigger] order@[q]) < nodes@.len() by {
            assert(topology::ints(order@)[q] == order@[q] as int);
            assert(k.order[q] == order@[q] as int);
            assert(0 <= k.order[q] < views.len());
        }
        assert(topology::ints64(depth@).len() == depth@.len());
        assert(k.depth.len() == views.len());
    }
    let mut plan = build_plan(document, contracts, &entries, document_digest, configuration_digests, &order, &depth, accepted);
    let ghost body = plan;
    let digest = seal(&plan);
    plan.plan_digest = digest;
    proof {
        assert(call_ensures(seal, (&body,), plan.plan_digest));
        assert(plan::same_body(plan::plan_view(body), plan::plan_view(plan)));
    }
    CompileOutcome::Plan { plan, diagnostics: diags }
}

/// The source nodes are node positions.
proof fn lemma_sources_within(nodes: Seq<NodeV>, cat: Seq<EntryV>, n: nat, k: int)
    requires
        n <= nodes.len(),
        0 <= k < source_nodes(nodes, cat, n).len(),
    ensures
        0 <= source_nodes(nodes, cat, n)[k] < n,
    decreases n,
{
    if n > 0 {
        let rest = source_nodes(nodes, cat, (n - 1) as nat);
        if k < rest.len() {
            lemma_sources_within(nodes, cat, (n - 1) as nat, k);
            if is_source_node(nodes, cat, n - 1) {
                assert(source_nodes(nodes, cat, n)[k] == rest[k]);
            }
        }
    }
}


// ---------------------------------------------------------------------------
// Laws.

/// Warnings added after the checks are all warnings.
proof fn lemma_all_warnings_trigger(nodes: Seq<NodeV>, sources: Seq<int>, used: Set<int>)
    ensures
        forall|i: int| 0 <= i < trigger_warnings(nodes, sources, used).len() ==>
            (#[trigger] trigger_warnings(nodes, sources, used)[i]).severity == "warning"@,
    decreases sources.len(),
{
    if sources.len() > 0 {
        lemma_all_warnings_trigger(nodes, sources.drop_last(), used);
        let rest = trigger_warnings(nodes, sources.drop_last(), used);
        assert forall|i: int| 0 <= i < trigger_warnings(nodes, sources, used).len() implies
            (#[trigger] trigger_warnings(nodes, sources, used)[i]).severity == "warning"@ by {
            if i < rest.len() {
                assert(trigger_warnings(nodes, sources, used)[i] == rest[i]);
            }
        }
    }
}

/// Warnings added after the checks are all warnings.
proof fn lemma_all_warnings_input(nodes: Seq<NodeV>, cat: Seq<EntryV>, edges: Seq<(usize, usize)>, n: nat)
    ensures
        forall|i: int| 0 <= i < input_warnings(nodes, cat, edges, n).len() ==>
            (#[trigger] input_warnings(nodes, cat, edges, n)[i]).severity == "warning"@,
    decreases n,
{
    if n > 0 {
        lemma_all_warnings_input(nodes, cat, edges, (n - 1) as nat);
        let rest = input_warnings(nodes, cat, edges, (n - 1) as nat);
        assert forall|i: int| 0 <= i < input_warnings(nodes, cat, edges, n).len() implies
            (#[trigger] input_warnings(nodes, cat, edges, n)[i]).severity == "warning"@ by {
            if i < rest.len() {
                assert(input_warnings(nodes, cat, edges, n)[i] == rest[i]);
            }
        }
    }
}

/// Only errors fail compilation: the diagnostics of a compilation that
/// produced a plan hold warnings only.
pub proof fn lemma_plan_diagnostics_are_warnings(d: model::DraftV, cat: Seq<EntryV>, p: PolicyV)
    requires
        !compile_fails(d, cat, p),
    ensures
        !diagnostic::any_error(plan_diags(d, cat, p)),
{
    reveal_strlit("warning");
    reveal_strlit("error");
    let checked = checked_diags(d, cat, p);
    let conns = accepted_connections(d);
    let used = resolve_all(d.nodes, cat, conns, conns.len()).1;
    let tw = trigger_warnings(d.nodes, source_nodes(d.nodes, cat, d.nodes.len()), used);
    let iw = input_warnings(d.nodes, cat, plan_edges(d, cat), d.nodes.len());
    lemma_all_warnings_trigger(d.nodes, source_nodes(d.nodes, cat, d.nodes.len()), used);
    lemma_all_warnings_input(d.nodes, cat, plan_edges(d, cat), d.nodes.len());
    let all = checked + tw + iw;
    let kept = diagnostic::capped(all);
    assert(plan_diags(d, cat, p) == kept);
    assert forall|i: int| 0 <= i < kept.len() implies kept[i].severity != "error"@ by {
        assert(kept[i] == all[i]);
        if i < checked.len() {
            if checked.len() > diagnostic::MAX_DIAGNOSTICS {
                assert(diagnostic::capped(checked)[i] == checked[i]);
            } else {
                assert(diagnostic::capped(checked)[i] == checked[i]);
            }
            assert(!diagnostic::any_error(diagnostic::capped(checked)));
        } else if i < checked.len() + tw.len() {
            assert(all[i] == tw[i - checked.len()]);
        } else {
            assert(all[i] == iw[i - checked.len() - tw.len()]);
        }
        assert("warning"@[0] != "error"@[0]);
    }
}

/// A failed compilation reports at least one error, unless the bounded
/// list was already full of warnings when the cycle was found.
pub proof fn lemma_failure_reports_an_error(d: model::DraftV, cat: Seq<EntryV>, p: PolicyV)
    requires
        compile_fails(d, cat, p),
        checked_diags(d, cat, p).len() < diagnostic::MAX_DIAGNOSTICS,
    ensures
        diagnostic::any_error(failure_diags(d, cat, p)),
{
    let checked = checked_diags(d, cat, p);
    if !fails_checks(d, cat, p) {
        let all = checked.push(cycle_error(d, cat));
        assert(diagnostic::capped(all) == all);
        assert(all[checked.len() as int].severity == "error"@);
    }
}

/// Compilation is deterministic: identical inputs (document, catalog,
/// policy and the digests handed in) give identical outcomes, plan and
/// diagnostics alike.
pub proof fn lemma_compilation_is_deterministic<F: Fn(&ExecutionPlan) -> String>(
    r1: CompileOutcome,
    r2: CompileOutcome,
    d: model::DraftV,
    cat: Seq<EntryV>,
    p: PolicyV,
    document_digest: Seq<char>,
    digests: Seq<Seq<char>>,
    seal: F,
)
    requires
        compiles_to(r1, d, cat, p, document_digest, digests, seal),
        compiles_to(r2, d, cat, p, document_digest, digests, seal),
        plan::seals_by_value(seal),
    ensures
        plan::outcome_view(r1) == plan::outcome_view(r2),
{
    match (r1, r2) {
        (CompileOutcome::Plan { plan: a, .. }, CompileOutcome::Plan { plan: b, .. }) => {
            let ba = choose|body: ExecutionPlan|
                #![trigger call_ensures(seal, (&body,), a.plan_digest)]
                {
                    &&& body.plan_digest@ == Seq::<char>::empty()
                    &&& plan::same_body(plan::plan_view(body), plan::plan_view(a))
                    &&& call_ensures(seal, (&body,), a.plan_digest)
                };
            let bb = choose|body: ExecutionPlan|
                #![trigger call_ensures(seal, (&body,), b.plan_digest)]
                {
                    &&& body.plan_digest@ == Seq::<char>::empty()
                    &&& plan::same_body(plan::plan_view(body), plan::plan_view(b))
                    &&& call_ensures(seal, (&body,), b.plan_digest)
                };
            assert(plan::plan_view(ba) == plan::plan_view(bb));
            assert(a.plan_digest@ == b.plan_digest@);
            assert(plan::plan_view(a) == plan::plan_view(b));
        },
        _ => {},
    }
}


/// Whether contract `c` declares effect `key` as the JSON value `true`.
pub open spec fn declares_true(c: JsonV, key: Seq<char>) -> bool {
    json::field(json::field(c, "effects"@), key) == JsonV::Bool(true)
}

/// The string contract `c` declares for effect `key`; empty when it
/// declares no string there.
pub open spec fn declared_text(c: JsonV, key: Seq<char>) -> Seq<char> {
    match json::field(json::field(c, "effects"@), key) {
        JsonV::Str(s) => s,
        _ => Seq::empty(),
    }
}

/// The string contract `c` declares for activation field `key`; empty when
/// it declares no string there.
pub open spec fn declared_activation(c: JsonV, key: Seq<char>) -> Seq<char> {
    match json::field(json::field(c, "activation"@), key) {
        JsonV::Str(s) => s,
        _ => Seq::empty(),
    }
}

/// Whether planned node `pn` carries `node`'s identity and name, the lock,
/// activation and declared effects of the catalog contract its lock
/// resolves to, the configuration digest `digest`, and the inline native
/// lane.
pub open spec fn follows_contract(pn: PlanNodeV, node: NodeV, cat: Seq<EntryV>, digest: Seq<char>) -> bool {
    match catalog::entry_at(cat, catalog::lock_key_of(node.lock)) {
        Some(e) => {
            &&& pn.instance_id == node.id
            &&& pn.name == node.name
            &&& pn.contract == e.lock
            &&& pn.configuration_digest == digest
            &&& pn.class == declared_text(e.contract, "class"@)
            &&& pn.deterministic == declares_true(e.contract, "deterministic"@)
            &&& pn.idempotent == declares_true(e.contract, "idempotent"@)
            &&& pn.retry == declared_text(e.contract, "retry"@)
            &&& pn.reconciliation == declared_text(e.contract, "reconciliation"@)
            &&& pn.approval_required == declares_true(e.contract, "approval_required"@)
            &&& pn.shape == declared_activation(e.contract, "shape"@)
            &&& pn.ordering == declared_activation(e.contract, "ordering"@)
            &&& pn.bounded_batch == json::field(json::field(e.contract, "activation"@), "bounded_batch"@)
            &&& pn.lane == plan::LANE_INLINE_NATIVE@
        },
        None => false,
    }
}

/// Planned node `pn` is the planned form of the node at position `p` of
/// `order`.
pub open spec fn planned_at(
    pn: PlanNodeV,
    nodes: Seq<NodeV>,
    cat: Seq<EntryV>,
    digests: Seq<Seq<char>>,
    order: Seq<int>,
    depth: Seq<int>,
    p: int,
) -> bool {
    match found_entry(nodes, cat, order[p]) {
        Some(e) => pn == planned_node(nodes[order[p]], e, digests[order[p]], depth[order[p]]),
        None => false,
    }
}

/// The planned node at index `k` comes from one position of the order.
proof fn lemma_planned_source(
    nodes: Seq<NodeV>,
    cat: Seq<EntryV>,
    digests: Seq<Seq<char>>,
    order: Seq<int>,
    depth: Seq<int>,
    n: nat,
    k: int,
) -> (p: int)
    requires
        0 <= k < planned_nodes(nodes, cat, digests, order, depth, n).len(),
    ensures
        0 <= p < n,
        planned_at(planned_nodes(nodes, cat, digests, order, depth, n)[k], nodes, cat, digests, order, depth, p),
    decreases n,
{
    let rest = planned_nodes(nodes, cat, digests, order, depth, (n - 1) as nat);
    let all = planned_nodes(nodes, cat, digests, order, depth, n);
    let i = order[n - 1];
    match found_entry(nodes, cat, i) {
        Some(e) => {
            assert(all == rest.push(planned_node(nodes[i], e, digests[i], depth[i])));
            if k < rest.len() {
                assert(all[k] == rest[k]);
                lemma_planned_source(nodes, cat, digests, order, depth, (n - 1) as nat, k)
            } else {
                (n - 1) as int
            }
        },
        None => {
            assert(all == rest);
            lemma_planned_source(nodes, cat, digests, order, depth, (n - 1) as nat, k)
        },
    }
}

/// Every node of a compiled plan carries the identity and name of the
/// document node it plans, the configuration digest handed in for that
/// node, the inline native lane, and the lock, activation (shape, ordering,
/// bounded batch) and declared effects (class, determinism, idempotence,
/// retry, reconciliation, approval) of the catalog contract that node's
/// lock resolves to.
pub proof fn lemma_planned_nodes_follow_contracts<F: Fn(&ExecutionPlan) -> String>(
    r: CompileOutcome,
    d: model::DraftV,
    cat: Seq<EntryV>,
    p: PolicyV,
    document_digest: Seq<char>,
    digests: Seq<Seq<char>>,
    seal: F,
)
    requires
        compiles_to(r, d, cat, p, document_digest, digests, seal),
    ensures
        r matches CompileOutcome::Plan { plan, .. } ==> forall|k: int, i: int|
            0 <= k < plan.nodes@.len() && 0 <= i < d.nodes.len() && d.nodes[i].id == (#[trigger] plan.nodes@[k])@.instance_id
                && (forall|j: int| 0 <= j < i ==> d.nodes[j].id != d.nodes[i].id) ==> follows_contract(
                plan.nodes@[k]@,
                #[trigger] d.nodes[i],
                cat,
                digests[i],
            ),
{
    match r {
        CompileOutcome::Plan { plan, .. } => {
            let kr = topology::kahn_result(d.nodes.len(), plan_edges(d, cat));
            let planned = planned_nodes(d.nodes, cat, digests, kr.order, kr.depth, kr.order.len());
            assert(plan.nodes@.map_values(|n: PlanNode| n@) == planned);
            assert forall|k: int, i: int|
                0 <= k < plan.nodes@.len() && 0 <= i < d.nodes.len() && d.nodes[i].id == (#[trigger] plan.nodes@[k])@.instance_id
                    && (forall|j: int| 0 <= j < i ==> d.nodes[j].id != d.nodes[i].id) implies follows_contract(
                plan.nodes@[k]@,
                #[trigger] d.nodes[i],
                cat,
                digests[i],
            ) by {
                assert(planned[k] == plan.nodes@[k]@);
                let q = lemma_planned_source(d.nodes, cat, digests, kr.order, kr.depth, kr.order.len(), k);
                let ii = kr.order[q];
                assert(0 <= ii < d.nodes.len());
                assert(found_entry(d.nodes, cat, ii) is Some);
                assert(!repeats_id(d.nodes, ii));
                assert(d.nodes[ii].id == d.nodes[i].id);
                if ii < i {
                    assert(d.nodes[ii].id != d.nodes[i].id);
                } else if i < ii {
                    assert(repeats_id(d.nodes, ii));
                }
                assert(ii == i);
            }
        },
        _ => {},
    }
}

} // verus!
