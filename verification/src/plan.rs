//! The Execution Plan: the validated, immutable scheduling representation
//! compiled from one Workflow Revision.

use crate::diagnostic::CompileDiagnostic;
use crate::json::{Json, JsonV};
use crate::model::{LockV, NodeContractLock};
use crate::policy::Budget;
use vstd::prelude::*;

verus! {

/// The compiler algorithm that produced a plan.
pub const COMPILER_ALGORITHM: &'static str = "canopy.compiler/1";

/// The format of a plan.
pub const PLAN_FORMAT: &'static str = "canopy.execution-plan/1";

/// The Node Contract API the compiler accepts.
pub const CONTRACT_API: &'static str = "v1alpha1";

/// The active Compatibility Profile.
pub const PROFILE_ID: &'static str = "native";

/// The Execution Lane of every planned node in this profile.
pub const LANE_INLINE_NATIVE: &'static str = "inline-native";

/// The algorithm that signs a published revision.
pub const SIGNATURE_ALGORITHM: &'static str = "canopy.revision-signature/1";

/// Which compiler produced a plan.
#[derive(Clone, Debug)]
pub struct PlanCompilerIdentity {
    pub algorithm: String,
    pub contract_api: String,
}

/// The Compatibility Profile a plan targets.
#[derive(Clone, Debug)]
pub struct PlanProfile {
    pub id: String,
    pub contract_api: String,
}

/// The revision a plan was compiled from.
#[derive(Clone, Debug)]
pub struct PlanRevision {
    pub workflow_id: String,
    pub draft_version: u64,
    pub document_digest: String,
}

/// How a planned node is activated.
#[derive(Debug)]
pub struct PlanActivation {
    pub shape: String,
    pub ordering: String,
    pub bounded_batch: Json,
}

/// The declared effects of a planned node.
#[derive(Clone, Debug)]
pub struct PlanEffects {
    pub class: String,
    pub deterministic: bool,
    pub idempotent: bool,
    pub retry: String,
    pub reconciliation: String,
    pub approval_required: bool,
}

/// The default and hard budgets of a planned node.
#[derive(Clone, Debug)]
pub struct PlanBudgets {
    pub default: Budget,
    pub hard: Budget,
}

/// One Node Instance as the plan schedules it.
#[derive(Debug)]
pub struct PlanNode {
    pub instance_id: String,
    pub name: String,
    pub contract: NodeContractLock,
    pub configuration_digest: String,
    pub activation: PlanActivation,
    pub effects: PlanEffects,
    pub capabilities: Vec<String>,
    pub budgets: PlanBudgets,
    pub lane: String,
    pub depth: u64,
}

/// A planned node, by value.
pub struct PlanNodeV {
    pub instance_id: Seq<char>,
    pub name: Seq<char>,
    pub contract: LockV,
    pub configuration_digest: Seq<char>,
    pub shape: Seq<char>,
    pub ordering: Seq<char>,
    pub bounded_batch: JsonV,
    pub class: Seq<char>,
    pub deterministic: bool,
    pub idempotent: bool,
    pub retry: Seq<char>,
    pub reconciliation: Seq<char>,
    pub approval_required: bool,
    pub capabilities: Seq<Seq<char>>,
    pub default_budget: Budget,
    pub hard_budget: Budget,
    pub lane: Seq<char>,
    pub depth: u64,
}

impl View for PlanNode {
    type V = PlanNodeV;

    open spec fn view(&self) -> PlanNodeV {
        PlanNodeV {
            instance_id: self.instance_id@,
            name: self.name@,
            contract: self.contract@,
            configuration_digest: self.configuration_digest@,
            shape: self.activation.shape@,
            ordering: self.activation.ordering@,
            bounded_batch: self.activation.bounded_batch@,
            class: self.effects.class@,
            deterministic: self.effects.deterministic,
            idempotent: self.effects.idempotent,
            retry: self.effects.retry@,
            reconciliation: self.effects.reconciliation@,
            approval_required: self.effects.approval_required,
            capabilities: self.capabilities@.map_values(|s: String| s@),
            default_budget: self.budgets.default,
            hard_budget: self.budgets.hard,
            lane: self.lane@,
            depth: self.depth,
        }
    }
}

/// One end of a planned Connection.
#[derive(Clone, Debug)]
pub struct PlanPort {
    pub node: String,
    pub port: String,
}

/// A planned Connection.
#[derive(Clone, Debug)]
pub struct PlanConnection {
    pub source: PlanPort,
    pub target: PlanPort,
}

/// A Connection's four identities, by value.
pub struct ConnectionV {
    pub source_node: Seq<char>,
    pub source_port: Seq<char>,
    pub target_node: Seq<char>,
    pub target_port: Seq<char>,
}

impl View for PlanConnection {
    type V = ConnectionV;

    open spec fn view(&self) -> ConnectionV {
        ConnectionV {
            source_node: self.source.node@,
            source_port: self.source.port@,
            target_node: self.target.node@,
            target_port: self.target.port@,
        }
    }
}

/// The Connections of a list, by value.
pub open spec fn conn_views(v: Seq<PlanConnection>) -> Seq<ConnectionV> {
    v.map_values(|c: PlanConnection| c@)
}

/// The compiled plan of one Workflow Revision.
#[derive(Debug)]
pub struct ExecutionPlan {
    pub plan_format: String,
    pub compiler: PlanCompilerIdentity,
    pub compatibility_profile: PlanProfile,
    pub revision: PlanRevision,
    pub contract_locks: Vec<NodeContractLock>,
    pub nodes: Vec<PlanNode>,
    pub connections: Vec<PlanConnection>,
    pub topological_order: Vec<String>,
    pub plan_digest: String,
}

/// A plan, by value.
pub struct PlanV {
    pub plan_format: Seq<char>,
    pub compiler_algorithm: Seq<char>,
    pub compiler_contract_api: Seq<char>,
    pub profile_id: Seq<char>,
    pub profile_contract_api: Seq<char>,
    pub workflow_id: Seq<char>,
    pub draft_version: u64,
    pub document_digest: Seq<char>,
    pub contract_locks: Seq<LockV>,
    pub nodes: Seq<PlanNodeV>,
    pub connections: Seq<ConnectionV>,
    pub topological_order: Seq<Seq<char>>,
    pub plan_digest: Seq<char>,
}

/// The value a plan holds.
pub open spec fn plan_view(p: ExecutionPlan) -> PlanV {
    PlanV {
        plan_format: p.plan_format@,
        compiler_algorithm: p.compiler.algorithm@,
        compiler_contract_api: p.compiler.contract_api@,
        profile_id: p.compatibility_profile.id@,
        profile_contract_api: p.compatibility_profile.contract_api@,
        workflow_id: p.revision.workflow_id@,
        draft_version: p.revision.draft_version,
        document_digest: p.revision.document_digest@,
        contract_locks: p.contract_locks@.map_values(|l: NodeContractLock| l@),
        nodes: p.nodes@.map_values(|n: PlanNode| n@),
        connections: conn_views(p.connections@),
        topological_order: p.topological_order@.map_values(|s: String| s@),
        plan_digest: p.plan_digest@,
    }
}

/// Two plans that agree in everything but their own digest.
pub open spec fn same_body(a: PlanV, b: PlanV) -> bool {
    &&& a.plan_format == b.plan_format
    &&& a.compiler_algorithm == b.compiler_algorithm
    &&& a.compiler_contract_api == b.compiler_contract_api
    &&& a.profile_id == b.profile_id
    &&& a.profile_contract_api == b.profile_contract_api
    &&& a.workflow_id == b.workflow_id
    &&& a.draft_version == b.draft_version
    &&& a.document_digest == b.document_digest
    &&& a.contract_locks == b.contract_locks
    &&& a.nodes == b.nodes
    &&& a.connections == b.connections
    &&& a.topological_order == b.topological_order
}

/// `plan` is sealed by `seal`: its digest is what `seal` returns for the
/// same plan with an empty digest.
pub open spec fn sealed_by<F: Fn(&ExecutionPlan) -> String>(seal: F, plan: ExecutionPlan) -> bool {
    exists|body: ExecutionPlan|
        #![trigger call_ensures(seal, (&body,), plan.plan_digest)]
        {
            &&& body.plan_digest@ == Seq::<char>::empty()
            &&& same_body(plan_view(body), plan_view(plan))
            &&& call_ensures(seal, (&body,), plan.plan_digest)
        }
}

/// `seal` gives equal digests for plans with equal values: it reads the
/// plan's value and nothing else.
pub open spec fn seals_by_value<F: Fn(&ExecutionPlan) -> String>(seal: F) -> bool {
    forall|a: ExecutionPlan, b: ExecutionPlan, x: String, y: String|
        #![trigger call_ensures(seal, (&a,), x), call_ensures(seal, (&b,), y)]
        call_ensures(seal, (&a,), x) && call_ensures(seal, (&b,), y) && plan_view(a) == plan_view(b) ==> x@ == y@
}

/// A compilation outcome, by value.
pub enum OutcomeV {
    Plan(PlanV, Seq<crate::diagnostic::DiagV>),
    Failed(Seq<crate::diagnostic::DiagV>),
}

/// The value an outcome holds.
pub open spec fn outcome_view(o: CompileOutcome) -> OutcomeV {
    match o {
        CompileOutcome::Plan { plan, diagnostics } => OutcomeV::Plan(
            plan_view(plan),
            crate::diagnostic::diag_views(diagnostics@),
        ),
        CompileOutcome::Failed { diagnostics } => OutcomeV::Failed(crate::diagnostic::diag_views(diagnostics@)),
    }
}

/// What compilation produced: a plan with its warnings, or the diagnostics
/// that failed it.
#[derive(Debug)]
pub enum CompileOutcome {
    Plan { plan: ExecutionPlan, diagnostics: Vec<CompileDiagnostic> },
    Failed { diagnostics: Vec<CompileDiagnostic> },
}

} // verus!
