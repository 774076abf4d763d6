//! The publication rules: what a compile preview reports, when a Draft may
//! be published, the evidence a publication records, rollback of the
//! current revision pointer, and how the problems are answered.

use crate::diagnostic::{self, CompileDiagnostic, DiagV};
use crate::plan::{self, CompileOutcome, ExecutionPlan};
use crate::text;
use vstd::prelude::*;

verus! {

/// Why a revision request was refused.
#[derive(Debug)]
pub enum RevisionError {
    /// The workflow or revision does not exist.
    NotFound,
    /// The request was based on an older Draft Version.
    Stale { current: u64 },
    /// The caller does not hold the current Draft Lease.
    LeaseRequired,
    /// Compilation failed.
    Compilation { diagnostics: Vec<CompileDiagnostic> },
    /// Designated warnings were not acknowledged.
    WarningsUnacknowledged { required: Vec<String> },
    /// There is no earlier Published Revision to roll back to.
    NoPrecedingRevision,
    /// The store failed.
    Storage(String),
}

impl From<String> for RevisionError {
    fn from(reason: String) -> (r: RevisionError) {
        RevisionError::Storage(reason)
    }
}

impl vstd::std_specs::convert::FromSpecImpl<String> for RevisionError {
    open spec fn obeys_from_spec() -> bool {
        true
    }

    open spec fn from_spec(reason: String) -> RevisionError {
        RevisionError::Storage(reason)
    }
}

/// The body of a request that carries no fields.
#[derive(Debug)]
pub struct EmptyRequest {}

/// A request to publish the current Draft.
#[derive(Debug)]
pub struct PublishRequest {
    pub editor_session_id: String,
    pub lease_generation: u64,
    pub base_draft_version: u64,
    pub acknowledged_warnings: Vec<String>,
}

/// The identity of a compiled plan, as a preview reports it.
#[derive(Debug)]
pub struct PlanIdentity {
    pub plan_format: String,
    pub compiler_algorithm: String,
    pub plan_digest: String,
    pub node_count: usize,
    pub connection_count: usize,
}

/// What compiling the current Draft would give.
#[derive(Debug)]
pub struct CompilePreview {
    pub workflow_id: String,
    pub draft_version: u64,
    pub status: String,
    pub diagnostics: Vec<CompileDiagnostic>,
    pub plan: Option<PlanIdentity>,
}

/// The preview status for a compilation: `failed`, `warnings`, or `ok`.
pub open spec fn preview_status(failed: bool, diagnostic_count: nat) -> Seq<char> {
    if failed {
        "failed"@
    } else if diagnostic_count == 0 {
        "ok"@
    } else {
        "warnings"@
    }
}

/// The preview of a compilation of Draft Version `draft_version` of a workflow.
pub fn preview(workflow_id: &str, draft_version: u64, outcome: CompileOutcome) -> (p: CompilePreview)
    ensures
        p.workflow_id@ == workflow_id@,
        p.draft_version == draft_version,
        match outcome {
            CompileOutcome::Plan { plan, diagnostics } => {
                &&& p.status@ == preview_status(false, diagnostics@.len())
                &&& diagnostic::diag_views(p.diagnostics@) == diagnostic::diag_views(diagnostics@)
                &&& p.plan matches Some(id) && {
                    &&& id.plan_format@ == plan::PLAN_FORMAT@
                    &&& id.compiler_algorithm@ == plan::COMPILER_ALGORITHM@
                    &&& id.plan_digest@ == plan.plan_digest@
                    &&& id.node_count == plan.nodes@.len()
                    &&& id.connection_count == plan.connections@.len()
                }
            },
            CompileOutcome::Failed { diagnostics } => {
                &&& p.status@ == preview_status(true, diagnostics@.len())
                &&& diagnostic::diag_views(p.diagnostics@) == diagnostic::diag_views(diagnostics@)
                &&& p.plan is None
            },
        },
{
    match outcome {
        CompileOutcome::Plan { plan, diagnostics } => {
            let status = if diagnostics.len() == 0 {
                text::owned("ok")
            } else {
                text::owned("warnings")
            };
            let identity = PlanIdentity {
                plan_format: text::owned(plan::PLAN_FORMAT),
                compiler_algorithm: text::owned(plan::COMPILER_ALGORITHM),
                plan_digest: plan.plan_digest,
                node_count: plan.nodes.len(),
                connection_count: plan.connections.len(),
            };
            CompilePreview {
                workflow_id: text::owned(workflow_id),
                draft_version,
                status,
                diagnostics,
                plan: Some(identity),
            }
        },
        CompileOutcome::Failed { diagnostics } => CompilePreview {
            workflow_id: text::owned(workflow_id),
            draft_version,
            status: text::owned("failed"),
            diagnostics,
            plan: None,
        },
    }
}

/// What must hold before a Draft is compiled for publication: the caller
/// holds the Draft Lease, and the request is based on the current Draft
/// Version.
pub fn publish_precondition(lease_held: bool, base_draft_version: u64, current_draft_version: u64) -> (r: Result<
    (),
    RevisionError,
>)
    ensures
        !lease_held ==> r matches Err(RevisionError::LeaseRequired),
        lease_held && base_draft_version != current_draft_version ==> (r matches Err(
            RevisionError::Stale { current },
        ) && current == current_draft_version),
        lease_held && base_draft_version == current_draft_version ==> r is Ok,
{
    if !lease_held {
        return Err(RevisionError::LeaseRequired);
    }
    if base_draft_version != current_draft_version {
        return Err(RevisionError::Stale { current: current_draft_version });
    }
    Ok(())
}

/// Whether a diagnostic is a designated warning.
pub open spec fn is_designated(d: DiagV) -> bool {
    d.severity == "warning"@ && d.require_acknowledgement
}

/// The codes of the designated warnings that `acks` does not acknowledge,
/// in diagnostic order.
pub open spec fn unacknowledged(ds: Seq<DiagV>, acks: Seq<Seq<char>>) -> Seq<Seq<char>>
    decreases ds.len(),
{
    if ds.len() == 0 {
        Seq::empty()
    } else {
        let rest = unacknowledged(ds.drop_last(), acks);
        if is_designated(ds.last()) && !acks.contains(ds.last().code) {
            rest.push(ds.last().code)
        } else {
            rest
        }
    }
}

/// The strings of a list, by value.
pub open spec fn views_of(v: Seq<String>) -> Seq<Seq<char>> {
    v.map_values(|s: String| s@)
}

/// Whether `s` is one of `list`.
fn listed(list: &Vec<String>, s: &str) -> (r: bool)
    ensures
        r == views_of(list@).contains(s@),
{
    let mut i: usize = 0;
    while i < list.len()
        invariant
            0 <= i <= list@.len(),
            forall|k: int| 0 <= k < i ==> list@[k]@ != s@,
        decreases list@.len() - i,
    {
        if text::str_eq(list[i].as_str(), s) {
            assert(views_of(list@)[i as int] == s@);
            return true;
        }
        i = i + 1;
    }
    proof {
        if views_of(list@).contains(s@) {
            let k = choose|k: int| 0 <= k < views_of(list@).len() && views_of(list@)[k] == s@;
            assert(list@[k]@ == s@);
        }
    }
    false
}

/// The codes of the designated warnings that are not acknowledged.
pub fn required_acknowledgements(diagnostics: &Vec<CompileDiagnostic>, acknowledged: &Vec<String>) -> (r: Vec<
    String,
>)
    ensures
        views_of(r@) == unacknowledged(diagnostic::diag_views(diagnostics@), views_of(acknowledged@)),
{
    let ghost ds = diagnostic::diag_views(diagnostics@);
    let ghost acks = views_of(acknowledged@);
    let mut r: Vec<String> = Vec::new();
    let mut i: usize = 0;
    assert(ds.take(0) =~= Seq::<DiagV>::empty());
    assert(views_of(r@) =~= Seq::<Seq<char>>::empty());
    while i < diagnostics.len()
        invariant
            0 <= i <= diagnostics@.len(),
            ds == diagnostic::diag_views(diagnostics@),
            acks == views_of(acknowledged@),
            views_of(r@) == unacknowledged(ds.take(i as int), acks),
        decreases diagnostics@.len() - i,
    {
        let d = &diagnostics[i];
        assert(ds.take(i + 1).drop_last() =~= ds.take(i as int));
        assert(ds.take(i + 1).last() == d@);
        if text::str_eq(d.severity.as_str(), "warning") && d.require_acknowledgement && !listed(
            acknowledged,
            d.code.as_str(),
        ) {
            let ghost before = views_of(r@);
            r.push(d.code.clone());
            assert(views_of(r@) =~= before.push(d.code@));
        }
        i = i + 1;
    }
    assert(ds.take(i as int) =~= ds);
    r
}

/// Decides whether a compilation may be published: a failed compilation
/// refuses with its diagnostics; designated warnings must all be
/// acknowledged; otherwise the plan and its diagnostics are returned.
pub fn accept_compilation(outcome: CompileOutcome, acknowledged: &Vec<String>) -> (r: Result<
    (ExecutionPlan, Vec<CompileDiagnostic>),
    RevisionError,
>)
    ensures
        match outcome {
            CompileOutcome::Failed { diagnostics } => r matches Err(RevisionError::Compilation { diagnostics: ds })
                && diagnostic::diag_views(ds@) == diagnostic::diag_views(diagnostics@),
            CompileOutcome::Plan { plan, diagnostics } => {
                let missing = unacknowledged(diagnostic::diag_views(diagnostics@), views_of(acknowledged@));
                &&& missing.len() > 0 ==> (r matches Err(RevisionError::WarningsUnacknowledged { required })
                    && views_of(required@) == missing)
                &&& missing.len() == 0 ==> (r matches Ok((p, ds)) && p == plan && diagnostic::diag_views(ds@)
                    == diagnostic::diag_views(diagnostics@))
            },
        },
{
    match outcome {
        CompileOutcome::Failed { diagnostics } => Err(RevisionError::Compilation { diagnostics }),
        CompileOutcome::Plan { plan, diagnostics } => {
            let required = required_acknowledgements(&diagnostics, acknowledged);
            if required.len() > 0 {
                Err(RevisionError::WarningsUnacknowledged { required })
            } else {
                Ok((plan, diagnostics))
            }
        },
    }
}

/// Acknowledging every designated warning lets a compiled plan through.
pub proof fn lemma_acknowledged_warnings_pass(ds: Seq<DiagV>, acks: Seq<Seq<char>>)
    requires
        forall|i: int| 0 <= i < ds.len() && is_designated(#[trigger] ds[i]) ==> acks.contains(ds[i].code),
    ensures
        unacknowledged(ds, acks).len() == 0,
    decreases ds.len(),
{
    if ds.len() > 0 {
        assert forall|i: int| 0 <= i < ds.drop_last().len() && is_designated(#[trigger] ds.drop_last()[i]) implies acks.contains(
            ds.drop_last()[i].code,
        ) by {
            assert(ds.drop_last()[i] == ds[i]);
        }
        lemma_acknowledged_warnings_pass(ds.drop_last(), acks);
        assert(ds.last() == ds[ds.len() - 1]);
    }
}

/// A designated warning left unacknowledged blocks publication.
pub proof fn lemma_unacknowledged_warning_blocks(ds: Seq<DiagV>, acks: Seq<Seq<char>>, i: int)
    requires
        0 <= i < ds.len(),
        is_designated(ds[i]),
        !acks.contains(ds[i].code),
    ensures
        unacknowledged(ds, acks).contains(ds[i].code),
    decreases ds.len(),
{
    let rest = unacknowledged(ds.drop_last(), acks);
    if i == ds.len() - 1 {
        assert(unacknowledged(ds, acks) == rest.push(ds[i].code));
        assert(unacknowledged(ds, acks)[rest.len() as int] == ds[i].code);
    } else {
        assert(ds.drop_last()[i] == ds[i]);
        lemma_unacknowledged_warning_blocks(ds.drop_last(), acks, i);
        let k = choose|k: int| 0 <= k < rest.len() && rest[k] == ds[i].code;
        if is_designated(ds.last()) && !acks.contains(ds.last().code) {
            assert(unacknowledged(ds, acks)[k] == rest[k]);
        }
    }
}

/// What a publication records about how it was made.
#[derive(Debug)]
pub struct PublicationEvidence {
    pub draft_version: u64,
    pub editor_session_id: String,
    pub lease_generation: u64,
    pub acknowledged_warnings: Vec<String>,
    pub diagnostics: Vec<CompileDiagnostic>,
    pub signature_algorithm: String,
}

/// The acknowledgements that name some designated diagnostic's code, in
/// request order.
pub open spec fn relevant_acknowledgements(acks: Seq<Seq<char>>, ds: Seq<DiagV>) -> Seq<Seq<char>>
    decreases acks.len(),
{
    if acks.len() == 0 {
        Seq::empty()
    } else {
        let rest = relevant_acknowledgements(acks.drop_last(), ds);
        if exists|k: int| 0 <= k < ds.len() && ds[k].code == acks.last() && (#[trigger] ds[k]).require_acknowledgement {
            rest.push(acks.last())
        } else {
            rest
        }
    }
}

/// Whether some diagnostic with code `code` requires acknowledgement.
fn names_designated(diagnostics: &Vec<CompileDiagnostic>, code: &str) -> (r: bool)
    ensures
        r == exists|k: int|
            0 <= k < diagnostics@.len() && diagnostic::diag_views(diagnostics@)[k].code == code@ && (#[trigger] diagnostic::diag_views(
                diagnostics@,
            )[k]).require_acknowledgement,
{
    let ghost ds = diagnostic::diag_views(diagnostics@);
    let mut i: usize = 0;
    while i < diagnostics.len()
        invariant
            0 <= i <= diagnostics@.len(),
            ds == diagnostic::diag_views(diagnostics@),
            forall|k: int| 0 <= k < i ==> !(ds[k].code == code@ && (#[trigger] ds[k]).require_acknowledgement),
        decreases diagnostics@.len() - i,
    {
        if diagnostics[i].require_acknowledgement && text::str_eq(diagnostics[i].code.as_str(), code) {
            assert(ds[i as int].code == code@ && ds[i as int].require_acknowledgement);
            return true;
        }
        i = i + 1;
    }
    false
}

/// The evidence of a publication made from Draft Version `draft_version`.
pub fn publication_evidence(
    draft_version: u64,
    request: &PublishRequest,
    diagnostics: &Vec<CompileDiagnostic>,
) -> (e: PublicationEvidence)
    ensures
        e.draft_version == draft_version,
        e.editor_session_id@ == request.editor_session_id@,
        e.lease_generation == request.lease_generation,
        views_of(e.acknowledged_warnings@) == relevant_acknowledgements(
            views_of(request.acknowledged_warnings@),
            diagnostic::diag_views(diagnostics@),
        ),
        diagnostic::diag_views(e.diagnostics@) == diagnostic::diag_views(diagnostics@),
        e.signature_algorithm@ == plan::SIGNATURE_ALGORITHM@,
{
    let ghost acks = views_of(request.acknowledged_warnings@);
    let ghost ds = diagnostic::diag_views(diagnostics@);
    let mut kept: Vec<String> = Vec::new();
    let mut i: usize = 0;
    assert(acks.take(0) =~= Seq::<Seq<char>>::empty());
    assert(views_of(kept@) =~= Seq::<Seq<char>>::empty());
    while i < request.acknowledged_warnings.len()
        invariant
            0 <= i <= request.acknowledged_warnings@.len(),
            acks == views_of(request.acknowledged_warnings@),
            ds == diagnostic::diag_views(diagnostics@),
            views_of(kept@) == relevant_acknowledgements(acks.take(i as int), ds),
        decreases request.acknowledged_warnings@.len() - i,
    {
        let code = &request.acknowledged_warnings[i];
        assert(acks.take(i + 1).drop_last() =~= acks.take(i as int));
        assert(acks.take(i + 1).last() == code@);
        if names_designated(diagnostics, code.as_str()) {
            let ghost before = views_of(kept@);
            kept.push(code.clone());
            assert(views_of(kept@) =~= before.push(code@));
        }
        i = i + 1;
    }
    assert(acks.take(i as int) =~= acks);
    let mut copies: Vec<CompileDiagnostic> = Vec::new();
    let mut j: usize = 0;
    while j < diagnostics.len()
        invariant
            0 <= j <= diagnostics@.len(),
            ds == diagnostic::diag_views(diagnostics@),
            diagnostic::diag_views(copies@) == ds.take(j as int),
        decreases diagnostics@.len() - j,
    {
        let ghost before = diagnostic::diag_views(copies@);
        let copy = diagnostics[j].duplicate();
        assert(copy@ == ds[j as int]);
        copies.push(copy);
        assert(diagnostic::diag_views(copies@) =~= before.push(ds[j as int]));
        assert(ds.take(j + 1) =~= ds.take(j as int).push(ds[j as int]));
        j = j + 1;
    }
    assert(ds.take(j as int) =~= ds);
    PublicationEvidence {
        draft_version,
        editor_session_id: request.editor_session_id.clone(),
        lease_generation: request.lease_generation,
        acknowledged_warnings: kept,
        diagnostics: copies,
        signature_algorithm: text::owned(plan::SIGNATURE_ALGORITHM),
    }
}

/// The revision a rollback makes current: the one before the current
/// revision, when there is one.
pub fn rollback_target(current: Option<i64>) -> (r: Result<i64, RevisionError>)
    ensures
        match current {
            Some(c) => if c >= 2 {
                r matches Ok(t) && t == c - 1
            } else {
                r matches Err(RevisionError::NoPrecedingRevision)
            },
            None => r matches Err(RevisionError::NoPrecedingRevision),
        },
{
    match current {
        Some(c) => if c < 2 {
            Err(RevisionError::NoPrecedingRevision)
        } else {
            Ok(c - 1)
        },
        None => Err(RevisionError::NoPrecedingRevision),
    }
}

/// `current` for the revision the pointer names, `superseded` otherwise.
pub open spec fn status_text(current: Option<u64>, revision_number: u64) -> Seq<char> {
    if current == Some(revision_number) {
        "current"@
    } else {
        "superseded"@
    }
}

/// The status of a Published Revision.
pub fn revision_status(current: Option<u64>, revision_number: u64) -> (s: &'static str)
    ensures
        s@ == status_text(current, revision_number),
{
    match current {
        Some(c) => if c == revision_number {
            "current"
        } else {
            "superseded"
        },
        None => "superseded",
    }
}

/// A stored Published Revision, as the store returns it.
#[derive(Debug)]
pub struct RevisionRow {
    pub revision_number: u64,
    pub draft_version: u64,
    pub document_digest: String,
    pub plan_digest: String,
    pub plan_format: String,
    pub compiler_algorithm: String,
    pub signature: String,
    pub published_at: i64,
}

/// One Published Revision in a publication listing.
#[derive(Debug)]
pub struct RevisionSummary {
    pub revision_number: u64,
    pub status: String,
    pub draft_version: u64,
    pub document_digest: String,
    pub plan_digest: String,
    pub plan_format: String,
    pub compiler_algorithm: String,
    pub signature: String,
    pub published_at: i64,
}

/// The current revision pointer and every revision of a workflow.
#[derive(Debug)]
pub struct PublicationView {
    pub workflow_id: String,
    pub current_revision: Option<u64>,
    pub revisions: Vec<RevisionSummary>,
}

/// Whether `s` summarizes `row` under the pointer `current`.
pub open spec fn summarizes(s: RevisionSummary, row: RevisionRow, current: Option<u64>) -> bool {
    &&& s.revision_number == row.revision_number
    &&& s.status@ == status_text(current, row.revision_number)
    &&& s.draft_version == row.draft_version
    &&& s.document_digest@ == row.document_digest@
    &&& s.plan_digest@ == row.plan_digest@
    &&& s.plan_format@ == row.plan_format@
    &&& s.compiler_algorithm@ == row.compiler_algorithm@
    &&& s.signature@ == row.signature@
    &&& s.published_at == row.published_at
}

/// The publication listing: every stored revision, in the order given,
/// flagged `current` or `superseded`.
pub fn publication_view(workflow_id: &str, current: Option<u64>, rows: Vec<RevisionRow>) -> (v: PublicationView)
    ensures
        v.workflow_id@ == workflow_id@,
        v.current_revision == current,
        v.revisions@.len() == rows@.len(),
        forall|i: int| 0 <= i < rows@.len() ==> summarizes(#[trigger] v.revisions@[i], rows@[i], current),
{
    let mut revisions: Vec<RevisionSummary> = Vec::new();
    let mut i: usize = 0;
    while i < rows.len()
        invariant
            0 <= i <= rows@.len(),
            revisions@.len() == i,
            forall|k: int| 0 <= k < i ==> summarizes(#[trigger] revisions@[k], rows@[k], current),
        decreases rows@.len() - i,
    {
        let row = &rows[i];
        revisions.push(
            RevisionSummary {
                revision_number: row.revision_number,
                status: text::owned(revision_status(current, row.revision_number)),
                draft_version: row.draft_version,
                document_digest: row.document_digest.clone(),
                plan_digest: row.plan_digest.clone(),
                plan_format: row.plan_format.clone(),
                compiler_algorithm: row.compiler_algorithm.clone(),
                signature: row.signature.clone(),
                published_at: row.published_at,
            },
        );
        i = i + 1;
    }
    PublicationView { workflow_id: text::owned(workflow_id), current_revision: current, revisions }
}

/// A listing of revisions with distinct numbers flags at most one of them
/// `current`: the one the pointer names.
pub proof fn lemma_one_current_revision(rows: Seq<RevisionRow>, current: Option<u64>, listed: Seq<RevisionSummary>)
    requires
        forall|i: int, j: int|
            0 <= i < j < rows.len() ==> (#[trigger] rows[i]).revision_number != (#[trigger] rows[j]).revision_number,
        listed.len() == rows.len(),
        forall|i: int| 0 <= i < rows.len() ==> summarizes(#[trigger] listed[i], rows[i], current),
    ensures
        forall|i: int|
            0 <= i < listed.len() ==> ((#[trigger] listed[i]).status@ == "current"@ <==> current == Some(
                listed[i].revision_number,
            )),
        forall|i: int, j: int|
            0 <= i < j < listed.len() && (#[trigger] listed[i]).status@ == "current"@ ==> (#[trigger] listed[j]).status@
                == "superseded"@,
{
    reveal_strlit("current");
    reveal_strlit("superseded");
    assert("current"@ != "superseded"@) by {
        assert("current"@.len() != "superseded"@.len());
    }
    assert forall|i: int| 0 <= i < listed.len() implies ((#[trigger] listed[i]).status@ == "current"@ <==> current
        == Some(listed[i].revision_number)) by {
        assert(summarizes(listed[i], rows[i], current));
    }
    assert forall|i: int, j: int|
        0 <= i < j < listed.len() && (#[trigger] listed[i]).status@ == "current"@ implies (#[trigger] listed[j]).status@
        == "superseded"@ by {
        assert(summarizes(listed[i], rows[i], current));
        assert(summarizes(listed[j], rows[j], current));
        assert(rows[i].revision_number != rows[j].revision_number);
    }
}

/// A refused revision request, as the HTTP layer answers it.
#[derive(Debug)]
pub struct RevisionProblem {
    pub status: u16,
    pub code: &'static str,
    pub title: &'static str,
    pub current_draft_version: Option<u64>,
    pub diagnostics: Option<Vec<CompileDiagnostic>>,
    pub required_acknowledgements: Option<Vec<String>>,
}

/// The answer to each refusal: its HTTP status, code and title, with the
/// current Draft Version, the diagnostics or the required acknowledgements
/// where they apply.
pub fn revision_problem(error: RevisionError) -> (p: RevisionProblem)
    ensures
        match error {
            RevisionError::NotFound => p.status == 404 && p.code@ == "not_found"@ && p.title@
                == "Revision resource was not found"@ && p.current_draft_version is None && p.diagnostics is None
                && p.required_acknowledgements is None,
            RevisionError::Stale { current } => p.status == 409 && p.code@ == "stale_draft_version"@ && p.title@
                == "Draft Version is stale"@ && p.current_draft_version == Some(current) && p.diagnostics is None
                && p.required_acknowledgements is None,
            RevisionError::LeaseRequired => p.status == 423 && p.code@ == "draft_lease_required"@ && p.title@
                == "Publishing requires the current Draft Lease"@ && p.current_draft_version is None
                && p.diagnostics is None && p.required_acknowledgements is None,
            RevisionError::Compilation { diagnostics } => p.status == 422 && p.code@ == "compilation_failed"@
                && p.title@ == "Compilation blocked publication"@ && p.current_draft_version is None && (
            p.diagnostics matches Some(ds) && ds == diagnostics) && p.required_acknowledgements is None,
            RevisionError::WarningsUnacknowledged { required } => p.status == 409 && p.code@
                == "publication_warnings_unacknowledged"@ && p.title@
                == "Designated warnings require explicit acknowledgement"@ && p.current_draft_version is None
                && p.diagnostics is None && (p.required_acknowledgements matches Some(r) && r == required),
            RevisionError::NoPrecedingRevision => p.status == 409 && p.code@ == "no_preceding_revision"@
                && p.title@ == "There is no preceding Published Revision to roll back to"@
                && p.current_draft_version is None && p.diagnostics is None && p.required_acknowledgements is None,
            RevisionError::Storage(_) => p.status == 500 && p.code@ == "internal_error"@ && p.title@
                == "Revision request failed"@ && p.current_draft_version is None && p.diagnostics is None
                && p.required_acknowledgements is None,
        },
{
    match error {
        RevisionError::NotFound => RevisionProblem {
            status: 404,
            code: "not_found",
            title: "Revision resource was not found",
            current_draft_version: None,
            diagnostics: None,
            required_acknowledgements: None,
        },
        RevisionError::Stale { current } => RevisionProblem {
            status: 409,
            code: "stale_draft_version",
            title: "Draft Version is stale",
            current_draft_version: Some(current),
            diagnostics: None,
            required_acknowledgements: None,
        },
        RevisionError::LeaseRequired => RevisionProblem {
            status: 423,
            code: "draft_lease_required",
            title: "Publishing requires the current Draft Lease",
            current_draft_version: None,
            diagnostics: None,
            required_acknowledgements: None,
        },
        RevisionError::Compilation { diagnostics } => RevisionProblem {
            status: 422,
            code: "compilation_failed",
            title: "Compilation blocked publication",
            current_draft_version: None,
            diagnostics: Some(diagnostics),
            required_acknowledgements: None,
        },
        RevisionError::WarningsUnacknowledged { required } => RevisionProblem {
            status: 409,
            code: "publication_warnings_unacknowledged",
            title: "Designated warnings require explicit acknowledgement",
            current_draft_version: None,
            diagnostics: None,
            required_acknowledgements: Some(required),
        },
        RevisionError::NoPrecedingRevision => RevisionProblem {
            status: 409,
            code: "no_preceding_revision",
            title: "There is no preceding Published Revision to roll back to",
            current_draft_version: None,
            diagnostics: None,
            required_acknowledgements: None,
        },
        RevisionError::Storage(_) => RevisionProblem {
            status: 500,
            code: "internal_error",
            title: "Revision request failed",
            current_draft_version: None,
            diagnostics: None,
            required_acknowledgements: None,
        },
    }
}

} // verus!
