//! The Mutable Draft: creating a Workflow, the Draft Commands that edit it,
//! and the input rules they enforce.

use crate::json::{self, Json, JsonV};
use crate::model::{self, NodeContractLock, NodeInstance, NodeV, WorkflowDraft};
use crate::policy;
use crate::text;
use vstd::prelude::*;

verus! {

/// Why a Draft request was refused.
#[derive(Debug)]
pub enum DraftError {
    NotFound,
    AlreadyExists,
    Stale { current: u64 },
    DuplicateIdentity,
    InvalidContractLock,
    Invalid(String),
    Storage(String),
}

/// Whether `c` may appear in a Draft identity.
pub open spec fn is_identity_char(c: char) -> bool {
    text::is_ascii_alnum(c) || c == '-' || c == '_' || c == '.'
}

/// A Draft identity: 1 to 128 ASCII letters, digits, `-`, `_` or `.`.
pub open spec fn is_identity(s: Seq<char>) -> bool {
    0 < s.len() <= 128 && forall|i: int| 0 <= i < s.len() ==> is_identity_char(#[trigger] s[i])
}

/// Checks a Draft identity.
pub fn identifier(v: &str) -> (r: Result<(), DraftError>)
    ensures
        r is Ok <==> is_identity(v@),
        r matches Err(e) ==> e matches DraftError::Invalid(f) && f@ == "identity"@,
{
    let chars = text::chars_of(v);
    if chars.len() == 0 || chars.len() > 128 {
        return Err(DraftError::Invalid(text::owned("identity")));
    }
    let mut i: usize = 0;
    while i < chars.len()
        invariant
            0 <= i <= chars@.len(),
            chars@ == v@,
            forall|k: int| 0 <= k < i ==> is_identity_char(#[trigger] chars@[k]),
        decreases chars@.len() - i,
    {
        let c = chars[i];
        if !(text::ascii_alnum(c) || c == '-' || c == '_' || c == '.') {
            return Err(DraftError::Invalid(text::owned("identity")));
        }
        i = i + 1;
    }
    Ok(())
}

/// Checks that both values are JSON objects.
pub fn objects(a: &Json, b: &Json) -> (r: Result<(), DraftError>)
    ensures
        r is Ok <==> (a@ is Object && b@ is Object),
        r matches Err(e) ==> e matches DraftError::Invalid(f) && f@ == "metadata"@,
{
    if matches!(a, Json::Object(_)) && matches!(b, Json::Object(_)) {
        Ok(())
    } else {
        Err(DraftError::Invalid(text::owned("metadata")))
    }
}

/// Whether a value is the one configuration of a Manual Trigger: an object
/// holding exactly `capture_mode: "manual"`.
pub open spec fn is_manual_configuration(v: JsonV) -> bool {
    match v {
        JsonV::Object(o) => o.len() == 1 && json::lookup(o, "capture_mode"@) == Some(JsonV::Str("manual"@)),
        _ => false,
    }
}

/// Checks a Manual Trigger configuration.
pub fn manual_configuration(value: &Json) -> (r: Result<(), DraftError>)
    ensures
        r is Ok <==> is_manual_configuration(value@),
        r matches Err(e) ==> e matches DraftError::Invalid(f) && (if value@ is Object {
            f@ == "manual_trigger_configuration"@
        } else {
            f@ == "configuration"@
        }),
{
    let o = match value {
        Json::Object(o) => o,
        _ => {
            return Err(DraftError::Invalid(text::owned("configuration")));
        },
    };
    proof {
        json::lemma_jv_entries(o@);
    }
    let ok = o.len() == 1 && match json::member(o, "capture_mode") {
        Some(Json::String(mode)) => text::str_eq(mode.as_str(), "manual"),
        _ => false,
    };
    if ok {
        Ok(())
    } else {
        Err(DraftError::Invalid(text::owned("manual_trigger_configuration")))
    }
}

/// The text of an error, as the store reports it.
pub fn err(message: String) -> (r: String)
    ensures
        r@ == message@,
{
    message
}

/// A store failure.
pub fn storage(message: String) -> (e: DraftError)
    ensures
        e matches DraftError::Storage(m) && m@ == message@,
{
    DraftError::Storage(message)
}

/// Unicode `White_Space`, which `str::trim` removes.
pub open spec fn is_white_space(c: char) -> bool {
    let u = c as u32;
    (0x9 <= u <= 0xd) || u == 0x20 || u == 0x85 || u == 0xa0 || u == 0x1680 || (0x2000 <= u <= 0x200a) || u == 0x2028
        || u == 0x2029 || u == 0x202f || u == 0x205f || u == 0x3000
}

/// Whether `c` is Unicode `White_Space`.
pub fn white_space(c: char) -> (r: bool)
    ensures
        r == is_white_space(c),
{
    let u = c as u32;
    (0x9 <= u && u <= 0xd) || u == 0x20 || u == 0x85 || u == 0xa0 || u == 0x1680 || (0x2000 <= u && u <= 0x200a)
        || u == 0x2028 || u == 0x2029 || u == 0x202f || u == 0x205f || u == 0x3000
}

/// `s` without leading and trailing white space (`str::trim`).
pub open spec fn trimmed(s: Seq<char>) -> Seq<char> {
    let start = first_kept(s, 0);
    let end = last_kept(s, s.len() as int);
    if start < end {
        s.subrange(start, end)
    } else {
        Seq::empty()
    }
}

/// The first position at or after `i` that holds no white space.
pub open spec fn first_kept(s: Seq<char>, i: int) -> int
    decreases s.len() - i,
{
    if i < 0 || i >= s.len() {
        s.len() as int
    } else if is_white_space(s[i]) {
        first_kept(s, i + 1)
    } else {
        i
    }
}

/// One past the last position before `j` that holds no white space.
pub open spec fn last_kept(s: Seq<char>, j: int) -> int
    decreases j,
{
    if j <= 0 || j > s.len() {
        0
    } else if is_white_space(s[j - 1]) {
        last_kept(s, j - 1)
    } else {
        j
    }
}

/// `str::trim`.
pub fn trim_text(s: &str) -> (r: String)
    ensures
        r@ == trimmed(s@),
{
    let chars = text::chars_of(s);
    let mut start: usize = 0;
    while start < chars.len() && white_space(chars[start])
        invariant
            0 <= start <= chars@.len(),
            chars@ == s@,
            first_kept(s@, 0) == first_kept(s@, start as int),
        decreases chars@.len() - start,
    {
        start = start + 1;
    }
    let mut end: usize = chars.len();
    while end > 0 && white_space(chars[end - 1])
        invariant
            0 <= end <= chars@.len(),
            chars@ == s@,
            last_kept(s@, s@.len() as int) == last_kept(s@, end as int),
        decreases end,
    {
        end = end - 1;
    }
    let mut r = String::new();
    if start < end {
        let mut i = start;
        while i < end
            invariant
                start <= i <= end,
                end <= chars@.len(),
                chars@ == s@,
                r@ == s@.subrange(start as int, i as int),
            decreases end - i,
        {
            text::push_char(&mut r, chars[i]);
            assert(s@.subrange(start as int, i + 1) =~= s@.subrange(start as int, i as int).push(chars@[i as int]));
            i = i + 1;
        }
    }
    assert(start < end ==> first_kept(s@, 0) == start && last_kept(s@, s@.len() as int) == end);
    if !(start < end) {
        assert(r@ =~= Seq::<char>::empty());
    }
    r
}

/// A request to create a Workflow.
#[derive(Debug)]
pub struct CreateWorkflow {
    pub workflow_id: String,
    pub name: String,
    pub annotation: String,
    pub settings: Json,
    pub compatibility_metadata: Json,
}

/// The empty Draft a valid creation request makes: Draft Version zero, no
/// Node Instances or Connections, the name trimmed.
pub fn new_draft(r: CreateWorkflow) -> (d: Result<WorkflowDraft, DraftError>)
    ensures
        match d {
            Ok(w) => {
                &&& is_identity(r.workflow_id@)
                &&& trimmed(r.name@).len() > 0
                &&& r.settings@ is Object && r.compatibility_metadata@ is Object
                &&& w.workflow_id@ == r.workflow_id@
                &&& w.name@ == trimmed(r.name@)
                &&& w.draft_version == 0
                &&& w.nodes@.len() == 0
                &&& w.connections@.len() == 0
                &&& w.annotation@ == r.annotation@
                &&& w.settings@ == r.settings@
                &&& w.compatibility_metadata@ == r.compatibility_metadata@
            },
            Err(e) => e matches DraftError::Invalid(f) && {
                ||| (!is_identity(r.workflow_id@) && f@ == "identity"@)
                ||| (is_identity(r.workflow_id@) && trimmed(r.name@).len() == 0 && f@ == "name"@)
                ||| (is_identity(r.workflow_id@) && trimmed(r.name@).len() > 0 && !(r.settings@ is Object
                    && r.compatibility_metadata@ is Object) && f@ == "metadata"@)
            },
        },
{
    identifier(r.workflow_id.as_str())?;
    let name = trim_text(r.name.as_str());
    if text::is_empty(name.as_str()) {
        return Err(DraftError::Invalid(text::owned("name")));
    }
    objects(&r.settings, &r.compatibility_metadata)?;
    Ok(
        WorkflowDraft {
            workflow_id: r.workflow_id,
            name,
            draft_version: 0,
            nodes: Vec::new(),
            connections: Vec::new(),
            annotation: r.annotation,
            settings: r.settings,
            compatibility_metadata: r.compatibility_metadata,
        },
    )
}

/// One edit of the Draft.
#[derive(Debug)]
pub enum DraftOperation {
    AddNode { node_instance: NodeInstance },
    ConfigureNode { node_instance_id: String, configuration: Json },
    SetWorkflowAnnotation { annotation: String },
}

/// A Draft Command: an operation against a Draft Version.
#[derive(Debug)]
pub struct DraftCommand {
    pub command_id: String,
    pub base_draft_version: u64,
    pub operation: DraftOperation,
}

/// What an accepted Draft Command answers.
#[derive(Debug)]
pub struct CommandAccepted {
    pub command_id: String,
    pub draft_version: u64,
    pub delta: Json,
    pub affected_identities: Vec<String>,
    pub diagnostics: Vec<Json>,
}

/// The position of the first node with identity `id`.
pub open spec fn first_with_id(nodes: Seq<NodeV>, id: Seq<char>) -> Option<int>
    decreases nodes.len(),
{
    if nodes.len() == 0 {
        None
    } else if nodes[0].id == id {
        Some(0)
    } else {
        match first_with_id(nodes.drop_first(), id) {
            Some(i) => Some(i + 1),
            None => None,
        }
    }
}

/// The position of the first node with identity `id`.
fn find_node(nodes: &Vec<NodeInstance>, id: &str) -> (r: Option<usize>)
    ensures
        match r {
            Some(i) => i < nodes@.len() && first_with_id(model::node_views(nodes@), id@) == Some(i as int),
            None => first_with_id(model::node_views(nodes@), id@) is None,
        },
{
    let ghost views = model::node_views(nodes@);
    let mut i: usize = 0;
    while i < nodes.len()
        invariant
            0 <= i <= nodes@.len(),
            views == model::node_views(nodes@),
            forall|k: int| 0 <= k < i ==> views[k].id != id@,
        decreases nodes@.len() - i,
    {
        if text::str_eq(nodes[i].id.as_str(), id) {
            proof {
                lemma_first_with_id(views, id@, i as int);
            }
            return Some(i);
        }
        i = i + 1;
    }
    proof {
        lemma_first_with_id_none(views, id@);
    }
    None
}

proof fn lemma_first_with_id(nodes: Seq<NodeV>, id: Seq<char>, i: int)
    requires
        0 <= i < nodes.len(),
        nodes[i].id == id,
        forall|k: int| 0 <= k < i ==> nodes[k].id != id,
    ensures
        first_with_id(nodes, id) == Some(i),
    decreases i,
{
    if i > 0 {
        lemma_first_with_id(nodes.drop_first(), id, i - 1);
    }
}

proof fn lemma_first_with_id_none(nodes: Seq<NodeV>, id: Seq<char>)
    requires
        forall|k: int| 0 <= k < nodes.len() ==> nodes[k].id != id,
    ensures
        first_with_id(nodes, id) is None,
    decreases nodes.len(),
{
    if nodes.len() > 0 {
        lemma_first_with_id_none(nodes.drop_first(), id);
    }
}

/// The delta object `{"kind": kind}` or `{"kind": kind, "node_instance_id": id}`.
pub open spec fn delta_of(kind: Seq<char>, id: Option<Seq<char>>) -> JsonV {
    match id {
        Some(i) => JsonV::Object(seq![("kind"@, JsonV::Str(kind)), ("node_instance_id"@, JsonV::Str(i))]),
        None => JsonV::Object(seq![("kind"@, JsonV::Str(kind))]),
    }
}

fn delta(kind: &str, id: Option<&str>) -> (d: Json)
    ensures
        d@ == delta_of(kind@, match id {
            Some(i) => Some(i@),
            None => None,
        }),
{
    let mut entries: Vec<(String, Json)> = Vec::new();
    entries.push((text::owned("kind"), Json::String(text::owned(kind))));
    if let Some(i) = id {
        entries.push((text::owned("node_instance_id"), Json::String(text::owned(i))));
    }
    let ghost ev = entries@;
    proof {
        json::lemma_jv_entries(ev);
        assert(json::jv_entries(ev) =~= match id {
            Some(i) => seq![("kind"@, JsonV::Str(kind@)), ("node_instance_id"@, JsonV::Str(i@))],
            None => seq![("kind"@, JsonV::Str(kind@))],
        });
    }
    Json::Object(entries)
}


/// The Draft after `op` is applied and its version advanced.
pub open spec fn edited(d: model::DraftV, op: DraftOperation) -> model::DraftV {
    let v = (d.draft_version + 1) as u64;
    match op {
        DraftOperation::AddNode { node_instance } => model::DraftV {
            draft_version: v,
            nodes: d.nodes.push(node_instance@),
            ..d
        },
        DraftOperation::ConfigureNode { node_instance_id, configuration } => {
            let i = first_with_id(d.nodes, node_instance_id@).unwrap();
            model::DraftV {
                draft_version: v,
                nodes: d.nodes.update(i, NodeV { configuration: configuration@, ..d.nodes[i] }),
                ..d
            }
        },
        DraftOperation::SetWorkflowAnnotation { annotation } => model::DraftV {
            draft_version: v,
            annotation: annotation@,
            ..d
        },
    }
}

/// Why `op` is refused against the Draft `d`, if it is.
pub open spec fn refusal(d: model::DraftV, op: DraftOperation, manual: model::LockV) -> Option<DraftError> {
    match op {
        DraftOperation::AddNode { node_instance } => {
            let n = node_instance@;
            if n.lock != manual {
                Some(DraftError::InvalidContractLock)
            } else if first_with_id(d.nodes, n.id) is Some {
                Some(DraftError::DuplicateIdentity)
            } else if !is_identity(n.id) {
                Some(DraftError::Invalid(arbitrary()))
            } else if !(n.configuration is Object && n.compatibility_metadata is Object) {
                Some(DraftError::Invalid(arbitrary()))
            } else {
                None
            }
        },
        DraftOperation::ConfigureNode { node_instance_id, configuration } => {
            if !(configuration@ is Object) || !is_manual_configuration(configuration@) {
                Some(DraftError::Invalid(arbitrary()))
            } else if first_with_id(d.nodes, node_instance_id@) is None {
                Some(DraftError::NotFound)
            } else {
                None
            }
        },
        DraftOperation::SetWorkflowAnnotation { .. } => None,
    }
}

/// The field an `Invalid` refusal names.
pub open spec fn invalid_field(d: model::DraftV, op: DraftOperation) -> Seq<char> {
    match op {
        DraftOperation::AddNode { node_instance } => if !is_identity(node_instance@.id) {
            "identity"@
        } else {
            "metadata"@
        },
        DraftOperation::ConfigureNode { configuration, .. } => if !(configuration@ is Object) {
            "metadata"@
        } else {
            "manual_trigger_configuration"@
        },
        _ => Seq::empty(),
    }
}

/// Whether two refusals are the same kind (an `Invalid` refusal also
/// naming `field`).
pub open spec fn same_refusal(e: DraftError, expected: DraftError, field: Seq<char>) -> bool {
    match (e, expected) {
        (DraftError::Invalid(f), DraftError::Invalid(_)) => f@ == field,
        (DraftError::InvalidContractLock, DraftError::InvalidContractLock) => true,
        (DraftError::DuplicateIdentity, DraftError::DuplicateIdentity) => true,
        (DraftError::NotFound, DraftError::NotFound) => true,
        _ => false,
    }
}

/// The identities an accepted operation affects.
pub open spec fn affected_by(op: DraftOperation, workflow_id: Seq<char>) -> Seq<Seq<char>> {
    match op {
        DraftOperation::AddNode { node_instance } => seq![node_instance@.id],
        DraftOperation::ConfigureNode { node_instance_id, .. } => seq![node_instance_id@],
        DraftOperation::SetWorkflowAnnotation { .. } => seq![workflow_id],
    }
}

/// The delta an accepted operation reports.
pub open spec fn delta_for(op: DraftOperation) -> JsonV {
    match op {
        DraftOperation::AddNode { node_instance } => delta_of("node_added"@, Some(node_instance@.id)),
        DraftOperation::ConfigureNode { node_instance_id, .. } => delta_of(
            "node_configured"@,
            Some(node_instance_id@),
        ),
        DraftOperation::SetWorkflowAnnotation { .. } => delta_of("workflow_annotation_set"@, None),
    }
}

/// Applies a Draft Command to the Draft of workflow `workflow_id`: a stale
/// base version or a refused operation leaves the Draft as it was; an
/// accepted one edits it and advances the Draft Version by one.
pub fn apply_command(
    draft: &mut WorkflowDraft,
    workflow_id: &str,
    command: DraftCommand,
    manual_lock: &NodeContractLock,
) -> (r: Result<CommandAccepted, DraftError>)
    requires
        old(draft).draft_version < u64::MAX,
    ensures
        old(draft).draft_version != command.base_draft_version ==> (r matches Err(DraftError::Stale { current })
            && current == old(draft).draft_version && *final(draft) == *old(draft)),
        old(draft).draft_version == command.base_draft_version ==> match refusal(
            old(draft)@,
            command.operation,
            manual_lock@,
        ) {
            Some(expected) => r matches Err(e) && same_refusal(
                e,
                expected,
                invalid_field(old(draft)@, command.operation),
            ) && *final(draft) == *old(draft),
            None => r matches Ok(a) && {
                &&& final(draft)@ == edited(old(draft)@, command.operation)
                &&& a.command_id@ == command.command_id@
                &&& a.draft_version == old(draft).draft_version + 1
                &&& a.delta@ == delta_for(command.operation)
                &&& a.affected_identities@.map_values(|s: String| s@) == affected_by(command.operation, workflow_id@)
                &&& a.diagnostics@.len() == 0
            },
        },
{
    if draft.draft_version != command.base_draft_version {
        return Err(DraftError::Stale { current: draft.draft_version });
    }
    let ghost op = command.operation;
    let ghost before = *draft;
    let (affected, change) = match command.operation {
        DraftOperation::AddNode { node_instance } => {
            if !node_instance.contract_lock.same_as(manual_lock) {
                return Err(DraftError::InvalidContractLock);
            }
            if find_node(&draft.nodes, node_instance.id.as_str()).is_some() {
                return Err(DraftError::DuplicateIdentity);
            }
            identifier(node_instance.id.as_str())?;
            objects(&node_instance.configuration, &node_instance.compatibility_metadata)?;
            let id = node_instance.id.clone();
            let change = delta("node_added", Some(id.as_str()));
            let ghost nv = node_instance@;
            draft.nodes.push(node_instance);
            assert(model::node_views(draft.nodes@) =~= before@.nodes.push(nv));
            let mut affected: Vec<String> = Vec::new();
            affected.push(id);
            (affected, change)
        },
        DraftOperation::ConfigureNode { node_instance_id, configuration } => {
            let empty = Json::Object(Vec::new());
            objects(&configuration, &empty)?;
            manual_configuration(&configuration)?;
            let i = match find_node(&draft.nodes, node_instance_id.as_str()) {
                Some(i) => i,
                None => {
                    return Err(DraftError::NotFound);
                },
            };
            let change = delta("node_configured", Some(node_instance_id.as_str()));
            let ghost cv = configuration@;
            let mut nodes: Vec<NodeInstance> = Vec::new();
            std::mem::swap(&mut nodes, &mut draft.nodes);
            let mut node = nodes.remove(i);
            node.configuration = configuration;
            nodes.insert(i, node);
            draft.nodes = nodes;
            assert(model::node_views(draft.nodes@) =~= before@.nodes.update(
                i as int,
                NodeV { configuration: cv, ..before@.nodes[i as int] },
            ));
            let mut affected: Vec<String> = Vec::new();
            affected.push(node_instance_id);
            (affected, change)
        },
        DraftOperation::SetWorkflowAnnotation { annotation } => {
            draft.annotation = annotation;
            let change = delta("workflow_annotation_set", None);
            let mut affected: Vec<String> = Vec::new();
            affected.push(text::owned(workflow_id));
            (affected, change)
        },
    };
    draft.draft_version = draft.draft_version + 1;
    assert(affected@.map_values(|s: String| s@) =~= affected_by(op, workflow_id@));
    Ok(
        CommandAccepted {
            command_id: command.command_id,
            draft_version: draft.draft_version,
            delta: change,
            affected_identities: affected,
            diagnostics: Vec::new(),
        },
    )
}


/// The Manual Trigger contract, if the lock names it.
pub fn contract(
    manual_lock: &NodeContractLock,
    manual_contract: &Json,
    namespace: &str,
    name: &str,
    version: &str,
) -> (r: Result<Json, DraftError>)
    ensures
        (namespace@ == manual_lock.namespace@ && name@ == manual_lock.name@ && version@ == manual_lock.version@)
            ==> (r matches Ok(c) && c@ == manual_contract@),
        !(namespace@ == manual_lock.namespace@ && name@ == manual_lock.name@ && version@ == manual_lock.version@)
            ==> r matches Err(DraftError::NotFound),
{
    if text::str_eq(namespace, manual_lock.namespace.as_str()) && text::str_eq(name, manual_lock.name.as_str())
        && text::str_eq(version, manual_lock.version.as_str()) {
        Ok(json::clone_json(manual_contract))
    } else {
        Err(DraftError::NotFound)
    }
}

/// One Node Definition offered to the editor.
#[derive(Debug)]
pub struct CatalogNode {
    pub display_name: &'static str,
    pub description: &'static str,
    pub contract_lock: NodeContractLock,
    pub configuration_schema: Json,
    pub editor_hints: Json,
}

/// The Node Definitions offered to the editor.
#[derive(Debug)]
pub struct Catalog {
    pub contract_api_version: &'static str,
    pub nodes: Vec<CatalogNode>,
}

/// The editor catalog: the Manual Trigger, with its configuration schema
/// and editor hints.
pub fn catalog(manual_lock: &NodeContractLock, manual_contract: &Json) -> (c: Catalog)
    ensures
        c.contract_api_version@ == "v1alpha1"@,
        c.nodes@.len() == 1,
        c.nodes@[0].display_name@ == "Manual Trigger"@,
        c.nodes@[0].description@ == "Begin a Workflow with one owner-captured invocation."@,
        c.nodes@[0].contract_lock@ == manual_lock@,
        c.nodes@[0].configuration_schema@ == policy::at2(manual_contract@, "configuration"@, "schema"@),
        c.nodes@[0].editor_hints@ == policy::at2(manual_contract@, "configuration"@, "editor_hints"@),
{
    let null = Json::Null;
    let configuration = policy::field_of(manual_contract, "configuration", &null);
    let mut nodes: Vec<CatalogNode> = Vec::new();
    nodes.push(
        CatalogNode {
            display_name: "Manual Trigger",
            description: "Begin a Workflow with one owner-captured invocation.",
            contract_lock: manual_lock.duplicate(),
            configuration_schema: json::clone_json(policy::field_of(configuration, "schema", &null)),
            editor_hints: json::clone_json(policy::field_of(configuration, "editor_hints", &null)),
        },
    );
    Catalog { contract_api_version: "v1alpha1", nodes }
}

/// A refused Draft request, as the HTTP layer answers it.
#[derive(Debug)]
pub struct DraftProblem {
    pub status: u16,
    pub code: &'static str,
    pub title: &'static str,
    pub current_draft_version: Option<u64>,
}

/// The answer to each Draft refusal.
pub fn draft_problem(e: DraftError) -> (p: DraftProblem)
    ensures
        match e {
            DraftError::NotFound => p.status == 404 && p.code@ == "not_found"@ && p.title@
                == "Draft resource was not found"@ && p.current_draft_version is None,
            DraftError::AlreadyExists => p.status == 409 && p.code@ == "workflow_exists"@ && p.title@
                == "Workflow already exists"@ && p.current_draft_version is None,
            DraftError::Stale { current } => p.status == 409 && p.code@ == "stale_draft_version"@ && p.title@
                == "Draft Version is stale"@ && p.current_draft_version == Some(current),
            DraftError::DuplicateIdentity => p.status == 409 && p.code@ == "duplicate_identity"@ && p.title@
                == "Identity already exists"@ && p.current_draft_version is None,
            DraftError::InvalidContractLock => p.status == 422 && p.code@ == "invalid_contract_lock"@ && p.title@
                == "Node Contract Lock was rejected"@ && p.current_draft_version is None,
            DraftError::Invalid(_) => p.status == 422 && p.code@ == "invalid_draft_command"@ && p.title@
                == "Draft Command was rejected"@ && p.current_draft_version is None,
            DraftError::Storage(_) => p.status == 500 && p.code@ == "internal_error"@ && p.title@
                == "Draft request failed"@ && p.current_draft_version is None,
        },
{
    match e {
        DraftError::NotFound => DraftProblem {
            status: 404,
            code: "not_found",
            title: "Draft resource was not found",
            current_draft_version: None,
        },
        DraftError::AlreadyExists => DraftProblem {
            status: 409,
            code: "workflow_exists",
            title: "Workflow already exists",
            current_draft_version: None,
        },
        DraftError::Stale { current } => DraftProblem {
            status: 409,
            code: "stale_draft_version",
            title: "Draft Version is stale",
            current_draft_version: Some(current),
        },
        DraftError::DuplicateIdentity => DraftProblem {
            status: 409,
            code: "duplicate_identity",
            title: "Identity already exists",
            current_draft_version: None,
        },
        DraftError::InvalidContractLock => DraftProblem {
            status: 422,
            code: "invalid_contract_lock",
            title: "Node Contract Lock was rejected",
            current_draft_version: None,
        },
        DraftError::Invalid(_) => DraftProblem {
            status: 422,
            code: "invalid_draft_command",
            title: "Draft Command was rejected",
            current_draft_version: None,
        },
        DraftError::Storage(_) => DraftProblem {
            status: 500,
            code: "internal_error",
            title: "Draft request failed",
            current_draft_version: None,
        },
    }
}


/// Configuring a node gives the first node with that identity exactly the
/// new configuration and leaves everything else of the Draft as it was, but
/// for the version, which advances by one.
pub proof fn lemma_configure_sets_only_that_configuration(
    d: model::DraftV,
    node_instance_id: String,
    configuration: Json,
    i: int,
)
    requires
        0 <= i < d.nodes.len(),
        d.nodes[i].id == node_instance_id@,
        forall|k: int| 0 <= k < i ==> d.nodes[k].id != node_instance_id@,
        d.draft_version < u64::MAX,
    ensures
        ({
            let e = edited(d, DraftOperation::ConfigureNode { node_instance_id, configuration });
            &&& e.draft_version == d.draft_version + 1
            &&& e.nodes.len() == d.nodes.len()
            &&& e.nodes[i].configuration == configuration@
            &&& e.nodes[i].id == d.nodes[i].id
            &&& e.nodes[i].name == d.nodes[i].name
            &&& e.nodes[i].lock == d.nodes[i].lock
            &&& e.nodes[i].layout == d.nodes[i].layout
            &&& e.nodes[i].annotation == d.nodes[i].annotation
            &&& e.nodes[i].compatibility_metadata == d.nodes[i].compatibility_metadata
            &&& forall|k: int| 0 <= k < d.nodes.len() && k != i ==> e.nodes[k] == d.nodes[k]
            &&& e.workflow_id == d.workflow_id
            &&& e.name == d.name
            &&& e.connections == d.connections
            &&& e.annotation == d.annotation
            &&& e.settings == d.settings
            &&& e.compatibility_metadata == d.compatibility_metadata
        }),
{
    lemma_first_with_id(d.nodes, node_instance_id@, i);
}

/// Adding a node appends exactly that node, and setting the annotation sets
/// exactly that annotation; nothing else of the Draft changes but its
/// version, which advances by one.
pub proof fn lemma_add_and_annotate_change_only_their_part(d: model::DraftV, node_instance: NodeInstance, annotation: String)
    requires
        d.draft_version < u64::MAX,
    ensures
        ({
            let e = edited(d, DraftOperation::AddNode { node_instance });
            &&& e.draft_version == d.draft_version + 1
            &&& e.nodes.len() == d.nodes.len() + 1
            &&& e.nodes.last() == node_instance@
            &&& forall|k: int| 0 <= k < d.nodes.len() ==> e.nodes[k] == d.nodes[k]
            &&& e.workflow_id == d.workflow_id
            &&& e.name == d.name
            &&& e.connections == d.connections
            &&& e.annotation == d.annotation
            &&& e.settings == d.settings
            &&& e.compatibility_metadata == d.compatibility_metadata
        }),
        ({
            let e = edited(d, DraftOperation::SetWorkflowAnnotation { annotation });
            &&& e.draft_version == d.draft_version + 1
            &&& e.annotation == annotation@
            &&& e.nodes == d.nodes
            &&& e.workflow_id == d.workflow_id
            &&& e.name == d.name
            &&& e.connections == d.connections
            &&& e.settings == d.settings
            &&& e.compatibility_metadata == d.compatibility_metadata
        }),
{
}


/// A node the search does not find carries another identity.
proof fn lemma_first_with_id_absent(nodes: Seq<NodeV>, id: Seq<char>, k: int)
    requires
        first_with_id(nodes, id) is None,
        0 <= k < nodes.len(),
    ensures
        nodes[k].id != id,
    decreases nodes.len(),
{
    if k > 0 {
        assert(nodes.drop_first()[k - 1] == nodes[k]);
        lemma_first_with_id_absent(nodes.drop_first(), id, k - 1);
    }
}

/// A found position holds the identity and is the first to.
proof fn lemma_first_with_id_found(nodes: Seq<NodeV>, id: Seq<char>)
    requires
        first_with_id(nodes, id) is Some,
    ensures
        0 <= first_with_id(nodes, id)->0 < nodes.len(),
        nodes[first_with_id(nodes, id)->0].id == id,
        forall|k: int| 0 <= k < first_with_id(nodes, id)->0 ==> nodes[k].id != id,
    decreases nodes.len(),
{
    if nodes[0].id != id {
        lemma_first_with_id_found(nodes.drop_first(), id);
        let i = first_with_id(nodes.drop_first(), id)->0;
        assert(nodes.drop_first()[i] == nodes[i + 1]);
        assert forall|k: int| 0 <= k < i + 1 implies nodes[k].id != id by {
            if k > 0 {
                assert(nodes.drop_first()[k - 1] == nodes[k]);
            }
        }
    }
}

/// An accepted node addition brings the manual trigger's lock, an identity
/// of the allowed shape that no node of the Draft has yet, and object
/// configuration and metadata; an accepted configuration is a manual
/// trigger object for a node the Draft has.
pub proof fn lemma_accepted_operations_keep_the_draft_valid(
    d: model::DraftV,
    op: DraftOperation,
    manual: model::LockV,
)
    requires
        refusal(d, op, manual) is None,
    ensures
        op matches DraftOperation::AddNode { node_instance } ==> {
            &&& node_instance@.lock == manual
            &&& is_identity(node_instance@.id)
            &&& node_instance@.configuration is Object
            &&& node_instance@.compatibility_metadata is Object
            &&& forall|k: int| 0 <= k < d.nodes.len() ==> d.nodes[k].id != node_instance@.id
        },
        op matches DraftOperation::ConfigureNode { node_instance_id, configuration } ==> {
            &&& configuration@ is Object
            &&& is_manual_configuration(configuration@)
            &&& exists|k: int| 0 <= k < d.nodes.len() && d.nodes[k].id == node_instance_id@
        },
{
    match op {
        DraftOperation::AddNode { node_instance } => {
            assert forall|k: int| 0 <= k < d.nodes.len() implies d.nodes[k].id != node_instance@.id by {
                lemma_first_with_id_absent(d.nodes, node_instance@.id, k);
            }
        },
        DraftOperation::ConfigureNode { node_instance_id, configuration } => {
            lemma_first_with_id_found(d.nodes, node_instance_id@);
        },
        _ => {},
    }
}

} // verus!
