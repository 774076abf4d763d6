//! The visual diff of the Mutable Draft against the current Published
//! Revision: added, removed and modified Node Instances, added and removed
//! Connections, and the workflow fields that changed.

use crate::json::{self, Json, JsonV};
use crate::model::{self, NodeInstance, NodeV, WorkflowDraft};
use crate::policy;
use crate::text;
use vstd::prelude::*;

verus! {

/// A Node Instance named in a diff.
#[derive(Debug)]
pub struct DiffNodeRef {
    pub id: String,
    pub name: String,
}

/// A Node Instance present on both sides that changed, with the names of
/// the fields that differ.
#[derive(Debug)]
pub struct DiffNodeModified {
    pub id: String,
    pub name: String,
    pub changed: Vec<String>,
}

/// The Node Instance part of a diff.
#[derive(Debug)]
pub struct DiffNodes {
    pub added: Vec<DiffNodeRef>,
    pub removed: Vec<DiffNodeRef>,
    pub modified: Vec<DiffNodeModified>,
}

impl DiffNodes {
    /// No node changes.
    pub fn empty() -> (d: DiffNodes)
        ensures
            d.added@.len() == 0,
            d.removed@.len() == 0,
            d.modified@.len() == 0,
    {
        DiffNodes { added: Vec::new(), removed: Vec::new(), modified: Vec::new() }
    }
}

/// The Connection part of a diff, as `node:port -> node:port` keys.
#[derive(Debug)]
pub struct DiffConnections {
    pub added: Vec<String>,
    pub removed: Vec<String>,
}

impl DiffConnections {
    /// No Connection changes.
    pub fn empty() -> (d: DiffConnections)
        ensures
            d.added@.len() == 0,
            d.removed@.len() == 0,
    {
        DiffConnections { added: Vec::new(), removed: Vec::new() }
    }
}

/// Which workflow-level fields changed.
#[derive(Debug)]
pub struct DiffFields {
    pub name: bool,
    pub annotation: bool,
    pub settings: bool,
    pub compatibility_metadata: bool,
}

/// The diff of the Draft against the current Published Revision.
#[derive(Debug)]
pub struct DraftDiffView {
    pub workflow_id: String,
    pub draft_version: u64,
    pub published_revision: Option<u64>,
    pub nodes: DiffNodes,
    pub connections: DiffConnections,
    pub workflow_fields: DiffFields,
}

/// An identity and the position of the node that carries it.
pub type IdEntry = (Seq<char>, int);

/// `t` with `id` mapped to `i`: ascending by identity, a repeated identity
/// taking the later position.
pub open spec fn insert_id(t: Seq<IdEntry>, id: Seq<char>, i: int) -> Seq<IdEntry>
    decreases t.len(),
{
    if t.len() == 0 {
        seq![(id, i)]
    } else if t[0].0 == id {
        seq![(id, i)] + t.drop_first()
    } else if text::seq_lt(id, t[0].0) {
        seq![(id, i)] + t
    } else {
        seq![t[0]] + insert_id(t.drop_first(), id, i)
    }
}

/// The nodes by identity, ascending; a repeated identity maps to its last node.
pub open spec fn id_table(nodes: Seq<NodeV>, n: nat) -> Seq<IdEntry>
    decreases n,
{
    if n == 0 {
        Seq::empty()
    } else {
        insert_id(id_table(nodes, (n - 1) as nat), nodes[n - 1].id, n - 1)
    }
}

/// The position mapped to `id`.
pub open spec fn find_id(t: Seq<IdEntry>, id: Seq<char>) -> Option<int>
    decreases t.len(),
{
    if t.len() == 0 {
        None
    } else if t[0].0 == id {
        Some(t[0].1)
    } else {
        find_id(t.drop_first(), id)
    }
}

/// The names of the fields in which two versions of a node differ.
pub open spec fn changed_fields(prev: NodeV, node: NodeV) -> Seq<Seq<char>> {
    (if prev.name != node.name {
        seq!["name"@]
    } else {
        Seq::empty()
    }) + (if prev.lock != node.lock {
        seq!["contract_lock"@]
    } else {
        Seq::empty()
    }) + (if !json::json_eq(prev.configuration, node.configuration) {
        seq!["configuration"@]
    } else {
        Seq::empty()
    }) + (if !model::layout_eq(prev.layout, node.layout) {
        seq!["layout"@]
    } else {
        Seq::empty()
    }) + (if prev.annotation != node.annotation {
        seq!["annotation"@]
    } else {
        Seq::empty()
    }) + (if !json::json_eq(prev.compatibility_metadata, node.compatibility_metadata) {
        seq!["compatibility_metadata"@]
    } else {
        Seq::empty()
    })
}

/// The entries of `t` whose identity `other` lacks, as (identity, name).
pub open spec fn missing_from(nodes: Seq<NodeV>, t: Seq<IdEntry>, other: Seq<IdEntry>) -> Seq<(Seq<char>, Seq<char>)>
    decreases t.len(),
{
    if t.len() == 0 {
        Seq::empty()
    } else {
        let rest = missing_from(nodes, t.drop_last(), other);
        if find_id(other, t.last().0) is None {
            rest.push((t.last().0, nodes[t.last().1].name))
        } else {
            rest
        }
    }
}

/// The entries of `t` (Draft side) whose node changed against the node
/// `other` maps the same identity to, as (identity, name, changed fields).
pub open spec fn modified_in(
    draft: Seq<NodeV>,
    published: Seq<NodeV>,
    t: Seq<IdEntry>,
    other: Seq<IdEntry>,
) -> Seq<(Seq<char>, Seq<char>, Seq<Seq<char>>)>
    decreases t.len(),
{
    if t.len() == 0 {
        Seq::empty()
    } else {
        let rest = modified_in(draft, published, t.drop_last(), other);
        let node = draft[t.last().1];
        match find_id(other, t.last().0) {
            Some(j) => {
                let changed = changed_fields(published[j], node);
                if changed.len() > 0 {
                    rest.push((t.last().0, node.name, changed))
                } else {
                    rest
                }
            },
            None => rest,
        }
    }
}

/// The key of a Connection: `node:port -> node:port`, when its four
/// identities are strings.
pub open spec fn connection_key(v: JsonV) -> Option<Seq<char>> {
    let s = json::field(v, "source"@);
    let t = json::field(v, "target"@);
    match (
        json::as_str(json::field(s, "node"@)),
        json::as_str(json::field(s, "output_port"@)),
        json::as_str(json::field(t, "node"@)),
        json::as_str(json::field(t, "input_port"@)),
    ) {
        (Some(a), Some(b), Some(c), Some(d)) => Some(a + ":"@ + b + " -> "@ + c + ":"@ + d),
        _ => None,
    }
}

/// `s` with `x` added in order, once.
pub open spec fn insert_key(s: Seq<Seq<char>>, x: Seq<char>) -> Seq<Seq<char>>
    decreases s.len(),
{
    if s.len() == 0 {
        seq![x]
    } else if s[0] == x {
        s
    } else if text::seq_lt(x, s[0]) {
        seq![x] + s
    } else {
        seq![s[0]] + insert_key(s.drop_first(), x)
    }
}

/// The keys of the first `n` Connections, ascending and without repeats.
pub open spec fn key_set(conns: Seq<JsonV>, n: nat) -> Seq<Seq<char>>
    decreases n,
{
    if n == 0 {
        Seq::empty()
    } else {
        let rest = key_set(conns, (n - 1) as nat);
        match connection_key(conns[n - 1]) {
            Some(k) => insert_key(rest, k),
            None => rest,
        }
    }
}

/// The keys of `a` that `b` lacks, in order.
pub open spec fn keys_without(a: Seq<Seq<char>>, b: Seq<Seq<char>>) -> Seq<Seq<char>>
    decreases a.len(),
{
    if a.len() == 0 {
        Seq::empty()
    } else {
        let rest = keys_without(a.drop_last(), b);
        if b.contains(a.last()) {
            rest
        } else {
            rest.push(a.last())
        }
    }
}

/// A node reference, by value.
pub open spec fn ref_view(r: DiffNodeRef) -> (Seq<char>, Seq<char>) {
    (r.id@, r.name@)
}

/// A modified node, by value.
pub open spec fn modified_view(m: DiffNodeModified) -> (Seq<char>, Seq<char>, Seq<Seq<char>>) {
    (m.id@, m.name@, m.changed@.map_values(|s: String| s@))
}

/// Whether `v` is the diff of `draft` against the revision `published`
/// (numbered `revision`).
pub open spec fn is_diff(v: DraftDiffView, workflow_id: Seq<char>, draft: model::DraftV, revision: u64, published: model::DraftV) -> bool {
    let dt = id_table(draft.nodes, draft.nodes.len());
    let pt = id_table(published.nodes, published.nodes.len());
    let dk = key_set(draft.connections, draft.connections.len());
    let pk = key_set(published.connections, published.connections.len());
    &&& v.workflow_id@ == workflow_id
    &&& v.draft_version == draft.draft_version
    &&& v.published_revision == Some(revision)
    &&& v.nodes.added@.map_values(|r: DiffNodeRef| ref_view(r)) == missing_from(draft.nodes, dt, pt)
    &&& v.nodes.removed@.map_values(|r: DiffNodeRef| ref_view(r)) == missing_from(published.nodes, pt, dt)
    &&& v.nodes.modified@.map_values(|m: DiffNodeModified| modified_view(m)) == modified_in(
        draft.nodes,
        published.nodes,
        dt,
        pt,
    )
    &&& v.connections.added@.map_values(|s: String| s@) == keys_without(dk, pk)
    &&& v.connections.removed@.map_values(|s: String| s@) == keys_without(pk, dk)
    &&& v.workflow_fields.name == (draft.name != published.name)
    &&& v.workflow_fields.annotation == (draft.annotation != published.annotation)
    &&& v.workflow_fields.settings == !json::json_eq(draft.settings, published.settings)
    &&& v.workflow_fields.compatibility_metadata == !json::json_eq(
        draft.compatibility_metadata,
        published.compatibility_metadata,
    )
}

/// Where `insert_id` puts an identity.
proof fn lemma_insert_id(t: Seq<IdEntry>, id: Seq<char>, i: int, p: int)
    requires
        0 <= p <= t.len(),
        forall|k: int| 0 <= k < p ==> (#[trigger] t[k]).0 != id && !text::seq_lt(id, t[k].0),
        p < t.len() ==> (t[p].0 == id || text::seq_lt(id, t[p].0)),
    ensures
        insert_id(t, id, i) == if p < t.len() && t[p].0 == id {
            t.update(p, (id, i))
        } else {
            t.insert(p, (id, i))
        },
    decreases t.len(),
{
    if t.len() == 0 {
        assert(t.insert(p, (id, i)) =~= seq![(id, i)]);
    } else if p == 0 {
        if t[0].0 == id {
            assert(seq![(id, i)] + t.drop_first() =~= t.update(0, (id, i)));
        } else {
            assert(t.insert(0, (id, i)) =~= seq![(id, i)] + t);
        }
    } else {
        lemma_insert_id(t.drop_first(), id, i, p - 1);
        if p < t.len() && t[p].0 == id {
            assert(seq![t[0]] + t.drop_first().update(p - 1, (id, i)) =~= t.update(p, (id, i)));
        } else {
            assert(seq![t[0]] + t.drop_first().insert(p - 1, (id, i)) =~= t.insert(p, (id, i)));
        }
    }
}

/// A table entry, by value.
pub open spec fn entry_view(e: (String, usize)) -> IdEntry {
    (e.0@, e.1 as int)
}

/// The entries of a table, by value.
pub open spec fn table_view(t: Seq<(String, usize)>) -> Seq<IdEntry> {
    t.map_values(|e: (String, usize)| entry_view(e))
}

/// The nodes by identity, ascending, each identity mapped to its last node.
fn build_id_table(nodes: &[NodeInstance]) -> (t: Vec<(String, usize)>)
    ensures
        table_view(t@) == id_table(model::node_views(nodes@), nodes@.len()),
        forall|k: int| 0 <= k < t@.len() ==> (#[trigger] t@[k]).1 < nodes@.len(),
{
    let ghost views = model::node_views(nodes@);
    let mut t: Vec<(String, usize)> = Vec::new();
    let mut i: usize = 0;
    assert(table_view(t@) =~= Seq::<IdEntry>::empty());
    while i < nodes.len()
        invariant
            0 <= i <= nodes@.len(),
            views == model::node_views(nodes@),
            table_view(t@) == id_table(views, i as nat),
            forall|k: int| 0 <= k < t@.len() ==> (#[trigger] t@[k]).1 < i,
        decreases nodes@.len() - i,
    {
        let id = nodes[i].id.as_str();
        assert(views[i as int].id == id@);
        let ghost tv = table_view(t@);
        let mut p: usize = 0;
        while p < t.len() && !text::str_eq(t[p].0.as_str(), id) && !text::str_lt(id, t[p].0.as_str())
            invariant
                0 <= p <= t@.len(),
                tv == table_view(t@),
                forall|k: int| 0 <= k < p ==> (#[trigger] tv[k]).0 != id@ && !text::seq_lt(id@, tv[k].0),
            decreases t@.len() - p,
        {
            p = p + 1;
        }
        proof {
            lemma_insert_id(tv, id@, i as int, p as int);
        }
        if p < t.len() && text::str_eq(t[p].0.as_str(), id) {
            t.set(p, (nodes[i].id.clone(), i));
            assert(table_view(t@) =~= tv.update(p as int, (id@, i as int)));
        } else {
            t.insert(p, (nodes[i].id.clone(), i));
            assert(table_view(t@) =~= tv.insert(p as int, (id@, i as int)));
        }
        proof {
            assert forall|k: int| 0 <= k < t@.len() implies (#[trigger] t@[k]).1 < i + 1 by {
                assert(table_view(t@)[k].1 == t@[k].1 as int);
            }
        }
        i = i + 1;
    }
    t
}

/// The position mapped to `id`.
fn find_in(t: &Vec<(String, usize)>, id: &str) -> (r: Option<usize>)
    ensures
        match r {
            Some(i) => find_id(table_view(t@), id@) == Some(i as int) && exists|k: int| 0 <= k < t@.len() && t@[k].1 == i,
            None => find_id(table_view(t@), id@) is None,
        },
{
    let ghost tv = table_view(t@);
    let mut p: usize = 0;
    assert(tv.skip(0) =~= tv);
    while p < t.len()
        invariant
            0 <= p <= t@.len(),
            tv == table_view(t@),
            find_id(tv, id@) == find_id(tv.skip(p as int), id@),
        decreases t@.len() - p,
    {
        assert(tv.skip(p as int)[0] == tv[p as int]);
        assert(tv.skip(p as int).drop_first() =~= tv.skip(p + 1));
        if text::str_eq(t[p].0.as_str(), id) {
            return Some(t[p].1);
        }
        p = p + 1;
    }
    None
}

/// The names of the fields in which two versions of a node differ.
fn changed_fields_of(prev: &NodeInstance, node: &NodeInstance) -> (r: Vec<String>)
    ensures
        r@.map_values(|s: String| s@) == changed_fields(prev@, node@),
{
    let mut r: Vec<String> = Vec::new();
    let ghost mut done: Seq<Seq<char>> = Seq::empty();
    if !text::str_eq(prev.name.as_str(), node.name.as_str()) {
        r.push(text::owned("name"));
        proof {
            done = done.push("name"@);
        }
    }
    assert(r@.map_values(|s: String| s@) =~= done);
    if !prev.contract_lock.same_as(&node.contract_lock) {
        r.push(text::owned("contract_lock"));
        proof {
            done = done.push("contract_lock"@);
        }
    }
    assert(r@.map_values(|s: String| s@) =~= done);
    if !json::json_equal(&prev.configuration, &node.configuration) {
        r.push(text::owned("configuration"));
        proof {
            done = done.push("configuration"@);
        }
    }
    assert(r@.map_values(|s: String| s@) =~= done);
    if !model::layout_equal(&prev.layout, &node.layout) {
        r.push(text::owned("layout"));
        proof {
            done = done.push("layout"@);
        }
    }
    assert(r@.map_values(|s: String| s@) =~= done);
    if !text::str_eq(prev.annotation.as_str(), node.annotation.as_str()) {
        r.push(text::owned("annotation"));
        proof {
            done = done.push("annotation"@);
        }
    }
    assert(r@.map_values(|s: String| s@) =~= done);
    if !json::json_equal(&prev.compatibility_metadata, &node.compatibility_metadata) {
        r.push(text::owned("compatibility_metadata"));
        proof {
            done = done.push("compatibility_metadata"@);
        }
    }
    assert(r@.map_values(|s: String| s@) =~= done);
    assert(done =~= changed_fields(prev@, node@));
    r
}

/// The entries of `t` whose identity `other` lacks.
fn missing_refs(nodes: &[NodeInstance], t: &Vec<(String, usize)>, other: &Vec<(String, usize)>) -> (r: Vec<DiffNodeRef>)
    requires
        forall|k: int| 0 <= k < t@.len() ==> (#[trigger] t@[k]).1 < nodes@.len(),
    ensures
        r@.map_values(|x: DiffNodeRef| ref_view(x)) == missing_from(
            model::node_views(nodes@),
            table_view(t@),
            table_view(other@),
        ),
{
    let ghost views = model::node_views(nodes@);
    let ghost tv = table_view(t@);
    let mut r: Vec<DiffNodeRef> = Vec::new();
    let mut i: usize = 0;
    assert(tv.take(0) =~= Seq::<IdEntry>::empty());
    assert(r@.map_values(|x: DiffNodeRef| ref_view(x)) =~= Seq::<(Seq<char>, Seq<char>)>::empty());
    while i < t.len()
        invariant
            0 <= i <= t@.len(),
            views == model::node_views(nodes@),
            tv == table_view(t@),
            forall|k: int| 0 <= k < t@.len() ==> (#[trigger] t@[k]).1 < nodes@.len(),
            r@.map_values(|x: DiffNodeRef| ref_view(x)) == missing_from(views, tv.take(i as int), table_view(other@)),
        decreases t@.len() - i,
    {
        assert(tv.take(i + 1).drop_last() =~= tv.take(i as int));
        assert(tv.take(i + 1).last() == tv[i as int]);
        let index = t[i].1;
        if find_in(other, t[i].0.as_str()).is_none() {
            let ghost before = r@.map_values(|x: DiffNodeRef| ref_view(x));
            assert(views[index as int].name == nodes@[index as int].name@);
            let item = DiffNodeRef { id: t[i].0.clone(), name: nodes[index].name.clone() };
            r.push(item);
            assert(r@.map_values(|x: DiffNodeRef| ref_view(x)) =~= before.push(
                (tv[i as int].0, views[tv[i as int].1].name),
            ));
        }
        i = i + 1;
    }
    assert(tv.take(i as int) =~= tv);
    r
}

/// The Draft entries whose node changed against the published one.
fn modified_refs(
    draft: &[NodeInstance],
    published: &[NodeInstance],
    t: &Vec<(String, usize)>,
    other: &Vec<(String, usize)>,
) -> (r: Vec<DiffNodeModified>)
    requires
        forall|k: int| 0 <= k < t@.len() ==> (#[trigger] t@[k]).1 < draft@.len(),
        forall|k: int| 0 <= k < other@.len() ==> (#[trigger] other@[k]).1 < published@.len(),
    ensures
        r@.map_values(|x: DiffNodeModified| modified_view(x)) == modified_in(
            model::node_views(draft@),
            model::node_views(published@),
            table_view(t@),
            table_view(other@),
        ),
{
    let ghost dv = model::node_views(draft@);
    let ghost pv = model::node_views(published@);
    let ghost tv = table_view(t@);
    let mut r: Vec<DiffNodeModified> = Vec::new();
    let mut i: usize = 0;
    assert(tv.take(0) =~= Seq::<IdEntry>::empty());
    assert(r@.map_values(|x: DiffNodeModified| modified_view(x)) =~= Seq::<(Seq<char>, Seq<char>, Seq<Seq<char>>)>::empty());
    while i < t.len()
        invariant
            0 <= i <= t@.len(),
            dv == model::node_views(draft@),
            pv == model::node_views(published@),
            tv == table_view(t@),
            forall|k: int| 0 <= k < t@.len() ==> (#[trigger] t@[k]).1 < draft@.len(),
            forall|k: int| 0 <= k < other@.len() ==> (#[trigger] other@[k]).1 < published@.len(),
            r@.map_values(|x: DiffNodeModified| modified_view(x)) == modified_in(dv, pv, tv.take(i as int), table_view(other@)),
        decreases t@.len() - i,
    {
        assert(tv.take(i + 1).drop_last() =~= tv.take(i as int));
        assert(tv.take(i + 1).last() == tv[i as int]);
        let index = t[i].1;
        assert(dv[index as int] == draft@[index as int]@);
        if let Some(j) = find_in(other, t[i].0.as_str()) {
            assert(j < published@.len());
            assert(pv[j as int] == published@[j as int]@);
            let changed = changed_fields_of(&published[j], &draft[index]);
            if changed.len() > 0 {
                let ghost before = r@.map_values(|x: DiffNodeModified| modified_view(x));
                let ghost cv = changed@.map_values(|s: String| s@);
                let item = DiffNodeModified { id: t[i].0.clone(), name: draft[index].name.clone(), changed };
                r.push(item);
                assert(r@.map_values(|x: DiffNodeModified| modified_view(x)) =~= before.push(
                    (tv[i as int].0, dv[index as int].name, cv),
                ));
            }
        }
        i = i + 1;
    }
    assert(tv.take(i as int) =~= tv);
    r
}

/// The key of a Connection.
fn connection_key_of(v: &Json) -> (r: Option<String>)
    ensures
        match r {
            Some(k) => connection_key(v@) == Some(k@),
            None => connection_key(v@) is None,
        },
{
    let null = Json::Null;
    let s = policy::field_of(v, "source", &null);
    let t = policy::field_of(v, "target", &null);
    let a = policy::field_of(s, "node", &null).as_str();
    let b = policy::field_of(s, "output_port", &null).as_str();
    let c = policy::field_of(t, "node", &null).as_str();
    let d = policy::field_of(t, "input_port", &null).as_str();
    match (a, b, c, d) {
        (Some(a), Some(b), Some(c), Some(d)) => {
            let mut k = a.clone();
            text::push_str(&mut k, ":");
            text::push_str(&mut k, b.as_str());
            text::push_str(&mut k, " -> ");
            text::push_str(&mut k, c.as_str());
            text::push_str(&mut k, ":");
            text::push_str(&mut k, d.as_str());
            Some(k)
        },
        _ => None,
    }
}

/// Where `insert_key` puts a key.
proof fn lemma_insert_key(s: Seq<Seq<char>>, x: Seq<char>, p: int)
    requires
        0 <= p <= s.len(),
        forall|k: int| 0 <= k < p ==> #[trigger] s[k] != x && !text::seq_lt(x, s[k]),
        p < s.len() ==> (s[p] == x || text::seq_lt(x, s[p])),
    ensures
        insert_key(s, x) == if p < s.len() && s[p] == x {
            s
        } else {
            s.insert(p, x)
        },
    decreases s.len(),
{
    if s.len() == 0 {
        assert(s.insert(p, x) =~= seq![x]);
    } else if p == 0 {
        assert(s.insert(0, x) =~= seq![x] + s);
    } else {
        lemma_insert_key(s.drop_first(), x, p - 1);
        if p < s.len() && s[p] == x {
            assert(seq![s[0]] + s.drop_first() =~= s);
        } else {
            assert(seq![s[0]] + s.drop_first().insert(p - 1, x) =~= s.insert(p, x));
        }
    }
}

/// The Connection keys, ascending and without repeats.
fn build_key_set(connections: &Vec<Json>) -> (r: Vec<String>)
    ensures
        r@.map_values(|s: String| s@) == key_set(json::jvs(connections@), connections@.len()),
{
    proof {
        json::lemma_jvs(connections@);
    }
    let ghost cv = json::jvs(connections@);
    let mut r: Vec<String> = Vec::new();
    let mut i: usize = 0;
    assert(r@.map_values(|s: String| s@) =~= Seq::<Seq<char>>::empty());
    while i < connections.len()
        invariant
            0 <= i <= connections@.len(),
            cv == json::jvs(connections@),
            cv.len() == connections@.len(),
            forall|k: int| 0 <= k < connections@.len() ==> #[trigger] cv[k] == json::jv(connections@[k]),
            r@.map_values(|s: String| s@) == key_set(cv, i as nat),
        decreases connections@.len() - i,
    {
        if let Some(k) = connection_key_of(&connections[i]) {
            let ghost s = r@.map_values(|x: String| x@);
            let mut p: usize = 0;
            while p < r.len() && !text::str_eq(r[p].as_str(), k.as_str()) && !text::str_lt(k.as_str(), r[p].as_str())
                invariant
                    0 <= p <= r@.len(),
                    s == r@.map_values(|x: String| x@),
                    forall|q: int| 0 <= q < p ==> #[trigger] s[q] != k@ && !text::seq_lt(k@, s[q]),
                decreases r@.len() - p,
            {
                p = p + 1;
            }
            proof {
                lemma_insert_key(s, k@, p as int);
            }
            if !(p < r.len() && text::str_eq(r[p].as_str(), k.as_str())) {
                let ghost kv = k@;
                r.insert(p, k);
                assert(r@.map_values(|x: String| x@) =~= s.insert(p as int, kv));
            }
        }
        i = i + 1;
    }
    r
}

/// The keys of `a` that `b` lacks, in order.
fn keys_not_in(a: &Vec<String>, b: &Vec<String>) -> (r: Vec<String>)
    ensures
        r@.map_values(|s: String| s@) == keys_without(a@.map_values(|s: String| s@), b@.map_values(|s: String| s@)),
{
    let ghost av = a@.map_values(|s: String| s@);
    let ghost bv = b@.map_values(|s: String| s@);
    let mut r: Vec<String> = Vec::new();
    let mut i: usize = 0;
    assert(av.take(0) =~= Seq::<Seq<char>>::empty());
    assert(r@.map_values(|s: String| s@) =~= Seq::<Seq<char>>::empty());
    while i < a.len()
        invariant
            0 <= i <= a@.len(),
            av == a@.map_values(|s: String| s@),
            bv == b@.map_values(|s: String| s@),
            r@.map_values(|s: String| s@) == keys_without(av.take(i as int), bv),
        decreases a@.len() - i,
    {
        assert(av.take(i + 1).drop_last() =~= av.take(i as int));
        assert(av.take(i + 1).last() == a@[i as int]@);
        let mut found = false;
        let mut j: usize = 0;
        while j < b.len()
            invariant
                0 <= j <= b@.len(),
                i < a@.len(),
                bv == b@.map_values(|s: String| s@),
                found == exists|q: int| 0 <= q < j && bv[q] == a@[i as int]@,
            decreases b@.len() - j,
        {
            assert(bv[j as int] == b@[j as int]@);
            if text::str_eq(b[j].as_str(), a[i].as_str()) {
                found = true;
            }
            j = j + 1;
        }
        proof {
            if bv.contains(a@[i as int]@) {
                let q = choose|q: int| 0 <= q < bv.len() && bv[q] == a@[i as int]@;
                assert(bv[q] == a@[i as int]@);
            }
        }
        if !found {
            let ghost before = r@.map_values(|s: String| s@);
            r.push(a[i].clone());
            assert(r@.map_values(|s: String| s@) =~= before.push(a@[i as int]@));
        }
        i = i + 1;
    }
    assert(av.take(i as int) =~= av);
    r
}

/// The diff of the Draft against the current Published Revision, when there
/// is one; with none, nothing is reported as changed.
pub fn draft_diff(workflow_id: &str, draft: &WorkflowDraft, published: Option<(u64, &WorkflowDraft)>) -> (v: DraftDiffView)
    ensures
        match published {
            Some((revision, p)) => is_diff(v, workflow_id@, draft@, revision, p@),
            None => {
                &&& v.workflow_id@ == workflow_id@
                &&& v.draft_version == draft.draft_version
                &&& v.published_revision is None
                &&& v.nodes.added@.len() == 0 && v.nodes.removed@.len() == 0 && v.nodes.modified@.len() == 0
                &&& v.connections.added@.len() == 0 && v.connections.removed@.len() == 0
                &&& !v.workflow_fields.name && !v.workflow_fields.annotation && !v.workflow_fields.settings
                    && !v.workflow_fields.compatibility_metadata
            },
        },
{
    let (revision, p) = match published {
        Some(found) => found,
        None => {
            return DraftDiffView {
                workflow_id: text::owned(workflow_id),
                draft_version: draft.draft_version,
                published_revision: None,
                nodes: DiffNodes::empty(),
                connections: DiffConnections::empty(),
                workflow_fields: DiffFields { name: false, annotation: false, settings: false, compatibility_metadata: false },
            };
        },
    };
    let draft_nodes = draft.nodes.as_slice();
    let published_nodes = p.nodes.as_slice();
    let dt = build_id_table(draft_nodes);
    let pt = build_id_table(published_nodes);
    let added = missing_refs(draft_nodes, &dt, &pt);
    let removed = missing_refs(published_nodes, &pt, &dt);
    let modified = modified_refs(draft_nodes, published_nodes, &dt, &pt);
    proof {
        json::lemma_jvs(draft.connections@);
        json::lemma_jvs(p.connections@);
    }
    let dk = build_key_set(&draft.connections);
    let pk = build_key_set(&p.connections);
    let connections_added = keys_not_in(&dk, &pk);
    let connections_removed = keys_not_in(&pk, &dk);
    DraftDiffView {
        workflow_id: text::owned(workflow_id),
        draft_version: draft.draft_version,
        published_revision: Some(revision),
        nodes: DiffNodes { added, removed, modified },
        connections: DiffConnections { added: connections_added, removed: connections_removed },
        workflow_fields: DiffFields {
            name: !text::str_eq(draft.name.as_str(), p.name.as_str()),
            annotation: !text::str_eq(draft.annotation.as_str(), p.annotation.as_str()),
            settings: !json::json_equal(&draft.settings, &p.settings),
            compatibility_metadata: !json::json_equal(&draft.compatibility_metadata, &p.compatibility_metadata),
        },
    }
}

/// Identities ascending strictly.
pub open spec fn sorted_ids(t: Seq<IdEntry>) -> bool {
    forall|a: int, b: int| 0 <= a < b < t.len() ==> text::seq_lt(t[a].0, t[b].0)
}

/// Every position of `t` names one of the first `n` nodes.
pub open spec fn positions_below(t: Seq<IdEntry>, n: int) -> bool {
    forall|k: int| 0 <= k < t.len() ==> 0 <= (#[trigger] t[k]).1 < n
}

/// A lower bound of every identity in `t` and of `id` bounds every identity
/// after the insertion.
proof fn lemma_insert_bound(t: Seq<IdEntry>, id: Seq<char>, i: int, lo: Seq<char>)
    requires
        forall|k: int| 0 <= k < t.len() ==> text::seq_lt(lo, (#[trigger] t[k]).0),
        text::seq_lt(lo, id),
    ensures
        forall|k: int| 0 <= k < insert_id(t, id, i).len() ==> text::seq_lt(lo, (#[trigger] insert_id(t, id, i)[k]).0),
    decreases t.len(),
{
    let r = insert_id(t, id, i);
    if t.len() == 0 {
    } else if t[0].0 == id {
        assert forall|k: int| 0 <= k < r.len() implies text::seq_lt(lo, (#[trigger] r[k]).0) by {
            if k > 0 {
                assert(r[k] == t[k]);
            }
        }
    } else if text::seq_lt(id, t[0].0) {
        assert forall|k: int| 0 <= k < r.len() implies text::seq_lt(lo, (#[trigger] r[k]).0) by {
            if k > 0 {
                assert(r[k] == t[k - 1]);
            }
        }
    } else {
        let d = t.drop_first();
        assert forall|k: int| 0 <= k < d.len() implies text::seq_lt(lo, (#[trigger] d[k]).0) by {
            assert(d[k] == t[k + 1]);
        }
        lemma_insert_bound(d, id, i, lo);
        let rest = insert_id(d, id, i);
        assert forall|k: int| 0 <= k < r.len() implies text::seq_lt(lo, (#[trigger] r[k]).0) by {
            if k > 0 {
                assert(r[k] == rest[k - 1]);
            }
        }
    }
}

/// Inserting keeps the identities ascending.
proof fn lemma_insert_sorted(t: Seq<IdEntry>, id: Seq<char>, i: int)
    requires
        sorted_ids(t),
    ensures
        sorted_ids(insert_id(t, id, i)),
    decreases t.len(),
{
    let r = insert_id(t, id, i);
    if t.len() == 0 {
    } else if t[0].0 == id {
        assert forall|k: int| 0 <= k < r.len() implies (#[trigger] r[k]).0 == t[k].0 by {
            if k > 0 {
                assert(r[k] == t[k]);
            }
        }
    } else if text::seq_lt(id, t[0].0) {
        assert forall|a: int, b: int| 0 <= a < b < r.len() implies text::seq_lt(r[a].0, r[b].0) by {
            assert(r[b] == t[b - 1]);
            if a == 0 {
                if b > 1 {
                    text::lemma_seq_lt_transitive(id, t[0].0, t[b - 1].0);
                }
            } else {
                assert(r[a] == t[a - 1]);
            }
        }
    } else {
        text::lemma_seq_lt_total(t[0].0, id);
        let d = t.drop_first();
        assert(sorted_ids(d)) by {
            assert forall|a: int, b: int| 0 <= a < b < d.len() implies text::seq_lt(d[a].0, d[b].0) by {
                assert(d[a] == t[a + 1]);
                assert(d[b] == t[b + 1]);
            }
        }
        assert forall|k: int| 0 <= k < d.len() implies text::seq_lt(t[0].0, (#[trigger] d[k]).0) by {
            assert(d[k] == t[k + 1]);
        }
        lemma_insert_sorted(d, id, i);
        lemma_insert_bound(d, id, i, t[0].0);
        let rest = insert_id(d, id, i);
        assert forall|a: int, b: int| 0 <= a < b < r.len() implies text::seq_lt(r[a].0, r[b].0) by {
            assert(r[b] == rest[b - 1]);
            if a > 0 {
                assert(r[a] == rest[a - 1]);
            }
        }
    }
}

/// Inserting a position below `n` keeps every position below `n`.
proof fn lemma_insert_below(t: Seq<IdEntry>, id: Seq<char>, i: int, n: int)
    requires
        positions_below(t, n),
        0 <= i < n,
    ensures
        positions_below(insert_id(t, id, i), n),
    decreases t.len(),
{
    let r = insert_id(t, id, i);
    if t.len() == 0 {
    } else if t[0].0 == id {
        assert forall|k: int| 0 <= k < r.len() implies 0 <= (#[trigger] r[k]).1 < n by {
            if k > 0 {
                assert(r[k] == t[k]);
            }
        }
    } else if text::seq_lt(id, t[0].0) {
        assert forall|k: int| 0 <= k < r.len() implies 0 <= (#[trigger] r[k]).1 < n by {
            if k > 0 {
                assert(r[k] == t[k - 1]);
            }
        }
    } else {
        let d = t.drop_first();
        assert forall|k: int| 0 <= k < d.len() implies 0 <= (#[trigger] d[k]).1 < n by {
            assert(d[k] == t[k + 1]);
        }
        lemma_insert_below(d, id, i, n);
        let rest = insert_id(d, id, i);
        assert forall|k: int| 0 <= k < r.len() implies 0 <= (#[trigger] r[k]).1 < n by {
            if k > 0 {
                assert(r[k] == rest[k - 1]);
            }
        }
    }
}

/// The identity table is ascending and names only its nodes.
proof fn lemma_id_table(nodes: Seq<NodeV>, n: nat)
    ensures
        sorted_ids(id_table(nodes, n)),
        positions_below(id_table(nodes, n), n as int),
    decreases n,
{
    if n > 0 {
        lemma_id_table(nodes, (n - 1) as nat);
        let t = id_table(nodes, (n - 1) as nat);
        lemma_insert_sorted(t, nodes[n - 1].id, n - 1);
        assert(positions_below(t, n as int));
        lemma_insert_below(t, nodes[n - 1].id, n - 1, n as int);
    }
}

/// In an ascending table, each identity finds its own entry.
proof fn lemma_find_sorted(t: Seq<IdEntry>, k: int)
    requires
        sorted_ids(t),
        0 <= k < t.len(),
    ensures
        find_id(t, t[k].0) == Some(t[k].1),
    decreases k,
{
    if k > 0 {
        text::lemma_seq_lt_irreflexive(t[k].0);
        assert(t[0].0 != t[k].0);
        let d = t.drop_first();
        assert(sorted_ids(d)) by {
            assert forall|a: int, b: int| 0 <= a < b < d.len() implies text::seq_lt(d[a].0, d[b].0) by {
                assert(d[a] == t[a + 1]);
                assert(d[b] == t[b + 1]);
            }
        }
        assert(d[k - 1] == t[k]);
        lemma_find_sorted(d, k - 1);
    }
}

/// No entry of `u` is missing from `t` when `t` finds each of them.
proof fn lemma_missing_none(nodes: Seq<NodeV>, u: Seq<IdEntry>, t: Seq<IdEntry>)
    requires
        forall|k: int| 0 <= k < u.len() ==> find_id(t, (#[trigger] u[k]).0) is Some,
    ensures
        missing_from(nodes, u, t) == Seq::<(Seq<char>, Seq<char>)>::empty(),
    decreases u.len(),
{
    if u.len() > 0 {
        let p = u.drop_last();
        assert forall|k: int| 0 <= k < p.len() implies find_id(t, (#[trigger] p[k]).0) is Some by {
            assert(p[k] == u[k]);
        }
        lemma_missing_none(nodes, p, t);
        assert(u.last() == u[u.len() - 1]);
    }
}

/// Whether a node equals itself field by field: no NaN in its configuration,
/// metadata or coordinates.
pub open spec fn self_equal(n: NodeV) -> bool {
    &&& json::no_nan(n.configuration)
    &&& json::no_nan(n.compatibility_metadata)
    &&& !json::f64_is_nan(n.layout.x_bits)
    &&& !json::f64_is_nan(n.layout.y_bits)
}

/// A node that equals itself has no changed field against itself.
proof fn lemma_unchanged(n: NodeV)
    requires
        self_equal(n),
    ensures
        changed_fields(n, n).len() == 0,
{
    json::lemma_json_eq_refl(n.configuration);
    json::lemma_json_eq_refl(n.compatibility_metadata);
}

/// No entry of `u` is modified when `t` finds each at its own node and that
/// node equals itself.
proof fn lemma_modified_none(nodes: Seq<NodeV>, u: Seq<IdEntry>, t: Seq<IdEntry>)
    requires
        forall|k: int| 0 <= k < u.len() ==> find_id(t, (#[trigger] u[k]).0) == Some(u[k].1),
        forall|k: int| 0 <= k < u.len() ==> changed_fields(nodes[(#[trigger] u[k]).1], nodes[u[k].1]).len() == 0,
    ensures
        modified_in(nodes, nodes, u, t) == Seq::<(Seq<char>, Seq<char>, Seq<Seq<char>>)>::empty(),
    decreases u.len(),
{
    if u.len() > 0 {
        let p = u.drop_last();
        assert forall|k: int| 0 <= k < p.len() implies find_id(t, (#[trigger] p[k]).0) == Some(p[k].1) by {
            assert(p[k] == u[k]);
        }
        assert forall|k: int| 0 <= k < p.len() implies changed_fields(nodes[(#[trigger] p[k]).1], nodes[p[k].1]).len() == 0 by {
            assert(p[k] == u[k]);
        }
        lemma_modified_none(nodes, p, t);
        assert(u.last() == u[u.len() - 1]);
    }
}

/// No key of `a` is missing from `b` when `b` holds each of them.
proof fn lemma_keys_without_none(a: Seq<Seq<char>>, b: Seq<Seq<char>>)
    requires
        forall|k: int| 0 <= k < a.len() ==> b.contains(#[trigger] a[k]),
    ensures
        keys_without(a, b) == Seq::<Seq<char>>::empty(),
    decreases a.len(),
{
    if a.len() > 0 {
        let p = a.drop_last();
        assert forall|k: int| 0 <= k < p.len() implies b.contains(#[trigger] p[k]) by {
            assert(p[k] == a[k]);
        }
        lemma_keys_without_none(p, b);
        assert(a.last() == a[a.len() - 1]);
    }
}

/// A Draft compared with a revision that holds the same document shows no
/// change: nothing added, removed or modified, no Connection added or
/// removed, and no workflow field changed (as long as no number or
/// coordinate in it is a NaN, which never equals itself).
pub proof fn lemma_diff_against_itself_is_empty(
    v: DraftDiffView,
    workflow_id: Seq<char>,
    d: model::DraftV,
    revision: u64,
)
    requires
        is_diff(v, workflow_id, d, revision, d),
        forall|i: int| 0 <= i < d.nodes.len() ==> self_equal(#[trigger] d.nodes[i]),
        json::no_nan(d.settings),
        json::no_nan(d.compatibility_metadata),
    ensures
        v.published_revision == Some(revision),
        v.draft_version == d.draft_version,
        v.nodes.added@.len() == 0,
        v.nodes.removed@.len() == 0,
        v.nodes.modified@.len() == 0,
        v.connections.added@.len() == 0,
        v.connections.removed@.len() == 0,
        !v.workflow_fields.name,
        !v.workflow_fields.annotation,
        !v.workflow_fields.settings,
        !v.workflow_fields.compatibility_metadata,
{
    let t = id_table(d.nodes, d.nodes.len());
    let keys = key_set(d.connections, d.connections.len());
    lemma_id_table(d.nodes, d.nodes.len());
    assert forall|k: int| 0 <= k < t.len() implies find_id(t, (#[trigger] t[k]).0) == Some(t[k].1) by {
        lemma_find_sorted(t, k);
    }
    assert forall|k: int| 0 <= k < t.len() implies changed_fields(d.nodes[(#[trigger] t[k]).1], d.nodes[t[k].1]).len() == 0 by {
        lemma_unchanged(d.nodes[t[k].1]);
    }
    lemma_missing_none(d.nodes, t, t);
    lemma_modified_none(d.nodes, t, t);
    assert forall|k: int| 0 <= k < keys.len() implies keys.contains(#[trigger] keys[k]) by {}
    lemma_keys_without_none(keys, keys);
    json::lemma_json_eq_refl(d.settings);
    json::lemma_json_eq_refl(d.compatibility_metadata);
    assert(v.nodes.added@.map_values(|r: DiffNodeRef| ref_view(r)).len() == v.nodes.added@.len());
    assert(v.nodes.removed@.map_values(|r: DiffNodeRef| ref_view(r)).len() == v.nodes.removed@.len());
    assert(v.nodes.modified@.map_values(|m: DiffNodeModified| modified_view(m)).len() == v.nodes.modified@.len());
    assert(v.connections.added@.map_values(|s: String| s@).len() == v.connections.added@.len());
    assert(v.connections.removed@.map_values(|s: String| s@).len() == v.connections.removed@.len());
}


/// Whether the node changed between the revision's version `prev` and the
/// Draft's version `node` in any field the diff compares.
pub open spec fn node_differs(prev: NodeV, node: NodeV) -> bool {
    ||| prev.name != node.name
    ||| prev.lock != node.lock
    ||| !json::json_eq(prev.configuration, node.configuration)
    ||| !model::layout_eq(prev.layout, node.layout)
    ||| prev.annotation != node.annotation
    ||| !json::json_eq(prev.compatibility_metadata, node.compatibility_metadata)
}

/// Whether `changed` names exactly the fields in which `prev` and `node`
/// differ: each field name is listed if and only if that field differs.
pub open spec fn names_changed_fields(changed: Seq<Seq<char>>, prev: NodeV, node: NodeV) -> bool {
    &&& (changed.contains("name"@) <==> prev.name != node.name)
    &&& (changed.contains("contract_lock"@) <==> prev.lock != node.lock)
    &&& (changed.contains("configuration"@) <==> !json::json_eq(prev.configuration, node.configuration))
    &&& (changed.contains("layout"@) <==> !model::layout_eq(prev.layout, node.layout))
    &&& (changed.contains("annotation"@) <==> prev.annotation != node.annotation)
    &&& (changed.contains("compatibility_metadata"@) <==> !json::json_eq(
        prev.compatibility_metadata,
        node.compatibility_metadata,
    ))
}

/// A concatenation holds what either part holds.
proof fn lemma_contains_add(a: Seq<Seq<char>>, b: Seq<Seq<char>>, x: Seq<char>)
    ensures
        (a + b).contains(x) <==> a.contains(x) || b.contains(x),
{
    if (a + b).contains(x) {
        let k = choose|k: int| 0 <= k < (a + b).len() && (a + b)[k] == x;
        if k < a.len() {
            assert(a[k] == x);
        } else {
            assert(b[k - a.len()] == x);
        }
    }
    if a.contains(x) {
        let k = choose|k: int| 0 <= k < a.len() && a[k] == x;
        assert((a + b)[k] == x);
    }
    if b.contains(x) {
        let k = choose|k: int| 0 <= k < b.len() && b[k] == x;
        assert((a + b)[k + a.len()] == x);
    }
}

/// A field part of `changed_fields`: the name when the field differs.
proof fn lemma_part(f: Seq<char>, differs: bool, x: Seq<char>)
    ensures
        (if differs {
            seq![f]
        } else {
            Seq::<Seq<char>>::empty()
        }).contains(x) <==> differs && x == f,
{
    if differs && x == f {
        assert(seq![f][0] == x);
    }
}

/// `changed_fields` lists each field name exactly when that field differs,
/// and is empty exactly when nothing differs.
proof fn lemma_changed_fields(prev: NodeV, node: NodeV)
    ensures
        names_changed_fields(changed_fields(prev, node), prev, node),
        changed_fields(prev, node).len() > 0 <==> node_differs(prev, node),
{
    reveal_strlit("name");
    reveal_strlit("contract_lock");
    reveal_strlit("configuration");
    reveal_strlit("layout");
    reveal_strlit("annotation");
    reveal_strlit("compatibility_metadata");
    let names = seq!["name"@, "contract_lock"@, "configuration"@, "layout"@, "annotation"@, "compatibility_metadata"@];
    let conds = seq![
        prev.name != node.name,
        prev.lock != node.lock,
        !json::json_eq(prev.configuration, node.configuration),
        !model::layout_eq(prev.layout, node.layout),
        prev.annotation != node.annotation,
        !json::json_eq(prev.compatibility_metadata, node.compatibility_metadata),
    ];
    assert(("contract_lock"@)[3] != ("configuration"@)[3]);
    assert forall|a: int, b: int| 0 <= a < b < 6 implies names[a] != names[b] by {
        if a == 1 && b == 2 {
            assert(names[a][3] != names[b][3]);
        } else {
            assert(names[a].len() != names[b].len());
        }
    }
    let p0 = if conds[0] { seq![names[0]] } else { Seq::<Seq<char>>::empty() };
    let p1 = if conds[1] { seq![names[1]] } else { Seq::<Seq<char>>::empty() };
    let p2 = if conds[2] { seq![names[2]] } else { Seq::<Seq<char>>::empty() };
    let p3 = if conds[3] { seq![names[3]] } else { Seq::<Seq<char>>::empty() };
    let p4 = if conds[4] { seq![names[4]] } else { Seq::<Seq<char>>::empty() };
    let p5 = if conds[5] { seq![names[5]] } else { Seq::<Seq<char>>::empty() };
    let c = changed_fields(prev, node);
    assert(c == p0 + p1 + p2 + p3 + p4 + p5);
    assert forall|x: Seq<char>| c.contains(x) <==> exists|q: int| 0 <= q < 6 && conds[q] && x == names[q] by {
        lemma_contains_add(p0 + p1 + p2 + p3 + p4, p5, x);
        lemma_contains_add(p0 + p1 + p2 + p3, p4, x);
        lemma_contains_add(p0 + p1 + p2, p3, x);
        lemma_contains_add(p0 + p1, p2, x);
        lemma_contains_add(p0, p1, x);
        lemma_part(names[0], conds[0], x);
        lemma_part(names[1], conds[1], x);
        lemma_part(names[2], conds[2], x);
        lemma_part(names[3], conds[3], x);
        lemma_part(names[4], conds[4], x);
        lemma_part(names[5], conds[5], x);
        if exists|q: int| 0 <= q < 6 && conds[q] && x == names[q] {
            let q = choose|q: int| 0 <= q < 6 && conds[q] && x == names[q];
            assert(q == 0 || q == 1 || q == 2 || q == 3 || q == 4 || q == 5);
        }
        if c.contains(x) {
            if p0.contains(x) {
                assert(0 <= 0 < 6 && conds[0] && x == names[0]);
            } else if p1.contains(x) {
                assert(0 <= 1 < 6 && conds[1] && x == names[1]);
            } else if p2.contains(x) {
                assert(0 <= 2 < 6 && conds[2] && x == names[2]);
            } else if p3.contains(x) {
                assert(0 <= 3 < 6 && conds[3] && x == names[3]);
            } else if p4.contains(x) {
                assert(0 <= 4 < 6 && conds[4] && x == names[4]);
            } else {
                assert(0 <= 5 < 6 && conds[5] && x == names[5]);
            }
        }
    }
    assert forall|q: int| 0 <= q < 6 implies (c.contains(names[q]) <==> conds[q]) by {
        if c.contains(names[q]) {
            let r = choose|r: int| 0 <= r < 6 && conds[r] && names[q] == names[r];
            assert(r == q);
        }
        assert(0 <= q < 6 && conds[q] ==> (exists|r: int| 0 <= r < 6 && conds[r] && names[q] == names[r]));
    }
    assert(c.contains(names[0]) <==> conds[0]);
    assert(c.contains(names[1]) <==> conds[1]);
    assert(c.contains(names[2]) <==> conds[2]);
    assert(c.contains(names[3]) <==> conds[3]);
    assert(c.contains(names[4]) <==> conds[4]);
    assert(c.contains(names[5]) <==> conds[5]);
    if node_differs(prev, node) {
        if conds[0] {
            assert(c.contains(names[0]));
        } else if conds[1] {
            assert(c.contains(names[1]));
        } else if conds[2] {
            assert(c.contains(names[2]));
        } else if conds[3] {
            assert(c.contains(names[3]));
        } else if conds[4] {
            assert(c.contains(names[4]));
        } else {
            assert(c.contains(names[5]));
        }
    }
    if c.len() > 0 {
        assert(c.contains(c[0]));
    }
}


/// Looking up after an insertion finds the inserted position for that
/// identity and what was there before for any other.
proof fn lemma_find_insert(t: Seq<IdEntry>, id: Seq<char>, i: int, x: Seq<char>)
    ensures
        find_id(insert_id(t, id, i), x) == if x == id {
            Some(i)
        } else {
            find_id(t, x)
        },
    decreases t.len(),
{
    let r = insert_id(t, id, i);
    if t.len() == 0 {
        assert(r[0] == (id, i));
        assert(r.drop_first() =~= Seq::<IdEntry>::empty());
        assert(find_id(r.drop_first(), x) == None::<int>);
    } else if t[0].0 == id {
        assert(r[0] == (id, i));
        assert(r.drop_first() =~= t.drop_first());
    } else if text::seq_lt(id, t[0].0) {
        assert(r[0] == (id, i));
        assert(r.drop_first() =~= t);
    } else {
        lemma_find_insert(t.drop_first(), id, i, x);
        assert(r == seq![t[0]] + insert_id(t.drop_first(), id, i));
        assert(r[0] == t[0]);
        assert(r.drop_first() =~= insert_id(t.drop_first(), id, i));
        assert(find_id(r, x) == if r[0].0 == x {
            Some(r[0].1)
        } else {
            find_id(r.drop_first(), x)
        });
    }
}

/// The table of the first `n` nodes maps an identity to the last of those
/// nodes that carries it.
proof fn lemma_find_last(nodes: Seq<NodeV>, n: nat, i: int)
    requires
        0 <= i < n <= nodes.len(),
        forall|k: int| i < k < n ==> nodes[k].id != nodes[i].id,
    ensures
        find_id(id_table(nodes, n), nodes[i].id) == Some(i),
    decreases n,
{
    lemma_find_insert(id_table(nodes, (n - 1) as nat), nodes[n - 1].id, n - 1, nodes[i].id);
    if i < n - 1 {
        lemma_find_last(nodes, (n - 1) as nat, i);
    }
}

/// What a lookup finds is an entry of the table.
proof fn lemma_find_entry(t: Seq<IdEntry>, x: Seq<char>)
    requires
        find_id(t, x) is Some,
    ensures
        exists|k: int| 0 <= k < t.len() && #[trigger] t[k] == (x, find_id(t, x)->0),
    decreases t.len(),
{
    if t[0].0 != x {
        lemma_find_entry(t.drop_first(), x);
        let k = choose|k: int| 0 <= k < t.drop_first().len() && #[trigger] t.drop_first()[k] == (x, find_id(t, x)->0);
        assert(t[k + 1] == t.drop_first()[k]);
    } else {
        assert(t[0] == (x, find_id(t, x)->0));
    }
}

/// No identity occurs twice in a table.
pub open spec fn distinct_ids(t: Seq<IdEntry>) -> bool {
    forall|a: int, b: int| 0 <= a < b < t.len() ==> (#[trigger] t[a]).0 != (#[trigger] t[b]).0
}

/// The modified entries of a table without repeated identities: an entry
/// is listed for identity `x` exactly when the table maps `x` to a node, the
/// other side has `x`, and some field changed; and it then lists that node's
/// name and the changed fields.
proof fn lemma_modified_entries(
    draft: Seq<NodeV>,
    published: Seq<NodeV>,
    t: Seq<IdEntry>,
    other: Seq<IdEntry>,
    kx: int,
)
    requires
        distinct_ids(t),
        0 <= kx < t.len(),
    ensures
        ({
            let mods = modified_in(draft, published, t, other);
            let x = t[kx].0;
            &&& forall|m: int| 0 <= m < mods.len() && (#[trigger] mods[m]).0 == x ==> {
                &&& find_id(other, x) is Some
                &&& mods[m].2.len() > 0
                &&& mods[m] == (x, draft[t[kx].1].name, changed_fields(
                    published[find_id(other, x)->0],
                    draft[t[kx].1],
                ))
            }
            &&& (find_id(other, x) is Some && changed_fields(published[find_id(other, x)->0], draft[t[kx].1]).len()
                > 0) ==> exists|m: int| 0 <= m < mods.len() && (#[trigger] mods[m]).0 == x
        }),
    decreases t.len(),
{
    let mods = modified_in(draft, published, t, other);
    let p = t.drop_last();
    let rest = modified_in(draft, published, p, other);
    let x = t[kx].0;
    let last = t.last();
    assert(last == t[t.len() - 1]);
    assert(distinct_ids(p)) by {
        assert forall|a: int, b: int| 0 <= a < b < p.len() implies (#[trigger] p[a]).0 != (#[trigger] p[b]).0 by {
            assert(p[a] == t[a] && p[b] == t[b]);
        }
    }
    // Entries of `rest` are for identities of `p`.
    assert forall|m: int| 0 <= m < rest.len() implies exists|k: int| 0 <= k < p.len() && (#[trigger] p[k]).0 == (
    #[trigger] rest[m]).0 by {
        lemma_modified_from(draft, published, p, other, m);
    }
    if kx == t.len() - 1 {
        // `x` is not in `p`, so `rest` has no entry for it.
        assert forall|m: int| 0 <= m < rest.len() implies (#[trigger] rest[m]).0 != x by {
            let k = choose|k: int| 0 <= k < p.len() && (#[trigger] p[k]).0 == rest[m].0;
            assert(t[k] == p[k]);
        }
        match find_id(other, x) {
            Some(j) => {
                let changed = changed_fields(published[j], draft[last.1]);
                if changed.len() > 0 {
                    assert(mods == rest.push((x, draft[last.1].name, changed)));
                    assert(mods[rest.len() as int].0 == x);
                } else {
                    assert(mods == rest);
                }
            },
            None => {
                assert(mods == rest);
            },
        }
    } else {
        assert(p[kx] == t[kx]);
        lemma_modified_entries(draft, published, p, other, kx);
        assert(last.0 != x);
        match find_id(other, last.0) {
            Some(j) => {
                let changed = changed_fields(published[j], draft[last.1]);
                if changed.len() > 0 {
                    assert(mods == rest.push((last.0, draft[last.1].name, changed)));
                    assert forall|m: int| 0 <= m < mods.len() && (#[trigger] mods[m]).0 == x implies {
                        &&& find_id(other, x) is Some
                        &&& mods[m].2.len() > 0
                        &&& mods[m] == (x, draft[t[kx].1].name, changed_fields(
                            published[find_id(other, x)->0],
                            draft[t[kx].1],
                        ))
                    } by {
                        assert(m < rest.len());
                        assert(mods[m] == rest[m]);
                    }
                    if find_id(other, x) is Some && changed_fields(published[find_id(other, x)->0], draft[t[kx].1]).len() > 0 {
                        let m = choose|m: int| 0 <= m < rest.len() && (#[trigger] rest[m]).0 == x;
                        assert(mods[m] == rest[m]);
                    }
                } else {
                    assert(mods == rest);
                }
            },
            None => {
                assert(mods == rest);
            },
        }
    }
}

/// Every modified entry is for an identity of the table.
proof fn lemma_modified_from(draft: Seq<NodeV>, published: Seq<NodeV>, t: Seq<IdEntry>, other: Seq<IdEntry>, m: int)
    requires
        0 <= m < modified_in(draft, published, t, other).len(),
    ensures
        exists|k: int| 0 <= k < t.len() && (#[trigger] t[k]).0 == modified_in(draft, published, t, other)[m].0,
    decreases t.len(),
{
    let p = t.drop_last();
    let rest = modified_in(draft, published, p, other);
    let mods = modified_in(draft, published, t, other);
    assert(t.last() == t[t.len() - 1]);
    if m < rest.len() {
        assert(mods[m] == rest[m]);
        lemma_modified_from(draft, published, p, other, m);
        let k = choose|k: int| 0 <= k < p.len() && (#[trigger] p[k]).0 == rest[m].0;
        assert(t[k] == p[k]);
    } else {
        assert(mods[m].0 == t.last().0);
    }
}

/// For a node present in both the Draft and the revision (the last node
/// with its identity on each side), the diff lists it as modified exactly
/// when one of its compared fields differs, and then under its Draft name
/// with exactly the names of the fields that differ: each of `name`,
/// `contract_lock`, `configuration`, `layout`, `annotation` and
/// `compatibility_metadata` is listed if and only if that field differs.
pub proof fn lemma_modified_lists_exactly_the_changed_fields(
    v: DraftDiffView,
    workflow_id: Seq<char>,
    draft: model::DraftV,
    revision: u64,
    published: model::DraftV,
    i: int,
    j: int,
)
    requires
        is_diff(v, workflow_id, draft, revision, published),
        0 <= i < draft.nodes.len(),
        0 <= j < published.nodes.len(),
        draft.nodes[i].id == published.nodes[j].id,
        forall|k: int| i < k < draft.nodes.len() ==> draft.nodes[k].id != draft.nodes[i].id,
        forall|k: int| j < k < published.nodes.len() ==> published.nodes[k].id != draft.nodes[i].id,
    ensures
        (exists|m: int| 0 <= m < v.nodes.modified@.len() && (#[trigger] v.nodes.modified@[m]).id@ == draft.nodes[i].id)
            <==> node_differs(published.nodes[j], draft.nodes[i]),
        forall|m: int|
            0 <= m < v.nodes.modified@.len() && (#[trigger] v.nodes.modified@[m]).id@ == draft.nodes[i].id ==> {
                &&& v.nodes.modified@[m].name@ == draft.nodes[i].name
                &&& names_changed_fields(
                    v.nodes.modified@[m].changed@.map_values(|s: String| s@),
                    published.nodes[j],
                    draft.nodes[i],
                )
            },
{
    let x = draft.nodes[i].id;
    let dt = id_table(draft.nodes, draft.nodes.len());
    let pt = id_table(published.nodes, published.nodes.len());
    let mods = modified_in(draft.nodes, published.nodes, dt, pt);
    let views = v.nodes.modified@.map_values(|m: DiffNodeModified| modified_view(m));
    assert(views == mods);
    lemma_find_last(draft.nodes, draft.nodes.len(), i);
    lemma_find_last(published.nodes, published.nodes.len(), j);
    lemma_find_entry(dt, x);
    let kx = choose|k: int| 0 <= k < dt.len() && #[trigger] dt[k] == (x, find_id(dt, x)->0);
    lemma_id_table(draft.nodes, draft.nodes.len());
    assert(distinct_ids(dt)) by {
        assert forall|a: int, b: int| 0 <= a < b < dt.len() implies (#[trigger] dt[a]).0 != (#[trigger] dt[b]).0 by {
            text::lemma_seq_lt_irreflexive(dt[a].0);
        }
    }
    lemma_modified_entries(draft.nodes, published.nodes, dt, pt, kx);
    lemma_changed_fields(published.nodes[j], draft.nodes[i]);
    assert forall|m: int| 0 <= m < v.nodes.modified@.len() implies (#[trigger] v.nodes.modified@[m]).id@ == mods[m].0
        && v.nodes.modified@[m].name@ == mods[m].1 && v.nodes.modified@[m].changed@.map_values(|s: String| s@) == mods[m].2 by {
        assert(views[m] == modified_view(v.nodes.modified@[m]));
    }
    if node_differs(published.nodes[j], draft.nodes[i]) {
        let m = choose|m: int| 0 <= m < mods.len() && (#[trigger] mods[m]).0 == x;
        assert(v.nodes.modified@[m].id@ == x);
    }
}


/// Each entry after an insertion is the inserted one or an entry from before.
proof fn lemma_insert_entries(t: Seq<IdEntry>, id: Seq<char>, i: int)
    ensures
        forall|k: int|
            0 <= k < insert_id(t, id, i).len() ==> #[trigger] insert_id(t, id, i)[k] == (id, i) || t.contains(
                insert_id(t, id, i)[k],
            ),
    decreases t.len(),
{
    let r = insert_id(t, id, i);
    if t.len() == 0 {
    } else if t[0].0 == id {
        assert forall|k: int| 0 <= k < r.len() implies #[trigger] r[k] == (id, i) || t.contains(r[k]) by {
            if k > 0 {
                assert(r[k] == t[k]);
            }
        }
    } else if text::seq_lt(id, t[0].0) {
        assert forall|k: int| 0 <= k < r.len() implies #[trigger] r[k] == (id, i) || t.contains(r[k]) by {
            if k > 0 {
                assert(r[k] == t[k - 1]);
            }
        }
    } else {
        let d = t.drop_first();
        lemma_insert_entries(d, id, i);
        let rest = insert_id(d, id, i);
        assert forall|k: int| 0 <= k < r.len() implies #[trigger] r[k] == (id, i) || t.contains(r[k]) by {
            if k == 0 {
                assert(r[0] == t[0]);
            } else {
                assert(r[k] == rest[k - 1]);
                if d.contains(rest[k - 1]) {
                    let q = choose|q: int| 0 <= q < d.len() && d[q] == rest[k - 1];
                    assert(t[q + 1] == d[q]);
                }
            }
        }
    }
}

/// Each entry of the table of the first `n` nodes names one of them, which
/// carries that entry's identity.
proof fn lemma_table_entries(nodes: Seq<NodeV>, n: nat)
    requires
        n <= nodes.len(),
    ensures
        forall|k: int|
            0 <= k < id_table(nodes, n).len() ==> 0 <= (#[trigger] id_table(nodes, n)[k]).1 < n && nodes[id_table(
                nodes,
                n,
            )[k].1].id == id_table(nodes, n)[k].0,
    decreases n,
{
    if n > 0 {
        let t = id_table(nodes, (n - 1) as nat);
        lemma_table_entries(nodes, (n - 1) as nat);
        lemma_insert_entries(t, nodes[n - 1].id, n - 1);
        let r = id_table(nodes, n);
        assert forall|k: int| 0 <= k < r.len() implies 0 <= (#[trigger] r[k]).1 < n && nodes[r[k].1].id == r[k].0 by {
            if r[k] != (nodes[n - 1].id, n - 1) {
                let q = choose|q: int| 0 <= q < t.len() && t[q] == r[k];
            }
        }
    }
}

/// The table finds an identity exactly when some of its nodes carries it.
proof fn lemma_find_iff_present(nodes: Seq<NodeV>, x: Seq<char>)
    ensures
        find_id(id_table(nodes, nodes.len()), x) is Some <==> exists|j: int| 0 <= j < nodes.len() && (#[trigger] nodes[j]).id
            == x,
{
    let t = id_table(nodes, nodes.len());
    if exists|j: int| 0 <= j < nodes.len() && (#[trigger] nodes[j]).id == x {
        let j = choose|j: int| 0 <= j < nodes.len() && (#[trigger] nodes[j]).id == x;
        lemma_find_present(nodes, nodes.len(), j);
    }
    if find_id(t, x) is Some {
        lemma_find_entry(t, x);
        let k = choose|k: int| 0 <= k < t.len() && #[trigger] t[k] == (x, find_id(t, x)->0);
        lemma_table_entries(nodes, nodes.len());
        assert(nodes[t[k].1].id == x);
    }
}

/// The table of the first `n` nodes finds the identity of any of them.
proof fn lemma_find_present(nodes: Seq<NodeV>, n: nat, j: int)
    requires
        0 <= j < n <= nodes.len(),
    ensures
        find_id(id_table(nodes, n), nodes[j].id) is Some,
    decreases n,
{
    lemma_find_insert(id_table(nodes, (n - 1) as nat), nodes[n - 1].id, n - 1, nodes[j].id);
    if j < n - 1 && nodes[n - 1].id != nodes[j].id {
        lemma_find_present(nodes, (n - 1) as nat, j);
    }
}

/// Every missing entry is for an identity of the table.
proof fn lemma_missing_from(nodes: Seq<NodeV>, t: Seq<IdEntry>, other: Seq<IdEntry>, m: int)
    requires
        0 <= m < missing_from(nodes, t, other).len(),
    ensures
        exists|k: int| 0 <= k < t.len() && (#[trigger] t[k]).0 == missing_from(nodes, t, other)[m].0,
    decreases t.len(),
{
    let p = t.drop_last();
    let rest = missing_from(nodes, p, other);
    let all = missing_from(nodes, t, other);
    assert(t.last() == t[t.len() - 1]);
    if m < rest.len() {
        assert(all[m] == rest[m]);
        lemma_missing_from(nodes, p, other, m);
        let k = choose|k: int| 0 <= k < p.len() && (#[trigger] p[k]).0 == rest[m].0;
        assert(t[k] == p[k]);
    }
}

/// The missing entries of a table without repeated identities: an entry is
/// listed for identity `x` exactly when the other side lacks `x`, and it
/// then names the node the table maps `x` to.
proof fn lemma_missing_entries(nodes: Seq<NodeV>, t: Seq<IdEntry>, other: Seq<IdEntry>, kx: int)
    requires
        distinct_ids(t),
        0 <= kx < t.len(),
    ensures
        ({
            let miss = missing_from(nodes, t, other);
            let x = t[kx].0;
            &&& forall|m: int| 0 <= m < miss.len() && (#[trigger] miss[m]).0 == x ==> miss[m] == (x, nodes[t[kx].1].name)
            &&& (exists|m: int| 0 <= m < miss.len() && (#[trigger] miss[m]).0 == x) <==> find_id(other, x) is None
        }),
    decreases t.len(),
{
    let miss = missing_from(nodes, t, other);
    let p = t.drop_last();
    let rest = missing_from(nodes, p, other);
    let x = t[kx].0;
    let last = t.last();
    assert(last == t[t.len() - 1]);
    assert(distinct_ids(p)) by {
        assert forall|a: int, b: int| 0 <= a < b < p.len() implies (#[trigger] p[a]).0 != (#[trigger] p[b]).0 by {
            assert(p[a] == t[a] && p[b] == t[b]);
        }
    }
    if kx == t.len() - 1 {
        assert forall|m: int| 0 <= m < rest.len() implies (#[trigger] rest[m]).0 != x by {
            lemma_missing_from(nodes, p, other, m);
            let k = choose|k: int| 0 <= k < p.len() && (#[trigger] p[k]).0 == rest[m].0;
            assert(t[k] == p[k]);
        }
        if find_id(other, x) is None {
            assert(miss == rest.push((x, nodes[last.1].name)));
            assert(miss[rest.len() as int].0 == x);
        } else {
            assert(miss == rest);
        }
    } else {
        assert(p[kx] == t[kx]);
        lemma_missing_entries(nodes, p, other, kx);
        assert(last.0 != x);
        if find_id(other, last.0) is None {
            assert(miss == rest.push((last.0, nodes[last.1].name)));
            assert forall|m: int| 0 <= m < miss.len() && (#[trigger] miss[m]).0 == x implies miss[m] == (
                x,
                nodes[t[kx].1].name,
            ) by {
                assert(m < rest.len());
                assert(miss[m] == rest[m]);
            }
            if exists|m: int| 0 <= m < miss.len() && (#[trigger] miss[m]).0 == x {
                let m = choose|m: int| 0 <= m < miss.len() && (#[trigger] miss[m]).0 == x;
                assert(m < rest.len());
                assert(rest[m] == miss[m]);
            }
            if find_id(other, x) is None {
                let m = choose|m: int| 0 <= m < rest.len() && (#[trigger] rest[m]).0 == x;
                assert(miss[m] == rest[m]);
            }
        } else {
            assert(miss == rest);
        }
    }
}

/// For the last Draft node with its identity, the diff lists it as added
/// exactly when no node of the revision has that identity, and then under
/// its Draft name; for the last revision node with its identity, the diff
/// lists it as removed exactly when no Draft node has that identity, and
/// then under its revision name.
pub proof fn lemma_added_and_removed_nodes(
    v: DraftDiffView,
    workflow_id: Seq<char>,
    draft: model::DraftV,
    revision: u64,
    published: model::DraftV,
    i: int,
    j: int,
)
    requires
        is_diff(v, workflow_id, draft, revision, published),
        0 <= i < draft.nodes.len(),
        forall|k: int| i < k < draft.nodes.len() ==> draft.nodes[k].id != draft.nodes[i].id,
        0 <= j < published.nodes.len(),
        forall|k: int| j < k < published.nodes.len() ==> published.nodes[k].id != published.nodes[j].id,
    ensures
        (exists|m: int| 0 <= m < v.nodes.added@.len() && (#[trigger] v.nodes.added@[m]).id@ == draft.nodes[i].id) <==> (
        forall|k: int| 0 <= k < published.nodes.len() ==> (#[trigger] published.nodes[k]).id != draft.nodes[i].id),
        forall|m: int|
            0 <= m < v.nodes.added@.len() && (#[trigger] v.nodes.added@[m]).id@ == draft.nodes[i].id
                ==> v.nodes.added@[m].name@ == draft.nodes[i].name,
        (exists|m: int| 0 <= m < v.nodes.removed@.len() && (#[trigger] v.nodes.removed@[m]).id@ == published.nodes[j].id)
            <==> (forall|k: int| 0 <= k < draft.nodes.len() ==> (#[trigger] draft.nodes[k]).id != published.nodes[j].id),
        forall|m: int|
            0 <= m < v.nodes.removed@.len() && (#[trigger] v.nodes.removed@[m]).id@ == published.nodes[j].id
                ==> v.nodes.removed@[m].name@ == published.nodes[j].name,
{
    let dt = id_table(draft.nodes, draft.nodes.len());
    let pt = id_table(published.nodes, published.nodes.len());
    lemma_id_table(draft.nodes, draft.nodes.len());
    lemma_id_table(published.nodes, published.nodes.len());
    assert(distinct_ids(dt)) by {
        assert forall|a: int, b: int| 0 <= a < b < dt.len() implies (#[trigger] dt[a]).0 != (#[trigger] dt[b]).0 by {
            text::lemma_seq_lt_irreflexive(dt[a].0);
        }
    }
    assert(distinct_ids(pt)) by {
        assert forall|a: int, b: int| 0 <= a < b < pt.len() implies (#[trigger] pt[a]).0 != (#[trigger] pt[b]).0 by {
            text::lemma_seq_lt_irreflexive(pt[a].0);
        }
    }
    // Added.
    let x = draft.nodes[i].id;
    lemma_find_last(draft.nodes, draft.nodes.len(), i);
    lemma_find_entry(dt, x);
    let kx = choose|k: int| 0 <= k < dt.len() && #[trigger] dt[k] == (x, find_id(dt, x)->0);
    lemma_missing_entries(draft.nodes, dt, pt, kx);
    lemma_find_iff_present(published.nodes, x);
    let added = missing_from(draft.nodes, dt, pt);
    assert(v.nodes.added@.map_values(|r: DiffNodeRef| ref_view(r)) == added);
    assert forall|m: int| 0 <= m < v.nodes.added@.len() implies (#[trigger] v.nodes.added@[m]).id@ == added[m].0
        && v.nodes.added@[m].name@ == added[m].1 by {
        assert(v.nodes.added@.map_values(|r: DiffNodeRef| ref_view(r))[m] == ref_view(v.nodes.added@[m]));
    }
    if forall|k: int| 0 <= k < published.nodes.len() ==> (#[trigger] published.nodes[k]).id != x {
        let m = choose|m: int| 0 <= m < added.len() && (#[trigger] added[m]).0 == x;
        assert(v.nodes.added@[m].id@ == x);
    }
    // Removed.
    let y = published.nodes[j].id;
    lemma_find_last(published.nodes, published.nodes.len(), j);
    lemma_find_entry(pt, y);
    let ky = choose|k: int| 0 <= k < pt.len() && #[trigger] pt[k] == (y, find_id(pt, y)->0);
    lemma_missing_entries(published.nodes, pt, dt, ky);
    lemma_find_iff_present(draft.nodes, y);
    let removed = missing_from(published.nodes, pt, dt);
    assert(v.nodes.removed@.map_values(|r: DiffNodeRef| ref_view(r)) == removed);
    assert forall|m: int| 0 <= m < v.nodes.removed@.len() implies (#[trigger] v.nodes.removed@[m]).id@ == removed[m].0
        && v.nodes.removed@[m].name@ == removed[m].1 by {
        assert(v.nodes.removed@.map_values(|r: DiffNodeRef| ref_view(r))[m] == ref_view(v.nodes.removed@[m]));
    }
    if forall|k: int| 0 <= k < draft.nodes.len() ==> (#[trigger] draft.nodes[k]).id != y {
        let m = choose|m: int| 0 <= m < removed.len() && (#[trigger] removed[m]).0 == y;
        assert(v.nodes.removed@[m].id@ == y);
    }
}


/// Inserting a key adds exactly that key.
proof fn lemma_insert_key_contains(s: Seq<Seq<char>>, x: Seq<char>, y: Seq<char>)
    ensures
        insert_key(s, x).contains(y) <==> s.contains(y) || y == x,
    decreases s.len(),
{
    let r = insert_key(s, x);
    if s.len() == 0 {
        if y == x {
            assert(r[0] == y);
        }
    } else if s[0] == x {
        if y == x {
            assert(s[0] == y);
        }
    } else if text::seq_lt(x, s[0]) {
        lemma_contains_add(seq![x], s, y);
        lemma_part(x, true, y);
    } else {
        let d = s.drop_first();
        lemma_insert_key_contains(d, x, y);
        lemma_contains_add(seq![s[0]], insert_key(d, x), y);
        lemma_contains_add(seq![s[0]], d, y);
        lemma_part(s[0], true, y);
        assert(seq![s[0]] + d =~= s);
    }
}

/// The keys of the first `n` Connections are exactly the keys they have.
proof fn lemma_key_set_contains(conns: Seq<JsonV>, n: nat, y: Seq<char>)
    requires
        n <= conns.len(),
    ensures
        key_set(conns, n).contains(y) <==> exists|c: int| 0 <= c < n && #[trigger] connection_key(conns[c]) == Some(y),
    decreases n,
{
    if n > 0 {
        lemma_key_set_contains(conns, (n - 1) as nat, y);
        match connection_key(conns[n - 1]) {
            Some(k) => {
                lemma_insert_key_contains(key_set(conns, (n - 1) as nat), k, y);
            },
            None => {},
        }
        if exists|c: int| 0 <= c < n && #[trigger] connection_key(conns[c]) == Some(y) {
            let c = choose|c: int| 0 <= c < n && #[trigger] connection_key(conns[c]) == Some(y);
            if c < n - 1 {
                assert(exists|c2: int| 0 <= c2 < n - 1 && #[trigger] connection_key(conns[c2]) == Some(y));
            }
        }
    }
}

/// The keys of `a` that `b` lacks are exactly those.
proof fn lemma_keys_without_contains(a: Seq<Seq<char>>, b: Seq<Seq<char>>, y: Seq<char>)
    ensures
        keys_without(a, b).contains(y) <==> a.contains(y) && !b.contains(y),
    decreases a.len(),
{
    if a.len() > 0 {
        let p = a.drop_last();
        lemma_keys_without_contains(p, b, y);
        let rest = keys_without(p, b);
        assert(a == p.push(a.last()));
        lemma_contains_add(p, seq![a.last()], y);
        lemma_part(a.last(), true, y);
        assert(p.push(a.last()) =~= p + seq![a.last()]);
        if !b.contains(a.last()) {
            lemma_contains_add(rest, seq![a.last()], y);
            assert(rest.push(a.last()) =~= rest + seq![a.last()]);
        }
    }
}

/// A Connection key is listed as added exactly when some Draft Connection
/// has it and no revision Connection does, and as removed exactly when some
/// revision Connection has it and no Draft Connection does.
pub proof fn lemma_added_and_removed_connections(
    v: DraftDiffView,
    workflow_id: Seq<char>,
    draft: model::DraftV,
    revision: u64,
    published: model::DraftV,
    key: Seq<char>,
)
    requires
        is_diff(v, workflow_id, draft, revision, published),
    ensures
        v.connections.added@.map_values(|s: String| s@).contains(key) <==> (exists|c: int|
            0 <= c < draft.connections.len() && #[trigger] connection_key(draft.connections[c]) == Some(key)) && !(exists|c: int|
            0 <= c < published.connections.len() && #[trigger] connection_key(published.connections[c]) == Some(key)),
        v.connections.removed@.map_values(|s: String| s@).contains(key) <==> (exists|c: int|
            0 <= c < published.connections.len() && #[trigger] connection_key(published.connections[c]) == Some(key)) && !(exists|c: int|
            0 <= c < draft.connections.len() && #[trigger] connection_key(draft.connections[c]) == Some(key)),
{
    let dk = key_set(draft.connections, draft.connections.len());
    let pk = key_set(published.connections, published.connections.len());
    lemma_key_set_contains(draft.connections, draft.connections.len(), key);
    lemma_key_set_contains(published.connections, published.connections.len(), key);
    lemma_keys_without_contains(dk, pk, key);
    lemma_keys_without_contains(pk, dk, key);
}

} // verus!
