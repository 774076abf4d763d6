//! The Workflow document: Node Instances, their contract locks, and the
//! draft that holds them.

use crate::json::{self, Json, JsonV};
use crate::text;
use vstd::prelude::*;

verus! {

/// The exact identity of a Node Contract: where it lives, which version, and
/// the digest of its canonical contract document.
#[derive(Clone, Debug)]
pub struct NodeContractLock {
    pub namespace: String,
    pub name: String,
    pub version: String,
    pub api_version: String,
    pub digest: String,
}

/// A lock, by value.
pub struct LockV {
    pub namespace: Seq<char>,
    pub name: Seq<char>,
    pub version: Seq<char>,
    pub api_version: Seq<char>,
    pub digest: Seq<char>,
}

impl View for NodeContractLock {
    type V = LockV;

    open spec fn view(&self) -> LockV {
        LockV {
            namespace: self.namespace@,
            name: self.name@,
            version: self.version@,
            api_version: self.api_version@,
            digest: self.digest@,
        }
    }
}

impl NodeContractLock {
    /// Whether two locks name the same contract with the same digest.
    pub fn same_as(&self, other: &NodeContractLock) -> (r: bool)
        ensures
            r == (self@ == other@),
    {
        text::str_eq(self.namespace.as_str(), other.namespace.as_str())
            && text::str_eq(self.name.as_str(), other.name.as_str())
            && text::str_eq(self.version.as_str(), other.version.as_str())
            && text::str_eq(self.api_version.as_str(), other.api_version.as_str())
            && text::str_eq(self.digest.as_str(), other.digest.as_str())
    }

    /// A copy of the lock.
    pub fn duplicate(&self) -> (r: NodeContractLock)
        ensures
            r@ == self@,
    {
        NodeContractLock {
            namespace: self.namespace.clone(),
            name: self.name.clone(),
            version: self.version.clone(),
            api_version: self.api_version.clone(),
            digest: self.digest.clone(),
        }
    }
}

/// Where a Node Instance sits on the canvas: the bits of its two `f64`
/// coordinates.
#[derive(Clone, Copy, Debug)]
pub struct Layout {
    pub x_bits: u64,
    pub y_bits: u64,
}

/// Whether two layouts are equal as `f64` coordinates compare.
pub open spec fn layout_eq(a: Layout, b: Layout) -> bool {
    json::f64_eq(a.x_bits, b.x_bits) && json::f64_eq(a.y_bits, b.y_bits)
}

/// Whether two layouts are equal.
pub fn layout_equal(a: &Layout, b: &Layout) -> (r: bool)
    ensures
        r == layout_eq(*a, *b),
{
    float_equal(a.x_bits, b.x_bits) && float_equal(a.y_bits, b.y_bits)
}

/// `f64`'s `==`.
pub fn float_equal(a: u64, b: u64) -> (r: bool)
    ensures
        r == json::f64_eq(a, b),
{
    let a_nan = (a >> 52u64) & 0x7ffu64 == 0x7ffu64 && a & 0xf_ffff_ffff_ffffu64 != 0;
    let b_nan = (b >> 52u64) & 0x7ffu64 == 0x7ffu64 && b & 0xf_ffff_ffff_ffffu64 != 0;
    let an = if a == 0x8000_0000_0000_0000u64 { 0 } else { a };
    let bn = if b == 0x8000_0000_0000_0000u64 { 0 } else { b };
    !a_nan && !b_nan && an == bn
}

/// A configured occurrence of a Node Definition inside a Workflow.
#[derive(Debug)]
pub struct NodeInstance {
    pub id: String,
    pub name: String,
    pub contract_lock: NodeContractLock,
    pub configuration: Json,
    pub layout: Layout,
    pub annotation: String,
    pub compatibility_metadata: Json,
}

/// A Node Instance, by value.
pub struct NodeV {
    pub id: Seq<char>,
    pub name: Seq<char>,
    pub lock: LockV,
    pub configuration: JsonV,
    pub layout: Layout,
    pub annotation: Seq<char>,
    pub compatibility_metadata: JsonV,
}

impl View for NodeInstance {
    type V = NodeV;

    open spec fn view(&self) -> NodeV {
        NodeV {
            id: self.id@,
            name: self.name@,
            lock: self.contract_lock@,
            configuration: self.configuration@,
            layout: self.layout,
            annotation: self.annotation@,
            compatibility_metadata: self.compatibility_metadata@,
        }
    }
}

/// The Node Instances of a sequence, by value.
pub open spec fn node_views(nodes: Seq<NodeInstance>) -> Seq<NodeV> {
    nodes.map_values(|n: NodeInstance| n@)
}

/// A user-authored Workflow: its Node Instances, Connections, and settings.
#[derive(Debug)]
pub struct WorkflowDraft {
    pub workflow_id: String,
    pub name: String,
    pub draft_version: u64,
    pub nodes: Vec<NodeInstance>,
    pub connections: Vec<Json>,
    pub annotation: String,
    pub settings: Json,
    pub compatibility_metadata: Json,
}

/// A Workflow, by value.
pub struct DraftV {
    pub workflow_id: Seq<char>,
    pub name: Seq<char>,
    pub draft_version: u64,
    pub nodes: Seq<NodeV>,
    pub connections: Seq<JsonV>,
    pub annotation: Seq<char>,
    pub settings: JsonV,
    pub compatibility_metadata: JsonV,
}

impl View for WorkflowDraft {
    type V = DraftV;

    open spec fn view(&self) -> DraftV {
        DraftV {
            workflow_id: self.workflow_id@,
            name: self.name@,
            draft_version: self.draft_version,
            nodes: node_views(self.nodes@),
            connections: json::jvs(self.connections@),
            annotation: self.annotation@,
            settings: self.settings@,
            compatibility_metadata: self.compatibility_metadata@,
        }
    }
}

} // verus!
