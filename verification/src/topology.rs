//! Kahn ordering of an Execution Plan's Node Instances, with each node's
//! longest-path depth, and the path reported when the graph has a cycle.

use crate::model::NodeInstance;
use crate::text;
use vstd::prelude::*;

verus! {

/// The targets of the edges leaving `v`, in edge order.
pub open spec fn adj_of(edges: Seq<(usize, usize)>, v: int) -> Seq<int>
    decreases edges.len(),
{
    if edges.len() == 0 {
        Seq::empty()
    } else {
        let rest = adj_of(edges.drop_last(), v);
        if edges.last().0 as int == v {
            rest.push(edges.last().1 as int)
        } else {
            rest
        }
    }
}

/// The number of edges entering `v`.
pub open spec fn in_count(edges: Seq<(usize, usize)>, v: int) -> nat
    decreases edges.len(),
{
    if edges.len() == 0 {
        0
    } else {
        in_count(edges.drop_last(), v) + if edges.last().1 as int == v {
            1nat
        } else {
            0nat
        }
    }
}

/// The number of edges entering `v` from nodes not yet in `order`.
pub open spec fn pending(edges: Seq<(usize, usize)>, order: Seq<int>, v: int) -> nat
    decreases edges.len(),
{
    if edges.len() == 0 {
        0
    } else {
        pending(edges.drop_last(), order, v) + if edges.last().1 as int == v && !order.contains(
            edges.last().0 as int,
        ) {
            1nat
        } else {
            0nat
        }
    }
}

/// How often `v` occurs in `t`.
pub open spec fn occurrences(t: Seq<int>, v: int) -> nat
    decreases t.len(),
{
    if t.len() == 0 {
        0
    } else {
        (if t[0] == v {
            1nat
        } else {
            0nat
        }) + occurrences(t.drop_first(), v)
    }
}

/// The state of Kahn's algorithm: the FIFO of ready nodes, the order so far,
/// the remaining in-degrees, and the depths found so far.
pub struct Kahn {
    pub ready: Seq<int>,
    pub order: Seq<int>,
    pub indeg: Seq<int>,
    pub depth: Seq<int>,
}

/// The nodes below `n` that no edge enters, ascending.
pub open spec fn initially_ready(edges: Seq<(usize, usize)>, n: nat) -> Seq<int>
    decreases n,
{
    if n == 0 {
        Seq::empty()
    } else {
        let r = initially_ready(edges, (n - 1) as nat);
        if in_count(edges, n - 1) == 0 {
            r.push(n - 1)
        } else {
            r
        }
    }
}

/// The state before the first node is taken.
pub open spec fn kahn_start(count: nat, edges: Seq<(usize, usize)>) -> Kahn {
    Kahn {
        ready: initially_ready(edges, count),
        order: Seq::empty(),
        indeg: Seq::new(count, |v: int| in_count(edges, v) as int),
        depth: Seq::new(count, |v: int| 0int),
    }
}

/// Following the edge from `x` to `d`: `d` is at least one deeper than `x`,
/// loses one in-degree, and becomes ready when none is left.
pub open spec fn relax_one(k: Kahn, x: int, d: int) -> Kahn {
    let depth = k.depth.update(
        d,
        if k.depth[d] >= k.depth[x] + 1 {
            k.depth[d]
        } else {
            k.depth[x] + 1
        },
    );
    let indeg = k.indeg.update(d, k.indeg[d] - 1);
    Kahn {
        ready: if indeg[d] == 0 {
            k.ready.push(d)
        } else {
            k.ready
        },
        order: k.order,
        indeg,
        depth,
    }
}

/// Following the edges from `x` to each of `t`, in order.
pub open spec fn relax(k: Kahn, x: int, t: Seq<int>) -> Kahn
    decreases t.len(),
{
    if t.len() == 0 {
        k
    } else {
        relax_one(relax(k, x, t.drop_last()), x, t.last())
    }
}

/// One step: take the first ready node, order it, and follow its edges.
pub open spec fn kahn_step(k: Kahn, edges: Seq<(usize, usize)>) -> Kahn {
    if k.ready.len() == 0 {
        k
    } else {
        let x = k.ready[0];
        relax(
            Kahn { ready: k.ready.drop_first(), order: k.order.push(x), indeg: k.indeg, depth: k.depth },
            x,
            adj_of(edges, x),
        )
    }
}

/// `n` steps.
pub open spec fn kahn_run(k: Kahn, edges: Seq<(usize, usize)>, n: nat) -> Kahn
    decreases n,
{
    if n == 0 {
        k
    } else {
        kahn_run(kahn_step(k, edges), edges, (n - 1) as nat)
    }
}

/// Kahn's algorithm run to completion on `count` nodes.
pub open spec fn kahn_result(count: nat, edges: Seq<(usize, usize)>) -> Kahn {
    kahn_run(kahn_start(count, edges), edges, count)
}

pub open spec fn ints(s: Seq<usize>) -> Seq<int> {
    s.map_values(|x: usize| x as int)
}

pub open spec fn ints64(s: Seq<u64>) -> Seq<int> {
    s.map_values(|x: u64| x as int)
}

/// Every edge joins two of the `count` nodes.
pub open spec fn edges_within(edges: Seq<(usize, usize)>, count: nat) -> bool {
    forall|k: int| 0 <= k < edges.len() ==> (#[trigger] edges[k]).0 < count && edges[k].1 < count
}

/// The invariant of Kahn's algorithm between steps.
pub open spec fn kahn_wf(k: Kahn, count: nat, edges: Seq<(usize, usize)>) -> bool {
    &&& k.indeg.len() == count
    &&& k.depth.len() == count
    &&& forall|i: int| 0 <= i < k.ready.len() ==> 0 <= #[trigger] k.ready[i] < count
    &&& forall|i: int| 0 <= i < k.order.len() ==> 0 <= #[trigger] k.order[i] < count
    &&& k.order.no_duplicates()
    &&& k.ready.no_duplicates()
    &&& forall|i: int, j: int|
        0 <= i < k.order.len() && 0 <= j < k.ready.len() ==> k.order[i] != k.ready[j]
    &&& forall|v: int| 0 <= v < count && (k.order.contains(v) || k.ready.contains(v)) ==> #[trigger] k.indeg[v] == 0
    &&& forall|v: int| 0 <= v < count ==> #[trigger] k.indeg[v] >= pending(edges, k.order, v)
    &&& forall|v: int| 0 <= v < count ==> 0 <= #[trigger] k.depth[v] <= k.order.len()
}

proof fn lemma_occurrences_push(t: Seq<int>, a: int, v: int)
    ensures
        occurrences(t.push(a), v) == occurrences(t, v) + if a == v {
            1nat
        } else {
            0nat
        },
    decreases t.len(),
{
    if t.len() > 0 {
        assert(t.push(a).drop_first() =~= t.drop_first().push(a));
        lemma_occurrences_push(t.drop_first(), a, v);
        assert(t.push(a)[0] == t[0]);
        assert(occurrences(t.push(a), v) == (if t[0] == v { 1nat } else { 0nat }) + occurrences(t.push(a).drop_first(), v));
    } else {
        assert(t.push(a).drop_first() =~= Seq::<int>::empty());
        assert(occurrences(Seq::<int>::empty(), v) == 0);
        assert(t =~= Seq::<int>::empty());
        assert(t.push(a)[0] == a);
        assert(occurrences(t.push(a), v) == (if a == v { 1nat } else { 0nat }) + occurrences(t.push(a).drop_first(), v));
    }
}

/// Ordering `x` moves its outgoing edges out of every node's pending count.
proof fn lemma_pending_order(edges: Seq<(usize, usize)>, order: Seq<int>, x: int, v: int)
    requires
        !order.contains(x),
    ensures
        pending(edges, order.push(x), v) + occurrences(adj_of(edges, x), v) == pending(edges, order, v),
    decreases edges.len(),
{
    if edges.len() > 0 {
        lemma_pending_order(edges.drop_last(), order, x, v);
        let e = edges.last();
        assert(order.push(x).contains(e.0 as int) == (order.contains(e.0 as int) || e.0 as int == x)) by {
            if order.push(x).contains(e.0 as int) {
                let i = choose|i: int| 0 <= i < order.push(x).len() && order.push(x)[i] == e.0 as int;
                if i < order.len() {
                    assert(order[i] == e.0 as int);
                }
            }
            if order.contains(e.0 as int) {
                let i = choose|i: int| 0 <= i < order.len() && order[i] == e.0 as int;
                assert(order.push(x)[i] == e.0 as int);
            }
            if e.0 as int == x {
                assert(order.push(x)[order.len() as int] == x);
            }
        }
        if e.0 as int == x {
            lemma_occurrences_push(adj_of(edges.drop_last(), x), e.1 as int, v);
        }
    }
}

/// No step happens once nothing is ready.
proof fn lemma_run_idle(k: Kahn, edges: Seq<(usize, usize)>, n: nat)
    requires
        k.ready.len() == 0,
    ensures
        kahn_run(k, edges, n) == k,
    decreases n,
{
    if n > 0 {
        lemma_run_idle(k, edges, (n - 1) as nat);
    }
}

/// A duplicate-free sequence of integers in `[0, n)` has at most `n` items.
pub proof fn lemma_pigeonhole(s: Seq<int>, n: nat)
    requires
        s.no_duplicates(),
        forall|i: int| 0 <= i < s.len() ==> 0 <= #[trigger] s[i] < n,
    ensures
        s.len() <= n,
{
    s.unique_seq_to_set();
    vstd::set_lib::lemma_int_range(0, n as int);
    assert(s.to_set().subset_of(vstd::set_lib::set_int_range(0, n as int))) by {
        assert forall|x: int| s.to_set().contains(x) implies vstd::set_lib::set_int_range(
            0,
            n as int,
        ).contains(x) by {
            assert(s.contains(x));
        }
    }
    vstd::set_lib::lemma_len_subset(s.to_set(), vstd::set_lib::set_int_range(0, n as int));
}


/// The exact state the executable algorithm holds.
pub open spec fn state_of(ready: Seq<usize>, order: Seq<usize>, indeg: Seq<u64>, depth: Seq<u64>) -> Kahn {
    Kahn { ready: ints(ready), order: ints(order), indeg: ints64(indeg), depth: ints64(depth) }
}

/// The invariant while the edges leaving `x` (the node just ordered) are
/// followed, after the first `j` of them.
pub open spec fn relax_wf(k: Kahn, count: nat, edges: Seq<(usize, usize)>, x: int, j: int) -> bool {
    let t = adj_of(edges, x);
    &&& k.indeg.len() == count
    &&& k.depth.len() == count
    &&& forall|i: int| 0 <= i < k.ready.len() ==> 0 <= #[trigger] k.ready[i] < count
    &&& forall|i: int| 0 <= i < k.order.len() ==> 0 <= #[trigger] k.order[i] < count
    &&& k.order.no_duplicates()
    &&& k.ready.no_duplicates()
    &&& forall|i: int, j2: int|
        0 <= i < k.order.len() && 0 <= j2 < k.ready.len() ==> k.order[i] != k.ready[j2]
    &&& forall|v: int| 0 <= v < count && (k.order.contains(v) || k.ready.contains(v)) ==> #[trigger] k.indeg[v] == 0
    &&& forall|v: int|
        0 <= v < count ==> #[trigger] k.indeg[v] >= pending(edges, k.order, v) + occurrences(
            t.skip(j),
            v,
        )
    &&& forall|v: int| 0 <= v < count ==> 0 <= #[trigger] k.depth[v] <= k.order.len()
    &&& k.order.len() > 0
    &&& k.order.last() == x
    &&& k.depth[x] < k.order.len()
}

/// Every edge's source stands before its target wherever both are ordered.
pub open spec fn sources_first(edges: Seq<(usize, usize)>, order: Seq<int>) -> bool {
    forall|k: int, i: int, j: int|
        #![trigger edges[k], order[i], order[j]]
        0 <= k < edges.len() && 0 <= i < order.len() && 0 <= j < order.len() && order[i] == edges[k].0 as int
            && order[j] == edges[k].1 as int ==> i < j
}

/// Every edge leaving an ordered node leads at least one level deeper.
pub open spec fn depths_grow(edges: Seq<(usize, usize)>, order: Seq<int>, depth: Seq<int>) -> bool {
    forall|k: int|
        0 <= k < edges.len() && order.contains((#[trigger] edges[k]).0 as int) ==> depth[edges[k].1 as int]
            >= depth[edges[k].0 as int] + 1
}

/// With no edge into `t` pending, every edge into `t` leaves an ordered
/// node.
proof fn lemma_pending_zero(edges: Seq<(usize, usize)>, order: Seq<int>, t: int)
    requires
        pending(edges, order, t) == 0,
    ensures
        forall|k: int| 0 <= k < edges.len() && (#[trigger] edges[k]).1 as int == t ==> order.contains(edges[k].0 as int),
    decreases edges.len(),
{
    if edges.len() > 0 {
        lemma_pending_zero(edges.drop_last(), order, t);
        assert forall|k: int| 0 <= k < edges.len() && (#[trigger] edges[k]).1 as int == t implies order.contains(
            edges[k].0 as int,
        ) by {
            if k < edges.len() - 1 {
                assert(edges.drop_last()[k] == edges[k]);
            }
        }
    }
}

/// Every edge leaving `x` is among the edges `adj_of` lists for `x`.
proof fn lemma_adj_contains(edges: Seq<(usize, usize)>, x: int, k: int)
    requires
        0 <= k < edges.len(),
        edges[k].0 as int == x,
    ensures
        adj_of(edges, x).contains(edges[k].1 as int),
    decreases edges.len(),
{
    let rest = adj_of(edges.drop_last(), x);
    if k < edges.len() - 1 {
        assert(edges.drop_last()[k] == edges[k]);
        lemma_adj_contains(edges.drop_last(), x, k);
        let w = choose|w: int| 0 <= w < rest.len() && rest[w] == edges[k].1 as int;
        if edges.last().0 as int == x {
            assert(rest.push(edges.last().1 as int)[w] == edges[k].1 as int);
        }
    } else {
        assert(edges.last() == edges[k]);
        assert(rest.push(edges.last().1 as int)[rest.len() as int] == edges[k].1 as int);
    }
}

/// The result of ordering the nodes of a Workflow.
pub enum Topology {
    /// Every node was ordered: the order and each node's depth.
    Order((Vec<usize>, Vec<u64>)),
    /// Some nodes sit on or behind a cycle: the reported path.
    Cycle(String),
}

/// Widening commutes with pushing.
pub proof fn lemma_ints_push(s: Seq<usize>, x: usize)
    ensures
        ints(s.push(x)) == ints(s).push(x as int),
{
    assert(ints(s.push(x)) =~= ints(s).push(x as int));
}

/// Runs Kahn's algorithm over `count` nodes: the order it produces and the
/// depth of each node.
/// The targets of each node's outgoing edges, in edge order.
fn adjacency_of(count: usize, edges: &[(usize, usize)]) -> (adjacency: Vec<Vec<usize>>)
    requires
        edges_within(edges@, count as nat),
    ensures
        adjacency@.len() == count,
        forall|w: int| 0 <= w < count ==> ints((#[trigger] adjacency@[w])@) == adj_of(edges@, w),
{
    let mut adjacency: Vec<Vec<usize>> = Vec::new();
    let mut i: usize = 0;
    while i < count
        invariant
            0 <= i <= count,
            adjacency@.len() == i,
            forall|v: int| 0 <= v < i ==> (#[trigger] adjacency@[v])@.len() == 0,
        decreases count - i,
    {
        adjacency.push(Vec::new());
        i = i + 1;
    }
    let mut e: usize = 0;
    assert(edges@.take(0) =~= Seq::<(usize, usize)>::empty());
    assert forall|v: int| 0 <= v < count implies ints((#[trigger] adjacency@[v])@) == adj_of(edges@.take(0), v) by {
        assert(ints(adjacency@[v]@) =~= Seq::<int>::empty());
    }
    while e < edges.len()
        invariant
            0 <= e <= edges@.len(),
            edges_within(edges@, count as nat),
            adjacency@.len() == count,
            forall|v: int| 0 <= v < count ==> ints((#[trigger] adjacency@[v])@) == adj_of(edges@.take(e as int), v),
        decreases edges@.len() - e,
    {
        let (s, t) = edges[e];
        assert(edges@[e as int].0 < count && edges@[e as int].1 < count);
        let ghost pre = edges@.take(e as int);
        assert(edges@.take(e + 1).drop_last() =~= pre);
        assert(edges@.take(e + 1).last() == edges@[e as int]);
        proof {
            lemma_ints_push(adjacency@[s as int]@, t);
        }
        adjacency[s].push(t);
        e = e + 1;
    }
    assert(edges@.take(edges@.len() as int) =~= edges@);
    adjacency
}

fn kahn(count: usize, edges: &[(usize, usize)], adjacency: &Vec<Vec<usize>>) -> (r: (Vec<usize>, Vec<u64>))
    requires
        edges_within(edges@, count as nat),
        adjacency@.len() == count,
        forall|w: int| 0 <= w < count ==> ints((#[trigger] adjacency@[w])@) == adj_of(edges@, w),
    ensures
        ints(r.0@) == kahn_result(count as nat, edges@).order,
        ints64(r.1@) == kahn_result(count as nat, edges@).depth,
        kahn_result(count as nat, edges@).ready.len() == 0,
        kahn_wf(kahn_result(count as nat, edges@), count as nat, edges@),
        sources_first(edges@, kahn_result(count as nat, edges@).order),
        depths_grow(edges@, kahn_result(count as nat, edges@).order, kahn_result(count as nat, edges@).depth),
{
    let mut indegree: Vec<u64> = Vec::new();
    let mut depth: Vec<u64> = Vec::new();
    let mut i: usize = 0;
    while i < count
        invariant
            0 <= i <= count,
            indegree@.len() == i,
            depth@.len() == i,
            forall|v: int| 0 <= v < i ==> #[trigger] indegree@[v] == 0,
            forall|v: int| 0 <= v < i ==> #[trigger] depth@[v] == 0,
        decreases count - i,
    {
        indegree.push(0);
        depth.push(0);
        i = i + 1;
    }
    let mut e: usize = 0;
    assert(edges@.take(0) =~= Seq::<(usize, usize)>::empty());
    while e < edges.len()
        invariant
            0 <= e <= edges@.len(),
                edges_within(edges@, count as nat),
            indegree@.len() == count,
            forall|v: int| 0 <= v < count ==> #[trigger] indegree@[v] == in_count(edges@.take(e as int), v),
            forall|v: int| 0 <= v < count ==> #[trigger] in_count(edges@.take(e as int), v) <= e,
        decreases edges@.len() - e,
    {
        let (s, t) = edges[e];
        assert(edges@[e as int].0 < count && edges@[e as int].1 < count);
        let ghost pre = edges@.take(e as int);
        assert(edges@.take(e + 1).drop_last() =~= pre);
        assert(edges@.take(e + 1).last() == edges@[e as int]);
        assert forall|w: int| 0 <= w < count implies #[trigger] in_count(edges@.take(e + 1), w) == in_count(pre, w)
            + if t as int == w { 1nat } else { 0nat } by {}
        indegree.set(t, indegree[t] + 1);
        e = e + 1;
    }
    assert(edges@.take(edges@.len() as int) =~= edges@);
    let mut ready: Vec<usize> = Vec::new();
    let mut v: usize = 0;
    while v < count
        invariant
            0 <= v <= count,
            indegree@.len() == count,
            forall|w: int| 0 <= w < count ==> #[trigger] indegree@[w] == in_count(edges@, w),
            ints(ready@) == initially_ready(edges@, v as nat),
        decreases count - v,
    {
        if indegree[v] == 0 {
            proof {
                lemma_ints_push(ready@, v);
            }
            ready.push(v);
        }
        v = v + 1;
    }
    let mut order: Vec<usize> = Vec::new();
    proof {
        let k = state_of(ready@, order@, indegree@, depth@);
        assert(k.indeg =~= kahn_start(count as nat, edges@).indeg);
        assert(k.depth =~= kahn_start(count as nat, edges@).depth);
        assert(k.order =~= Seq::<int>::empty());
        assert(k == kahn_start(count as nat, edges@));
        lemma_initially_ready(edges@, count as nat);
        assert forall|w: int| 0 <= w < count implies #[trigger] k.indeg[w] >= pending(edges@, k.order, w) by {
            lemma_pending_none(edges@, w);
        }
    }
    while ready.len() > 0
        invariant
            edges_within(edges@, count as nat),
                adjacency@.len() == count,
            forall|w: int| 0 <= w < count ==> ints((#[trigger] adjacency@[w])@) == adj_of(edges@, w),
            indegree@.len() == count,
            depth@.len() == count,
            order@.len() <= count,
            kahn_wf(state_of(ready@, order@, indegree@, depth@), count as nat, edges@),
            kahn_run(state_of(ready@, order@, indegree@, depth@), edges@, (count - order@.len()) as nat)
                == kahn_result(count as nat, edges@),
            sources_first(edges@, ints(order@)),
            depths_grow(edges@, ints(order@), ints64(depth@)),
        decreases count - order@.len(),
    {
        let ghost k0 = state_of(ready@, order@, indegree@, depth@);
        proof {
            vstd::seq_lib::lemma_no_dup_in_concat(k0.order, k0.ready);
            lemma_pigeonhole(k0.order + k0.ready, count as nat);
        }
        let x = ready.remove(0);
        assert(k0.ready[0] == x as int);
        order.push(x);
        let ghost k1 = Kahn {
            ready: k0.ready.drop_first(),
            order: k0.order.push(x as int),
            indeg: k0.indeg,
            depth: k0.depth,
        };
        proof {
            assert(ints(ready@) =~= k0.ready.drop_first());
            lemma_ints_push(old_order_view(order@), x);
            assert(state_of(ready@, order@, indegree@, depth@) =~~= k1) by {
                assert(ints(order@) =~= k0.order.push(x as int));
            }
            assert(!k0.order.contains(x as int)) by {
                if k0.order.contains(x as int) {
                    let i = choose|i: int| 0 <= i < k0.order.len() && k0.order[i] == x as int;
                    assert(k0.order[i] != k0.ready[0]);
                }
            }
            assert forall|w: int| 0 <= w < count implies pending(edges@, k1.order, w) + occurrences(
                adj_of(edges@, x as int),
                w,
            ) == pending(edges@, k0.order, w) by {
                lemma_pending_order(edges@, k0.order, x as int, w);
            }
            assert(adj_of(edges@, x as int).skip(0) =~= adj_of(edges@, x as int));
            assert(k0.ready.contains(x as int)) by {
                assert(k0.ready[0] == x as int);
            }
            assert(k1.order.no_duplicates()) by {
                assert forall|a: int, b: int| 0 <= a < b < k1.order.len() implies k1.order[a] != k1.order[b] by {
                    if b == k1.order.len() - 1 {
                        assert(k1.order[a] == k0.order[a]);
                    }
                }
            }
            assert(relax_wf(k1, count as nat, edges@, x as int, 0)) by {
                assert forall|v2: int| 0 <= v2 < count && (k1.order.contains(v2) || k1.ready.contains(v2)) implies #[trigger] k1.indeg[v2] == 0 by {
                    if k1.order.contains(v2) {
                        let i = choose|i: int| 0 <= i < k1.order.len() && k1.order[i] == v2;
                        if i < k0.order.len() {
                            assert(k0.order.contains(v2));
                        } else {
                            assert(v2 == x as int);
                        }
                    } else {
                        let i = choose|i: int| 0 <= i < k1.ready.len() && k1.ready[i] == v2;
                        assert(k0.ready[i + 1] == v2);
                        assert(k0.ready.contains(v2));
                    }
                }
                assert forall|i: int, j2: int| 0 <= i < k1.order.len() && 0 <= j2 < k1.ready.len() implies k1.order[i] != k1.ready[j2] by {
                    if i == k1.order.len() - 1 {
                        assert(k0.ready[0] != k0.ready[j2 + 1]);
                    } else {
                        assert(k0.order[i] != k0.ready[j2 + 1]);
                    }
                }
            }
        }
        proof {
            assert(k0.indeg[x as int] == 0);
            assert(pending(edges@, k0.order, x as int) == 0);
            lemma_pending_zero(edges@, k0.order, x as int);
            assert forall|k: int, i: int, j: int|
                #![trigger edges@[k], k1.order[i], k1.order[j]]
                0 <= k < edges@.len() && 0 <= i < k1.order.len() && 0 <= j < k1.order.len() && k1.order[i]
                    == edges@[k].0 as int && k1.order[j] == edges@[k].1 as int implies i < j by {
                let n = k0.order.len() as int;
                let s0 = edges@[k].0 as int;
                let t0 = edges@[k].1 as int;
                assert(edges@[k].0 < count && edges@[k].1 < count);
                if j == n {
                    assert(t0 == x as int);
                    assert(k0.order.contains(s0));
                    if i == n {
                        assert(s0 == x as int);
                    }
                } else if i == n {
                    assert(s0 == x as int);
                    assert(k1.order[j] == k0.order[j]);
                    assert(k0.order.contains(t0));
                    assert(k0.indeg[t0] == 0);
                    lemma_pending_zero(edges@, k0.order, t0);
                    assert(k0.order.contains(x as int));
                } else {
                    assert(k1.order[i] == k0.order[i]);
                    assert(k1.order[j] == k0.order[j]);
                    assert(edges@[k] == edges@[k]);
                    assert(k0.order[i] == s0 && k0.order[j] == t0);
                }
            }
            assert(ints(order@) == k1.order);
        }
        let targets = &adjacency[x];
        let ghost t = adj_of(edges@, x as int);
        assert(ints(targets@) == t);
        let mut j: usize = 0;
        assert(t.take(0) =~= Seq::<int>::empty());
        proof {
            assert forall|k: int|
                0 <= k < edges@.len() && k1.order.contains((#[trigger] edges@[k]).0 as int) && edges@[k].0 != x implies depth@[
                edges@[k].1 as int] >= depth@[edges@[k].0 as int] + 1 by {
                let i = choose|i: int| 0 <= i < k1.order.len() && k1.order[i] == edges@[k].0 as int;
                if i < k0.order.len() {
                    assert(k0.order[i] == edges@[k].0 as int);
                    assert(k0.order.contains(edges@[k].0 as int));
                    assert(ints(old_order_view(order@)) == k0.order);
                }
            }
        }
        while j < targets.len()
            invariant
                0 <= j <= targets@.len(),
                ints(targets@) == t,
                t == adj_of(edges@, x as int),
                x < count,
                edges_within(edges@, count as nat),
                indegree@.len() == count,
                depth@.len() == count,
                relax_wf(state_of(ready@, order@, indegree@, depth@), count as nat, edges@, x as int, j as int),
                state_of(ready@, order@, indegree@, depth@) == relax(k1, x as int, t.take(j as int)),
                k1.order.len() <= count,
                ints(order@) == k1.order,
                sources_first(edges@, k1.order),
                depth@[x as int] == k1.depth[x as int],
                forall|k: int|
                    0 <= k < edges@.len() && k1.order.contains((#[trigger] edges@[k]).0 as int) && edges@[k].0
                        != x ==> depth@[edges@[k].1 as int] >= depth@[edges@[k].0 as int] + 1,
                forall|w: int| 0 <= w < j ==> depth@[#[trigger] t[w]] >= depth@[x as int] + 1,
            decreases targets@.len() - j,
        {
            let ghost ks = state_of(ready@, order@, indegree@, depth@);
            let d = targets[j];
            assert(t[j as int] == d as int);
            proof {
                assert(adj_of(edges@, x as int).len() == t.len());
                lemma_adj_within(edges@, count as nat, x as int);
                assert(t.skip(j as int)[0] == t[j as int]);
                assert(t.skip(j as int).drop_first() =~= t.skip(j + 1));
                assert(occurrences(t.skip(j as int), d as int) == 1 + occurrences(t.skip(j + 1), d as int));
                assert(ks.indeg[d as int] >= 1);
                assert(!ks.order.contains(d as int));
                assert(!ks.ready.contains(d as int));
                assert(d != x) by {
                    assert(ks.order.last() == x as int);
                    assert(ks.order[ks.order.len() - 1] == x as int);
                }
            }
            proof {
                lemma_relax_order(k1, x as int, t.take(j as int));
                assert(depth@[x as int] as int == ks.depth[x as int]);
            }
            let through = depth[x] + 1;
            let nd = if depth[d] >= through { depth[d] } else { through };
            depth.set(d, nd);
            let left = indegree[d] - 1;
            indegree.set(d, left);
            if left == 0 {
                proof {
                    lemma_ints_push(ready@, d);
                }
                ready.push(d);
            }
            proof {
                let kn = state_of(ready@, order@, indegree@, depth@);
                assert(t.take(j + 1).drop_last() =~= t.take(j as int));
                assert(t.take(j + 1).last() == d as int);
                assert(kn.indeg =~= ks.indeg.update(d as int, ks.indeg[d as int] - 1));
                assert(kn.depth =~= ks.depth.update(
                    d as int,
                    if ks.depth[d as int] >= ks.depth[x as int] + 1 {
                        ks.depth[d as int]
                    } else {
                        ks.depth[x as int] + 1
                    },
                ));
                assert(kn == relax_one(ks, x as int, d as int));
                assert forall|w: int| 0 <= w < count && w != d as int implies occurrences(t.skip(j as int), w)
                    == occurrences(t.skip(j + 1), w) by {}
                assert forall|a: int, b: int| 0 <= a < b < kn.ready.len() implies kn.ready[a] != kn.ready[b] by {
                    if left == 0 && b == kn.ready.len() - 1 {
                        assert(kn.ready[a] == ks.ready[a]);
                        assert(ks.ready.contains(ks.ready[a]));
                    }
                }
                assert forall|i2: int, j2: int| 0 <= i2 < kn.order.len() && 0 <= j2 < kn.ready.len() implies kn.order[i2] != kn.ready[j2] by {
                    if left == 0 && j2 == kn.ready.len() - 1 {
                        assert(ks.order.contains(ks.order[i2]));
                    }
                }
                assert forall|v2: int| 0 <= v2 < count && (kn.order.contains(v2) || kn.ready.contains(v2)) implies #[trigger] kn.indeg[v2] == 0 by {
                    if kn.ready.contains(v2) && !ks.ready.contains(v2) {
                        let i = choose|i: int| 0 <= i < kn.ready.len() && kn.ready[i] == v2;
                        if i < ks.ready.len() {
                            assert(ks.ready[i] == v2);
                        }
                    }
                }
            }
            j = j + 1;
        }
        proof {
            assert(t.take(j as int) =~= t);
            assert(t.skip(j as int) =~= Seq::<int>::empty());
            let kn = state_of(ready@, order@, indegree@, depth@);
            assert(kahn_step(k0, edges@) == relax(k1, x as int, t));
            assert forall|w: int| 0 <= w < count implies #[trigger] kn.indeg[w] >= pending(edges@, kn.order, w) by {
                assert(occurrences(t.skip(j as int), w) == 0);
            }
            assert(kahn_wf(kn, count as nat, edges@));
            assert(kn.order.len() == k0.order.len() + 1);
            assert forall|k: int|
                0 <= k < edges@.len() && ints(order@).contains((#[trigger] edges@[k]).0 as int) implies ints64(
                depth@,
            )[edges@[k].1 as int] >= ints64(depth@)[edges@[k].0 as int] + 1 by {
                assert(edges@[k].0 < count && edges@[k].1 < count);
                if edges@[k].0 == x {
                    lemma_adj_contains(edges@, x as int, k);
                    let w = choose|w: int| 0 <= w < t.len() && t[w] == edges@[k].1 as int;
                    assert(depth@[t[w]] >= depth@[x as int] + 1);
                } else {
                    assert(k1.order.contains(edges@[k].0 as int));
                }
            }
        }
    }
    proof {
        let k = state_of(ready@, order@, indegree@, depth@);
        lemma_run_idle(k, edges@, (count - order@.len()) as nat);
    }
    (order, depth)
}

spec fn old_order_view(s: Seq<usize>) -> Seq<usize> {
    s.drop_last()
}

/// Every edge target is one of the nodes.
proof fn lemma_adj_within(edges: Seq<(usize, usize)>, count: nat, x: int)
    requires
        edges_within(edges, count),
    ensures
        forall|i: int| 0 <= i < adj_of(edges, x).len() ==> 0 <= #[trigger] adj_of(edges, x)[i] < count,
    decreases edges.len(),
{
    if edges.len() > 0 {
        assert(edges_within(edges.drop_last(), count)) by {
            assert forall|k: int| 0 <= k < edges.drop_last().len() implies (#[trigger] edges.drop_last()[k]).0 < count
                && edges.drop_last()[k].1 < count by {
                assert(edges.drop_last()[k] == edges[k]);
            }
        }
        lemma_adj_within(edges.drop_last(), count, x);
        assert(edges.last() == edges[edges.len() - 1]);
        let rest = adj_of(edges.drop_last(), x);
        assert forall|i: int| 0 <= i < adj_of(edges, x).len() implies 0 <= #[trigger] adj_of(edges, x)[i] < count by {
            if i < rest.len() {
                assert(adj_of(edges, x)[i] == rest[i]);
            }
        }
    }
}

/// Following edges never changes the order.
proof fn lemma_relax_order(k: Kahn, x: int, t: Seq<int>)
    ensures
        relax(k, x, t).order == k.order,
    decreases t.len(),
{
    if t.len() > 0 {
        lemma_relax_order(k, x, t.drop_last());
    }
}

/// With nothing ordered, every edge into `v` is pending.
proof fn lemma_pending_none(edges: Seq<(usize, usize)>, v: int)
    ensures
        pending(edges, Seq::<int>::empty(), v) == in_count(edges, v),
    decreases edges.len(),
{
    if edges.len() > 0 {
        lemma_pending_none(edges.drop_last(), v);
    }
}

/// The initially ready nodes are exactly the nodes no edge enters, ascending.
proof fn lemma_initially_ready(edges: Seq<(usize, usize)>, n: nat)
    ensures
        forall|i: int| 0 <= i < initially_ready(edges, n).len() ==> 0 <= #[trigger] initially_ready(edges, n)[i] < n,
        forall|i: int| 0 <= i < initially_ready(edges, n).len() ==> in_count(edges, #[trigger] initially_ready(edges, n)[i]) == 0,
        forall|i: int, j: int| 0 <= i < j < initially_ready(edges, n).len() ==> initially_ready(edges, n)[i] < initially_ready(edges, n)[j],
        initially_ready(edges, n).no_duplicates(),
    decreases n,
{
    if n > 0 {
        lemma_initially_ready(edges, (n - 1) as nat);
    }
}


/// The smallest node below `n` that `order` does not hold.
pub open spec fn first_missing(order: Seq<int>, n: nat) -> Option<int>
    decreases n,
{
    if n == 0 {
        None
    } else {
        match first_missing(order, (n - 1) as nat) {
            Some(v) => Some(v),
            None => if !order.contains(n - 1) {
                Some(n - 1)
            } else {
                None
            },
        }
    }
}

/// The first of `cands` that is either unordered or already on `path`.
pub open spec fn first_hop(cands: Seq<int>, ordered: Seq<int>, path: Seq<int>) -> Option<int>
    decreases cands.len(),
{
    if cands.len() == 0 {
        None
    } else if !ordered.contains(cands[0]) || path.contains(cands[0]) {
        Some(cands[0])
    } else {
        first_hop(cands.drop_first(), ordered, path)
    }
}

/// The position of the first `v` in `s`.
pub open spec fn first_index(s: Seq<int>, v: int) -> int
    decreases s.len(),
{
    if s.len() == 0 || s[0] == v {
        0
    } else {
        1 + first_index(s.drop_first(), v)
    }
}

/// The walk that reports a cycle: from `cursor`, follow the first edge to a
/// node that is unordered or already walked, and stop on the first node met
/// twice (reporting the loop from it) or at a node with no such edge
/// (reporting the whole walk).
pub open spec fn walk(edges: Seq<(usize, usize)>, ordered: Seq<int>, path: Seq<int>, cursor: int, fuel: nat) -> Seq<int>
    decreases fuel,
{
    if fuel == 0 {
        path
    } else if path.contains(cursor) {
        path.skip(first_index(path, cursor))
    } else {
        let p = path.push(cursor);
        match first_hop(adj_of(edges, cursor), ordered, p) {
            None => p,
            Some(next) => walk(edges, ordered, p, next, (fuel - 1) as nat),
        }
    }
}

/// The identities along `path`, joined by `" -> "`.
pub open spec fn joined_path(ids: Seq<Seq<char>>, path: Seq<int>) -> Seq<char>
    decreases path.len(),
{
    if path.len() == 0 {
        Seq::empty()
    } else if path.len() == 1 {
        ids[path[0]]
    } else {
        joined_path(ids, path.drop_last()) + " -> "@ + ids[path.last()]
    }
}

/// The text reported for a graph whose nodes cannot all be ordered.
pub open spec fn cycle_text(ids: Seq<Seq<char>>, edges: Seq<(usize, usize)>) -> Seq<char> {
    let order = kahn_result(ids.len(), edges).order;
    match first_missing(order, ids.len()) {
        None => "cycle"@,
        Some(start) => joined_path(ids, walk(edges, order, Seq::empty(), start, ids.len() + 1)),
    }
}

/// The identities of `nodes`.
pub open spec fn node_ids(nodes: Seq<NodeInstance>) -> Seq<Seq<char>> {
    nodes.map_values(|n: NodeInstance| n.id@)
}

/// Orders the Node Instances along the edges by Kahn's algorithm, taking
/// ready nodes first-in first-out (nodes no edge enters, ascending, then in
/// the order they become ready), with each node's longest-path depth; or
/// reports a cycle. In an order, every edge's source comes before its target
/// and the target lies at least one level deeper.
pub fn topological_order(nodes: &[NodeInstance], edges: &[(usize, usize)]) -> (r: Topology)
    requires
        edges_within(edges@, nodes@.len()),
    ensures
        ({
            let k = kahn_result(nodes@.len(), edges@);
            match r {
                Topology::Order((order, depth)) => {
                    &&& kahn_wf(k, nodes@.len(), edges@)
                    &&& k.order.len() == nodes@.len()
                    &&& ints(order@) == k.order
                    &&& ints64(depth@) == k.depth
                    &&& sources_first(edges@, ints(order@))
                    &&& depths_grow(edges@, ints(order@), ints64(depth@))
                },
                Topology::Cycle(text) => {
                    &&& k.order.len() < nodes@.len()
                    &&& text@ == cycle_text(node_ids(nodes@), edges@)
                },
            }
        }),
{
    let count = nodes.len();
    let adjacency = adjacency_of(count, edges);
    let (order, depth) = kahn(count, edges, &adjacency);
    let ghost k = kahn_result(count as nat, edges@);
    let ghost ids = node_ids(nodes@);
    assert(ids.len() == count);
    if order.len() == count {
        return Topology::Order((order, depth));
    }
    proof {
        assert(ints(order@).len() == order@.len());
        lemma_pigeonhole(k.order, count as nat);
        assert(k.order.len() < count);
    }
    let mut ordered: Vec<bool> = Vec::new();
    let mut v: usize = 0;
    while v < count
        invariant
            0 <= v <= count,
            ordered@.len() == v,
            forall|w: int| 0 <= w < v ==> #[trigger] ordered@[w] == ints(order@).contains(w),
        decreases count - v,
    {
        let mut found = false;
        let mut i: usize = 0;
        while i < order.len()
            invariant
                0 <= i <= order@.len(),
                found == exists|j: int| 0 <= j < i && order@[j] == v,
            decreases order@.len() - i,
        {
            if order[i] == v {
                found = true;
            }
            i = i + 1;
        }
        proof {
            if found {
                let j = choose|j: int| 0 <= j < order@.len() && order@[j] == v;
                assert(ints(order@)[j] == v as int);
            }
            if ints(order@).contains(v as int) {
                let j = choose|j: int| 0 <= j < ints(order@).len() && ints(order@)[j] == v as int;
                assert(order@[j] == v);
            }
        }
        ordered.push(found);
        v = v + 1;
    }
    let mut start: usize = 0;
    while start < count && ordered[start]
        invariant
            0 <= start <= count,
            ordered@.len() == count,
            forall|w: int| 0 <= w < start ==> ints(order@).contains(w),
            forall|w: int| 0 <= w < count ==> #[trigger] ordered@[w] == ints(order@).contains(w),
        decreases count - start,
    {
        start = start + 1;
    }
    proof {
        lemma_first_missing(k.order, count as nat, start as nat);
    }
    if start == count {
        return Topology::Cycle(text::owned("cycle"));
    }
    let mut path: Vec<usize> = Vec::new();
    let mut cursor: usize = start;
    proof {
        assert(ints(path@) =~= Seq::<int>::empty());
        assert(cycle_text(ids, edges@) == joined_path(ids, walk(edges@, k.order, Seq::empty(), start as int, count as nat + 1)));
    }
    loop
        invariant
            count == nodes@.len(),
            ids == node_ids(nodes@),
            ids.len() == count,
            edges_within(edges@, count as nat),
            adjacency@.len() == count,
            forall|w: int| 0 <= w < count ==> ints((#[trigger] adjacency@[w])@) == adj_of(edges@, w),
            ordered@.len() == count,
            forall|w: int| 0 <= w < count ==> #[trigger] ordered@[w] == k.order.contains(w),
            cursor < count,
            ints(path@).no_duplicates(),
            forall|i: int| 0 <= i < path@.len() ==> (#[trigger] path@[i]) < count,
            path@.len() <= count,
            k == kahn_result(count as nat, edges@),
            k.order.len() < count,
            first_missing(k.order, count as nat) == Some(start as int),
            cycle_text(ids, edges@) == joined_path(ids, walk(edges@, k.order, Seq::empty(), start as int, count as nat + 1)),
            walk(edges@, k.order, ints(path@), cursor as int, (count + 1 - path@.len()) as nat)
                == walk(edges@, k.order, Seq::empty(), start as int, count as nat + 1),
        decreases count + 1 - path@.len(),
    {
        let ghost p0 = ints(path@);
        let mut position: usize = 0;
        while position < path.len() && path[position] != cursor
            invariant
                0 <= position <= path@.len(),
                forall|i: int| 0 <= i < position ==> path@[i] != cursor,
            decreases path@.len() - position,
        {
            position = position + 1;
        }
        if position < path.len() {
            proof {
                assert(p0[position as int] == cursor as int);
                assert(p0.contains(cursor as int));
                lemma_first_index(p0, cursor as int, position as int);
            }
            let text = joined_ids(nodes, &path, position);
            proof {
                assert(ints(path@).skip(position as int) =~= ints(path@.skip(position as int)));
                let fuel = (count + 1 - path@.len()) as nat;
                assert(walk(edges@, k.order, p0, cursor as int, fuel) == p0.skip(position as int));
            }
            return Topology::Cycle(text);
        }
        proof {
            assert(!p0.contains(cursor as int)) by {
                if p0.contains(cursor as int) {
                    let i = choose|i: int| 0 <= i < p0.len() && p0[i] == cursor as int;
                    assert(path@[i] == cursor);
                }
            }
        }
        path.push(cursor);
        proof {
            lemma_ints_push(path@.drop_last(), cursor);
            assert(path@.drop_last() =~= old_order_view(path@));
            assert(ints(path@) == p0.push(cursor as int)) by {
                assert(path@.drop_last() == old_order_view(path@));
                assert(ints(path@) =~= p0.push(cursor as int));
            }
            assert(ints(path@).no_duplicates()) by {
                assert forall|a: int, b: int| 0 <= a < b < ints(path@).len() implies ints(path@)[a] != ints(path@)[b] by {
                    if b == ints(path@).len() - 1 {
                        assert(p0.contains(p0[a]));
                    }
                }
            }
            lemma_pigeonhole(ints(path@), count as nat);
            lemma_adj_within(edges@, count as nat, cursor as int);
        }
        let targets = &adjacency[cursor];
        let ghost t = adj_of(edges@, cursor as int);
        let ghost pn = ints(path@);
        let mut j: usize = 0;
        let mut next: Option<usize> = None;
        assert(t.skip(0) =~= t);
        assert(ints(targets@) == t);
        if targets.len() == 0 {
            assert(t.skip(0) =~= Seq::<int>::empty());
        }
        while j < targets.len()
            invariant_except_break
                next is None,
            invariant
                0 <= j <= targets@.len(),
                ints(targets@) == t,
                forall|w: int| 0 <= w < count ==> #[trigger] ordered@[w] == k.order.contains(w),
                ordered@.len() == count,
                forall|i: int| 0 <= i < t.len() ==> 0 <= #[trigger] t[i] < count,
                first_hop(t, k.order, pn) == first_hop(t.skip(j as int), k.order, pn),
                pn == ints(path@),
            ensures
                match next {
                    None => first_hop(t, k.order, pn) is None,
                    Some(n) => first_hop(t, k.order, pn) == Some(n as int) && n < count,
                },
            decreases targets@.len() - j,
        {
            let candidate = targets[j];
            assert(t[j as int] == candidate as int);
            assert(t.skip(j as int)[0] == t[j as int]);
            assert(t.skip(j as int).drop_first() =~= t.skip(j + 1));
            let mut on_path = false;
            let mut i: usize = 0;
            while i < path.len()
                invariant
                    0 <= i <= path@.len(),
                    on_path == exists|q: int| 0 <= q < i && path@[q] == candidate,
                decreases path@.len() - i,
            {
                if path[i] == candidate {
                    on_path = true;
                }
                i = i + 1;
            }
            proof {
                if on_path {
                    let q = choose|q: int| 0 <= q < path@.len() && path@[q] == candidate;
                    assert(pn[q] == candidate as int);
                }
                if pn.contains(candidate as int) {
                    let q = choose|q: int| 0 <= q < pn.len() && pn[q] == candidate as int;
                    assert(path@[q] == candidate);
                }
            }
            if !ordered[candidate] || on_path {
                next = Some(candidate);
                break;
            }
            j = j + 1;
            proof {
                if j == targets@.len() {
                    assert(t.skip(j as int) =~= Seq::<int>::empty());
                }
            }
        }
        match next {
            None => {
                let text = joined_ids(nodes, &path, 0);
                proof {
                    assert(ints(path@).skip(0) =~= ints(path@.skip(0)));
                    assert(path@.skip(0) =~= path@);
                    assert(pn.skip(0) =~= pn);
                    let fuel = (count + 1 - p0.len()) as nat;
                    assert(walk(edges@, k.order, p0, cursor as int, fuel) == pn);
                }
                return Topology::Cycle(text);
            },
            Some(n) => {
                cursor = n;
            },
        }
    }
}

/// The identities of `path[from..]`, joined by `" -> "`.
fn joined_ids(nodes: &[NodeInstance], path: &Vec<usize>, from: usize) -> (s: String)
    requires
        from <= path@.len(),
        forall|i: int| 0 <= i < path@.len() ==> (#[trigger] path@[i]) < nodes@.len(),
    ensures
        s@ == joined_path(node_ids(nodes@), ints(path@.skip(from as int))),
{
    let ghost ids = node_ids(nodes@);
    let mut s = String::new();
    let mut i: usize = from;
    assert(ints(path@.subrange(from as int, from as int)) =~= Seq::<int>::empty());
    while i < path.len()
        invariant
            from <= i <= path@.len(),
            ids == node_ids(nodes@),
            forall|q: int| 0 <= q < path@.len() ==> (#[trigger] path@[q]) < nodes@.len(),
            s@ == joined_path(ids, ints(path@.subrange(from as int, i as int))),
        decreases path@.len() - i,
    {
        let ghost before = ints(path@.subrange(from as int, i as int));
        let ghost after = ints(path@.subrange(from as int, i + 1));
        assert(after.drop_last() =~= before);
        assert(after.last() == path@[i as int] as int);
        assert(ids[path@[i as int] as int] == nodes@[path@[i as int] as int].id@);
        if i > from {
            text::push_str(&mut s, " -> ");
        }
        text::push_str(&mut s, nodes[path[i]].id.as_str());
        proof {
            if i == from {
                assert(before.len() == 0);
                assert(after.len() == 1);
            }
        }
        i = i + 1;
    }
    assert(path@.subrange(from as int, path@.len() as int) =~= path@.skip(from as int));
    s
}

/// `first_missing` finds the first node not in the order, if any.
proof fn lemma_first_missing(order: Seq<int>, n: nat, start: nat)
    requires
        start <= n,
        forall|w: int| 0 <= w < start ==> order.contains(w),
        start < n ==> !order.contains(start as int),
    ensures
        first_missing(order, n) == if start < n { Some(start as int) } else { None::<int> },
    decreases n,
{
    if n > 0 {
        if start < n {
            if start < n - 1 {
                lemma_first_missing(order, (n - 1) as nat, start);
            } else {
                lemma_first_missing(order, (n - 1) as nat, start);
            }
        } else {
            lemma_first_missing(order, (n - 1) as nat, (n - 1) as nat);
            assert(order.contains(n - 1));
        }
    }
}

/// In a sequence without repeats, `first_index` finds the one position of `v`.
proof fn lemma_first_index(s: Seq<int>, v: int, at: int)
    requires
        0 <= at < s.len(),
        s[at] == v,
        s.no_duplicates(),
    ensures
        first_index(s, v) == at,
    decreases s.len(),
{
    if at > 0 {
        assert(s[0] != v);
        assert(s.drop_first().no_duplicates()) by {
            assert forall|a: int, b: int| 0 <= a < b < s.drop_first().len() implies s.drop_first()[a] != s.drop_first()[b] by {
                assert(s[a + 1] != s[b + 1]);
            }
        }
        lemma_first_index(s.drop_first(), v, at - 1);
    }
}

} // verus!
