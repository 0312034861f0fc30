//! Directed-graph topology backed by `petgraph`.
//!
//! The graphs of this crate keep their node and edge payloads in plain vectors
//! and let a `petgraph::graph::DiGraph<(), ()>` hold the shape: node `i` of the
//! topology is payload `i`, edge `k` of the topology is payload `k`.
//! Everything that `petgraph` computes (adjacency walks, strongly connected
//! components, topological sorting, breadth-first search) is reached through
//! the trusted items of this module, whose contracts are stated over the edge
//! list `topology_edges` and the node count `topology_node_count`.
use vstd::prelude::*;

use petgraph::graph::{DiGraph, EdgeIndex, NodeIndex};
use petgraph::visit::Bfs;
use petgraph::Direction;

verus! {

/// `petgraph`'s adjacency-list graph, opaque to the verifier.
#[verifier::external_type_specification]
#[verifier::external_body]
#[verifier::reject_recursive_types(N)]
#[verifier::reject_recursive_types(E)]
#[verifier::reject_recursive_types(Ty)]
#[verifier::reject_recursive_types(Ix)]
pub struct ExPetGraph<N, E, Ty, Ix>(petgraph::graph::Graph<N, E, Ty, Ix>);

/// `petgraph`'s marker type for directed graphs.
#[verifier::external_type_specification]
#[verifier::external_body]
pub struct ExPetDirected(petgraph::Directed);

/// The edges of a topology, in insertion order, as (source, target) pairs.
pub uninterp spec fn topology_edges(g: DiGraph<(), ()>) -> Seq<(int, int)>;

/// The number of nodes of a topology.
pub uninterp spec fn topology_node_count(g: DiGraph<(), ()>) -> nat;

/// The largest index that `petgraph`'s default `u32` index type can hand out
/// is reserved; a graph holds fewer than this many nodes and edges.
pub open spec fn index_limit() -> int {
    0xffff_ffff
}

/// Well-formedness of a topology: every edge joins existing nodes.
pub open spec fn topology_wf(g: DiGraph<(), ()>) -> bool {
    &&& topology_node_count(g) < index_limit()
    &&& topology_edges(g).len() < index_limit()
    &&& forall|i: int|
        0 <= i < topology_edges(g).len() ==> 0 <= #[trigger] topology_edges(g)[i].0
            < topology_node_count(g) && 0 <= topology_edges(g)[i].1 < topology_node_count(g)
}

// ---------------------------------------------------------------------------
// Paths
// ---------------------------------------------------------------------------

/// Edge `i` leads from `u` to `v` when walked in the given direction
/// (`incoming` walks edges backwards, from target to source).
pub open spec fn edge_leads(edges: Seq<(int, int)>, incoming: bool, i: int, u: int, v: int) -> bool {
    if incoming {
        edges[i] == (v, u)
    } else {
        edges[i] == (u, v)
    }
}

/// One step from `u` to `v` along an edge accepted by `ok`.
pub open spec fn step(
    edges: Seq<(int, int)>,
    ok: spec_fn(int) -> bool,
    incoming: bool,
    u: int,
    v: int,
) -> bool {
    exists|i: int| 0 <= i < edges.len() && ok(i) && #[trigger] edge_leads(edges, incoming, i, u, v)
}

/// `p` is a walk: a non-empty node sequence whose neighbours are joined by steps.
pub open spec fn is_walk(
    edges: Seq<(int, int)>,
    ok: spec_fn(int) -> bool,
    incoming: bool,
    p: Seq<int>,
) -> bool {
    &&& p.len() >= 1
    &&& forall|j: int| 0 <= j < p.len() - 1 ==> #[trigger] step(edges, ok, incoming, p[j], p[j + 1])
}

/// A walk from `u` to `v`.
pub open spec fn walk_between(
    edges: Seq<(int, int)>,
    ok: spec_fn(int) -> bool,
    incoming: bool,
    p: Seq<int>,
    u: int,
    v: int,
) -> bool {
    is_walk(edges, ok, incoming, p) && p[0] == u && p.last() == v
}

/// `v` can be reached from `u` by zero or more steps.
pub open spec fn reachable(
    edges: Seq<(int, int)>,
    ok: spec_fn(int) -> bool,
    incoming: bool,
    u: int,
    v: int,
) -> bool {
    exists|p: Seq<int>| #[trigger] walk_between(edges, ok, incoming, p, u, v)
}

/// Every edge may be taken.
pub open spec fn any_edge() -> spec_fn(int) -> bool {
    |i: int| true
}

/// Forward reachability over all edges.
pub open spec fn reaches(edges: Seq<(int, int)>, u: int, v: int) -> bool {
    reachable(edges, any_edge(), false, u, v)
}

/// `u` and `v` reach each other: they lie in one strongly connected component.
pub open spec fn mutually_reachable(edges: Seq<(int, int)>, u: int, v: int) -> bool {
    reaches(edges, u, v) && reaches(edges, v, u)
}

/// `c` lies on a cycle: some edge leaves `c` towards a node from which `c` is reachable.
pub open spec fn on_cycle(edges: Seq<(int, int)>, c: int) -> bool {
    exists|i: int|
        0 <= i < edges.len() && #[trigger] edges[i].0 == c && reaches(edges, edges[i].1, c)
}

/// `v` occurs in one of the groups of `comps`.
pub open spec fn listed_in(comps: Seq<Seq<int>>, v: int) -> bool {
    exists|i: int, j: int| 0 <= i < comps.len() && 0 <= j < comps[i].len() && #[trigger] comps[i][j] == v
}

/// `comps` partitions the nodes `0..n` into the strongly connected components.
pub open spec fn is_scc_partition(edges: Seq<(int, int)>, n: nat, comps: Seq<Seq<int>>) -> bool {
    &&& forall|i: int, j: int|
        0 <= i < comps.len() && 0 <= j < comps[i].len() ==> 0 <= #[trigger] comps[i][j] < n
    &&& forall|v: int| 0 <= v < n ==> #[trigger] listed_in(comps, v)
    &&& forall|i1: int, j1: int, i2: int, j2: int|
        0 <= i1 < comps.len() && 0 <= j1 < comps[i1].len() && 0 <= i2 < comps.len() && 0 <= j2
            < comps[i2].len() && #[trigger] comps[i1][j1] == #[trigger] comps[i2][j2] ==> i1 == i2
            && j1 == j2
    &&& forall|i: int, j1: int, j2: int|
        0 <= i < comps.len() && 0 <= j1 < comps[i].len() && 0 <= j2 < comps[i].len()
            ==> mutually_reachable(edges, #[trigger] comps[i][j1], #[trigger] comps[i][j2])
    &&& forall|i1: int, j1: int, i2: int, j2: int|
        0 <= i1 < comps.len() && 0 <= j1 < comps[i1].len() && 0 <= i2 < comps.len() && 0 <= j2
            < comps[i2].len() && i1 != i2 ==> !mutually_reachable(
            edges,
            #[trigger] comps[i1][j1],
            #[trigger] comps[i2][j2],
        )
}

/// `order` lists every node `0..n` exactly once.
pub open spec fn is_node_permutation(n: nat, order: Seq<int>) -> bool {
    &&& order.len() == n
    &&& forall|i: int| 0 <= i < order.len() ==> 0 <= #[trigger] order[i] < n
    &&& forall|i: int, j: int|
        0 <= i < order.len() && 0 <= j < order.len() && #[trigger] order[i] == #[trigger] order[j]
            ==> i == j
}

/// The source of `e` comes strictly before its target in `order`.
pub open spec fn goes_forward(order: Seq<int>, e: (int, int)) -> bool {
    exists|a: int, b: int| 0 <= a < b < order.len() && #[trigger] order[a] == e.0 && #[trigger] order[b] == e.1
}

/// `order` is a topological order of the nodes `0..n`: every edge goes forward in it.
pub open spec fn is_topological_order(edges: Seq<(int, int)>, n: nat, order: Seq<int>) -> bool {
    &&& is_node_permutation(n, order)
    &&& forall|k: int| 0 <= k < edges.len() ==> goes_forward(order, #[trigger] edges[k])
}

/// `v` is reached from `u` by a walk of exactly `k` steps.
pub open spec fn reach_len(edges: Seq<(int, int)>, incoming: bool, u: int, v: int, k: int) -> bool {
    exists|p: Seq<int>| p.len() == k + 1 && #[trigger] walk_between(edges, any_edge(), incoming, p, u, v)
}

/// `v` is reached from `u` by a walk of at least one and at most `k` steps.
pub open spec fn near(edges: Seq<(int, int)>, incoming: bool, u: int, v: int, k: int) -> bool {
    exists|j: int| 1 <= j <= k && #[trigger] reach_len(edges, incoming, u, v, j)
}

/// Every node reaches itself in zero steps.
pub proof fn lemma_reach_zero(edges: Seq<(int, int)>, incoming: bool, u: int)
    ensures
        reach_len(edges, incoming, u, u, 0),
{
    let p = seq![u];
    assert(walk_between(edges, any_edge(), incoming, p, u, u));
}

/// In zero steps a node reaches only itself.
pub proof fn lemma_reach_zero_only(edges: Seq<(int, int)>, incoming: bool, u: int, v: int)
    requires
        reach_len(edges, incoming, u, v, 0),
    ensures
        u == v,
{
    let p = choose|p: Seq<int>| p.len() == 1 && #[trigger] walk_between(edges, any_edge(), incoming, p, u, v);
    assert(p[0] == p.last());
}

/// A walk of `k` steps followed by one more step is a walk of `k + 1` steps.
pub proof fn lemma_reach_extend(edges: Seq<(int, int)>, incoming: bool, u: int, w: int, v: int, k: int)
    requires
        k >= 0,
        reach_len(edges, incoming, u, w, k),
        step(edges, any_edge(), incoming, w, v),
    ensures
        reach_len(edges, incoming, u, v, k + 1),
{
    let p = choose|p: Seq<int>| p.len() == k + 1 && #[trigger] walk_between(edges, any_edge(), incoming, p, u, w);
    let q = p.push(v);
    assert forall|j: int| 0 <= j < q.len() - 1 implies #[trigger] step(edges, any_edge(), incoming, q[j], q[j + 1]) by {
        if j < p.len() - 1 {
            assert(q[j] == p[j] && q[j + 1] == p[j + 1]);
            assert(step(edges, any_edge(), incoming, p[j], p[j + 1]));
        } else {
            assert(q[j] == w && q[j + 1] == v);
        }
    }
    assert(walk_between(edges, any_edge(), incoming, q, u, v));
}

/// The node before the last on a walk of `k >= 1` steps.
pub proof fn lemma_reach_pred(edges: Seq<(int, int)>, incoming: bool, u: int, v: int, k: int) -> (w: int)
    requires
        k >= 1,
        reach_len(edges, incoming, u, v, k),
    ensures
        reach_len(edges, incoming, u, w, k - 1),
        step(edges, any_edge(), incoming, w, v),
{
    let p = choose|p: Seq<int>| p.len() == k + 1 && #[trigger] walk_between(edges, any_edge(), incoming, p, u, v);
    let q = p.take(k);
    let w = p[k - 1];
    assert forall|j: int| 0 <= j < q.len() - 1 implies #[trigger] step(edges, any_edge(), incoming, q[j], q[j + 1]) by {
        assert(q[j] == p[j] && q[j + 1] == p[j + 1]);
        assert(step(edges, any_edge(), incoming, p[j], p[j + 1]));
    }
    assert(walk_between(edges, any_edge(), incoming, q, u, w));
    let jl = k - 1;
    assert(step(edges, any_edge(), incoming, p[jl], p[jl + 1]));
    w
}

/// One step is a walk of one step.
pub proof fn lemma_reach_one(edges: Seq<(int, int)>, incoming: bool, u: int, v: int)
    requires
        step(edges, any_edge(), incoming, u, v),
    ensures
        reach_len(edges, incoming, u, v, 1),
{
    lemma_reach_zero(edges, incoming, u);
    lemma_reach_extend(edges, incoming, u, u, v, 0);
}

/// The target of a step along a well-formed edge list is a node.
pub proof fn lemma_step_bounds(edges: Seq<(int, int)>, n: nat, incoming: bool, u: int, v: int)
    requires
        forall|i: int| 0 <= i < edges.len() ==> 0 <= #[trigger] edges[i].0 < n && 0 <= edges[i].1 < n,
        step(edges, any_edge(), incoming, u, v),
    ensures
        0 <= v < n,
        0 <= u < n,
{
    let i = choose|i: int| 0 <= i < edges.len() && any_edge()(i) && #[trigger] edge_leads(edges, incoming, i, u, v);
    assert(0 <= edges[i].0 < n);
}

/// The node at the other end of edge `e`, seen from the node it touches.
pub open spec fn other_end(edges: Seq<(int, int)>, incoming: bool, e: int) -> int {
    if incoming {
        edges[e].0
    } else {
        edges[e].1
    }
}

/// An edge touching `a` is a step from `a` to its other end, and every step
/// from `a` runs along an edge touching `a`.
pub proof fn lemma_touch_step(edges: Seq<(int, int)>, incoming: bool, a: int, w: int)
    ensures
        forall|e: int|
            0 <= e < edges.len() && touches(edges, a, incoming, e) ==> step(edges, any_edge(), incoming, a, #[trigger] other_end(edges, incoming, e)),
        step(edges, any_edge(), incoming, a, w) ==> exists|e: int|
            0 <= e < edges.len() && touches(edges, a, incoming, e) && #[trigger] other_end(edges, incoming, e) == w,
{
    assert forall|e: int|
        0 <= e < edges.len() && touches(edges, a, incoming, e) implies step(edges, any_edge(), incoming, a, #[trigger] other_end(edges, incoming, e)) by {
        assert(edge_leads(edges, incoming, e, a, other_end(edges, incoming, e)));
        assert(any_edge()(e));
    }
    if step(edges, any_edge(), incoming, a, w) {
        let e = choose|e: int| 0 <= e < edges.len() && any_edge()(e) && #[trigger] edge_leads(edges, incoming, e, a, w);
        assert(touches(edges, a, incoming, e) && other_end(edges, incoming, e) == w);
    }
}

/// Every node reaches itself.
pub proof fn lemma_reachable_refl(edges: Seq<(int, int)>, ok: spec_fn(int) -> bool, incoming: bool, u: int)
    ensures
        reachable(edges, ok, incoming, u, u),
{
    let p = seq![u];
    assert(walk_between(edges, ok, incoming, p, u, u));
}

/// Reachability followed by one more step is reachability.
pub proof fn lemma_reachable_extend(
    edges: Seq<(int, int)>,
    ok: spec_fn(int) -> bool,
    incoming: bool,
    u: int,
    w: int,
    v: int,
)
    requires
        reachable(edges, ok, incoming, u, w),
        step(edges, ok, incoming, w, v),
    ensures
        reachable(edges, ok, incoming, u, v),
{
    let p = choose|p: Seq<int>| #[trigger] walk_between(edges, ok, incoming, p, u, w);
    let q = p.push(v);
    assert forall|j: int| 0 <= j < q.len() - 1 implies #[trigger] step(edges, ok, incoming, q[j], q[j + 1]) by {
        if j < p.len() - 1 {
            assert(q[j] == p[j] && q[j + 1] == p[j + 1]);
            assert(step(edges, ok, incoming, p[j], p[j + 1]));
        } else {
            assert(q[j] == w && q[j + 1] == v);
        }
    }
    assert(walk_between(edges, ok, incoming, q, u, v));
}

/// A node set that holds `u` and is closed under steps holds every node
/// reachable from `u`.
pub proof fn lemma_closed_reach(
    edges: Seq<(int, int)>,
    ok: spec_fn(int) -> bool,
    incoming: bool,
    inset: spec_fn(int) -> bool,
    u: int,
    v: int,
)
    requires
        inset(u),
        forall|x: int, y: int| inset(x) && #[trigger] step(edges, ok, incoming, x, y) ==> inset(y),
        reachable(edges, ok, incoming, u, v),
    ensures
        inset(v),
{
    let p = choose|p: Seq<int>| #[trigger] walk_between(edges, ok, incoming, p, u, v);
    lemma_walk_inset(edges, ok, incoming, inset, p, p.len() - 1);
}

/// Every node of a walk from a node of a step-closed set lies in the set.
proof fn lemma_walk_inset(
    edges: Seq<(int, int)>,
    ok: spec_fn(int) -> bool,
    incoming: bool,
    inset: spec_fn(int) -> bool,
    p: Seq<int>,
    j: int,
)
    requires
        is_walk(edges, ok, incoming, p),
        inset(p[0]),
        forall|x: int, y: int| inset(x) && #[trigger] step(edges, ok, incoming, x, y) ==> inset(y),
        0 <= j < p.len(),
    ensures
        inset(p[j]),
    decreases j,
{
    if j > 0 {
        lemma_walk_inset(edges, ok, incoming, inset, p, j - 1);
        let i = j - 1;
        assert(step(edges, ok, incoming, p[i], p[i + 1]));
    }
}

/// An accepted edge touching `a` is a step from `a` to its other end, and
/// every step from `a` runs along an accepted edge touching `a`.
pub proof fn lemma_touch_step_ok(edges: Seq<(int, int)>, ok: spec_fn(int) -> bool, incoming: bool, a: int, w: int)
    ensures
        forall|e: int|
            0 <= e < edges.len() && ok(e) && touches(edges, a, incoming, e) ==> step(edges, ok, incoming, a, #[trigger] other_end(edges, incoming, e)),
        step(edges, ok, incoming, a, w) ==> exists|e: int|
            0 <= e < edges.len() && ok(e) && touches(edges, a, incoming, e) && #[trigger] other_end(edges, incoming, e) == w,
{
    assert forall|e: int|
        0 <= e < edges.len() && ok(e) && touches(edges, a, incoming, e) implies step(edges, ok, incoming, a, #[trigger] other_end(edges, incoming, e)) by {
        assert(edge_leads(edges, incoming, e, a, other_end(edges, incoming, e)));
    }
    if step(edges, ok, incoming, a, w) {
        let e = choose|e: int| 0 <= e < edges.len() && ok(e) && #[trigger] edge_leads(edges, incoming, e, a, w);
        assert(touches(edges, a, incoming, e) && other_end(edges, incoming, e) == w);
    }
}

/// Some two distinct nodes below `n` reach each other.
pub open spec fn has_mutual_pair(edges: Seq<(int, int)>, n: nat) -> bool {
    exists|u: int, v: int|
        0 <= u < n && 0 <= v < n && u != v && #[trigger] mutually_reachable(edges, u, v)
}

/// Some node below `n` lies on a cycle (a self-loop counts).
pub open spec fn has_cycle_node(edges: Seq<(int, int)>, n: nat) -> bool {
    exists|c: int| 0 <= c < n && #[trigger] on_cycle(edges, c)
}

/// Joining a walk from `u` to `v` with a walk from `v` to `w` gives a walk
/// from `u` to `w`.
pub proof fn lemma_walk_concat(
    edges: Seq<(int, int)>,
    ok: spec_fn(int) -> bool,
    incoming: bool,
    p: Seq<int>,
    q: Seq<int>,
    u: int,
    v: int,
    w: int,
)
    requires
        walk_between(edges, ok, incoming, p, u, v),
        walk_between(edges, ok, incoming, q, v, w),
    ensures
        walk_between(edges, ok, incoming, p + q.drop_first(), u, w),
{
    let r = p + q.drop_first();
    assert forall|j: int| 0 <= j < r.len() - 1 implies #[trigger] step(edges, ok, incoming, r[j], r[j + 1]) by {
        if j < p.len() - 1 {
            assert(r[j] == p[j] && r[j + 1] == p[j + 1]);
            assert(step(edges, ok, incoming, p[j], p[j + 1]));
        } else if j == p.len() - 1 {
            assert(r[j] == q[0]);
            assert(r[j + 1] == q[1]);
            assert(step(edges, ok, incoming, q[0], q[1]));
        } else {
            let t = j - p.len() + 1;
            assert(r[j] == q[t] && r[j + 1] == q[t + 1]);
            assert(step(edges, ok, incoming, q[t], q[t + 1]));
        }
    }
    if q.len() == 1 {
        assert(r =~= p);
    } else {
        assert(r.last() == q.last());
    }
}

/// A walk of at least two nodes starts with an edge out of its first node,
/// and the rest of it is a walk.
pub proof fn lemma_walk_first_step(edges: Seq<(int, int)>, p: Seq<int>, u: int, v: int)
    requires
        walk_between(edges, any_edge(), false, p, u, v),
        p.len() >= 2,
    ensures
        exists|i: int| 0 <= i < edges.len() && edges[i] == (u, p[1]),
        walk_between(edges, any_edge(), false, p.drop_first(), p[1], v),
{
    let j0: int = 0;
    assert(step(edges, any_edge(), false, p[j0], p[j0 + 1]));
    let i = choose|i: int| 0 <= i < edges.len() && any_edge()(i) && #[trigger] edge_leads(edges, false, i, p[0], p[1]);
    assert(edges[i] == (u, p[1]));
    let r = p.drop_first();
    assert forall|j: int| 0 <= j < r.len() - 1 implies #[trigger] step(edges, any_edge(), false, r[j], r[j + 1]) by {
        let j1 = j + 1;
        assert(step(edges, any_edge(), false, p[j1], p[j1 + 1]));
        assert(r[j] == p[j1] && r[j + 1] == p[j1 + 1]);
    }
}

/// Two distinct nodes that reach each other lie on a cycle.
pub proof fn lemma_mutual_pair_on_cycle(edges: Seq<(int, int)>, u: int, v: int)
    requires
        u != v,
        mutually_reachable(edges, u, v),
    ensures
        on_cycle(edges, u),
{
    let p = choose|p: Seq<int>| #[trigger] walk_between(edges, any_edge(), false, p, u, v);
    let q = choose|q: Seq<int>| #[trigger] walk_between(edges, any_edge(), false, q, v, u);
    assert(p.len() >= 2) by {
        if p.len() == 1 {
            assert(p[0] == p.last());
        }
    }
    lemma_walk_first_step(edges, p, u, v);
    let i = choose|i: int| 0 <= i < edges.len() && edges[i] == (u, p[1]);
    lemma_walk_concat(edges, any_edge(), false, p.drop_first(), q, p[1], v, u);
    let w = p.drop_first() + q.drop_first();
    assert(walk_between(edges, any_edge(), false, w, p[1], u));
    assert(reaches(edges, p[1], u));
    assert(edges[i].0 == u && edges[i].1 == p[1]);
    assert(reaches(edges, edges[i].1, u));
}

/// The position of `x` in `order`.
pub open spec fn position(order: Seq<int>, x: int) -> int {
    choose|a: int| 0 <= a < order.len() && order[a] == x
}

/// In a topological order an edge goes from an earlier to a later position.
proof fn lemma_edge_positions(edges: Seq<(int, int)>, n: nat, order: Seq<int>, i: int)
    requires
        is_topological_order(edges, n, order),
        0 <= i < edges.len(),
    ensures
        0 <= position(order, edges[i].0) < position(order, edges[i].1) < order.len(),
        order[position(order, edges[i].0)] == edges[i].0,
        order[position(order, edges[i].1)] == edges[i].1,
{
    assert(goes_forward(order, edges[i]));
    let (a, b) = choose|a: int, b: int|
        0 <= a < b < order.len() && #[trigger] order[a] == edges[i].0 && #[trigger] order[b] == edges[i].1;
    let pa = position(order, edges[i].0);
    let pb = position(order, edges[i].1);
    assert(order[pa] == order[a]);
    assert(order[pb] == order[b]);
}

/// Along a walk of at least two nodes the position in a topological order
/// strictly increases.
proof fn lemma_walk_positions(edges: Seq<(int, int)>, n: nat, order: Seq<int>, p: Seq<int>, u: int, v: int)
    requires
        is_topological_order(edges, n, order),
        walk_between(edges, any_edge(), false, p, u, v),
        p.len() >= 2,
    ensures
        0 <= position(order, u) < position(order, v) < order.len(),
        order[position(order, u)] == u,
    decreases p.len(),
{
    lemma_walk_first_step(edges, p, u, v);
    let i = choose|i: int| 0 <= i < edges.len() && edges[i] == (u, p[1]);
    lemma_edge_positions(edges, n, order, i);
    if p.len() > 2 {
        lemma_walk_positions(edges, n, order, p.drop_first(), p[1], v);
    } else {
        assert(p[1] == v);
    }
}

/// A graph with a topological order has no node on a cycle.
pub proof fn lemma_order_forbids_cycle(edges: Seq<(int, int)>, n: nat, order: Seq<int>, c: int)
    requires
        is_topological_order(edges, n, order),
    ensures
        !on_cycle(edges, c),
{
    if on_cycle(edges, c) {
        let i = choose|i: int| 0 <= i < edges.len() && #[trigger] edges[i].0 == c && reaches(edges, edges[i].1, c);
        lemma_edge_positions(edges, n, order, i);
        let q = choose|q: Seq<int>| #[trigger] walk_between(edges, any_edge(), false, q, edges[i].1, c);
        if q.len() >= 2 {
            lemma_walk_positions(edges, n, order, q, edges[i].1, c);
        } else {
            assert(q[0] == q.last());
        }
    }
}

/// Indices of the edges incident to `a` in the given direction among the
/// first `k` edges, most recently added first (the order in which `petgraph`
/// walks an adjacency list).
pub open spec fn incident_desc(edges: Seq<(int, int)>, a: int, incoming: bool, k: int) -> Seq<int>
    decreases k,
{
    if k <= 0 {
        Seq::empty()
    } else {
        let here = if incoming {
            edges[k - 1].1 == a
        } else {
            edges[k - 1].0 == a
        };
        if here {
            seq![k - 1] + incident_desc(edges, a, incoming, k - 1)
        } else {
            incident_desc(edges, a, incoming, k - 1)
        }
    }
}

/// Edge `e` touches `a` at its target (`incoming`) or its source.
pub open spec fn touches(edges: Seq<(int, int)>, a: int, incoming: bool, e: int) -> bool {
    if incoming {
        edges[e].1 == a
    } else {
        edges[e].0 == a
    }
}

/// The listed edges are the edges below `k` touching `a`, each once, in
/// decreasing index order.
pub proof fn lemma_incident_desc(edges: Seq<(int, int)>, a: int, incoming: bool, k: int)
    requires
        0 <= k <= edges.len(),
    ensures
        forall|m: int|
            0 <= m < incident_desc(edges, a, incoming, k).len() ==> 0 <= #[trigger] incident_desc(
                edges,
                a,
                incoming,
                k,
            )[m] < k && touches(edges, a, incoming, incident_desc(edges, a, incoming, k)[m]),
        forall|m1: int, m2: int|
            0 <= m1 < m2 < incident_desc(edges, a, incoming, k).len() ==> #[trigger] incident_desc(
                edges,
                a,
                incoming,
                k,
            )[m1] > #[trigger] incident_desc(edges, a, incoming, k)[m2],
        forall|e: int|
            0 <= e < k && touches(edges, a, incoming, e) ==> #[trigger] incident_desc(edges, a, incoming, k).contains(e),
    decreases k,
{
    if k > 0 {
        lemma_incident_desc(edges, a, incoming, k - 1);
        let prev = incident_desc(edges, a, incoming, k - 1);
        if touches(edges, a, incoming, k - 1) {
            let cur = seq![k - 1] + prev;
            assert(incident_desc(edges, a, incoming, k) == cur);
            assert forall|e: int| 0 <= e < k && touches(edges, a, incoming, e) implies #[trigger] cur.contains(e) by {
                if e == k - 1 {
                    assert(cur[0] == e);
                } else {
                    assert(prev.contains(e));
                    let m = choose|m: int| 0 <= m < prev.len() && prev[m] == e;
                    assert(cur[m + 1] == e);
                }
            }
        }
    }
}

/// The edges incident to `a` in the given direction, most recent first.
pub open spec fn incident_edges(edges: Seq<(int, int)>, a: int, incoming: bool) -> Seq<int> {
    incident_desc(edges, a, incoming, edges.len() as int)
}

// ---------------------------------------------------------------------------
// Trusted items over petgraph
// ---------------------------------------------------------------------------

/// Calls `DiGraph::new`: a graph with no nodes and no edges.
#[verifier::external_body]
pub(crate) fn topology_new() -> (g: DiGraph<(), ()>)
    ensures
        topology_node_count(g) == 0,
        topology_edges(g) == Seq::<(int, int)>::empty(),
{
    DiGraph::new()
}

/// Calls `Graph::add_node`: appends a node and returns its index, which is
/// the former node count. `petgraph` panics when the `u32` index space is
/// exhausted, which the precondition rules out.
#[verifier::external_body]
pub(crate) fn topology_add_node(g: &mut DiGraph<(), ()>) -> (idx: usize)
    requires
        topology_node_count(*old(g)) + 1 < index_limit(),
    ensures
        idx == topology_node_count(*old(g)),
        topology_node_count(*final(g)) == topology_node_count(*old(g)) + 1,
        topology_edges(*final(g)) == topology_edges(*old(g)),
{
    g.add_node(()).index()
}

/// Calls `Graph::add_edge`: appends the edge `a -> b` (parallel edges and
/// self-loops are allowed) and returns its index, the former edge count.
/// `petgraph` panics when an endpoint does not exist or the index space is
/// exhausted, which the precondition rules out.
#[verifier::external_body]
pub(crate) fn topology_add_edge(g: &mut DiGraph<(), ()>, a: usize, b: usize) -> (idx: usize)
    requires
        a < topology_node_count(*old(g)),
        b < topology_node_count(*old(g)),
        topology_edges(*old(g)).len() + 1 < index_limit(),
    ensures
        idx == topology_edges(*old(g)).len(),
        topology_node_count(*final(g)) == topology_node_count(*old(g)),
        topology_edges(*final(g)) == topology_edges(*old(g)).push((a as int, b as int)),
{
    g.add_edge(NodeIndex::new(a), NodeIndex::new(b), ()).index()
}

/// Calls `Graph::find_edge`: walks the outgoing list of `a` (most recent
/// edge first) and returns the first edge whose target is `b`, that is the
/// most recently added edge `a -> b`, or `None` when there is none.
#[verifier::external_body]
pub(crate) fn topology_find_edge(g: &DiGraph<(), ()>, a: usize, b: usize) -> (r: Option<usize>)
    requires
        a < topology_node_count(*g),
        b < topology_node_count(*g),
    ensures
        r is None <==> forall|i: int|
            0 <= i < topology_edges(*g).len() ==> topology_edges(*g)[i] != (a as int, b as int),
        r matches Some(i) ==> {
            &&& i < topology_edges(*g).len()
            &&& topology_edges(*g)[i as int] == (a as int, b as int)
            &&& forall|j: int|
                i < j < topology_edges(*g).len() ==> topology_edges(*g)[j] != (a as int, b as int)
        },
{
    g.find_edge(NodeIndex::new(a), NodeIndex::new(b)).map(|e| e.index())
}

/// Calls `Graph::edges_directed` on a directed graph and collects the edge
/// indices: the edges leaving `a` (or, with `incoming`, entering `a`), most
/// recently added first, as the adjacency lists of `petgraph` hold them.
#[verifier::external_body]
pub(crate) fn topology_edges_directed(g: &DiGraph<(), ()>, a: usize, incoming: bool) -> (r: Vec<usize>)
    requires
        a < topology_node_count(*g),
    ensures
        r@.map_values(|e: usize| e as int) == incident_edges(topology_edges(*g), a as int, incoming),
{
    let dir = if incoming { Direction::Incoming } else { Direction::Outgoing };
    g.edges_directed(NodeIndex::new(a), dir).map(|e| petgraph::visit::EdgeRef::id(&e).index()).collect()
}

/// Calls `petgraph::algo::kosaraju_scc`: the strongly connected components,
/// each node in exactly one of them. The order of the components and of the
/// nodes inside each is not stated.
#[verifier::external_body]
pub(crate) fn topology_kosaraju_scc(g: &DiGraph<(), ()>) -> (comps: Vec<Vec<usize>>)
    requires
        topology_wf(*g),
    ensures
        is_scc_partition(
            topology_edges(*g),
            topology_node_count(*g),
            comps@.map_values(|c: Vec<usize>| c@.map_values(|v: usize| v as int)),
        ),
{
    petgraph::algo::kosaraju_scc(g).into_iter().map(|c| c.into_iter().map(|n| n.index()).collect()).collect()
}

/// Calls `petgraph::algo::toposort`: on success every node once, each edge
/// pointing forward; on failure a node that lies on a cycle (a self-loop
/// counts as a cycle).
#[verifier::external_body]
pub(crate) fn topology_toposort(g: &DiGraph<(), ()>) -> (r: Result<Vec<usize>, usize>)
    requires
        topology_wf(*g),
    ensures
        r matches Ok(order) ==> is_topological_order(
            topology_edges(*g),
            topology_node_count(*g),
            order@.map_values(|v: usize| v as int),
        ),
        r matches Err(c) ==> c < topology_node_count(*g) && on_cycle(topology_edges(*g), c as int),
{
    match petgraph::algo::toposort(g, None) {
        Ok(order) => Ok(order.into_iter().map(|n| n.index()).collect()),
        Err(cycle) => Err(cycle.node_id().index()),
    }
}

/// Runs `petgraph::visit::Bfs` from `start` to the end and collects the
/// visited nodes: `start` first, every node reachable from it exactly once.
#[verifier::external_body]
pub(crate) fn topology_bfs(g: &DiGraph<(), ()>, start: usize) -> (r: Vec<usize>)
    requires
        topology_wf(*g),
        start < topology_node_count(*g),
    ensures
        r.len() >= 1,
        r[0] == start,
        forall|i: int, j: int| 0 <= i < j < r.len() ==> r[i] != r[j],
        forall|v: int|
            0 <= v < topology_node_count(*g) ==> (reaches(topology_edges(*g), start as int, v)
                <==> exists|i: int| 0 <= i < r.len() && r[i] as int == v),
        forall|i: int| 0 <= i < r.len() ==> r[i] < topology_node_count(*g),
{
    let mut bfs = Bfs::new(g, NodeIndex::new(start));
    let mut out = Vec::new();
    while let Some(n) = bfs.next(g) {
        out.push(n.index());
    }
    out
}

/// Calls `DiGraph::node_count`.
#[verifier::external_body]
pub(crate) fn topology_node_count_exec(g: &DiGraph<(), ()>) -> (n: usize)
    ensures
        n == topology_node_count(*g),
{
    g.node_count()
}

/// Calls `DiGraph::edge_count`.
#[verifier::external_body]
pub(crate) fn topology_edge_count_exec(g: &DiGraph<(), ()>) -> (n: usize)
    ensures
        n == topology_edges(*g).len(),
{
    g.edge_count()
}

/// Reads the endpoints of edge `e` with `Graph::edge_endpoints`.
#[verifier::external_body]
pub(crate) fn topology_edge_endpoints(g: &DiGraph<(), ()>, e: usize) -> (r: (usize, usize))
    requires
        e < topology_edges(*g).len(),
    ensures
        r.0 as int == topology_edges(*g)[e as int].0,
        r.1 as int == topology_edges(*g)[e as int].1,
{
    let (a, b) = g.edge_endpoints(EdgeIndex::new(e)).unwrap();
    (a.index(), b.index())
}

} // verus!
