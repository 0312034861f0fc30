//! The breadth-first trace of call chains: what a trace records, and the
//! facts its construction keeps from step to step.
//!
//! The start node sits at depth 0 and is marked as seen from the outset, so
//! it is never listed. When the bound allows a first level, its direct
//! neighbours are listed at depth 1; then nodes are taken in queue order, a
//! node whose depth is below the bound is expanded, and each neighbour not
//! seen before joins the queue one level deeper. No node is listed twice.
use vstd::prelude::*;

use petgraph::graph::DiGraph;

use crate::graph::topology::{
    any_edge, incident_edges, lemma_incident_desc, lemma_reach_one, lemma_reach_pred, lemma_step_bounds, lemma_touch_step,
    near, other_end, reach_len, step, topology_edge_endpoints, topology_edges, topology_edges_directed,
    topology_node_count, topology_node_count_exec, topology_wf, touches,
};

verus! {

/// The depth bound of a trace: the start node is at depth 0 and no listed
/// node lies deeper than `max_depth`.
pub open spec fn depth_bound(max_depth: int) -> int {
    max_depth
}

/// The edge list's endpoints are nodes below `n`.
pub open spec fn edges_within(edges: Seq<(int, int)>, n: int) -> bool {
    forall|i: int| 0 <= i < edges.len() ==> 0 <= #[trigger] edges[i].0 < n && 0 <= edges[i].1 < n
}

/// Entry `k` of a trace: node `ord[k]` at depth `dep[k]`, reached from
/// `par[k]`. It is not the start node, its depth is its distance from `s`,
/// and the parent is one step before it and one level up.
pub open spec fn bfs_entry(
    edges: Seq<(int, int)>,
    incoming: bool,
    s: int,
    n: int,
    max_depth: int,
    ord: Seq<usize>,
    dep: Seq<usize>,
    par: Seq<usize>,
    k: int,
) -> bool {
    &&& ord[k] < n
    &&& ord[k] != s
    &&& par[k] < n
    &&& 1 <= dep[k] <= depth_bound(max_depth)
    &&& (dep[k] >= 2 ==> dep[k] - 1 < max_depth)
    &&& reach_len(edges, incoming, s, ord[k] as int, dep[k] as int)
    &&& !near(edges, incoming, s, ord[k] as int, dep[k] - 1)
    &&& step(edges, any_edge(), incoming, par[k] as int, ord[k] as int)
    &&& (dep[k] == 1 ==> par[k] == s)
    &&& (dep[k] > 1 ==> exists|k2: int| 0 <= k2 < k && #[trigger] ord[k2] == par[k] && dep[k2] + 1 == dep[k])
}

/// Every entry is sound, depths never decrease, and no node is listed
/// twice.
pub open spec fn bfs_core(
    edges: Seq<(int, int)>,
    incoming: bool,
    s: int,
    n: int,
    max_depth: int,
    ord: Seq<usize>,
    dep: Seq<usize>,
    par: Seq<usize>,
) -> bool {
    &&& ord.len() == dep.len()
    &&& ord.len() == par.len()
    &&& forall|k: int| 0 <= k < ord.len() ==> #[trigger] bfs_entry(edges, incoming, s, n, max_depth, ord, dep, par, k)
    &&& forall|a: int, b: int| 0 <= a <= b < ord.len() ==> #[trigger] dep[a] <= #[trigger] dep[b]
    &&& forall|a: int, b: int| 0 <= a < b < ord.len() ==> #[trigger] ord[a] != #[trigger] ord[b]
}

/// `vis` marks exactly the start node and the listed nodes.
pub open spec fn bfs_visited(s: int, n: int, ord: Seq<usize>, vis: Seq<bool>) -> bool {
    &&& vis.len() == n
    &&& 0 <= s < n
    &&& forall|v: int| 0 <= v < n ==> (#[trigger] vis[v] <==> (v == s || exists|k: int| 0 <= k < ord.len() && ord[k] == v))
}

/// The neighbours of the start node (when the bound allows a first level),
/// and of every entry before `h` whose depth is below the bound, are
/// marked.
pub open spec fn bfs_expanded(
    edges: Seq<(int, int)>,
    incoming: bool,
    s: int,
    n: int,
    max_depth: int,
    ord: Seq<usize>,
    dep: Seq<usize>,
    vis: Seq<bool>,
    h: int,
) -> bool {
    &&& max_depth >= 1 ==> forall|w: int| #[trigger] step(edges, any_edge(), incoming, s, w) ==> 0 <= w < n && vis[w]
    &&& forall|k: int, w: int|
        0 <= k < h && dep[k] < max_depth && #[trigger] step(edges, any_edge(), incoming, ord[k] as int, w) ==> 0 <= w < n
            && vis[w]
}

/// While entries remain, the queue spans at most two levels and every node
/// within the head's depth is marked.
pub open spec fn bfs_frontier(
    edges: Seq<(int, int)>,
    incoming: bool,
    s: int,
    n: int,
    ord: Seq<usize>,
    dep: Seq<usize>,
    vis: Seq<bool>,
    h: int,
) -> bool {
    h < ord.len() ==> {
        &&& dep[ord.len() - 1] <= dep[h] + 1
        &&& forall|v: int| 0 <= v < n && #[trigger] near(edges, incoming, s, v, dep[h] as int) ==> vis[v]
    }
}

/// A neighbour reached within `j` steps and listed has depth at most `j`.
proof fn lemma_listed_depth(
    edges: Seq<(int, int)>,
    incoming: bool,
    s: int,
    n: int,
    max_depth: int,
    ord: Seq<usize>,
    dep: Seq<usize>,
    par: Seq<usize>,
    k: int,
    j: int,
)
    requires
        bfs_core(edges, incoming, s, n, max_depth, ord, dep, par),
        0 <= k < ord.len(),
        1 <= j,
        reach_len(edges, incoming, s, ord[k] as int, j),
    ensures
        dep[k] <= j,
{
    assert(bfs_entry(edges, incoming, s, n, max_depth, ord, dep, par, k));
    if dep[k] > j {
        assert(near(edges, incoming, s, ord[k] as int, dep[k] - 1));
    }
}

/// Appending a fresh neighbour of the head keeps every fact.
pub proof fn lemma_bfs_push(
    edges: Seq<(int, int)>,
    incoming: bool,
    s: int,
    n: int,
    max_depth: int,
    ord: Seq<usize>,
    dep: Seq<usize>,
    par: Seq<usize>,
    vis: Seq<bool>,
    h: int,
    other: usize,
)
    requires
        edges_within(edges, n),
        bfs_core(edges, incoming, s, n, max_depth, ord, dep, par),
        bfs_visited(s, n, ord, vis),
        bfs_expanded(edges, incoming, s, n, max_depth, ord, dep, vis, h),
        bfs_frontier(edges, incoming, s, n, ord, dep, vis, h),
        0 <= h < ord.len(),
        dep[h] < max_depth,
        max_depth <= usize::MAX,
        other < n,
        !vis[other as int],
        step(edges, any_edge(), incoming, ord[h] as int, other as int),
    ensures
        bfs_core(
            edges,
            incoming,
            s,
            n,
            max_depth,
            ord.push(other),
            dep.push((dep[h] + 1) as usize),
            par.push(ord[h]),
        ),
        bfs_visited(s, n, ord.push(other), vis.update(other as int, true)),
        bfs_expanded(edges, incoming, s, n, max_depth, ord.push(other), dep.push((dep[h] + 1) as usize), vis.update(other as int, true), h),
        bfs_frontier(edges, incoming, s, n, ord.push(other), dep.push((dep[h] + 1) as usize), vis.update(other as int, true), h),
{
    let d = dep[h];
    let ord2 = ord.push(other);
    let dep2 = dep.push((d + 1) as usize);
    let par2 = par.push(ord[h]);
    let vis2 = vis.update(other as int, true);
    let len = ord.len() as int;
    assert(bfs_entry(edges, incoming, s, n, max_depth, ord, dep, par, h));
    // the new entry is sound
    crate::graph::topology::lemma_reach_extend(edges, incoming, s, ord[h] as int, other as int, d as int);
    assert(!near(edges, incoming, s, other as int, d as int)) by {
        if near(edges, incoming, s, other as int, d as int) {
            assert(vis[other as int]);
        }
    }
    assert(ord2[h] == par2[len]);
    assert(bfs_entry(edges, incoming, s, n, max_depth, ord2, dep2, par2, len)) by {
        assert(ord2[len] == other && dep2[len] == d + 1 && par2[len] == ord[h]);
        assert(other as int != s) by {
            if other as int == s {
                assert(vis[s]);
            }
        }
    }
    assert forall|k: int| 0 <= k < ord2.len() implies #[trigger] bfs_entry(edges, incoming, s, n, max_depth, ord2, dep2, par2, k) by {
        if k < len {
            assert(bfs_entry(edges, incoming, s, n, max_depth, ord, dep, par, k));
            assert(ord2[k] == ord[k] && dep2[k] == dep[k] && par2[k] == par[k]);
            if dep[k] > 1 {
                let k2 = choose|k2: int| 0 <= k2 < k && #[trigger] ord[k2] == par[k] && dep[k2] + 1 == dep[k];
                assert(ord2[k2] == ord[k2]);
            }
        }
    }
    assert forall|a: int, b: int| 0 <= a <= b < ord2.len() implies #[trigger] dep2[a] <= #[trigger] dep2[b] by {
        if b == len {
            if a < len {
                assert(dep[a] <= dep[len - 1]);
            }
        } else {
            assert(dep[a] <= dep[b]);
        }
    }
    assert forall|a: int, b: int| 0 <= a < b < ord2.len() implies #[trigger] ord2[a] != #[trigger] ord2[b] by {
        if b == len {
            if ord[a] == other {
                assert(vis[other as int]);
            }
        } else {
            assert(ord[a] != ord[b]);
        }
    }
    assert(other as int != s) by {
        if other as int == s {
            assert(vis[s]);
        }
    }
    assert forall|v: int| 0 <= v < n implies (#[trigger] vis2[v] <==> (v == s || exists|k: int| 0 <= k < ord2.len() && ord2[k] == v)) by {
        if v == other {
            assert(ord2[len] == v);
        } else if v == s {
        } else {
            if vis[v] {
                let k = choose|k: int| 0 <= k < ord.len() && ord[k] == v;
                assert(ord2[k] == v);
            }
            if exists|k: int| 0 <= k < ord2.len() && ord2[k] == v {
                let k = choose|k: int| 0 <= k < ord2.len() && ord2[k] == v;
                assert(ord[k] == v);
            }
        }
    }
    assert forall|k: int, w: int|
        0 <= k < h && dep2[k] < max_depth && #[trigger] step(edges, any_edge(), incoming, ord2[k] as int, w) implies 0 <= w < n
            && vis2[w] by {
        assert(ord2[k] == ord[k] && dep2[k] == dep[k]);
        assert(step(edges, any_edge(), incoming, ord[k] as int, w));
    }
    assert(max_depth >= 1 ==> forall|w: int| #[trigger] step(edges, any_edge(), incoming, s, w) ==> 0 <= w < n && vis2[w]) by {
        if max_depth >= 1 {
            assert forall|w: int| #[trigger] step(edges, any_edge(), incoming, s, w) implies 0 <= w < n && vis2[w] by {
                assert(vis[w]);
            }
        }
    }
    assert(dep2[ord2.len() - 1] <= dep2[h] + 1);
    assert forall|v: int| 0 <= v < n && #[trigger] near(edges, incoming, s, v, dep2[h] as int) implies vis2[v] by {
        assert(vis[v]);
    }
}

/// Moving the head past an expanded entry keeps the frontier facts.
pub proof fn lemma_bfs_advance(
    edges: Seq<(int, int)>,
    incoming: bool,
    s: int,
    n: int,
    max_depth: int,
    ord: Seq<usize>,
    dep: Seq<usize>,
    par: Seq<usize>,
    vis: Seq<bool>,
    h: int,
)
    requires
        edges_within(edges, n),
        bfs_core(edges, incoming, s, n, max_depth, ord, dep, par),
        bfs_visited(s, n, ord, vis),
        bfs_expanded(edges, incoming, s, n, max_depth, ord, dep, vis, h + 1),
        bfs_frontier(edges, incoming, s, n, ord, dep, vis, h),
        0 <= h < ord.len(),
    ensures
        bfs_frontier(edges, incoming, s, n, ord, dep, vis, h + 1),
{
    if h + 1 < ord.len() {
        let d = dep[h];
        assert(bfs_entry(edges, incoming, s, n, max_depth, ord, dep, par, h));
        assert(dep[h] <= dep[h + 1]);
        assert(dep[h + 1] <= dep[ord.len() - 1]);
        if dep[h + 1] == d + 1 {
            assert(bfs_entry(edges, incoming, s, n, max_depth, ord, dep, par, h + 1));
            assert forall|v: int| 0 <= v < n && #[trigger] near(edges, incoming, s, v, dep[h + 1] as int) implies vis[v] by {
                let j = choose|j: int| 1 <= j <= d + 1 && #[trigger] reach_len(edges, incoming, s, v, j);
                if j <= d {
                    assert(near(edges, incoming, s, v, d as int));
                } else {
                    let w = lemma_reach_pred(edges, incoming, s, v, j);
                    lemma_step_bounds(edges, n as nat, incoming, w, v);
                    assert(j - 1 == d);
                    assert(reach_len(edges, incoming, s, w, d as int));
                    assert(near(edges, incoming, s, w, d as int));
                    assert(vis[w]);
                    if w == s {
                        assert(max_depth >= 1);
                        assert(step(edges, any_edge(), incoming, s, v));
                    } else {
                        let k = choose|k: int| 0 <= k < ord.len() && ord[k] == w;
                        lemma_listed_depth(edges, incoming, s, n, max_depth, ord, dep, par, k, d as int);
                        if k > h {
                            assert(dep[h + 1] <= dep[k]);
                        }
                        assert(step(edges, any_edge(), incoming, ord[k] as int, v));
                    }
                }
            }
        } else {
            assert(dep[h + 1] == d);
            assert forall|v: int| 0 <= v < n && #[trigger] near(edges, incoming, s, v, dep[h + 1] as int) implies vis[v] by {
                assert(near(edges, incoming, s, v, dep[h] as int));
            }
        }
    }
}

/// Once every entry is expanded, every node within the depth bound is
/// marked: it is the start node or listed.
pub proof fn lemma_bfs_complete(
    edges: Seq<(int, int)>,
    incoming: bool,
    s: int,
    n: int,
    max_depth: int,
    ord: Seq<usize>,
    dep: Seq<usize>,
    par: Seq<usize>,
    vis: Seq<bool>,
    v: int,
    j: int,
)
    requires
        edges_within(edges, n),
        bfs_core(edges, incoming, s, n, max_depth, ord, dep, par),
        bfs_visited(s, n, ord, vis),
        bfs_expanded(edges, incoming, s, n, max_depth, ord, dep, vis, ord.len() as int),
        1 <= j <= depth_bound(max_depth),
        reach_len(edges, incoming, s, v, j),
    ensures
        0 <= v < n,
        vis[v],
    decreases j,
{
    let w = lemma_reach_pred(edges, incoming, s, v, j);
    lemma_step_bounds(edges, n as nat, incoming, w, v);
    if j == 1 {
        crate::graph::topology::lemma_reach_zero_only(edges, incoming, s, w);
        assert(step(edges, any_edge(), incoming, s, v));
    } else {
        lemma_bfs_complete(edges, incoming, s, n, max_depth, ord, dep, par, vis, w, j - 1);
        if w == s {
            assert(step(edges, any_edge(), incoming, s, v));
        } else {
            let k = choose|k: int| 0 <= k < ord.len() && ord[k] == w;
            lemma_listed_depth(edges, incoming, s, n, max_depth, ord, dep, par, k, j - 1);
            assert(step(edges, any_edge(), incoming, ord[k] as int, v));
        }
    }
}

/// `v` is one of the listed nodes.
pub open spec fn listed(ord: Seq<usize>, v: int) -> bool {
    exists|k: int| 0 <= k < ord.len() && ord[k] == v
}

/// The incident edges of node `i` in the given direction.
fn incident_of(g: &DiGraph<(), ()>, i: usize, incoming: bool) -> (r: Vec<usize>)
    requires
        topology_wf(*g),
        i < topology_node_count(*g),
    ensures
        r@.map_values(|e: usize| e as int) == incident_edges(topology_edges(*g), i as int, incoming),
        forall|m: int| 0 <= m < r.len() ==> #[trigger] r@[m] < topology_edges(*g).len()
            && touches(topology_edges(*g), i as int, incoming, r@[m] as int),
{
    let es = topology_edges_directed(g, i, incoming);
    proof {
        lemma_incident_desc(topology_edges(*g), i as int, incoming, topology_edges(*g).len() as int);
        assert forall|m: int| 0 <= m < es.len() implies #[trigger] es@[m] < topology_edges(*g).len()
            && touches(topology_edges(*g), i as int, incoming, es@[m] as int) by {
            assert(incident_edges(topology_edges(*g), i as int, incoming)[m] == es@[m] as int);
        }
    }
    es
}

/// The breadth-first levels of the topology from `start`, towards
/// predecessors (`incoming`) or successors, down to `max_depth`: the nodes
/// listed (never `start`), the depth of each and the node it was reached
/// from. Every other node within `max_depth` steps is listed, and every
/// listed node above the bound has all its neighbours listed or is next to
/// `start`.
#[verifier::rlimit(60)]
pub fn bfs_levels(g: &DiGraph<(), ()>, start: usize, max_depth: usize, incoming: bool) -> (r: (Vec<usize>, Vec<usize>, Vec<usize>))
    requires
        topology_wf(*g),
        start < topology_node_count(*g),
    ensures
        bfs_core(topology_edges(*g), incoming, start as int, topology_node_count(*g) as int, max_depth as int, r.0@, r.1@, r.2@),
        forall|v: int|
            0 <= v < topology_node_count(*g) && v != start && #[trigger] near(topology_edges(*g), incoming, start as int, v, depth_bound(max_depth as int))
                ==> listed(r.0@, v),
        max_depth >= 1 ==> forall|w: int|
            #[trigger] step(topology_edges(*g), any_edge(), incoming, start as int, w) ==> w == start || listed(r.0@, w),
        forall|k: int, w: int|
            0 <= k < r.0@.len() && r.1@[k] < max_depth && #[trigger] step(topology_edges(*g), any_edge(), incoming, r.0@[k] as int, w)
                ==> w == start || listed(r.0@, w),
{
        let ghost edges = topology_edges(*g);
        let ghost s = start as int;
        let ghost md = max_depth as int;
        let n = topology_node_count_exec(g);
        let ghost nn = n as int;
        proof {
            assert(edges_within(edges, nn));
        }
        let mut visited: Vec<bool> = Vec::new();
        let mut i: usize = 0;
        while i < n
            invariant
                i <= n,
                visited.len() == i,
                forall|v: int| 0 <= v < i ==> !#[trigger] visited@[v],
            decreases n - i,
        {
            visited.push(false);
            i = i + 1;
        }
        visited.set(start, true);
        let mut order: Vec<usize> = Vec::new();
        let mut dep: Vec<usize> = Vec::new();
        let mut par: Vec<usize> = Vec::new();
        let ghost mut marked: Set<int> = Set::empty();
        let first = if max_depth >= 1 {
            incident_of(g, start, incoming)
        } else {
            Vec::new()
        };
        let ghost inc0 = incident_edges(edges, s, incoming);
        proof {
            lemma_incident_desc(edges, s, incoming, edges.len() as int);
            if max_depth < 1 {
                assert(first@.map_values(|e: usize| e as int) =~= Seq::<int>::empty());
            }
        }
        let mut j: usize = 0;
        while j < first.len()
            invariant
                topology_wf(*g),
                n == topology_node_count(*g),
                edges == topology_edges(*g),
                nn == n,
                edges_within(edges, nn),
                start < n,
                s == start,
                j <= first.len(),
                max_depth >= 1 ==> first@.map_values(|e: usize| e as int) == inc0,
                max_depth < 1 ==> first.len() == 0,
                max_depth < 1 ==> order.len() == 0,
                forall|m: int| 0 <= m < first.len() ==> #[trigger] first@[m] < edges.len() && touches(edges, s, incoming, first@[m] as int),
                visited.len() == n,
                order.len() == dep.len(),
                order.len() == par.len(),
                forall|k: int| 0 <= k < order.len() ==> #[trigger] order@[k] < n && order@[k] != start
                    && step(edges, any_edge(), incoming, s, order@[k] as int),
                forall|k: int| 0 <= k < order.len() ==> #[trigger] dep@[k] == 1,
                forall|k: int| 0 <= k < order.len() ==> #[trigger] par@[k] == start,
                forall|a: int, b: int| 0 <= a < b < order.len() ==> #[trigger] order@[a] != #[trigger] order@[b],
                forall|v: int| 0 <= v < n ==> (#[trigger] visited@[v] <==> (v == start || exists|k: int| 0 <= k < order.len() && order@[k] == v)),
                forall|m: int| 0 <= m < j ==> visited@[#[trigger] other_end(edges, incoming, first@[m] as int)],
                marked.finite(),
                marked.len() == order.len(),
                forall|x: int| #[trigger] marked.contains(x) <==> (exists|k: int| 0 <= k < order.len() && order@[k] == x),
            decreases first.len() - j,
        {
            let e = first[j];
            let ends = topology_edge_endpoints(g, e);
            proof {
                assert(0 <= edges[e as int].0 < nn && 0 <= edges[e as int].1 < nn);
            }
            let other = if incoming { ends.0 } else { ends.1 };
            proof {
                assert(other as int == other_end(edges, incoming, e as int));
            }
            if !visited[other] {
                let ghost vis_before = visited@;
                let ghost ord_before = order@;
                proof {
                    lemma_touch_step(edges, incoming, s, other as int);
                    assert(!marked.contains(other as int));
                }
                visited.set(other, true);
                order.push(other);
                dep.push(1);
                par.push(start);
                proof {
                    marked = marked.insert(other as int);
                    assert forall|v: int| 0 <= v < n implies (#[trigger] visited@[v] <==> (v == start || exists|k: int| 0 <= k < order.len() && order@[k] == v)) by {
                        if v == other {
                            assert(order@[order.len() - 1] == v);
                        } else if v == start {
                        } else {
                            if vis_before[v] {
                                let k = choose|k: int| 0 <= k < ord_before.len() && ord_before[k] == v;
                                assert(order@[k] == v);
                            }
                            if exists|k: int| 0 <= k < order.len() && order@[k] == v {
                                let k = choose|k: int| 0 <= k < order.len() && order@[k] == v;
                                assert(ord_before[k] == v);
                            }
                        }
                    }
                    assert forall|a: int, b: int| 0 <= a < b < order.len() implies #[trigger] order@[a] != #[trigger] order@[b] by {
                        if b == order.len() - 1 {
                            if order@[a] == other {
                                assert(ord_before[a] == other);
                                assert(vis_before[other as int]);
                            }
                        } else {
                            assert(ord_before[a] != ord_before[b]);
                        }
                    }
                    assert forall|x: int| #[trigger] marked.contains(x) <==> (exists|k: int| 0 <= k < order.len() && order@[k] == x) by {
                        if x == other {
                            assert(order@[order.len() - 1] == x);
                        } else {
                            if exists|k: int| 0 <= k < ord_before.len() && ord_before[k] == x {
                                let k = choose|k: int| 0 <= k < ord_before.len() && ord_before[k] == x;
                                assert(order@[k] == x);
                            }
                            if exists|k: int| 0 <= k < order.len() && order@[k] == x {
                                let k = choose|k: int| 0 <= k < order.len() && order@[k] == x;
                                assert(ord_before[k] == x);
                            }
                        }
                    }
                    assert forall|k: int| 0 <= k < order.len() implies #[trigger] order@[k] < n && order@[k] != start
                        && step(edges, any_edge(), incoming, s, order@[k] as int) by {
                        if k < ord_before.len() {
                            assert(order@[k] == ord_before[k]);
                        }
                    }
                }
            }
            j = j + 1;
        }
        proof {
            assert forall|k: int| 0 <= k < order.len() implies #[trigger] bfs_entry(edges, incoming, s, nn, md, order@, dep@, par@, k) by {
                lemma_reach_one(edges, incoming, s, order@[k] as int);
                crate::graph::topology::lemma_step_bounds(edges, nn as nat, incoming, s, order@[k] as int);
            }
            assert forall|a: int, b: int| 0 <= a <= b < order@.len() implies #[trigger] dep@[a] <= #[trigger] dep@[b] by {
                assert(dep@[a] == 1);
                assert(dep@[b] == 1);
            }
            assert(bfs_core(edges, incoming, s, nn, md, order@, dep@, par@));
            if md >= 1 {
                assert forall|w: int| #[trigger] step(edges, any_edge(), incoming, s, w) implies 0 <= w < nn && visited@[w] by {
                    lemma_touch_step(edges, incoming, s, w);
                    crate::graph::topology::lemma_step_bounds(edges, nn as nat, incoming, s, w);
                    let e = choose|e: int| 0 <= e < edges.len() && touches(edges, s, incoming, e) && #[trigger] other_end(edges, incoming, e) == w;
                    assert(inc0.contains(e));
                    let m = choose|m: int| 0 <= m < inc0.len() && inc0[m] == e;
                    assert(first@[m] as int == e);
                    assert(visited@[other_end(edges, incoming, first@[m] as int)]);
                }
            }
            assert(bfs_expanded(edges, incoming, s, nn, md, order@, dep@, visited@, 0));
            assert(bfs_visited(s, nn, order@, visited@));
            if order.len() > 0 {
                assert forall|v: int| 0 <= v < nn && #[trigger] near(edges, incoming, s, v, 1) implies visited@[v] by {
                    let w = crate::graph::topology::lemma_reach_pred(edges, incoming, s, v, 1);
                    crate::graph::topology::lemma_reach_zero_only(edges, incoming, s, w);
                }
                assert(dep@[order.len() - 1] == 1);
                assert(dep@[0] == 1);
            }
            assert(bfs_frontier(edges, incoming, s, nn, order@, dep@, visited@, 0));
            assert forall|x: int| #[trigger] marked.contains(x) implies 0 <= x < n && visited@[x] by {
                let k = choose|k: int| 0 <= k < order.len() && order@[k] == x;
            }
            assert forall|x: int| #[trigger] marked.contains(x) implies vstd::set_lib::set_int_range(0, nn).contains(x) by {
                let k = choose|k: int| 0 <= k < order.len() && order@[k] == x;
            }
            vstd::set_lib::lemma_int_range(0, nn);
            vstd::set_lib::lemma_len_subset(marked, vstd::set_lib::set_int_range(0, nn));
        }
        let mut h: usize = 0;
        while h < order.len()
            invariant
                topology_wf(*g),
                n == topology_node_count(*g),
                edges == topology_edges(*g),
                nn == n,
                md == max_depth,
                edges_within(edges, nn),
                s == start,
                start < n,
                h <= order.len(),
                bfs_core(edges, incoming, s, nn, md, order@, dep@, par@),
                bfs_visited(s, nn, order@, visited@),
                bfs_expanded(edges, incoming, s, nn, md, order@, dep@, visited@, h as int),
                bfs_frontier(edges, incoming, s, nn, order@, dep@, visited@, h as int),
                marked.finite(),
                marked.len() == order.len(),
                marked.len() <= n,
                forall|x: int| #[trigger] marked.contains(x) ==> 0 <= x < n && visited@[x],
            decreases (n - marked.len()) + (order.len() - h),
        {
            proof {
                assert(bfs_entry(edges, incoming, s, nn, md, order@, dep@, par@, h as int));
            }
            let cur = order[h];
            let d = dep[h];
            if d < max_depth {
                let next = incident_of(g, cur, incoming);
                let ghost incc = incident_edges(edges, cur as int, incoming);
                proof {
                    lemma_incident_desc(edges, cur as int, incoming, edges.len() as int);
                }
                let mut j: usize = 0;
                while j < next.len()
                    invariant
                        topology_wf(*g),
                        n == topology_node_count(*g),
                        edges == topology_edges(*g),
                        nn == n,
                        md == max_depth,
                        edges_within(edges, nn),
                        s == start,
                        h < order.len(),
                        cur == order@[h as int],
                        d == dep@[h as int],
                        d < max_depth,
                        j <= next.len(),
                        next@.map_values(|e: usize| e as int) == incc,
                        forall|m: int| 0 <= m < next.len() ==> #[trigger] next@[m] < edges.len() && touches(edges, cur as int, incoming, next@[m] as int),
                        forall|m: int| 0 <= m < j ==> visited@[#[trigger] other_end(edges, incoming, next@[m] as int)],
                        bfs_core(edges, incoming, s, nn, md, order@, dep@, par@),
                        bfs_visited(s, nn, order@, visited@),
                        bfs_expanded(edges, incoming, s, nn, md, order@, dep@, visited@, h as int),
                        bfs_frontier(edges, incoming, s, nn, order@, dep@, visited@, h as int),
                        marked.finite(),
                        marked.len() == order.len(),
                        marked.len() <= n,
                        forall|x: int| #[trigger] marked.contains(x) ==> 0 <= x < n && visited@[x],
                    decreases next.len() - j,
                {
                    let e = next[j];
                    let ends = topology_edge_endpoints(g, e);
                    proof {
                        assert(0 <= edges[e as int].0 < nn && 0 <= edges[e as int].1 < nn);
                    }
                    let other = if incoming { ends.0 } else { ends.1 };
                    proof {
                        assert(other as int == other_end(edges, incoming, e as int));
                    }
                    if !visited[other] {
                        proof {
                            lemma_touch_step(edges, incoming, cur as int, other as int);
                            lemma_bfs_push(edges, incoming, s, nn, md, order@, dep@, par@, visited@, h as int, other);
                            assert(!marked.contains(other as int));
                            assert forall|x: int| #[trigger] marked.insert(other as int).contains(x) implies vstd::set_lib::set_int_range(0, nn).contains(x) by {
                                if x != other {
                                    assert(marked.contains(x));
                                }
                            }
                            vstd::set_lib::lemma_int_range(0, nn);
                            vstd::set_lib::lemma_len_subset(marked.insert(other as int), vstd::set_lib::set_int_range(0, nn));
                        }
                        let ghost o0 = order@;
                        let ghost d0 = dep@;
                        let ghost p0 = par@;
                        visited.set(other, true);
                        order.push(other);
                        dep.push(d + 1);
                        par.push(cur);
                        proof {
                            assert forall|k: int| 0 <= k < h + 1 implies order@[k] == o0[k] && dep@[k] == d0[k] && par@[k] == p0[k] by {}
                            marked = marked.insert(other as int);
                            assert(vstd::set_lib::set_int_range(0, nn).len() == nn);
                        }
                    }
                    j = j + 1;
                }
                proof {
                    assert forall|w: int| #[trigger] step(edges, any_edge(), incoming, cur as int, w) implies 0 <= w < nn && visited@[w] by {
                        lemma_touch_step(edges, incoming, cur as int, w);
                        crate::graph::topology::lemma_step_bounds(edges, nn as nat, incoming, cur as int, w);
                        let e = choose|e: int| 0 <= e < edges.len() && touches(edges, cur as int, incoming, e) && #[trigger] other_end(edges, incoming, e) == w;
                        assert(incc.contains(e));
                        let m = choose|m: int| 0 <= m < incc.len() && incc[m] == e;
                        assert(next@[m] as int == e);
                    }
                }
            }
            proof {
                assert forall|k: int, w: int|
                    0 <= k < h + 1 && dep@[k] < md && #[trigger] step(edges, any_edge(), incoming, order@[k] as int, w) implies 0 <= w < nn
                        && visited@[w] by {
                    if k < h {
                    }
                }
                assert(bfs_expanded(edges, incoming, s, nn, md, order@, dep@, visited@, h + 1));
                lemma_bfs_advance(edges, incoming, s, nn, md, order@, dep@, par@, visited@, h as int);
            }
            h = h + 1;
        }
        proof {
            assert forall|v: int|
                0 <= v < nn && v != s && #[trigger] near(edges, incoming, s, v, depth_bound(md)) implies exists|k: int|
                    0 <= k < order@.len() && order@[k] == v by {
                let jj = choose|jj: int| 1 <= jj <= depth_bound(md) && #[trigger] crate::graph::topology::reach_len(edges, incoming, s, v, jj);
                lemma_bfs_complete(edges, incoming, s, nn, md, order@, dep@, par@, visited@, v, jj);
                assert(visited@[v]);
            }
            assert(edges == topology_edges(*g));
            assert(nn == topology_node_count(*g));
            if md >= 1 {
                assert forall|w: int| #[trigger] step(edges, any_edge(), incoming, s, w) implies w == start || exists|k: int|
                    0 <= k < order@.len() && order@[k] == w by {
                    crate::graph::topology::lemma_step_bounds(edges, nn as nat, incoming, s, w);
                    assert(visited@[w]);
                }
            }
            assert forall|k: int, w: int|
                0 <= k < order@.len() && dep@[k] < max_depth && #[trigger] step(edges, any_edge(), incoming, order@[k] as int, w)
                    implies w == start || exists|q: int| 0 <= q < order@.len() && order@[q] == w by {
                assert(visited@[w]);
            }
        }
        (order, dep, par)
}

/// A trace lists at most `n` nodes, and entry `k` lies at most `k + 1`
/// levels down.
pub proof fn lemma_levels_bounded(
    edges: Seq<(int, int)>,
    incoming: bool,
    s: int,
    n: int,
    max_depth: int,
    ord: Seq<usize>,
    dep: Seq<usize>,
    par: Seq<usize>,
)
    requires
        0 <= n,
        bfs_core(edges, incoming, s, n, max_depth, ord, dep, par),
    ensures
        ord.len() <= n,
        forall|k: int| 0 <= k < ord.len() ==> #[trigger] dep[k] <= k + 1,
{
    let oi = ord.map_values(|x: usize| x as int);
    assert(oi.no_duplicates()) by {
        assert forall|a: int, b: int| 0 <= a < oi.len() && 0 <= b < oi.len() && a != b implies oi[a] != oi[b] by {
            if a < b {
                assert(ord[a] != ord[b]);
            } else {
                assert(ord[b] != ord[a]);
            }
        }
    }
    oi.unique_seq_to_set();
    assert forall|x: int| #[trigger] oi.to_set().contains(x) implies vstd::set_lib::set_int_range(0, n).contains(x) by {
        let k = choose|k: int| 0 <= k < oi.len() && oi[k] == x;
        assert(bfs_entry(edges, incoming, s, n, max_depth, ord, dep, par, k));
    }
    vstd::set_lib::lemma_int_range(0, n);
    vstd::set_lib::lemma_len_subset(oi.to_set(), vstd::set_lib::set_int_range(0, n));
    assert forall|k: int| 0 <= k < ord.len() implies #[trigger] dep[k] <= k + 1 by {
        lemma_dep_bound(edges, incoming, s, n, max_depth, ord, dep, par, k);
    }
}

/// Entry `k` lies at most `k + 1` levels down.
proof fn lemma_dep_bound(
    edges: Seq<(int, int)>,
    incoming: bool,
    s: int,
    n: int,
    max_depth: int,
    ord: Seq<usize>,
    dep: Seq<usize>,
    par: Seq<usize>,
    k: int,
)
    requires
        bfs_core(edges, incoming, s, n, max_depth, ord, dep, par),
        0 <= k < ord.len(),
    ensures
        dep[k] <= k + 1,
    decreases k,
{
    assert(bfs_entry(edges, incoming, s, n, max_depth, ord, dep, par, k));
    if dep[k] > 1 {
        let k2 = choose|k2: int| 0 <= k2 < k && #[trigger] ord[k2] == par[k] && dep[k2] + 1 == dep[k];
        lemma_dep_bound(edges, incoming, s, n, max_depth, ord, dep, par, k2);
    }
}

} // verus!
