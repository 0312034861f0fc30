//! Cycle detection on dependency graphs: strongly connected components
//! (Kosaraju) and topological ordering.
use vstd::prelude::*;

use crate::graph::dep_graph::{DepNode, DependencyGraph};
use crate::graph::topology::{
    has_cycle_node, has_mutual_pair, is_scc_partition, is_topological_order, lemma_mutual_pair_on_cycle,
    lemma_order_forbids_cycle, mutually_reachable, on_cycle, topology_kosaraju_scc, topology_toposort,
};

verus! {

/// Finds cyclic dependencies in a [`DependencyGraph`].
pub struct CycleDetector;

/// Node-index groups as integers.
pub open spec fn components_view(comps: Seq<Vec<usize>>) -> Seq<Seq<int>> {
    comps.map_values(|c: Vec<usize>| c@.map_values(|v: usize| v as int))
}

/// The groups of more than one node, in order.
pub open spec fn multi_node_components(comps: Seq<Seq<int>>) -> Seq<Seq<int>>
    decreases comps.len(),
{
    if comps.len() == 0 {
        Seq::empty()
    } else {
        let rest = multi_node_components(comps.drop_last());
        if comps.last().len() > 1 {
            rest.push(comps.last())
        } else {
            rest
        }
    }
}

/// All members of the groups, group after group.
pub open spec fn flatten_groups(groups: Seq<Seq<int>>) -> Seq<int>
    decreases groups.len(),
{
    if groups.len() == 0 {
        Seq::empty()
    } else {
        flatten_groups(groups.drop_last()) + groups.last()
    }
}

/// The nodes of `g` at the given indices.
pub open spec fn nodes_at(g: DependencyGraph, idx: Seq<int>) -> Seq<DepNode> {
    idx.map_values(|i: int| g.node_seq()[i])
}

/// The nodes of `g` of each group.
pub open spec fn component_nodes(g: DependencyGraph, comps: Seq<Seq<int>>) -> Seq<Seq<DepNode>> {
    comps.map_values(|c: Seq<int>| nodes_at(g, c))
}

/// The contents of a list of node lists.
pub open spec fn group_views(r: Seq<Vec<DepNode>>) -> Seq<Seq<DepNode>> {
    r.map_values(|v: Vec<DepNode>| v@)
}

/// Some group holds more than one node exactly when the multi-node groups
/// are not empty.
proof fn lemma_multi_nonempty(comps: Seq<Seq<int>>)
    ensures
        multi_node_components(comps).len() > 0 <==> exists|i: int| 0 <= i < comps.len() && #[trigger] comps[i].len() > 1,
    decreases comps.len(),
{
    if comps.len() > 0 {
        lemma_multi_nonempty(comps.drop_last());
        if exists|i: int| 0 <= i < comps.drop_last().len() && #[trigger] comps.drop_last()[i].len() > 1 {
            let i = choose|i: int| 0 <= i < comps.drop_last().len() && #[trigger] comps.drop_last()[i].len() > 1;
            assert(comps[i].len() > 1);
        }
        if exists|i: int| 0 <= i < comps.len() && #[trigger] comps[i].len() > 1 {
            let i = choose|i: int| 0 <= i < comps.len() && #[trigger] comps[i].len() > 1;
            if i < comps.len() - 1 {
                assert(comps.drop_last()[i].len() > 1);
            }
        }
    }
}

/// In a partition into strongly connected components, some component holds
/// more than one node exactly when two distinct nodes reach each other.
pub proof fn lemma_partition_multi(edges: Seq<(int, int)>, n: nat, comps: Seq<Seq<int>>)
    requires
        is_scc_partition(edges, n, comps),
    ensures
        (multi_node_components(comps).len() > 0) <==> has_mutual_pair(edges, n),
{
    lemma_multi_nonempty(comps);
    if exists|i: int| 0 <= i < comps.len() && #[trigger] comps[i].len() > 1 {
        let i = choose|i: int| 0 <= i < comps.len() && #[trigger] comps[i].len() > 1;
        let u = comps[i][0];
        let v = comps[i][1];
        assert(u != v);
        assert(mutually_reachable(edges, u, v));
        assert(0 <= u < n && 0 <= v < n);
    }
    if has_mutual_pair(edges, n) {
        let (u, v) = choose|u: int, v: int|
            0 <= u < n && 0 <= v < n && u != v && #[trigger] mutually_reachable(edges, u, v);
        assert(crate::graph::topology::listed_in(comps, u));
        assert(crate::graph::topology::listed_in(comps, v));
        let (i1, j1) = choose|i: int, j: int| 0 <= i < comps.len() && 0 <= j < comps[i].len() && #[trigger] comps[i][j] == u;
        let (i2, j2) = choose|i: int, j: int| 0 <= i < comps.len() && 0 <= j < comps[i].len() && #[trigger] comps[i][j] == v;
        if i1 != i2 {
            assert(!mutually_reachable(edges, comps[i1][j1], comps[i2][j2]));
        }
        assert(comps[i1].len() > 1);
    }
}

/// Each member of the flattened multi-node groups sits in a group of more
/// than one node.
proof fn lemma_flat_member(comps: Seq<Seq<int>>, k: int)
    requires
        0 <= k < flatten_groups(multi_node_components(comps)).len(),
    ensures
        exists|i: int, j: int|
            0 <= i < comps.len() && 0 <= j < comps[i].len() && comps[i].len() > 1 && #[trigger] comps[i][j]
                == flatten_groups(multi_node_components(comps))[k],
    decreases comps.len(),
{
    let d = comps.drop_last();
    let rest = multi_node_components(d);
    let fr = flatten_groups(rest);
    if comps.last().len() > 1 {
        assert(multi_node_components(comps) == rest.push(comps.last()));
        assert(rest.push(comps.last()).drop_last() =~= rest);
        assert(flatten_groups(rest.push(comps.last())) == fr + comps.last());
        if k < fr.len() {
            lemma_flat_member(d, k);
            let (i, j) = choose|i: int, j: int|
                0 <= i < d.len() && 0 <= j < d[i].len() && d[i].len() > 1 && #[trigger] d[i][j] == fr[k];
            assert(comps[i] == d[i]);
            assert(comps[i][j] == flatten_groups(multi_node_components(comps))[k]);
        } else {
            let i = comps.len() - 1;
            let j = k - fr.len();
            assert(comps[i][j] == flatten_groups(multi_node_components(comps))[k]);
        }
    } else {
        lemma_flat_member(d, k);
        let (i, j) = choose|i: int, j: int|
            0 <= i < d.len() && 0 <= j < d[i].len() && d[i].len() > 1 && #[trigger] d[i][j] == fr[k];
        assert(comps[i] == d[i]);
        assert(comps[i][j] == flatten_groups(multi_node_components(comps))[k]);
    }
}

/// Every node that a cycle error names from the components of more than
/// one node lies on a cycle.
pub proof fn law_cycle_members_on_cycle(edges: Seq<(int, int)>, n: nat, comps: Seq<Seq<int>>)
    requires
        is_scc_partition(edges, n, comps),
    ensures
        forall|k: int|
            0 <= k < flatten_groups(multi_node_components(comps)).len() ==> on_cycle(
                edges,
                #[trigger] flatten_groups(multi_node_components(comps))[k],
            ),
{
    let f = flatten_groups(multi_node_components(comps));
    assert forall|k: int| 0 <= k < f.len() implies on_cycle(edges, #[trigger] f[k]) by {
        lemma_flat_member(comps, k);
        let (i, j) = choose|i: int, j: int|
            0 <= i < comps.len() && 0 <= j < comps[i].len() && comps[i].len() > 1 && #[trigger] comps[i][j] == f[k];
        let j2 = if j == 0 { 1int } else { 0int };
        assert(comps[i][j2] != comps[i][j]) by {
            if comps[i][j2] == comps[i][j] {
                assert(j2 == j);
            }
        }
        assert(mutually_reachable(edges, comps[i][j], comps[i][j2]));
        lemma_mutual_pair_on_cycle(edges, comps[i][j], comps[i][j2]);
    }
}

/// Two distinct nodes that reach each other put a node on a cycle.
pub proof fn law_mutual_pair_gives_cycle_node(edges: Seq<(int, int)>, n: nat)
    requires
        has_mutual_pair(edges, n),
    ensures
        has_cycle_node(edges, n),
{
    let (u, v) = choose|u: int, v: int|
        0 <= u < n && 0 <= v < n && u != v && #[trigger] mutually_reachable(edges, u, v);
    lemma_mutual_pair_on_cycle(edges, u, v);
}

impl CycleDetector {
    /// Appends the nodes at `idx` to `out`.
    fn append_nodes(graph: &DependencyGraph, idx: &Vec<usize>, out: &mut Vec<DepNode>)
        requires
            forall|j: int| 0 <= j < idx.len() ==> #[trigger] idx@[j] < graph.node_seq().len(),
        ensures
            final(out)@ == old(out)@ + nodes_at(*graph, idx@.map_values(|v: usize| v as int)),
    {
        let ghost start = out@;
        let ghost iv = idx@.map_values(|v: usize| v as int);
        let mut j: usize = 0;
        while j < idx.len()
            invariant
                j <= idx.len(),
                iv == idx@.map_values(|v: usize| v as int),
                forall|m: int| 0 <= m < idx.len() ==> #[trigger] idx@[m] < graph.node_seq().len(),
                out@ == start + nodes_at(*graph, iv.take(j as int)),
            decreases idx.len() - j,
        {
            out.push(graph.node_at(idx[j]));
            proof {
                assert(nodes_at(*graph, iv.take(j + 1)) =~= nodes_at(*graph, iv.take(j as int)).push(
                    graph.node_seq()[idx@[j as int] as int],
                ));
                assert(out@ =~= start + nodes_at(*graph, iv.take(j + 1)));
            }
            j = j + 1;
        }
        proof {
            assert(iv.take(j as int) =~= iv);
        }
    }

    /// The cyclic dependencies of `graph`: its strongly connected components
    /// of more than one node, each as its list of nodes. A lone node, even
    /// with a self-loop, is not reported.
    pub fn detect_cycles(graph: &DependencyGraph) -> (r: Vec<Vec<DepNode>>)
        requires
            graph.wf(),
        ensures
            exists|comps: Seq<Seq<int>>|
                is_scc_partition(graph.edge_seq(), graph.node_seq().len(), comps) && #[trigger] group_views(r@)
                    == component_nodes(*graph, multi_node_components(comps)),
            r.len() > 0 <==> has_mutual_pair(graph.edge_seq(), graph.node_seq().len()),
    {
        let inner = graph.inner_graph();
        proof {
            graph.lemma_topology();
        }
        let comps = topology_kosaraju_scc(inner);
        let ghost cv = components_view(comps@);
        let ghost n = graph.node_seq().len();
        let mut r: Vec<Vec<DepNode>> = Vec::new();
        let mut i: usize = 0;
        while i < comps.len()
            invariant
                i <= comps.len(),
                cv == components_view(comps@),
                n == graph.node_seq().len(),
                is_scc_partition(graph.edge_seq(), n, cv),
                group_views(r@) == component_nodes(*graph, multi_node_components(cv.take(i as int))),
            decreases comps.len() - i,
        {
            proof {
                assert(cv.take(i + 1).drop_last() =~= cv.take(i as int));
                assert(cv[i as int] == comps@[i as int]@.map_values(|v: usize| v as int));
            }
            if comps[i].len() > 1 {
                let mut group: Vec<DepNode> = Vec::new();
                proof {
                    assert forall|j: int| 0 <= j < comps[i as int].len() implies #[trigger] comps@[i as int]@[j] < graph.node_seq().len() by {
                        assert(cv[i as int][j] == comps@[i as int]@[j] as int);
                    }
                }
                Self::append_nodes(graph, &comps[i], &mut group);
                let ghost before = r@;
                r.push(group);
                proof {
                    assert(group_views(r@) =~= group_views(before).push(r@.last()@));
                    assert(component_nodes(*graph, multi_node_components(cv.take(i + 1))) =~= component_nodes(
                        *graph,
                        multi_node_components(cv.take(i as int)),
                    ).push(nodes_at(*graph, cv[i as int])));
                }
            }
            i = i + 1;
        }
        proof {
            assert(cv.take(i as int) =~= cv);
            lemma_partition_multi(graph.edge_seq(), n, cv);
        }
        r
    }

    /// Whether some two distinct nodes depend on each other, directly or not.
    pub fn has_cycle(graph: &DependencyGraph) -> (r: bool)
        requires
            graph.wf(),
        ensures
            r == has_mutual_pair(graph.edge_seq(), graph.node_seq().len()),
    {
        let inner = graph.inner_graph();
        proof {
            graph.lemma_topology();
        }
        let comps = topology_kosaraju_scc(inner);
        let ghost cv = components_view(comps@);
        proof {
            lemma_partition_multi(graph.edge_seq(), graph.node_seq().len(), cv);
            lemma_multi_nonempty(cv);
        }
        let mut i: usize = 0;
        while i < comps.len()
            invariant
                i <= comps.len(),
                cv == components_view(comps@),
                forall|m: int| 0 <= m < i ==> #[trigger] cv[m].len() <= 1,
                has_mutual_pair(graph.edge_seq(), graph.node_seq().len()) <==> exists|m: int|
                    0 <= m < cv.len() && #[trigger] cv[m].len() > 1,
            decreases comps.len() - i,
        {
            proof {
                assert(cv[i as int].len() == comps@[i as int].len());
            }
            if comps[i].len() > 1 {
                assert(cv[i as int].len() > 1);
                return true;
            }
            i = i + 1;
        }
        false
    }

    /// A topological order of the nodes (`Ok`), or, when some node lies on a
    /// cycle, the members of the multi-node strongly connected components
    /// (`Err`); when the only cycles are self-loops, `Err` holds the node the
    /// sort stopped at.
    pub fn topological_order(graph: &DependencyGraph) -> (r: Result<Vec<DepNode>, Vec<DepNode>>)
        requires
            graph.wf(),
        ensures
            r is Ok <==> !has_cycle_node(graph.edge_seq(), graph.node_seq().len()),
            r matches Ok(v) ==> exists|order: Seq<int>|
                is_topological_order(graph.edge_seq(), graph.node_seq().len(), order) && #[trigger] nodes_at(*graph, order) == v@,
            r matches Err(v) ==> exists|comps: Seq<Seq<int>>|
                is_scc_partition(graph.edge_seq(), graph.node_seq().len(), comps) && if flatten_groups(
                    #[trigger] multi_node_components(comps),
                ).len() > 0 {
                    v@ == nodes_at(*graph, flatten_groups(multi_node_components(comps)))
                } else {
                    exists|c: int|
                        0 <= c < graph.node_seq().len() && #[trigger] on_cycle(graph.edge_seq(), c) && v@ == seq![graph.node_seq()[c]]
                },
    {
        let inner = graph.inner_graph();
        proof {
            graph.lemma_topology();
        }
        match topology_toposort(inner) {
            Ok(order) => {
                let ghost ov = order@.map_values(|v: usize| v as int);
                let mut v: Vec<DepNode> = Vec::new();
                proof {
                    assert forall|j: int| 0 <= j < order.len() implies #[trigger] order@[j] < graph.node_seq().len() by {
                        assert(ov[j] == order@[j] as int);
                    }
                }
                Self::append_nodes(graph, &order, &mut v);
                proof {
                    assert(v@ =~= nodes_at(*graph, ov));
                    if has_cycle_node(graph.edge_seq(), graph.node_seq().len()) {
                        let c = choose|c: int| 0 <= c < graph.node_seq().len() && #[trigger] on_cycle(graph.edge_seq(), c);
                        lemma_order_forbids_cycle(graph.edge_seq(), graph.node_seq().len(), ov, c);
                    }
                }
                Ok(v)
            },
            Err(c) => {
                let comps = topology_kosaraju_scc(inner);
                let ghost cv = components_view(comps@);
                let mut out: Vec<DepNode> = Vec::new();
                let mut i: usize = 0;
                while i < comps.len()
                    invariant
                        i <= comps.len(),
                        cv == components_view(comps@),
                        is_scc_partition(graph.edge_seq(), graph.node_seq().len(), cv),
                        out@ == nodes_at(*graph, flatten_groups(multi_node_components(cv.take(i as int)))),
                    decreases comps.len() - i,
                {
                    proof {
                        assert(cv.take(i + 1).drop_last() =~= cv.take(i as int));
                        assert(cv[i as int] == comps@[i as int]@.map_values(|v: usize| v as int));
                    }
                    if comps[i].len() > 1 {
                        proof {
                            assert forall|j: int| 0 <= j < comps[i as int].len() implies #[trigger] comps@[i as int]@[j] < graph.node_seq().len() by {
                                assert(cv[i as int][j] == comps@[i as int]@[j] as int);
                            }
                        }
                        let ghost before = out@;
                        Self::append_nodes(graph, &comps[i], &mut out);
                        proof {
                            let prev = flatten_groups(multi_node_components(cv.take(i as int)));
                            let ms = multi_node_components(cv.take(i as int));
                            assert(cv.take(i + 1).last() == cv[i as int]);
                            assert(multi_node_components(cv.take(i + 1)) == ms.push(cv[i as int]));
                            assert(ms.push(cv[i as int]).drop_last() =~= ms);
                            assert(flatten_groups(multi_node_components(cv.take(i + 1))) =~= prev + cv[i as int]);
                            assert(nodes_at(*graph, prev + cv[i as int]) =~= nodes_at(*graph, prev) + nodes_at(*graph, cv[i as int]));
                        }
                    }
                    i = i + 1;
                }
                proof {
                    assert(cv.take(i as int) =~= cv);
                }
                if out.len() == 0 {
                    let mut single: Vec<DepNode> = Vec::new();
                    single.push(graph.node_at(c));
                    proof {
                        assert(single@ =~= seq![graph.node_seq()[c as int]]);
                    }
                    return Err(single);
                }
                Err(out)
            },
        }
    }
}

} // verus!
