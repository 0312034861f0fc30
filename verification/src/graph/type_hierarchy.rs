//! Type hierarchy: which types extend or implement which.
//!
//! Edges run from a subtype to its parent type (base class or interface).
//! Types are found by name; when several nodes share a name, the most
//! recently added one is found.
use vstd::prelude::*;
use vstd::hash_map::StringHashMap;
use vstd::string::StringExecFns;

use petgraph::graph::DiGraph;

use crate::graph::topology::{
    any_edge, incident_edges, index_limit, lemma_closed_reach, lemma_incident_desc, lemma_reachable_extend,
    lemma_reachable_refl, lemma_touch_step_ok, near, other_end, reach_len, reachable, step, topology_add_edge, topology_add_node,
    topology_edge_endpoints, topology_edges, topology_edges_directed, topology_new, topology_node_count, topology_wf,
    touches,
};
use crate::graph::trace::{bfs_core, bfs_entry, bfs_levels, lemma_levels_bounded, listed};
use crate::types::{Symbol, SymbolKind};

verus! {

/// A type taking part in the hierarchy.
#[derive(Debug, Clone, PartialEq, Eq)]
pub struct TypeNode {
    /// Symbol id.
    pub symbol_id: String,
    /// Type name.
    pub name: String,
    /// Kind name (`class`, `interface`, `trait`, `enum`, ...).
    pub kind: String,
    /// File holding the type.
    pub file_path: String,
}

impl TypeNode {
    /// A copy equal to `self`.
    pub fn duplicate(&self) -> (r: TypeNode)
        ensures
            r == *self,
    {
        TypeNode {
            symbol_id: self.symbol_id.clone(),
            name: self.name.clone(),
            kind: self.kind.clone(),
            file_path: self.file_path.clone(),
        }
    }
}

/// A subtype-to-parent link.
#[derive(Debug, Clone, PartialEq, Eq)]
pub struct InheritEdge {
    /// `extends` or `implements`.
    pub relation: String,
    /// How sure the inference is, in percent.
    pub confidence_percent: u8,
}

/// The type hierarchy over `petgraph`: node `i` is `nodes[i]`, edge `k`
/// (subtype to parent) carries `edges[k]`.
pub struct TypeHierarchy {
    graph: DiGraph<(), ()>,
    nodes: Vec<TypeNode>,
    edges: Vec<InheritEdge>,
    name_to_id: StringHashMap<usize>,
}

/// The position of the last of `names` equal to `key`, if any.
pub open spec fn last_named(names: Seq<Seq<char>>, key: Seq<char>) -> Option<int> {
    if exists|i: int| 0 <= i < names.len() && #[trigger] names[i] == key {
        Some(choose|i: int| 0 <= i < names.len() && #[trigger] names[i] == key && forall|j: int| i < j < names.len() ==> names[j] != key)
    } else {
        None
    }
}

impl TypeHierarchy {
    /// The nodes, in insertion order.
    pub closed spec fn node_seq(&self) -> Seq<TypeNode> {
        self.nodes@
    }

    /// The edges as (subtype index, parent index), in insertion order.
    pub closed spec fn edge_seq(&self) -> Seq<(int, int)> {
        topology_edges(self.graph)
    }

    /// The edge payloads.
    pub closed spec fn edge_data(&self) -> Seq<InheritEdge> {
        self.edges@
    }

    /// The node names, in node order.
    pub open spec fn names(&self) -> Seq<Seq<char>> {
        self.node_seq().map_values(|nd: TypeNode| nd.name@)
    }

    /// The node a name designates: the last one added with that name.
    pub open spec fn find_index(&self, name: Seq<char>) -> Option<int> {
        last_named(self.names(), name)
    }

    /// The edges labelled `implements`.
    pub open spec fn implements_edges(&self) -> spec_fn(int) -> bool {
        |i: int| self.edge_data()[i].relation@ == "implements"@
    }

    /// Internal consistency: payloads match the topology and each name maps
    /// to the last node carrying it.
    pub closed spec fn wf(&self) -> bool {
        &&& topology_wf(self.graph)
        &&& self.nodes@.len() == topology_node_count(self.graph)
        &&& self.edges@.len() == topology_edges(self.graph).len()
        &&& forall|k: Seq<char>| #[trigger]
            self.name_to_id@.contains_key(k) ==> self.name_to_id@[k] < self.nodes@.len()
                && self.nodes@[self.name_to_id@[k] as int].name@ == k && forall|j: int|
                self.name_to_id@[k] < j < self.nodes@.len() ==> #[trigger] self.nodes@[j].name@ != k
        &&& forall|i: int| 0 <= i < self.nodes@.len() ==> #[trigger] self.name_to_id@.contains_key(self.nodes@[i].name@)
    }

    /// The name map agrees with `find_index`.
    proof fn lemma_find(&self, key: Seq<char>)
        requires
            self.wf(),
        ensures
            self.name_to_id@.contains_key(key) ==> self.find_index(key) == Some(self.name_to_id@[key] as int),
            !self.name_to_id@.contains_key(key) ==> self.find_index(key) is None,
    {
        let names = self.names();
        if self.name_to_id@.contains_key(key) {
            let i = self.name_to_id@[key] as int;
            assert(names[i] == key);
            assert forall|j: int| i < j < names.len() implies names[j] != key by {
                assert(self.nodes@[j].name@ != key);
            }
            let c = choose|c: int| 0 <= c < names.len() && #[trigger] names[c] == key && forall|j: int| c < j < names.len() ==> names[j] != key;
            if c < i {
                assert(names[i] != key);
            }
            if c > i {
                assert(self.nodes@[c].name@ != key);
            }
        } else {
            if exists|i: int| 0 <= i < names.len() && #[trigger] names[i] == key {
                let c = choose|c: int| 0 <= c < names.len() && #[trigger] names[c] == key;
                assert(self.name_to_id@.contains_key(self.nodes@[c].name@));
            }
        }
    }

    /// An empty hierarchy.
    pub fn new() -> (h: Self)
        ensures
            h.wf(),
            h.node_seq() == Seq::<TypeNode>::empty(),
            h.edge_seq() == Seq::<(int, int)>::empty(),
            h.edge_data() == Seq::<InheritEdge>::empty(),
    {
        TypeHierarchy { graph: topology_new(), nodes: Vec::new(), edges: Vec::new(), name_to_id: StringHashMap::new() }
    }

    /// Appends `node` (names need not be unique) and returns its index; its
    /// name now finds it.
    pub fn add_node(&mut self, node: TypeNode) -> (idx: usize)
        requires
            old(self).wf(),
            old(self).node_seq().len() + 1 < index_limit(),
        ensures
            final(self).wf(),
            idx == old(self).node_seq().len(),
            final(self).node_seq() == old(self).node_seq().push(node),
            final(self).edge_seq() == old(self).edge_seq(),
            final(self).edge_data() == old(self).edge_data(),
    {
        let name = node.name.clone();
        let idx = topology_add_node(&mut self.graph);
        self.nodes.push(node);
        self.name_to_id.insert(name, idx);
        proof {
            let nn = self.nodes@[idx as int];
            assert forall|k: Seq<char>| #[trigger]
                self.name_to_id@.contains_key(k) implies self.name_to_id@[k] < self.nodes@.len()
                && self.nodes@[self.name_to_id@[k] as int].name@ == k && forall|j: int|
                self.name_to_id@[k] < j < self.nodes@.len() ==> #[trigger] self.nodes@[j].name@ != k by {
                if k != nn.name@ {
                    assert(old(self).name_to_id@.contains_key(k));
                    assert forall|j: int| self.name_to_id@[k] < j < self.nodes@.len() implies #[trigger] self.nodes@[j].name@ != k by {
                        if j < idx {
                            assert(old(self).nodes@[j].name@ != k);
                        }
                    }
                }
            }
            assert forall|i: int| 0 <= i < self.nodes@.len() implies #[trigger] self.name_to_id@.contains_key(self.nodes@[i].name@) by {
                if i < idx {
                    assert(old(self).name_to_id@.contains_key(old(self).nodes@[i].name@));
                }
            }
        }
        idx
    }

    /// Adds the link `child_name -> parent_name` and returns its index, or
    /// `None`, changing nothing, when either name finds no node.
    #[verifier::rlimit(50)]
    pub fn add_edge(&mut self, child_name: &str, parent_name: &str, edge: InheritEdge) -> (r: Option<usize>)
        requires
            old(self).wf(),
            old(self).edge_seq().len() + 1 < index_limit(),
        ensures
            final(self).wf(),
            final(self).node_seq() == old(self).node_seq(),
            r is None <==> (old(self).find_index(child_name@) is None || old(self).find_index(parent_name@) is None),
            r is None ==> final(self).edge_seq() == old(self).edge_seq() && final(self).edge_data() == old(self).edge_data(),
            r matches Some(k) ==> {
                &&& k == old(self).edge_seq().len()
                &&& final(self).edge_seq() == old(self).edge_seq().push(
                    (old(self).find_index(child_name@)->0, old(self).find_index(parent_name@)->0),
                )
                &&& final(self).edge_data() == old(self).edge_data().push(edge)
            },
    {
        proof {
            self.lemma_find(child_name@);
            self.lemma_find(parent_name@);
        }
        let child = match self.name_to_id.get(child_name) {
            Some(c) => *c,
            None => return None,
        };
        let parent = match self.name_to_id.get(parent_name) {
            Some(p) => *p,
            None => return None,
        };
        let k = topology_add_edge(&mut self.graph, child, parent);
        self.edges.push(edge);
        proof {
            assert(self.nodes@ == old(self).nodes@);
            assert(self.name_to_id@ == old(self).name_to_id@);
            assert forall|i: int|
                0 <= i < topology_edges(self.graph).len() implies 0 <= #[trigger] topology_edges(self.graph)[i].0
                < topology_node_count(self.graph) && 0 <= topology_edges(self.graph)[i].1 < topology_node_count(self.graph) by {
                if i < topology_edges(old(self).graph).len() {
                    assert(topology_edges(self.graph)[i] == topology_edges(old(self).graph)[i]);
                }
            }
        }
        Some(k)
    }

    /// `r` lists, each once, the nodes other than `s` reachable from `s`
    /// along the edges `ok` accepts (walked backwards with `incoming`).
    pub open spec fn is_reach_set(&self, s: int, ok: spec_fn(int) -> bool, incoming: bool, r: Seq<TypeNode>) -> bool {
        exists|ord: Seq<int>| {
            &&& ord.len() == r.len()
            &&& forall|k: int| 0 <= k < ord.len() ==> {
                &&& 0 <= #[trigger] ord[k] < self.node_seq().len()
                &&& ord[k] != s
                &&& r[k] == self.node_seq()[ord[k]]
                &&& reachable(self.edge_seq(), ok, incoming, s, ord[k])
            }
            &&& forall|a: int, b: int| 0 <= a < b < ord.len() ==> ord[a] != ord[b]
            &&& forall|v: int|
                0 <= v < self.node_seq().len() && v != s && reachable(self.edge_seq(), ok, incoming, s, v) ==> exists|k: int|
                    0 <= k < ord.len() && #[trigger] ord[k] == v
        }
    }

    /// `r` lists its nodes nearest first: each entry sits at its distance
    /// (fewest links) from `s`, walking links backwards with `incoming`, and
    /// no entry is nearer than one before it.
    pub open spec fn is_level_order(&self, s: int, incoming: bool, r: Seq<TypeNode>) -> bool {
        exists|ord: Seq<usize>, dep: Seq<usize>| {
            &&& ord.len() == r.len()
            &&& dep.len() == r.len()
            &&& forall|k: int| 0 <= k < r.len() ==> {
                &&& 0 <= #[trigger] ord[k] < self.node_seq().len()
                &&& r[k] == self.node_seq()[ord[k] as int]
                &&& reach_len(self.edge_seq(), incoming, s, ord[k] as int, dep[k] as int)
                &&& !near(self.edge_seq(), incoming, s, ord[k] as int, dep[k] - 1)
            }
            &&& forall|a: int, b: int| 0 <= a <= b < r.len() ==> #[trigger] dep[a] <= #[trigger] dep[b]
        }
    }

    /// Breadth-first collection, level by level, of the nodes reachable from
    /// `start` along all links.
    fn collect_by_level(&self, start: usize, incoming: bool) -> (r: Vec<TypeNode>)
        requires
            self.wf(),
            start < self.node_seq().len(),
        ensures
            self.is_reach_set(start as int, any_edge(), incoming, r@),
            self.is_level_order(start as int, incoming, r@),
    {
        let ghost edges = self.edge_seq();
        let ghost s = start as int;
        let ghost nn = self.node_seq().len() as int;
        let ghost md = usize::MAX as int;
        let (order, dep, par) = bfs_levels(&self.graph, start, usize::MAX, incoming);
        let mut result: Vec<TypeNode> = Vec::new();
        let mut k: usize = 0;
        while k < order.len()
            invariant
                self.wf(),
                edges == self.edge_seq(),
                nn == self.node_seq().len(),
                s == start,
                bfs_core(edges, incoming, s, nn, md, order@, dep@, par@),
                k <= order.len(),
                result.len() == k,
                forall|q: int| 0 <= q < k ==> #[trigger] result@[q] == self.node_seq()[order@[q] as int],
            decreases order.len() - k,
        {
            proof {
                assert(bfs_entry(edges, incoming, s, nn, md, order@, dep@, par@, k as int));
            }
            result.push(self.nodes[order[k]].duplicate());
            k = k + 1;
        }
        proof {
            lemma_levels_bounded(edges, incoming, s, nn, md, order@, dep@, par@);
            assert forall|q: int| 0 <= q < result.len() implies {
                &&& 0 <= #[trigger] order@[q] < self.node_seq().len()
                &&& result@[q] == self.node_seq()[order@[q] as int]
                &&& reach_len(self.edge_seq(), incoming, s, order@[q] as int, dep@[q] as int)
                &&& !near(self.edge_seq(), incoming, s, order@[q] as int, dep@[q] - 1)
            } by {
                assert(bfs_entry(edges, incoming, s, nn, md, order@, dep@, par@, q));
            }
            assert(self.is_level_order(s, incoming, result@));
            let ord = order@.map_values(|x: usize| x as int);
            assert forall|q: int| 0 <= q < ord.len() implies {
                &&& 0 <= #[trigger] ord[q] < self.node_seq().len()
                &&& ord[q] != s
                &&& result@[q] == self.node_seq()[ord[q]]
                &&& reachable(self.edge_seq(), any_edge(), incoming, s, ord[q])
            } by {
                assert(bfs_entry(edges, incoming, s, nn, md, order@, dep@, par@, q));
                let p = choose|p: Seq<int>| p.len() == dep@[q] + 1 && #[trigger] crate::graph::topology::walk_between(
                    edges, any_edge(), incoming, p, s, order@[q] as int);
                assert(crate::graph::topology::walk_between(edges, any_edge(), incoming, p, s, ord[q]));
            }
            assert forall|a: int, b: int| 0 <= a < b < ord.len() implies ord[a] != ord[b] by {
                assert(order@[a] != order@[b]);
            }
            let inset = |x: int| 0 <= x < nn && (x == s || listed(order@, x));
            assert forall|x: int, y: int| inset(x) && #[trigger] step(edges, any_edge(), incoming, x, y) implies inset(y) by {
                crate::graph::topology::lemma_step_bounds(edges, nn as nat, incoming, x, y);
                if x != s {
                    let q = choose|q: int| 0 <= q < order@.len() && order@[q] == x;
                    assert(dep@[q] <= q + 1);
                    assert(order@.len() <= nn);
                    assert(step(edges, any_edge(), incoming, order@[q] as int, y));
                }
            }
            assert forall|v: int|
                0 <= v < self.node_seq().len() && v != s && reachable(self.edge_seq(), any_edge(), incoming, s, v) implies exists|q: int|
                    0 <= q < ord.len() && #[trigger] ord[q] == v by {
                lemma_closed_reach(edges, any_edge(), incoming, inset, s, v);
                let q = choose|q: int| 0 <= q < order@.len() && order@[q] == v;
                assert(ord[q] == v);
            }
            assert(self.is_reach_set(s, any_edge(), incoming, result@));
        }
        result
    }

    /// The edge filter of a traversal.
    pub open spec fn traversal_filter(&self, implements_only: bool) -> spec_fn(int) -> bool {
        if implements_only {
            self.implements_edges()
        } else {
            any_edge()
        }
    }

    /// Breadth-first collection of the nodes reachable from `start`.
    #[verifier::rlimit(40)]
    fn collect(&self, start: usize, incoming: bool, implements_only: bool) -> (r: Vec<TypeNode>)
        requires
            self.wf(),
            start < self.node_seq().len(),
        ensures
            self.is_reach_set(start as int, self.traversal_filter(implements_only), incoming, r@),
    {
        let ghost ok = self.traversal_filter(implements_only);
        let ghost edges = self.edge_seq();
        let n = self.nodes.len();
        let implements = "implements".to_string();
        let mut visited: Vec<bool> = Vec::new();
        let mut i: usize = 0;
        while i < n
            invariant
                i <= n,
                visited.len() == i,
                forall|v: int| 0 <= v < i ==> !#[trigger] visited@[v],
            decreases n - i,
        {
            visited.push(false);
            i = i + 1;
        }
        visited.set(start, true);
        let mut order: Vec<usize> = Vec::new();
        order.push(start);
        let mut result: Vec<TypeNode> = Vec::new();
        let ghost mut marked: Set<int> = Set::empty().insert(start as int);
        proof {
            lemma_reachable_refl(edges, ok, incoming, start as int);
            assert forall|v: int| 0 <= v < n implies (#[trigger] visited@[v] <==> exists|k: int| 0 <= k < order.len() && order@[k] == v) by {
                if v == start {
                    assert(order@[0] == v);
                }
            }
        }
        let mut h: usize = 0;
        while h < order.len()
            invariant
                self.wf(),
                ok == self.traversal_filter(implements_only),
                implements@ == "implements"@,
                edges == self.edge_seq(),
                n == self.node_seq().len(),
                start < n,
                1 <= order.len(),
                order@[0] == start,
                h <= order.len(),
                result.len() + 1 == order.len(),
                visited.len() == n,
                forall|k: int| 0 <= k < order.len() ==> #[trigger] order@[k] < n,
                forall|k: int| 1 <= k < order.len() ==> result@[k - 1] == self.node_seq()[#[trigger] order@[k] as int],
                forall|v: int| 0 <= v < n ==> (#[trigger] visited@[v] <==> exists|k: int| 0 <= k < order.len() && order@[k] == v),
                forall|a: int, b: int| 0 <= a < b < order.len() ==> #[trigger] order@[a] != #[trigger] order@[b],
                forall|k: int| 0 <= k < order.len() ==> reachable(edges, ok, incoming, start as int, #[trigger] order@[k] as int),
                forall|k: int, w: int| 0 <= k < h && #[trigger] step(edges, ok, incoming, order@[k] as int, w) ==> 0 <= w < n && visited@[w],
                marked.finite(),
                marked.len() == order.len(),
                forall|x: int| #[trigger] marked.contains(x) ==> 0 <= x < n && visited@[x],
                order.len() <= n,
            decreases n - h,
        {
            let cur = order[h];
            let es = topology_edges_directed(&self.graph, cur, incoming);
            let ghost inc = incident_edges(edges, cur as int, incoming);
            proof {
                lemma_incident_desc(edges, cur as int, incoming, edges.len() as int);
                assert forall|m: int| 0 <= m < es.len() implies #[trigger] es@[m] < edges.len() && touches(edges, cur as int, incoming, es@[m] as int) by {
                    assert(inc[m] == es@[m] as int);
                }
            }
            let mut j: usize = 0;
            while j < es.len()
                invariant
                    self.wf(),
                    ok == self.traversal_filter(implements_only),
                    implements@ == "implements"@,
                    edges == self.edge_seq(),
                    n == self.node_seq().len(),
                    start < n,
                    1 <= order.len(),
                    order@[0] == start,
                    h < order.len(),
                    cur == order@[h as int],
                    result.len() + 1 == order.len(),
                    visited.len() == n,
                    j <= es.len(),
                    es@.map_values(|e: usize| e as int) == inc,
                    forall|m: int| 0 <= m < es.len() ==> #[trigger] es@[m] < edges.len() && touches(edges, cur as int, incoming, es@[m] as int),
                    forall|m: int| 0 <= m < j && ok(es@[m] as int) ==> visited@[#[trigger] other_end(edges, incoming, es@[m] as int)],
                    forall|k: int| 0 <= k < order.len() ==> #[trigger] order@[k] < n,
                    forall|k: int| 1 <= k < order.len() ==> result@[k - 1] == self.node_seq()[#[trigger] order@[k] as int],
                    forall|v: int| 0 <= v < n ==> (#[trigger] visited@[v] <==> exists|k: int| 0 <= k < order.len() && order@[k] == v),
                    forall|a: int, b: int| 0 <= a < b < order.len() ==> #[trigger] order@[a] != #[trigger] order@[b],
                    forall|k: int| 0 <= k < order.len() ==> reachable(edges, ok, incoming, start as int, #[trigger] order@[k] as int),
                    forall|k: int, w: int| 0 <= k < h && #[trigger] step(edges, ok, incoming, order@[k] as int, w) ==> 0 <= w < n && visited@[w],
                    marked.finite(),
                    marked.len() == order.len(),
                    forall|x: int| #[trigger] marked.contains(x) ==> 0 <= x < n && visited@[x],
                    order.len() <= n,
                decreases es.len() - j,
            {
                let e = es[j];
                let take = if implements_only { self.edges[e].relation == implements } else { true };
                proof {
                    if implements_only {
                        assert(take == (self.edge_data()[e as int].relation@ == "implements"@));
                    }
                    assert(take == ok(e as int));
                }
                if take {
                    let ends = topology_edge_endpoints(&self.graph, e);
                    proof {
                        assert(0 <= topology_edges(self.graph)[e as int].0 < topology_node_count(self.graph));
                    }
                    let other = if incoming { ends.0 } else { ends.1 };
                    proof {
                        assert(other as int == other_end(edges, incoming, e as int));
                    }
                    if !visited[other] {
                        let ghost o0 = order@;
                        let ghost r0 = result@;
                        let ghost v0 = visited@;
                        proof {
                            lemma_touch_step_ok(edges, ok, incoming, cur as int, other as int);
                            lemma_reachable_extend(edges, ok, incoming, start as int, cur as int, other as int);
                            assert(!marked.contains(other as int));
                            assert forall|x: int| #[trigger] marked.insert(other as int).contains(x) implies vstd::set_lib::set_int_range(0, n as int).contains(x) by {
                                if x != other {
                                    assert(marked.contains(x));
                                }
                            }
                            vstd::set_lib::lemma_int_range(0, n as int);
                            vstd::set_lib::lemma_len_subset(marked.insert(other as int), vstd::set_lib::set_int_range(0, n as int));
                        }
                        visited.set(other, true);
                        order.push(other);
                        result.push(self.nodes[other].duplicate());
                        proof {
                            marked = marked.insert(other as int);
                            assert forall|k: int| 1 <= k < order.len() implies result@[k - 1] == self.node_seq()[#[trigger] order@[k] as int] by {
                                if k < o0.len() {
                                    assert(order@[k] == o0[k]);
                                    assert(result@[k - 1] == r0[k - 1]);
                                }
                            }
                            assert forall|v: int| 0 <= v < n implies (#[trigger] visited@[v] <==> exists|k: int| 0 <= k < order.len() && order@[k] == v) by {
                                if v == other {
                                    assert(order@[o0.len() as int] == v);
                                } else {
                                    if v0[v] {
                                        let k = choose|k: int| 0 <= k < o0.len() && o0[k] == v;
                                        assert(order@[k] == v);
                                    }
                                    if exists|k: int| 0 <= k < order.len() && order@[k] == v {
                                        let k = choose|k: int| 0 <= k < order.len() && order@[k] == v;
                                        assert(o0[k] == v);
                                    }
                                }
                            }
                            assert forall|a: int, b: int| 0 <= a < b < order.len() implies #[trigger] order@[a] != #[trigger] order@[b] by {
                                if b == o0.len() {
                                    if o0[a] == other {
                                        assert(v0[other as int]);
                                    }
                                } else {
                                    assert(o0[a] != o0[b]);
                                }
                            }
                            assert forall|k: int| 0 <= k < order.len() implies reachable(edges, ok, incoming, start as int, #[trigger] order@[k] as int) by {
                                if k < o0.len() {
                                    assert(order@[k] == o0[k]);
                                }
                            }
                            assert forall|k: int, w: int| 0 <= k < h && #[trigger] step(edges, ok, incoming, order@[k] as int, w) implies 0 <= w < n && visited@[w] by {
                                assert(order@[k] == o0[k]);
                                assert(step(edges, ok, incoming, o0[k] as int, w));
                            }
                        }
                    }
                }
                j = j + 1;
            }
            proof {
                assert forall|w: int| #[trigger] step(edges, ok, incoming, cur as int, w) implies 0 <= w < n && visited@[w] by {
                    lemma_touch_step_ok(edges, ok, incoming, cur as int, w);
                    let e = choose|e: int| 0 <= e < edges.len() && ok(e) && touches(edges, cur as int, incoming, e) && #[trigger] other_end(edges, incoming, e) == w;
                    assert(inc.contains(e));
                    let m = choose|m: int| 0 <= m < inc.len() && inc[m] == e;
                    assert(es@[m] as int == e);
                    assert(0 <= topology_edges(self.graph)[e].0 < topology_node_count(self.graph));
                }
                assert forall|k: int, w: int| 0 <= k < h + 1 && #[trigger] step(edges, ok, incoming, order@[k] as int, w) implies 0 <= w < n && visited@[w] by {
                    if k == h {
                        assert(step(edges, ok, incoming, cur as int, w));
                    }
                }
            }
            h = h + 1;
        }
        proof {
            let inset = |x: int| 0 <= x < n && visited@[x];
            assert forall|x: int, y: int| inset(x) && #[trigger] step(edges, ok, incoming, x, y) implies inset(y) by {
                let k = choose|k: int| 0 <= k < order.len() && order@[k] == x;
                assert(step(edges, ok, incoming, order@[k] as int, y));
            }
            let ord = order@.drop_first().map_values(|v: usize| v as int);
            assert forall|v: int|
                0 <= v < n && v != start && reachable(edges, ok, incoming, start as int, v) implies exists|k: int|
                    0 <= k < ord.len() && #[trigger] ord[k] == v by {
                lemma_closed_reach(edges, ok, incoming, inset, start as int, v);
                let k = choose|k: int| 0 <= k < order.len() && order@[k] == v;
                assert(k != 0);
                assert(ord[k - 1] == v);
            }
            assert forall|k: int| 0 <= k < ord.len() implies {
                &&& 0 <= #[trigger] ord[k] < self.node_seq().len()
                &&& ord[k] != start
                &&& result@[k] == self.node_seq()[ord[k]]
                &&& reachable(self.edge_seq(), ok, incoming, start as int, ord[k])
            } by {
                assert(ord[k] == order@[k + 1] as int);
                assert(order@[0] != order@[k + 1]);
            }
            assert forall|a: int, b: int| 0 <= a < b < ord.len() implies ord[a] != ord[b] by {
                assert(order@[a + 1] != order@[b + 1]);
            }
            assert(self.is_reach_set(start as int, ok, incoming, result@));
        }
        result
    }
}

impl TypeHierarchy {
    /// The ancestors of the type `symbol_name` designates: every type it
    /// reaches along subtype-to-parent links, breadth first (direct parents
    /// first, then nearest first), each once, itself excluded; empty when no
    /// type has that name.
    pub fn get_ancestors(&self, symbol_name: &str) -> (r: Vec<TypeNode>)
        requires
            self.wf(),
        ensures
            self.find_index(symbol_name@) is None ==> r@ == Seq::<TypeNode>::empty(),
            self.find_index(symbol_name@) matches Some(s) ==> self.is_reach_set(s, any_edge(), false, r@),
            self.find_index(symbol_name@) matches Some(s) ==> self.is_level_order(s, false, r@),
    {
        proof {
            self.lemma_find(symbol_name@);
        }
        match self.name_to_id.get(symbol_name) {
            Some(s) => self.collect_by_level(*s, false),
            None => Vec::new(),
        }
    }

    /// The descendants of the type `symbol_name` designates: every type
    /// reaching it along subtype-to-parent links, breadth first (direct
    /// subtypes first, then nearest first), each once, itself excluded;
    /// empty when no type has that name.
    pub fn get_descendants(&self, symbol_name: &str) -> (r: Vec<TypeNode>)
        requires
            self.wf(),
        ensures
            self.find_index(symbol_name@) is None ==> r@ == Seq::<TypeNode>::empty(),
            self.find_index(symbol_name@) matches Some(s) ==> self.is_reach_set(s, any_edge(), true, r@),
            self.find_index(symbol_name@) matches Some(s) ==> self.is_level_order(s, true, r@),
    {
        proof {
            self.lemma_find(symbol_name@);
        }
        match self.name_to_id.get(symbol_name) {
            Some(s) => self.collect_by_level(*s, true),
            None => Vec::new(),
        }
    }

    /// The implementors of the interface `interface_name` designates: every
    /// type reaching it along `implements` links only, breadth first, each
    /// once, itself excluded; empty when no type has that name.
    pub fn get_implementations(&self, interface_name: &str) -> (r: Vec<TypeNode>)
        requires
            self.wf(),
        ensures
            self.find_index(interface_name@) is None ==> r@ == Seq::<TypeNode>::empty(),
            self.find_index(interface_name@) matches Some(s) ==> self.is_reach_set(s, self.implements_edges(), true, r@),
    {
        proof {
            self.lemma_find(interface_name@);
        }
        match self.name_to_id.get(interface_name) {
            Some(s) => self.collect(*s, true, true),
            None => Vec::new(),
        }
    }

    /// The number of types.
    pub fn node_count(&self) -> (n: usize)
        ensures
            n == self.node_seq().len(),
    {
        self.nodes.len()
    }

    /// The number of links.
    pub fn edge_count(&self) -> (n: usize)
        requires
            self.wf(),
        ensures
            n == self.edge_seq().len(),
    {
        self.edges.len()
    }

    /// A snapshot of all types, in insertion order.
    pub fn all_nodes(&self) -> (r: Vec<TypeNode>)
        ensures
            r@ == self.node_seq(),
    {
        let mut r: Vec<TypeNode> = Vec::new();
        let mut i: usize = 0;
        while i < self.nodes.len()
            invariant
                i <= self.nodes.len(),
                r@ == self.nodes@.take(i as int),
            decreases self.nodes.len() - i,
        {
            r.push(self.nodes[i].duplicate());
            proof {
                assert(r@ =~= self.nodes@.take(i + 1));
            }
            i = i + 1;
        }
        proof {
            assert(self.nodes@.take(i as int) =~= self.nodes@);
        }
        r
    }

    /// The type `name` designates, if any.
    pub fn find_node(&self, name: &str) -> (r: Option<TypeNode>)
        requires
            self.wf(),
        ensures
            self.find_index(name@) matches Some(i) ==> r == Some(self.node_seq()[i]),
            self.find_index(name@) is None ==> r is None,
    {
        proof {
            self.lemma_find(name@);
        }
        match self.name_to_id.get(name) {
            Some(i) => Some(self.nodes[*i].duplicate()),
            None => None,
        }
    }
}

impl Default for TypeHierarchy {
    /// An empty hierarchy.
    fn default() -> (h: Self)
        ensures
            h.wf(),
            h.node_seq() == Seq::<TypeNode>::empty(),
            h.edge_seq() == Seq::<(int, int)>::empty(),
    {
        TypeHierarchy::new()
    }
}

/// The name of a symbol kind.
pub open spec fn kind_name(kind: SymbolKind) -> Seq<char> {
    match kind {
        SymbolKind::Class => "class"@,
        SymbolKind::Interface => "interface"@,
        SymbolKind::Struct => "struct"@,
        SymbolKind::Enum => "enum"@,
        SymbolKind::Trait => "trait"@,
        SymbolKind::Function => "function"@,
        SymbolKind::Method => "method"@,
        SymbolKind::TypeAlias => "type_alias"@,
        SymbolKind::Variable => "variable"@,
        SymbolKind::Field => "field"@,
        SymbolKind::Parameter => "parameter"@,
        SymbolKind::Module => "module"@,
        SymbolKind::Macro => "macro"@,
        SymbolKind::Unknown(s) => "unknown("@ + s@ + ")"@,
    }
}

/// The name of a symbol kind: lower case, `type_alias` for type aliases
/// and `unknown(..)` around the name of an unrecognised kind.
pub fn kind_to_string(kind: &SymbolKind) -> (r: String)
    ensures
        r@ == kind_name(*kind),
{
    match kind {
        SymbolKind::Class => "class".to_string(),
        SymbolKind::Interface => "interface".to_string(),
        SymbolKind::Struct => "struct".to_string(),
        SymbolKind::Enum => "enum".to_string(),
        SymbolKind::Trait => "trait".to_string(),
        SymbolKind::Function => "function".to_string(),
        SymbolKind::Method => "method".to_string(),
        SymbolKind::TypeAlias => "type_alias".to_string(),
        SymbolKind::Variable => "variable".to_string(),
        SymbolKind::Field => "field".to_string(),
        SymbolKind::Parameter => "parameter".to_string(),
        SymbolKind::Module => "module".to_string(),
        SymbolKind::Macro => "macro".to_string(),
        SymbolKind::Unknown(s) => {
            let mut r = "unknown(".to_string();
            r.append(s.as_str());
            r.append(")");
            r
        },
    }
}

/// Classes, structs and enums.
pub open spec fn class_like(k: SymbolKind) -> bool {
    k is Class || k is Struct || k is Enum
}

/// Interfaces and traits.
pub open spec fn interface_like(k: SymbolKind) -> bool {
    k is Interface || k is Trait
}

/// The relation a subtype has to its parent, with its confidence in percent.
pub open spec fn relation_of(child: SymbolKind, parent: SymbolKind) -> (Seq<char>, u8) {
    if class_like(child) && class_like(parent) {
        ("extends"@, 90u8)
    } else if class_like(child) && interface_like(parent) {
        ("implements"@, 90u8)
    } else if interface_like(child) && interface_like(parent) {
        ("extends"@, 80u8)
    } else {
        ("unknown"@, 30u8)
    }
}

/// Infers the relation of a subtype to its parent: a class-like type (class,
/// struct, enum) `extends` a class-like parent (90%) and `implements` an
/// interface-like one (interface, trait; 90%); an interface-like type
/// `extends` an interface-like parent (80%); any other pair is `unknown`,
/// with a low 30%.
pub fn infer_inherit_relation(child_kind: &SymbolKind, parent_kind: &SymbolKind) -> (r: (String, u8))
    ensures
        r.0@ == relation_of(*child_kind, *parent_kind).0,
        r.1 == relation_of(*child_kind, *parent_kind).1,
{
    let child_class = matches!(child_kind, SymbolKind::Class | SymbolKind::Struct | SymbolKind::Enum);
    let parent_class = matches!(parent_kind, SymbolKind::Class | SymbolKind::Struct | SymbolKind::Enum);
    let child_interface = matches!(child_kind, SymbolKind::Interface | SymbolKind::Trait);
    let parent_interface = matches!(parent_kind, SymbolKind::Interface | SymbolKind::Trait);
    if child_class && parent_class {
        ("extends".to_string(), 90)
    } else if child_class && parent_interface {
        ("implements".to_string(), 90)
    } else if child_interface && parent_interface {
        ("extends".to_string(), 80)
    } else {
        ("unknown".to_string(), 30)
    }
}

/// The relation table: a class, struct or enum `extends` a class, struct or
/// enum (90%) and `implements` an interface or trait (90%); an interface or
/// trait `extends` an interface or trait (80%); every other pair is
/// `unknown` at 30%.
pub proof fn law_relation_table(child: SymbolKind, parent: SymbolKind)
    ensures
        (child is Class || child is Struct || child is Enum) && (parent is Class || parent is Struct || parent is Enum)
            ==> relation_of(child, parent) == ("extends"@, 90u8),
        (child is Class || child is Struct || child is Enum) && (parent is Interface || parent is Trait)
            ==> relation_of(child, parent) == ("implements"@, 90u8),
        (child is Interface || child is Trait) && (parent is Interface || parent is Trait)
            ==> relation_of(child, parent) == ("extends"@, 80u8),
        !((child is Class || child is Struct || child is Enum || child is Interface || child is Trait)
            && (parent is Class || parent is Struct || parent is Enum || parent is Interface || parent is Trait))
            || ((child is Interface || child is Trait) && (parent is Class || parent is Struct || parent is Enum))
            ==> relation_of(child, parent) == ("unknown"@, 30u8),
{
}

/// Kinds that take part in the hierarchy.
pub open spec fn is_type_kind(k: SymbolKind) -> bool {
    k is Class || k is Interface || k is Struct || k is Enum || k is Trait
}

/// Symbol `i` is the last one with its id.
pub open spec fn last_of_id(s: Seq<Symbol>, i: int) -> bool {
    forall|j: int| i < j < s.len() ==> #[trigger] s[j].id@ != s[i].id@
}

/// The indices below `k` of symbols that are the last with their id: the
/// store's entries keyed by id, a later entry replacing an earlier one.
pub open spec fn kept_prefix(s: Seq<Symbol>, k: int) -> Seq<int>
    decreases k,
{
    if k <= 0 {
        Seq::empty()
    } else if last_of_id(s, k - 1) {
        kept_prefix(s, k - 1).push(k - 1)
    } else {
        kept_prefix(s, k - 1)
    }
}

/// The index of the last symbol with id `id`, if any.
pub open spec fn last_with_id(s: Seq<Symbol>, id: Seq<char>) -> Option<int> {
    if exists|i: int| 0 <= i < s.len() && #[trigger] s[i].id@ == id {
        Some(choose|i: int| 0 <= i < s.len() && #[trigger] s[i].id@ == id && last_of_id(s, i))
    } else {
        None
    }
}

/// The node a symbol becomes, as (id, name, kind name, file).
pub open spec fn type_view(sym: Symbol) -> (Seq<char>, Seq<char>, Seq<char>, Seq<char>) {
    (sym.id@, sym.name@, kind_name(sym.kind), sym.location.file_path@)
}

/// A node as (id, name, kind name, file).
pub open spec fn node_view(nd: TypeNode) -> (Seq<char>, Seq<char>, Seq<char>, Seq<char>) {
    (nd.symbol_id@, nd.name@, nd.kind@, nd.file_path@)
}

/// The kept symbols of a hierarchy kind, as nodes, in order.
pub open spec fn type_views(s: Seq<Symbol>, kept: Seq<int>) -> Seq<(Seq<char>, Seq<char>, Seq<char>, Seq<char>)>
    decreases kept.len(),
{
    if kept.len() == 0 {
        Seq::empty()
    } else if is_type_kind(s[kept.last()].kind) {
        type_views(s, kept.drop_last()).push(type_view(s[kept.last()]))
    } else {
        type_views(s, kept.drop_last())
    }
}

/// What the parent link of symbol `i` adds, given the current node names:
/// the new names, and the link and payload added (none or one). A
/// hierarchy-kind symbol whose parent id names a stored symbol gets its
/// parent added (unless a node has the parent's name) and a link from its
/// name to the parent's name.
pub open spec fn parent_step(s: Seq<Symbol>, i: int, names: Seq<Seq<char>>) -> (
    Seq<Seq<char>>,
    Seq<(int, int)>,
    Seq<(Seq<char>, u8)>,
) {
    let sym = s[i];
    match sym.parent_id {
        Some(pid) => if is_type_kind(sym.kind) {
            match last_with_id(s, pid@) {
                Some(pi) => {
                    let par = s[pi];
                    let names1 = if last_named(names, par.name@) is Some {
                        names
                    } else {
                        names.push(par.name@)
                    };
                    match (last_named(names1, sym.name@), last_named(names1, par.name@)) {
                        (Some(a), Some(b)) => (names1, seq![(a, b)], seq![relation_of(sym.kind, par.kind)]),
                        _ => (names1, Seq::empty(), Seq::empty()),
                    }
                },
                None => (names, Seq::empty(), Seq::empty()),
            }
        } else {
            (names, Seq::empty(), Seq::empty())
        },
        None => (names, Seq::empty(), Seq::empty()),
    }
}

/// Node names, links and link payloads after the parent links of the kept
/// symbols, in order.
pub open spec fn inherit_phase(s: Seq<Symbol>, kept: Seq<int>, names0: Seq<Seq<char>>) -> (
    Seq<Seq<char>>,
    Seq<(int, int)>,
    Seq<(Seq<char>, u8)>,
)
    decreases kept.len(),
{
    if kept.len() == 0 {
        (names0, Seq::empty(), Seq::empty())
    } else {
        let prev = inherit_phase(s, kept.drop_last(), names0);
        let st = parent_step(s, kept.last(), prev.0);
        (st.0, prev.1 + st.1, prev.2 + st.2)
    }
}

/// The (relation, confidence) of each link.
pub open spec fn link_views(d: Seq<InheritEdge>) -> Seq<(Seq<char>, u8)> {
    d.map_values(|e: InheritEdge| (e.relation@, e.confidence_percent))
}

/// Two symbols that are each the last with their id have different ids.
proof fn lemma_last_of_id_unique(s: Seq<Symbol>, a: int, b: int)
    requires
        0 <= a < b < s.len(),
        last_of_id(s, a),
    ensures
        s[a].id@ != s[b].id@,
{
    assert(s[b].id@ != s[a].id@);
}

impl TypeHierarchy {
    /// Adds the parent link of symbol `idx` (see `parent_step`).
    #[verifier::spinoff_prover]
    #[verifier::rlimit(80)]
    fn link_parent(&mut self, symbols: &[Symbol], id_map: &StringHashMap<usize>, idx: usize)
        requires
            old(self).wf(),
            idx < symbols.len(),
            old(self).node_seq().len() + 2 < index_limit(),
            old(self).edge_seq().len() + 2 < index_limit(),
            forall|k: Seq<char>| #[trigger] id_map@.contains_key(k) <==> exists|i: int| 0 <= i < symbols.len() && symbols@[i].id@ == k,
            forall|k: Seq<char>| #[trigger] id_map@.contains_key(k) ==> id_map@[k] < symbols.len() && symbols@[id_map@[k] as int].id@ == k
                && last_of_id(symbols@, id_map@[k] as int),
        ensures
            final(self).wf(),
            final(self).names() == parent_step(symbols@, idx as int, old(self).names()).0,
            final(self).edge_seq() == old(self).edge_seq() + parent_step(symbols@, idx as int, old(self).names()).1,
            link_views(final(self).edge_data()) == link_views(old(self).edge_data()) + parent_step(symbols@, idx as int, old(self).names()).2,
            final(self).node_seq().take(old(self).node_seq().len() as int) == old(self).node_seq(),
            old(self).node_seq().len() <= final(self).node_seq().len() <= old(self).node_seq().len() + 1,
            final(self).edge_seq().len() <= old(self).edge_seq().len() + 1,
            forall|i: int|
                old(self).node_seq().len() <= i < final(self).node_seq().len() ==> exists|j: int|
                    0 <= j < symbols.len() && node_view(#[trigger] final(self).node_seq()[i]) == type_view(symbols@[j]),
    {
        let ghost g0 = *self;
        let ghost st = parent_step(symbols@, idx as int, g0.names());
        let sym = &symbols[idx];
        let mut linked = false;
        if let Some(pid) = &sym.parent_id {
            if matches!(sym.kind, SymbolKind::Class | SymbolKind::Interface | SymbolKind::Struct | SymbolKind::Enum | SymbolKind::Trait) {
                if let Some(pi) = id_map.get(pid.as_str()) {
                    let pi = *pi;
                    proof {
                        let c = choose|i: int| 0 <= i < symbols@.len() && #[trigger] symbols@[i].id@ == pid@ && last_of_id(symbols@, i);
                        if c < pi {
                            lemma_last_of_id_unique(symbols@, c, pi as int);
                        }
                        if c > pi {
                            lemma_last_of_id_unique(symbols@, pi as int, c);
                        }
                        assert(last_with_id(symbols@, pid@) == Some(pi as int));
                    }
                    let par = &symbols[pi];
                    proof {
                        self.lemma_find(par.name@);
                    }
                    if !self.name_to_id.contains_key(par.name.as_str()) {
                        let node = TypeNode {
                            symbol_id: par.id.clone(),
                            name: par.name.clone(),
                            kind: kind_to_string(&par.kind),
                            file_path: par.location.file_path.clone(),
                        };
                        self.add_node(node);
                        proof {
                            assert(self.names() =~= g0.names().push(par.name@));
                            assert(node_view(self.node_seq()[g0.node_seq().len() as int]) == type_view(symbols@[pi as int]));
                        }
                    }
                    let ghost g1 = *self;
                    proof {
                        assert(g1.names() == st.0);
                        assert(self.node_seq().take(g0.node_seq().len() as int) =~= g0.node_seq());
                    }
                    let (relation, confidence) = infer_inherit_relation(&sym.kind, &par.kind);
                    let r = self.add_edge(sym.name.as_str(), par.name.as_str(), InheritEdge { relation, confidence_percent: confidence });
                    proof {
                        if r is Some {
                            assert(st.1 == seq![(g1.find_index(sym.name@)->0, g1.find_index(par.name@)->0)]);
                            assert(st.2 == seq![relation_of(sym.kind, par.kind)]);
                            assert(link_views(self.edge_data()) =~= link_views(g0.edge_data()) + st.2);
                            assert(self.edge_seq() =~= g0.edge_seq() + st.1);
                        } else {
                            assert(st.1 == Seq::<(int, int)>::empty());
                            assert(st.2 == Seq::<(Seq<char>, u8)>::empty());
                            assert(link_views(self.edge_data()) =~= link_views(g0.edge_data()) + st.2);
                            assert(self.edge_seq() =~= g0.edge_seq() + st.1);
                        }
                    }
                    linked = true;
                }
            }
        }
        if !linked {
            proof {
                assert(st.1 == Seq::<(int, int)>::empty());
                assert(st.2 == Seq::<(Seq<char>, u8)>::empty());
                assert(self.edge_seq() =~= g0.edge_seq() + st.1);
                assert(link_views(self.edge_data()) =~= link_views(g0.edge_data()) + st.2);
                assert(self.node_seq().take(g0.node_seq().len() as int) =~= g0.node_seq());
            }
        }
    }
}

/// The most symbols a hierarchy is built from, so that `petgraph`'s `u32`
/// indices cannot run out.
pub open spec fn max_hierarchy_symbols() -> int {
    0x1000_0000
}

/// The names of node views.
pub open spec fn view_names(v: Seq<(Seq<char>, Seq<char>, Seq<char>, Seq<char>)>) -> Seq<Seq<char>> {
    v.map_values(|x: (Seq<char>, Seq<char>, Seq<char>, Seq<char>)| x.1)
}

/// Kept indices are increasing and below `k`.
proof fn lemma_kept_prefix(s: Seq<Symbol>, k: int)
    requires
        0 <= k <= s.len(),
    ensures
        kept_prefix(s, k).len() <= k,
        forall|m: int| 0 <= m < kept_prefix(s, k).len() ==> 0 <= #[trigger] kept_prefix(s, k)[m] < k,
    decreases k,
{
    if k > 0 {
        lemma_kept_prefix(s, k - 1);
    }
}

impl TypeHierarchy {
    /// Builds the hierarchy from the stored symbols (in store order; a later
    /// symbol with the same id replaces an earlier one): first a node for
    /// every kept class, interface, struct, enum and trait, then the parent
    /// links (see `type_views` and `inherit_phase`).
    pub fn build_from_sled(symbols: &[Symbol]) -> (h: TypeHierarchy)
        requires
            symbols.len() < max_hierarchy_symbols(),
        ensures
            h.wf(),
            ({
                let kept = kept_prefix(symbols@, symbols.len() as int);
                let first = type_views(symbols@, kept);
                let out = inherit_phase(symbols@, kept, view_names(first));
                &&& h.names() == out.0
                &&& h.node_seq().take(first.len() as int).map_values(|nd: TypeNode| node_view(nd)) == first
                &&& h.edge_seq() == out.1
                &&& link_views(h.edge_data()) == out.2
                &&& forall|i: int| first.len() <= i < h.node_seq().len() ==> exists|j: int|
                    0 <= j < symbols.len() && node_view(#[trigger] h.node_seq()[i]) == type_view(symbols@[j])
            }),
    {
        let n = symbols.len();
        // the stored symbols keyed by id: the last index of each id
        let mut id_map: StringHashMap<usize> = StringHashMap::new();
        let mut i: usize = 0;
        while i < n
            invariant
                i <= n,
                n == symbols.len(),
                forall|k: Seq<char>| #[trigger] id_map@.contains_key(k) <==> exists|j: int| 0 <= j < i && symbols@[j].id@ == k,
                forall|k: Seq<char>| #[trigger] id_map@.contains_key(k) ==> id_map@[k] < i && symbols@[id_map@[k] as int].id@ == k
                    && forall|j: int| id_map@[k] < j < i ==> #[trigger] symbols@[j].id@ != k,
            decreases n - i,
        {
            id_map.insert(symbols[i].id.clone(), i);
            proof {
                assert forall|k: Seq<char>| #[trigger] id_map@.contains_key(k) <==> exists|j: int| 0 <= j < i + 1 && symbols@[j].id@ == k by {
                    if k == symbols@[i as int].id@ {
                        assert(symbols@[i as int].id@ == k);
                    }
                }
            }
            i = i + 1;
        }
        proof {
            assert forall|k: Seq<char>| #[trigger] id_map@.contains_key(k) implies last_of_id(symbols@, id_map@[k] as int) by {
                assert forall|j: int| id_map@[k] < j < symbols@.len() implies #[trigger] symbols@[j].id@ != symbols@[id_map@[k] as int].id@ by {
                    assert(symbols@[j].id@ != k);
                }
            }
        }
        // the kept symbols: the last of each id
        let mut kept: Vec<usize> = Vec::new();
        let mut i: usize = 0;
        while i < n
            invariant
                i <= n,
                n == symbols.len(),
                forall|k: Seq<char>| #[trigger] id_map@.contains_key(k) <==> exists|j: int| 0 <= j < n && symbols@[j].id@ == k,
                forall|k: Seq<char>| #[trigger] id_map@.contains_key(k) ==> id_map@[k] < n && symbols@[id_map@[k] as int].id@ == k
                    && last_of_id(symbols@, id_map@[k] as int),
                kept@.map_values(|x: usize| x as int) == kept_prefix(symbols@, i as int),
            decreases n - i,
        {
            proof {
                assert(symbols@[i as int].id@ == symbols@[i as int].id@);
                assert(id_map@.contains_key(symbols@[i as int].id@));
            }
            let last = *id_map.get(symbols[i].id.as_str()).unwrap();
            proof {
                let k = symbols@[i as int].id@;
                if last == i {
                    assert(last_of_id(symbols@, i as int));
                } else {
                    if last < i {
                        assert(!last_of_id(symbols@, last as int)) by {
                            assert(symbols@[i as int].id@ == symbols@[last as int].id@);
                        }
                    } else {
                        assert(!last_of_id(symbols@, i as int)) by {
                            assert(symbols@[last as int].id@ == symbols@[i as int].id@);
                        }
                    }
                }
            }
            if last == i {
                kept.push(i);
            }
            proof {
                assert(kept@.map_values(|x: usize| x as int) =~= kept_prefix(symbols@, i + 1));
            }
            i = i + 1;
        }
        let ghost kv = kept@.map_values(|x: usize| x as int);
        proof {
            lemma_kept_prefix(symbols@, n as int);
            assert forall|m: int| 0 <= m < kept.len() implies #[trigger] kept@[m] < n by {
                assert(kv[m] == kept@[m] as int);
            }
        }
        // the hierarchy kinds become nodes
        let mut h = TypeHierarchy::new();
        let mut m: usize = 0;
        proof {
            assert(h.node_seq().map_values(|nd: TypeNode| node_view(nd)) =~= type_views(symbols@, kv.take(0)));
        }
        while m < kept.len()
            invariant
                m <= kept.len(),
                n == symbols.len(),
                n < max_hierarchy_symbols(),
                kv == kept@.map_values(|x: usize| x as int),
                kept.len() <= n,
                forall|j: int| 0 <= j < kept.len() ==> #[trigger] kept@[j] < n,
                h.wf(),
                h.edge_seq() == Seq::<(int, int)>::empty(),
                h.edge_data() == Seq::<InheritEdge>::empty(),
                h.node_seq().len() <= m,
                h.node_seq().map_values(|nd: TypeNode| node_view(nd)) == type_views(symbols@, kv.take(m as int)),
            decreases kept.len() - m,
        {
            proof {
                assert(kv.take(m + 1).drop_last() =~= kv.take(m as int));
                assert(kv.take(m + 1).last() == kept@[m as int] as int);
            }
            let sym = &symbols[kept[m]];
            if matches!(sym.kind, SymbolKind::Class | SymbolKind::Interface | SymbolKind::Struct | SymbolKind::Enum | SymbolKind::Trait) {
                let ghost before = h;
                let node = TypeNode {
                    symbol_id: sym.id.clone(),
                    name: sym.name.clone(),
                    kind: kind_to_string(&sym.kind),
                    file_path: sym.location.file_path.clone(),
                };
                h.add_node(node);
                proof {
                    assert(h.node_seq().map_values(|nd: TypeNode| node_view(nd)) =~= before.node_seq().map_values(|nd: TypeNode| node_view(nd)).push(
                        type_view(*sym),
                    ));
                }
            }
            m = m + 1;
        }
        proof {
            assert(kv.take(m as int) =~= kv);
        }
        let ghost first = type_views(symbols@, kv);
        let ghost g2 = h;
        proof {
            assert(h.names() =~= view_names(first));
        }
        // the parent links
        let mut m: usize = 0;
        while m < kept.len()
            invariant
                m <= kept.len(),
                n == symbols.len(),
                n < max_hierarchy_symbols(),
                kv == kept@.map_values(|x: usize| x as int),
                kept.len() <= n,
                forall|j: int| 0 <= j < kept.len() ==> #[trigger] kept@[j] < n,
                forall|k: Seq<char>| #[trigger] id_map@.contains_key(k) <==> exists|j: int| 0 <= j < symbols.len() && symbols@[j].id@ == k,
                forall|k: Seq<char>| #[trigger] id_map@.contains_key(k) ==> id_map@[k] < symbols.len() && symbols@[id_map@[k] as int].id@ == k
                    && last_of_id(symbols@, id_map@[k] as int),
                h.wf(),
                g2.node_seq().len() <= n,
                h.node_seq().len() <= g2.node_seq().len() + m,
                h.node_seq().len() >= g2.node_seq().len(),
                h.edge_seq().len() <= m,
                h.node_seq().take(g2.node_seq().len() as int) == g2.node_seq(),
                h.names() == inherit_phase(symbols@, kv.take(m as int), view_names(first)).0,
                h.edge_seq() == inherit_phase(symbols@, kv.take(m as int), view_names(first)).1,
                link_views(h.edge_data()) == inherit_phase(symbols@, kv.take(m as int), view_names(first)).2,
                forall|i: int| g2.node_seq().len() <= i < h.node_seq().len() ==> exists|j: int|
                    0 <= j < symbols.len() && node_view(#[trigger] h.node_seq()[i]) == type_view(symbols@[j]),
            decreases kept.len() - m,
        {
            proof {
                assert(kv.take(m + 1).drop_last() =~= kv.take(m as int));
                assert(kv.take(m + 1).last() == kept@[m as int] as int);
            }
            let ghost before = h;
            h.link_parent(symbols, &id_map, kept[m]);
            proof {
                assert(h.node_seq().take(g2.node_seq().len() as int) =~= g2.node_seq()) by {
                    assert forall|j: int| 0 <= j < g2.node_seq().len() implies h.node_seq()[j] == g2.node_seq()[j] by {
                        assert(h.node_seq()[j] == h.node_seq().take(before.node_seq().len() as int)[j]);
                        assert(before.node_seq()[j] == before.node_seq().take(g2.node_seq().len() as int)[j]);
                    }
                }
                assert forall|i: int| g2.node_seq().len() <= i < h.node_seq().len() implies exists|j: int|
                    0 <= j < symbols.len() && node_view(#[trigger] h.node_seq()[i]) == type_view(symbols@[j]) by {
                    if i < before.node_seq().len() {
                        assert(h.node_seq()[i] == h.node_seq().take(before.node_seq().len() as int)[i]);
                        assert(node_view(before.node_seq()[i]) == node_view(h.node_seq()[i]));
                    }
                }
            }
            m = m + 1;
        }
        proof {
            assert(kv.take(m as int) =~= kv);
            assert(h.node_seq().take(first.len() as int).map_values(|nd: TypeNode| node_view(nd)) =~= first) by {
                assert(g2.node_seq().map_values(|nd: TypeNode| node_view(nd)).len() == first.len());
            }
        }
        h
    }
}

impl TypeHierarchy {
    /// The nodes other than `s` reachable from `s` along the accepted edges.
    pub open spec fn reach_nodes(&self, s: int, ok: spec_fn(int) -> bool, incoming: bool) -> Set<int> {
        Set::new(|v: int| 0 <= v < self.node_seq().len() && v != s && reachable(self.edge_seq(), ok, incoming, s, v))
    }

    /// A traversal result lists exactly that many nodes.
    pub proof fn lemma_reach_set_len(&self, s: int, ok: spec_fn(int) -> bool, incoming: bool, r: Seq<TypeNode>)
        requires
            self.is_reach_set(s, ok, incoming, r),
        ensures
            r.len() == self.reach_nodes(s, ok, incoming).len(),
    {
        let ord = choose|ord: Seq<int>| {
            &&& ord.len() == r.len()
            &&& forall|k: int| 0 <= k < ord.len() ==> {
                &&& 0 <= #[trigger] ord[k] < self.node_seq().len()
                &&& ord[k] != s
                &&& r[k] == self.node_seq()[ord[k]]
                &&& reachable(self.edge_seq(), ok, incoming, s, ord[k])
            }
            &&& forall|a: int, b: int| 0 <= a < b < ord.len() ==> ord[a] != ord[b]
            &&& forall|v: int|
                0 <= v < self.node_seq().len() && v != s && reachable(self.edge_seq(), ok, incoming, s, v) ==> exists|k: int|
                    0 <= k < ord.len() && #[trigger] ord[k] == v
        };
        assert(ord.no_duplicates()) by {
            assert forall|i: int, j: int| 0 <= i < ord.len() && 0 <= j < ord.len() && i != j implies ord[i] != ord[j] by {
                if i < j {
                    assert(ord[i] != ord[j]);
                } else {
                    assert(ord[j] != ord[i]);
                }
            }
        }
        ord.unique_seq_to_set();
        assert(ord.to_set() =~= self.reach_nodes(s, ok, incoming)) by {
            assert forall|v: int| ord.to_set().contains(v) implies self.reach_nodes(s, ok, incoming).contains(v) by {
                let k = choose|k: int| 0 <= k < ord.len() && ord[k] == v;
                assert(ord[k] != s);
            }
            assert forall|v: int| self.reach_nodes(s, ok, incoming).contains(v) implies ord.to_set().contains(v) by {
                let k = choose|k: int| 0 <= k < ord.len() && #[trigger] ord[k] == v;
                assert(ord.contains(v));
            }
        }
    }
}

} // verus!
