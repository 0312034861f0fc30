//! Dependency graphs at file and symbol level.
//!
//! Nodes are identified by a string id (a file path, a module name or a
//! stable symbol id); an edge `a -> b` means "a depends on b" and carries the
//! kind of dependency and how many times it was seen.
use vstd::prelude::*;
use vstd::hash_map::StringHashMap;

use petgraph::graph::DiGraph;

use crate::text::{key_parts, split_key};
use crate::types::{Import, ImportResolution};
use crate::graph::topology::{incident_edges, index_limit, lemma_incident_desc, topology_add_edge, topology_add_node, topology_edge_endpoints, topology_edges, topology_edges_directed, topology_find_edge, topology_new, topology_node_count, topology_wf};

verus! {

/// The level a dependency-graph node belongs to.
#[derive(Debug, Clone, Copy, PartialEq, Eq)]
pub enum DepNodeKind {
    File,
    Symbol,
    Module,
}

/// A node of a dependency graph.
#[derive(Debug, Clone, PartialEq, Eq)]
pub struct DepNode {
    /// Unique id (file path, module name or symbol id).
    pub id: String,
    /// Display name.
    pub name: String,
    /// Node level.
    pub kind: DepNodeKind,
}

/// An edge of a dependency graph.
#[derive(Debug, Clone, PartialEq, Eq)]
pub struct DepEdge {
    /// Kind of dependency (`import`, `call`, `reference`).
    pub edge_type: String,
    /// How many times this dependency was seen.
    pub count: u64,
}

impl DepNode {
    /// A field-by-field copy.
    pub fn duplicate(&self) -> (r: DepNode)
        ensures
            r == *self,
    {
        DepNode { id: self.id.clone(), name: self.name.clone(), kind: self.kind }
    }
}

impl DepEdge {
    /// A field-by-field copy.
    pub fn duplicate(&self) -> (r: DepEdge)
        ensures
            r == *self,
    {
        DepEdge { edge_type: self.edge_type.clone(), count: self.count }
    }
}

/// A directed dependency graph whose nodes have unique ids.
pub struct DependencyGraph {
    /// The shape of the graph; node `i` is `nodes[i]`, edge `k` is `edges[k]`.
    pub(crate) graph: DiGraph<(), ()>,
    /// Node payloads.
    pub(crate) nodes: Vec<DepNode>,
    /// Edge payloads.
    pub(crate) edges: Vec<DepEdge>,
    /// Node id -> node index.
    pub(crate) node_map: StringHashMap<usize>,
}

impl DependencyGraph {
    /// The nodes, in insertion order.
    pub closed spec fn node_seq(&self) -> Seq<DepNode> {
        self.nodes@
    }

    /// The edges as (source index, target index), in insertion order.
    pub closed spec fn edge_seq(&self) -> Seq<(int, int)> {
        topology_edges(self.graph)
    }

    /// The edge payloads, parallel to `edge_seq`.
    pub closed spec fn edge_data(&self) -> Seq<DepEdge> {
        self.edges@
    }

    /// The index of the node whose id is `id`, if any.
    pub open spec fn index_of(&self, id: Seq<char>) -> Option<int> {
        if exists|i: int| 0 <= i < self.node_seq().len() && #[trigger] self.node_seq()[i].id@ == id {
            Some(choose|i: int| 0 <= i < self.node_seq().len() && #[trigger] self.node_seq()[i].id@ == id)
        } else {
            None
        }
    }

    /// The underlying topology.
    pub closed spec fn topology(&self) -> DiGraph<(), ()> {
        self.graph
    }

    /// Internal consistency: the payload vectors match the topology and the
    /// id map points every id at the one node carrying it.
    pub closed spec fn wf(&self) -> bool {
        &&& topology_wf(self.graph)
        &&& self.nodes@.len() == topology_node_count(self.graph)
        &&& self.edges@.len() == topology_edges(self.graph).len()
        &&& forall|k: Seq<char>| #[trigger]
            self.node_map@.contains_key(k) ==> self.node_map@[k] < self.nodes@.len()
                && self.nodes@[self.node_map@[k] as int].id@ == k
        &&& forall|i: int|
            0 <= i < self.nodes@.len() ==> #[trigger] self.node_map@.contains_key(self.nodes@[i].id@)
                && self.node_map@[self.nodes@[i].id@] == i
    }

    /// Ids are unique among the nodes.
    pub proof fn lemma_ids_unique(&self, i: int, j: int)
        requires
            self.wf(),
            0 <= i < self.node_seq().len(),
            0 <= j < self.node_seq().len(),
            self.node_seq()[i].id@ == self.node_seq()[j].id@,
        ensures
            i == j,
    {
        assert(self.node_map@.contains_key(self.nodes@[i].id@));
        assert(self.node_map@.contains_key(self.nodes@[j].id@));
    }

    /// `index_of` agrees with the id map.
    proof fn lemma_index_of(&self, id: Seq<char>)
        requires
            self.wf(),
        ensures
            self.node_map@.contains_key(id) ==> self.index_of(id) == Some(self.node_map@[id] as int),
            !self.node_map@.contains_key(id) ==> self.index_of(id) is None,
    {
        if self.node_map@.contains_key(id) {
            let i = self.node_map@[id] as int;
            assert(self.node_seq()[i].id@ == id);
            let c = choose|c: int| 0 <= c < self.node_seq().len() && #[trigger] self.node_seq()[c].id@ == id;
            self.lemma_ids_unique(c, i);
        } else {
            if exists|i: int| 0 <= i < self.node_seq().len() && #[trigger] self.node_seq()[i].id@ == id {
                let c = choose|c: int| 0 <= c < self.node_seq().len() && #[trigger] self.node_seq()[c].id@ == id;
                assert(self.node_map@.contains_key(self.nodes@[c].id@));
            }
        }
    }

    /// An empty graph.
    pub fn new() -> (g: Self)
        ensures
            g.wf(),
            g.node_seq() == Seq::<DepNode>::empty(),
            g.edge_seq() == Seq::<(int, int)>::empty(),
            g.edge_data() == Seq::<DepEdge>::empty(),
    {
        DependencyGraph {
            graph: topology_new(),
            nodes: Vec::new(),
            edges: Vec::new(),
            node_map: StringHashMap::new(),
        }
    }

    /// Adds `node` unless a node with the same id exists; returns the index of
    /// the node carrying that id.
    pub fn add_node(&mut self, node: DepNode) -> (idx: usize)
        requires
            old(self).wf(),
            old(self).node_seq().len() + 1 < index_limit(),
        ensures
            final(self).wf(),
            final(self).edge_seq() == old(self).edge_seq(),
            final(self).edge_data() == old(self).edge_data(),
            old(self).index_of(node.id@) matches Some(i) ==> idx == i && final(self).node_seq()
                == old(self).node_seq(),
            old(self).index_of(node.id@) is None ==> idx == old(self).node_seq().len()
                && final(self).node_seq() == old(self).node_seq().push(node),
            final(self).index_of(node.id@) == Some(idx as int),
    {
        proof {
            old(self).lemma_index_of(node.id@);
        }
        match self.node_map.get(node.id.as_str()) {
            Some(idx) => {
                let idx = *idx;
                idx
            },
            None => {
                let idx = topology_add_node(&mut self.graph);
                let key = node.id.clone();
                self.nodes.push(node);
                self.node_map.insert(key, idx);
                proof {
                    assert forall|k: Seq<char>| #[trigger]
                        self.node_map@.contains_key(k) implies self.node_map@[k] < self.nodes@.len()
                        && self.nodes@[self.node_map@[k] as int].id@ == k by {
                        if k != self.nodes@[idx as int].id@ {
                            assert(old(self).node_map@.contains_key(k));
                        }
                    }
                    assert forall|i: int|
                        0 <= i < self.nodes@.len() implies #[trigger] self.node_map@.contains_key(
                        self.nodes@[i].id@,
                    ) && self.node_map@[self.nodes@[i].id@] == i by {
                        if i < idx {
                            assert(old(self).node_map@.contains_key(old(self).nodes@[i].id@));
                        }
                    }
                    self.lemma_index_of(self.nodes@[idx as int].id@);
                }
                idx
            },
        }
    }

    /// The ids of the nodes, in node order.
    pub open spec fn node_ids(&self) -> Seq<Seq<char>> {
        self.node_seq().map_values(|n: DepNode| n.id@)
    }

    /// The edges as (source id, target id), in edge order.
    pub open spec fn links(&self) -> Seq<(Seq<char>, Seq<char>)> {
        self.edge_seq().map_values(|e: (int, int)| (self.node_ids()[e.0], self.node_ids()[e.1]))
    }

    /// No two edges join the same ordered pair of nodes.
    pub open spec fn no_parallel_edges(&self) -> bool {
        forall|a: int, b: int|
            0 <= a < b < self.edge_seq().len() ==> #[trigger] self.edge_seq()[a]
                != #[trigger] self.edge_seq()[b]
    }

    /// Every edge count can still be incremented.
    pub open spec fn counts_below_max(&self) -> bool {
        forall|k: int|
            0 <= k < self.edge_data().len() ==> #[trigger] self.edge_data()[k].count < u64::MAX
    }

    /// Edge endpoints are valid node indices.
    proof fn lemma_edge_bounds(&self, k: int)
        requires
            self.wf(),
            0 <= k < self.edge_seq().len(),
        ensures
            0 <= self.edge_seq()[k].0 < self.node_seq().len(),
            0 <= self.edge_seq()[k].1 < self.node_seq().len(),
    {
        assert(0 <= topology_edges(self.graph)[k].0 < topology_node_count(self.graph));
    }

    /// The edge from node `a` to node `b` exists exactly when its ids are linked.
    proof fn lemma_link_iff_edge(&self, a: int, b: int)
        requires
            self.wf(),
            0 <= a < self.node_seq().len(),
            0 <= b < self.node_seq().len(),
        ensures
            self.links().contains((self.node_ids()[a], self.node_ids()[b])) <==> exists|k: int|
                0 <= k < self.edge_seq().len() && self.edge_seq()[k] == (a, b),
    {
        if self.links().contains((self.node_ids()[a], self.node_ids()[b])) {
            let k = choose|k: int|
                0 <= k < self.links().len() && self.links()[k] == (
                    self.node_ids()[a],
                    self.node_ids()[b],
                );
            self.lemma_edge_bounds(k);
            self.lemma_ids_unique(self.edge_seq()[k].0, a);
            self.lemma_ids_unique(self.edge_seq()[k].1, b);
            assert(self.edge_seq()[k] == (a, b));
        }
        if exists|k: int| 0 <= k < self.edge_seq().len() && self.edge_seq()[k] == (a, b) {
            let k = choose|k: int| 0 <= k < self.edge_seq().len() && self.edge_seq()[k] == (a, b);
            assert(self.links()[k] == (self.node_ids()[a], self.node_ids()[b]));
        }
    }

    /// Returns the index of the node with id `id`, creating a node with that
    /// id, name `name` and kind `kind` when there is none.
    pub fn get_or_create_node(&mut self, id: &str, name: &str, kind: DepNodeKind) -> (idx: usize)
        requires
            old(self).wf(),
            old(self).node_seq().len() + 1 < index_limit(),
        ensures
            final(self).wf(),
            final(self).edge_seq() == old(self).edge_seq(),
            final(self).edge_data() == old(self).edge_data(),
            old(self).index_of(id@) matches Some(i) ==> idx == i && final(self).node_seq()
                == old(self).node_seq(),
            old(self).index_of(id@) is None ==> {
                &&& idx == old(self).node_seq().len()
                &&& final(self).node_seq() == old(self).node_seq().push(final(self).node_seq()[idx as int])
                &&& final(self).node_seq()[idx as int].id@ == id@
                &&& final(self).node_seq()[idx as int].name@ == name@
                &&& final(self).node_seq()[idx as int].kind == kind
            },
            final(self).index_of(id@) == Some(idx as int),
    {
        proof {
            old(self).lemma_index_of(id@);
        }
        if let Some(idx) = self.node_map.get(id) {
            return *idx;
        }
        let node = DepNode { id: id.to_string(), name: name.to_string(), kind };
        self.add_node(node)
    }

    /// Adds the edge `source_id -> target_id` with payload `edge`; when an
    /// edge between the two nodes already exists, its count is increased by
    /// one instead. Returns `None`, changing nothing, when either node is missing.
    pub fn add_edge(&mut self, source_id: &str, target_id: &str, edge: DepEdge) -> (r: Option<()>)
        requires
            old(self).wf(),
            old(self).counts_below_max(),
            old(self).edge_seq().len() + 1 < index_limit(),
        ensures
            final(self).wf(),
            final(self).node_seq() == old(self).node_seq(),
            r is None <==> (old(self).index_of(source_id@) is None || old(self).index_of(target_id@) is None),
            r is None ==> final(self).edge_seq() == old(self).edge_seq()
                && final(self).edge_data() == old(self).edge_data(),
            r is Some ==> ({
                let a = old(self).index_of(source_id@)->0;
                let b = old(self).index_of(target_id@)->0;
                if exists|k: int| 0 <= k < old(self).edge_seq().len() && old(self).edge_seq()[k] == (a, b) {
                    &&& final(self).edge_seq() == old(self).edge_seq()
                    &&& exists|k: int| {
                        &&& 0 <= k < old(self).edge_seq().len()
                        &&& old(self).edge_seq()[k] == (a, b)
                        &&& forall|j: int| k < j < old(self).edge_seq().len() ==> old(self).edge_seq()[j] != (a, b)
                        &&& final(self).edge_data() == old(self).edge_data().update(
                            k,
                            DepEdge { edge_type: old(self).edge_data()[k].edge_type, count: (old(self).edge_data()[k].count + 1) as u64 },
                        )
                    }
                } else {
                    &&& final(self).edge_seq() == old(self).edge_seq().push((a, b))
                    &&& final(self).edge_data() == old(self).edge_data().push(edge)
                }
            }),
    {
        proof {
            old(self).lemma_index_of(source_id@);
            old(self).lemma_index_of(target_id@);
        }
        let a = match self.node_map.get(source_id) {
            Some(a) => *a,
            None => return None,
        };
        let b = match self.node_map.get(target_id) {
            Some(b) => *b,
            None => return None,
        };
        self.link(a, b, edge);
        Some(())
    }

    /// Counts one more dependency from node `a` to node `b`.
    fn link(&mut self, a: usize, b: usize, edge: DepEdge)
        requires
            old(self).wf(),
            old(self).counts_below_max(),
            old(self).edge_seq().len() + 1 < index_limit(),
            a < old(self).node_seq().len(),
            b < old(self).node_seq().len(),
        ensures
            final(self).wf(),
            final(self).node_seq() == old(self).node_seq(),
            if exists|k: int| 0 <= k < old(self).edge_seq().len() && old(self).edge_seq()[k] == (a as int, b as int) {
                &&& final(self).edge_seq() == old(self).edge_seq()
                &&& exists|k: int| {
                    &&& 0 <= k < old(self).edge_seq().len()
                    &&& old(self).edge_seq()[k] == (a as int, b as int)
                    &&& forall|j: int| k < j < old(self).edge_seq().len() ==> old(self).edge_seq()[j] != (a as int, b as int)
                    &&& final(self).edge_data() == old(self).edge_data().update(
                        k,
                        DepEdge { edge_type: old(self).edge_data()[k].edge_type, count: (old(self).edge_data()[k].count + 1) as u64 },
                    )
                }
            } else {
                &&& final(self).edge_seq() == old(self).edge_seq().push((a as int, b as int))
                &&& final(self).edge_data() == old(self).edge_data().push(edge)
            },
    {
        match topology_find_edge(&self.graph, a, b) {
            Some(k) => {
                assert(self.edge_data()[k as int].count < u64::MAX);
                let old_edge = self.edges[k].duplicate();
                let bumped = DepEdge { edge_type: old_edge.edge_type, count: old_edge.count + 1 };
                self.edges.set(k, bumped);
            },
            None => {
                topology_add_edge(&mut self.graph, a, b);
                self.edges.push(edge);
                proof {
                    assert forall|i: int|
                        0 <= i < topology_edges(self.graph).len() implies 0 <= #[trigger] topology_edges(self.graph)[i].0
                        < topology_node_count(self.graph) && 0 <= topology_edges(self.graph)[i].1 < topology_node_count(self.graph) by {
                        if i < topology_edges(old(self).graph).len() {
                            assert(topology_edges(self.graph)[i] == topology_edges(old(self).graph)[i]);
                        }
                    }
                }
            },
        }
    }
}


/// A dependency observation: (source id, target id, edge type).
pub type Dependency = (Seq<char>, Seq<char>, Seq<char>);

/// `s` with `x` appended unless it already holds `x`.
pub open spec fn add_unique<A>(s: Seq<A>, x: A) -> Seq<A> {
    if s.contains(x) {
        s
    } else {
        s.push(x)
    }
}

/// The node ids a sequence of dependencies mentions, distinct, in order of
/// first mention (source before target).
pub open spec fn ids_of(q: Seq<Dependency>) -> Seq<Seq<char>>
    decreases q.len(),
{
    if q.len() == 0 {
        Seq::empty()
    } else {
        add_unique(add_unique(ids_of(q.drop_last()), q.last().0), q.last().1)
    }
}

/// The distinct (source, target) pairs of a sequence of dependencies, in
/// order of first mention.
pub open spec fn links_of(q: Seq<Dependency>) -> Seq<(Seq<char>, Seq<char>)>
    decreases q.len(),
{
    if q.len() == 0 {
        Seq::empty()
    } else {
        add_unique(links_of(q.drop_last()), (q.last().0, q.last().1))
    }
}

/// How many dependencies join the pair `p`.
pub open spec fn link_count(q: Seq<Dependency>, p: (Seq<char>, Seq<char>)) -> nat
    decreases q.len(),
{
    if q.len() == 0 {
        0
    } else {
        link_count(q.drop_last(), p) + if (q.last().0, q.last().1) == p { 1nat } else { 0nat }
    }
}

/// The edge type of the first dependency joining the pair `p`.
pub open spec fn link_type(q: Seq<Dependency>, p: (Seq<char>, Seq<char>)) -> Seq<char>
    decreases q.len(),
{
    if q.len() == 0 {
        Seq::empty()
    } else if links_of(q.drop_last()).contains(p) {
        link_type(q.drop_last(), p)
    } else {
        q.last().2
    }
}

/// What `add_unique` holds.
pub proof fn lemma_add_unique<A>(s: Seq<A>, x: A)
    ensures
        forall|y: A| #[trigger] add_unique(s, x).contains(y) <==> (s.contains(y) || y == x),
        add_unique(s, x).len() >= s.len(),
        add_unique(s, x).len() <= s.len() + 1,
        forall|i: int| 0 <= i < s.len() ==> #[trigger] add_unique(s, x)[i] == s[i],
{
    if !s.contains(x) {
        assert forall|y: A| #[trigger] add_unique(s, x).contains(y) <==> (s.contains(y) || y == x) by {
            if s.contains(y) {
                let i = choose|i: int| 0 <= i < s.len() && s[i] == y;
                assert(s.push(x)[i] == y);
            }
            if y == x {
                assert(s.push(x)[s.len() as int] == y);
            }
            if add_unique(s, x).contains(y) {
                let i = choose|i: int| 0 <= i < s.push(x).len() && s.push(x)[i] == y;
                if i < s.len() {
                    assert(s[i] == y);
                }
            }
        }
    }
}

/// A pair that no dependency mentions has count zero, and no count exceeds
/// the number of dependencies.
pub proof fn lemma_link_count(q: Seq<Dependency>, p: (Seq<char>, Seq<char>))
    ensures
        link_count(q, p) <= q.len(),
        !links_of(q).contains(p) ==> link_count(q, p) == 0,
        links_of(q).contains(p) ==> link_count(q, p) >= 1,
    decreases q.len(),
{
    if q.len() > 0 {
        lemma_link_count(q.drop_last(), p);
        lemma_add_unique(links_of(q.drop_last()), (q.last().0, q.last().1));
    }
}

/// Mentioned ids and pairs only accumulate.
pub proof fn lemma_prefix_growth(q: Seq<Dependency>, i: int)
    requires
        0 <= i <= q.len(),
    ensures
        ids_of(q.take(i)).len() <= ids_of(q).len(),
        links_of(q.take(i)).len() <= links_of(q).len(),
    decreases q.len() - i,
{
    if i < q.len() {
        lemma_prefix_growth(q, i + 1);
        assert(q.take(i + 1).drop_last() =~= q.take(i));
    } else {
        assert(q.take(i) =~= q);
    }
}

/// A sequence of dependencies mentions at most two ids and one pair per entry.
pub proof fn lemma_mention_bounds(q: Seq<Dependency>)
    ensures
        ids_of(q).len() <= 2 * q.len(),
        links_of(q).len() <= q.len(),
    decreases q.len(),
{
    if q.len() > 0 {
        lemma_mention_bounds(q.drop_last());
        lemma_add_unique(ids_of(q.drop_last()), q.last().0);
        lemma_add_unique(add_unique(ids_of(q.drop_last()), q.last().0), q.last().1);
        lemma_add_unique(links_of(q.drop_last()), (q.last().0, q.last().1));
    }
}

impl DependencyGraph {
    /// The graph records exactly the dependencies `q`: its nodes are the ids
    /// mentioned (named after themselves, of level `kind`), its edges the
    /// distinct pairs, each counting its dependencies and typed by the first.
    pub open spec fn records(&self, q: Seq<Dependency>, kind: DepNodeKind) -> bool {
        &&& self.wf()
        &&& self.no_parallel_edges()
        &&& self.node_ids() == ids_of(q)
        &&& self.links() == links_of(q)
        &&& forall|k: int|
            0 <= k < self.edge_data().len() ==> #[trigger] self.edge_data()[k].count == link_count(
                q,
                self.links()[k],
            ) && self.edge_data()[k].edge_type@ == link_type(q, self.links()[k])
        &&& forall|i: int|
            0 <= i < self.node_seq().len() ==> #[trigger] self.node_seq()[i].name@
                == self.node_seq()[i].id@ && self.node_seq()[i].kind == kind
    }

    /// `index_of` finds exactly the listed ids.
    proof fn lemma_index_of_contains(&self, id: Seq<char>)
        requires
            self.wf(),
        ensures
            self.index_of(id) is Some <==> self.node_ids().contains(id),
            self.index_of(id) matches Some(i) ==> 0 <= i < self.node_seq().len() && self.node_ids()[i] == id,
    {
        if self.node_ids().contains(id) {
            let i = choose|i: int| 0 <= i < self.node_ids().len() && self.node_ids()[i] == id;
            assert(self.node_seq()[i].id@ == id);
        }
        if let Some(i) = self.index_of(id) {
            assert(self.node_ids()[i] == id);
            assert(self.node_ids().contains(id));
        }
    }

    /// Records one more dependency `source -> target` of type `edge_type`.
    #[verifier::rlimit(40)]
    fn add_dependency(
        &mut self,
        source: &str,
        target: &str,
        kind: DepNodeKind,
        edge_type: &str,
        Ghost(q): Ghost<Seq<Dependency>>,
    )
        requires
            old(self).records(q, kind),
            q.len() + 1 < u64::MAX,
            ids_of(q.push((source@, target@, edge_type@))).len() + 1 < index_limit(),
            links_of(q.push((source@, target@, edge_type@))).len() + 1 < index_limit(),
        ensures
            final(self).records(q.push((source@, target@, edge_type@)), kind),
    {
        let ghost q2 = q.push((source@, target@, edge_type@));
        assert(q2.drop_last() =~= q);
        proof {
            old(self).lemma_index_of_contains(source@);
        }
        let ghost before = *self;
        let a = self.get_or_create_node(source, source, kind);
        proof {
            assert forall|i: int| 0 <= i < self.node_seq().len() implies #[trigger] self.node_seq()[i].name@
                == self.node_seq()[i].id@ && self.node_seq()[i].kind == kind by {
                if i < before.node_seq().len() {
                    assert(self.node_seq()[i] == before.node_seq()[i]);
                    assert(before.node_seq()[i].name@ == before.node_seq()[i].id@);
                }
            }
            assert(self.node_ids() =~= add_unique(before.node_ids(), source@));
            self.lemma_index_of_contains(target@);
            assert(self.links() =~= before.links()) by {
                assert forall|k: int| 0 <= k < self.edge_seq().len() implies self.links()[k] == before.links()[k] by {
                    before.lemma_edge_bounds(k);
                }
            }
        }
        let ghost mid = *self;
        let b = self.get_or_create_node(target, target, kind);
        proof {
            assert forall|i: int| 0 <= i < self.node_seq().len() implies #[trigger] self.node_seq()[i].name@
                == self.node_seq()[i].id@ && self.node_seq()[i].kind == kind by {
                if i < mid.node_seq().len() {
                    assert(self.node_seq()[i] == mid.node_seq()[i]);
                    assert(mid.node_seq()[i].name@ == mid.node_seq()[i].id@);
                }
            }
            assert(self.node_ids() =~= ids_of(q2));
            assert(self.links() =~= mid.links()) by {
                assert forall|k: int| 0 <= k < self.edge_seq().len() implies self.links()[k] == mid.links()[k] by {
                    mid.lemma_edge_bounds(k);
                }
            }
            assert(self.node_ids()[a as int] == source@);
            assert(self.node_ids()[b as int] == target@);
            self.lemma_link_iff_edge(a as int, b as int);
            lemma_link_count(q, (source@, target@));
            assert forall|k: int| 0 <= k < self.edge_data().len() implies #[trigger] self.edge_data()[k].count < u64::MAX by {
                lemma_link_count(q, self.links()[k]);
            }
        }
        let ghost pre_link = *self;
        let new_edge = DepEdge { edge_type: edge_type.to_string(), count: 1 };
        self.link(a, b, new_edge);
        proof {
            let pair = (source@, target@);
            assert(self.node_ids() == pre_link.node_ids());
            if exists|k: int| 0 <= k < pre_link.edge_seq().len() && pre_link.edge_seq()[k] == (a as int, b as int) {
                assert(self.links() =~= links_of(q2));
                let k = choose|k: int| {
                    &&& 0 <= k < pre_link.edge_seq().len()
                    &&& pre_link.edge_seq()[k] == (a as int, b as int)
                    &&& forall|j: int| k < j < pre_link.edge_seq().len() ==> pre_link.edge_seq()[j] != (a as int, b as int)
                    &&& self.edge_data() == pre_link.edge_data().update(
                        k,
                        DepEdge { edge_type: pre_link.edge_data()[k].edge_type, count: (pre_link.edge_data()[k].count + 1) as u64 },
                    )
                };
                assert(self.links()[k] == pair);
                assert forall|j: int| 0 <= j < self.edge_data().len() implies #[trigger] self.edge_data()[j].count == link_count(
                    q2,
                    self.links()[j],
                ) && self.edge_data()[j].edge_type@ == link_type(q2, self.links()[j]) by {
                    assert(pre_link.edge_data()[j].count == link_count(q, pre_link.links()[j]));
                    lemma_link_count(q, self.links()[j]);
                    if j != k {
                        if self.links()[j] == pair {
                            pre_link.lemma_edge_bounds(j);
                            pre_link.lemma_ids_unique(pre_link.edge_seq()[j].0, a as int);
                            pre_link.lemma_ids_unique(pre_link.edge_seq()[j].1, b as int);
                            assert(pre_link.edge_seq()[j] == pre_link.edge_seq()[k]);
                        }
                    }
                    assert(links_of(q).contains(self.links()[j]));
                }
            } else {
                assert(!links_of(q).contains(pair));
                assert(self.links() =~= links_of(q2));
                assert forall|a1: int, b1: int|
                    0 <= a1 < b1 < self.edge_seq().len() implies #[trigger] self.edge_seq()[a1]
                        != #[trigger] self.edge_seq()[b1] by {
                    if b1 == self.edge_seq().len() - 1 {
                        assert(pre_link.edge_seq()[a1] != (a as int, b as int));
                    }
                }
                assert forall|j: int| 0 <= j < self.edge_data().len() implies #[trigger] self.edge_data()[j].count == link_count(
                    q2,
                    self.links()[j],
                ) && self.edge_data()[j].edge_type@ == link_type(q2, self.links()[j]) by {
                    lemma_link_count(q, self.links()[j]);
                    if j < pre_link.edge_data().len() {
                        assert(pre_link.edge_data()[j].count == link_count(q, pre_link.links()[j]));
                        assert(links_of(q).contains(self.links()[j]));
                        assert(self.links()[j] != pair);
                    }
                }
            }
            assert(self.wf());
            assert(self.no_parallel_edges());
            assert(self.node_ids() == ids_of(q2));
            assert(self.links() == links_of(q2));
            assert forall|i: int| 0 <= i < self.node_seq().len() implies #[trigger] self.node_seq()[i].name@
                == self.node_seq()[i].id@ && self.node_seq()[i].kind == kind by {
                assert(self.node_seq()[i] == pre_link.node_seq()[i]);
                assert(pre_link.node_seq()[i].name@ == pre_link.node_seq()[i].id@);
            }
            assert(self.records(q2, kind));
        }
    }
}

/// The views of a list of (source, target, edge type) triples.
pub open spec fn dependency_views(d: Seq<(String, String, String)>) -> Seq<Dependency> {
    d.map_values(|x: (String, String, String)| (x.0@, x.1@, x.2@))
}

/// The most dependencies a graph can be built from: each may add two nodes
/// and an edge, so twice their number must stay below `petgraph`'s index
/// limit.
pub open spec fn max_dependencies() -> int {
    (index_limit() - 1) / 2
}

impl DependencyGraph {
    /// A graph recording the dependencies `deps`, in order.
    pub fn from_dependencies(deps: &Vec<(String, String, String)>, kind: DepNodeKind) -> (g: DependencyGraph)
        requires
            deps.len() < max_dependencies(),
        ensures
            g.records(dependency_views(deps@), kind),
    {
        let mut g = DependencyGraph::new();
        let ghost all = dependency_views(deps@);
        proof {
            assert(all.take(0) =~= Seq::<Dependency>::empty());
            assert(g.node_ids() =~= ids_of(all.take(0)));
            assert(g.links() =~= links_of(all.take(0)));
        }
        let mut i: usize = 0;
        while i < deps.len()
            invariant
                i <= deps.len(),
                deps.len() < max_dependencies(),
                all == dependency_views(deps@),
                g.records(all.take(i as int), kind),
            decreases deps.len() - i,
        {
            let d = &deps[i];
            proof {
                assert(all.take(i as int).push((d.0@, d.1@, d.2@)) =~= all.take(i + 1));
                lemma_mention_bounds(all.take(i + 1));
            }
            g.add_dependency(d.0.as_str(), d.1.as_str(), kind, d.2.as_str(), Ghost(all.take(i as int)));
            i = i + 1;
        }
        proof {
            assert(all.take(i as int) =~= all);
        }
        g
    }
}

/// The file or package an import resolves to; empty when it is unresolved.
pub open spec fn import_target(r: ImportResolution) -> Seq<char> {
    match r {
        ImportResolution::Resolved(path) => path@,
        ImportResolution::External(pkg) => pkg@,
        ImportResolution::Unresolved => Seq::empty(),
    }
}

/// The dependency an `imports:{file}::{import path}` entry records: from the
/// file of the key to the import's target, unless the key is malformed, the
/// value did not decode or the import is unresolved.
pub open spec fn file_dependency(key: Seq<char>, import: Option<Import>) -> Option<Dependency> {
    match key_parts(key, "imports:"@) {
        Some(parts) => match import {
            Some(imp) => if import_target(imp.resolution).len() > 0 {
                Some((parts.0, import_target(imp.resolution), "import"@))
            } else {
                None
            },
            None => None,
        },
        None => None,
    }
}

/// The dependencies recorded by a list of `imports:` entries, in order.
pub open spec fn file_dependencies(entries: Seq<(String, Option<Import>)>) -> Seq<Dependency>
    decreases entries.len(),
{
    if entries.len() == 0 {
        Seq::empty()
    } else {
        let rest = file_dependencies(entries.drop_last());
        match file_dependency(entries.last().0@, entries.last().1) {
            Some(d) => rest.push(d),
            None => rest,
        }
    }
}

/// The dependencies recorded by keys `{prefix}{from}::{to}`, each of type
/// `edge_type`; malformed keys are skipped.
pub open spec fn key_dependencies(keys: Seq<String>, prefix: Seq<char>, edge_type: Seq<char>) -> Seq<Dependency>
    decreases keys.len(),
{
    if keys.len() == 0 {
        Seq::empty()
    } else {
        let rest = key_dependencies(keys.drop_last(), prefix, edge_type);
        match key_parts(keys.last()@, prefix) {
            Some(parts) => rest.push((parts.0, parts.1, edge_type)),
            None => rest,
        }
    }
}

/// Filtering never lengthens.
proof fn lemma_dependency_counts(entries: Seq<(String, Option<Import>)>, keys: Seq<String>, prefix: Seq<char>, t: Seq<char>)
    ensures
        file_dependencies(entries).len() <= entries.len(),
        key_dependencies(keys, prefix, t).len() <= keys.len(),
    decreases entries.len() + keys.len(),
{
    if entries.len() > 0 {
        lemma_dependency_counts(entries.drop_last(), keys, prefix, t);
    }
    if keys.len() > 0 {
        lemma_dependency_counts(entries, keys.drop_last(), prefix, t);
    }
}

impl DependencyGraph {
    /// The file or package an import resolves to (`Resolved` path,
    /// `External` package name), or an empty string when it is unresolved.
    pub fn resolve_import_target(import: &Import) -> (r: String)
        ensures
            r@ == import_target(import.resolution),
    {
        match &import.resolution {
            ImportResolution::Resolved(path) => path.clone(),
            ImportResolution::External(pkg) => pkg.clone(),
            ImportResolution::Unresolved => String::new(),
        }
    }

    /// Appends the dependencies of `keys` to `deps`.
    fn collect_key_dependencies(
        keys: &[String],
        prefix: &str,
        edge_type: &str,
        deps: &mut Vec<(String, String, String)>,
    )
        ensures
            dependency_views(final(deps)@) == dependency_views(old(deps)@) + key_dependencies(
                keys@,
                prefix@,
                edge_type@,
            ),
    {
        let ghost start = dependency_views(deps@);
        let mut i: usize = 0;
        while i < keys.len()
            invariant
                i <= keys.len(),
                dependency_views(deps@) == start + key_dependencies(keys@.take(i as int), prefix@, edge_type@),
            decreases keys.len() - i,
        {
            proof {
                assert(keys@.take(i + 1).drop_last() =~= keys@.take(i as int));
            }
            let ghost before = deps@;
            match split_key(keys[i].as_str(), prefix) {
                Some(parts) => {
                    deps.push((parts.0, parts.1, edge_type.to_string()));
                    proof {
                        assert(dependency_views(deps@) =~= dependency_views(before).push(
                            (deps@.last().0@, deps@.last().1@, deps@.last().2@),
                        ));
                    }
                },
                None => {},
            }
            i = i + 1;
        }
        proof {
            assert(keys@.take(keys.len() as int) =~= keys@);
        }
    }

    /// Builds the file-level graph from the entries of the `imports:`
    /// keyspace: each entry is a key `imports:{file}::{import path}` with its
    /// decoded `Import`, or `None` where the value did not decode. Every
    /// usable entry adds a dependency of type `import` from the file to the
    /// import's target; repeated pairs raise the edge count.
    pub fn build_file_graph(entries: &[(String, Option<Import>)]) -> (g: DependencyGraph)
        requires
            entries.len() < max_dependencies(),
        ensures
            g.records(file_dependencies(entries@), DepNodeKind::File),
    {
        let mut deps: Vec<(String, String, String)> = Vec::new();
        let mut i: usize = 0;
        while i < entries.len()
            invariant
                i <= entries.len(),
                entries.len() < max_dependencies(),
                dependency_views(deps@) == file_dependencies(entries@.take(i as int)),
                deps.len() <= i,
            decreases entries.len() - i,
        {
            proof {
                assert(entries@.take(i + 1).drop_last() =~= entries@.take(i as int));
            }
            let ghost before = deps@;
            let entry = &entries[i];
            match split_key(entry.0.as_str(), "imports:") {
                Some(parts) => {
                    match &entry.1 {
                        Some(import) => {
                            let target = Self::resolve_import_target(import);
                            if !target.as_str().is_empty() {
                                deps.push((parts.0, target, "import".to_string()));
                                proof {
                                    assert(dependency_views(deps@) =~= dependency_views(before).push(
                                        (deps@.last().0@, deps@.last().1@, deps@.last().2@),
                                    ));
                                }
                            }
                        },
                        None => {},
                    }
                },
                None => {},
            }
            i = i + 1;
        }
        proof {
            assert(entries@.take(entries.len() as int) =~= entries@);
        }
        Self::from_dependencies(&deps, DepNodeKind::File)
    }

    /// Builds the symbol-level graph from the keys of the `edges:` keyspace
    /// (`edges:{caller}::{callee}`, dependencies of type `call`) and then of
    /// the `refs:` keyspace (`refs:{from}::{to}`, of type `reference`).
    pub fn build_symbol_graph(call_keys: &[String], ref_keys: &[String]) -> (g: DependencyGraph)
        requires
            call_keys.len() + ref_keys.len() < max_dependencies(),
        ensures
            g.records(
                key_dependencies(call_keys@, "edges:"@, "call"@) + key_dependencies(ref_keys@, "refs:"@, "reference"@),
                DepNodeKind::Symbol,
            ),
    {
        let mut deps: Vec<(String, String, String)> = Vec::new();
        proof {
            assert(dependency_views(deps@) =~= Seq::<Dependency>::empty());
            lemma_dependency_counts(Seq::empty(), call_keys@, "edges:"@, "call"@);
            lemma_dependency_counts(Seq::empty(), ref_keys@, "refs:"@, "reference"@);
        }
        Self::collect_key_dependencies(call_keys, "edges:", "call", &mut deps);
        Self::collect_key_dependencies(ref_keys, "refs:", "reference", &mut deps);
        proof {
            assert(dependency_views(deps@) =~= key_dependencies(call_keys@, "edges:"@, "call"@) + key_dependencies(ref_keys@, "refs:"@, "reference"@));
        }
        Self::from_dependencies(&deps, DepNodeKind::Symbol)
    }
}

impl DependencyGraph {
    /// The nodes at the other end of the edges leaving node `i` (or, with
    /// `incoming`, entering it), most recently added edge first.
    pub open spec fn neighbours(&self, i: int, incoming: bool) -> Seq<DepNode> {
        incident_edges(self.edge_seq(), i, incoming).map_values(
            |e: int|
                if incoming {
                    self.node_seq()[self.edge_seq()[e].0]
                } else {
                    self.node_seq()[self.edge_seq()[e].1]
                },
        )
    }

    fn neighbour_nodes(&self, idx: usize, incoming: bool) -> (r: Vec<DepNode>)
        requires
            self.wf(),
            idx < self.node_seq().len(),
        ensures
            r@ == self.neighbours(idx as int, incoming),
    {
        let es = topology_edges_directed(&self.graph, idx, incoming);
        let ghost inc = incident_edges(self.edge_seq(), idx as int, incoming);
        proof {
            lemma_incident_desc(self.edge_seq(), idx as int, incoming, self.edge_seq().len() as int);
            assert(es@.len() == inc.len());
        }
        let mut r: Vec<DepNode> = Vec::new();
        let mut j: usize = 0;
        while j < es.len()
            invariant
                self.wf(),
                j <= es.len(),
                r.len() == j,
                es@.len() == inc.len(),
                es@.map_values(|e: usize| e as int) == inc,
                inc == incident_edges(self.edge_seq(), idx as int, incoming),
                forall|m: int| 0 <= m < inc.len() ==> 0 <= #[trigger] inc[m] < self.edge_seq().len(),
                forall|m: int| 0 <= m < j ==> r@[m] == #[trigger] self.neighbours(idx as int, incoming)[m],
            decreases es.len() - j,
        {
            let e = es[j];
            assert(inc[j as int] == e as int);
            assert(0 <= inc[j as int]);
            let ends = topology_edge_endpoints(&self.graph, e);
            proof {
                self.lemma_edge_bounds(e as int);
            }
            let other = if incoming { ends.0 } else { ends.1 };
            r.push(self.nodes[other].duplicate());
            j = j + 1;
        }
        proof {
            assert(r@ =~= self.neighbours(idx as int, incoming));
        }
        r
    }

    /// The direct dependencies of a node: the targets of its outgoing edges,
    /// most recently added edge first; empty when no node has the id.
    pub fn get_dependencies(&self, node_id: &str) -> (r: Vec<DepNode>)
        requires
            self.wf(),
        ensures
            self.index_of(node_id@) matches Some(i) ==> r@ == self.neighbours(i, false),
            self.index_of(node_id@) is None ==> r@ == Seq::<DepNode>::empty(),
    {
        proof {
            self.lemma_index_of(node_id@);
        }
        match self.node_map.get(node_id) {
            Some(i) => self.neighbour_nodes(*i, false),
            None => Vec::new(),
        }
    }

    /// The direct dependents of a node: the sources of its incoming edges,
    /// most recently added edge first; empty when no node has the id.
    pub fn get_dependents(&self, node_id: &str) -> (r: Vec<DepNode>)
        requires
            self.wf(),
        ensures
            self.index_of(node_id@) matches Some(i) ==> r@ == self.neighbours(i, true),
            self.index_of(node_id@) is None ==> r@ == Seq::<DepNode>::empty(),
    {
        proof {
            self.lemma_index_of(node_id@);
        }
        match self.node_map.get(node_id) {
            Some(i) => self.neighbour_nodes(*i, true),
            None => Vec::new(),
        }
    }

    /// All nodes, in insertion order.
    pub fn nodes(&self) -> (r: Vec<DepNode>)
        ensures
            r@ == self.node_seq(),
    {
        let mut r: Vec<DepNode> = Vec::new();
        let mut i: usize = 0;
        while i < self.nodes.len()
            invariant
                i <= self.nodes.len(),
                r@ == self.nodes@.take(i as int),
            decreases self.nodes.len() - i,
        {
            r.push(self.nodes[i].duplicate());
            proof {
                assert(r@ =~= self.nodes@.take(i + 1));
            }
            i = i + 1;
        }
        proof {
            assert(self.nodes@.take(i as int) =~= self.nodes@);
        }
        r
    }

    /// All edges as (source node, target node, payload), in insertion order.
    pub fn edges(&self) -> (r: Vec<(DepNode, DepNode, DepEdge)>)
        requires
            self.wf(),
        ensures
            r.len() == self.edge_seq().len(),
            forall|k: int|
                0 <= k < r.len() ==> #[trigger] r@[k] == (
                    self.node_seq()[self.edge_seq()[k].0],
                    self.node_seq()[self.edge_seq()[k].1],
                    self.edge_data()[k],
                ),
    {
        let mut r: Vec<(DepNode, DepNode, DepEdge)> = Vec::new();
        let mut k: usize = 0;
        while k < self.edges.len()
            invariant
                self.wf(),
                k <= self.edges.len(),
                r.len() == k,
                forall|m: int|
                    0 <= m < k ==> #[trigger] r@[m] == (
                        self.node_seq()[self.edge_seq()[m].0],
                        self.node_seq()[self.edge_seq()[m].1],
                        self.edge_data()[m],
                    ),
            decreases self.edges.len() - k,
        {
            let ends = topology_edge_endpoints(&self.graph, k);
            proof {
                self.lemma_edge_bounds(k as int);
            }
            r.push((self.nodes[ends.0].duplicate(), self.nodes[ends.1].duplicate(), self.edges[k].duplicate()));
            k = k + 1;
        }
        r
    }

    /// A copy of node `i`.
    pub fn node_at(&self, i: usize) -> (r: DepNode)
        requires
            i < self.node_seq().len(),
        ensures
            r == self.node_seq()[i as int],
    {
        self.nodes[i].duplicate()
    }

    /// The number of nodes.
    pub fn node_count(&self) -> (n: usize)
        ensures
            n == self.node_seq().len(),
    {
        self.nodes.len()
    }

    /// The number of edges.
    pub fn edge_count(&self) -> (n: usize)
        requires
            self.wf(),
        ensures
            n == self.edge_seq().len(),
    {
        self.edges.len()
    }

    /// The topology of the graph, for the cycle analysis.
    pub fn inner_graph(&self) -> (g: &DiGraph<(), ()>)
        ensures
            *g == self.topology(),
    {
        &self.graph
    }

    /// The topology is well formed and its edges are those of the graph.
    pub proof fn lemma_topology(&self)
        requires
            self.wf(),
        ensures
            topology_wf(self.topology()),
            topology_edges(self.topology()) == self.edge_seq(),
            topology_node_count(self.topology()) == self.node_seq().len(),
    {
    }
}

impl Default for DependencyGraph {
    /// An empty graph.
    fn default() -> (g: Self)
        ensures
            g.wf(),
            g.node_seq() == Seq::<DepNode>::empty(),
            g.edge_seq() == Seq::<(int, int)>::empty(),
    {
        DependencyGraph::new()
    }
}

} // verus!
