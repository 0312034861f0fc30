//! Symbol-level call graph: callers point at callees.
//!
//! Nodes are found by stable symbol id or, failing that, by name (the most
//! recently added node of that name). Traversals walk the edges breadth
//! first, towards callers or towards callees.
use vstd::prelude::*;
use vstd::hash_map::StringHashMap;

use petgraph::graph::DiGraph;

use crate::graph::topology::{
    any_edge, edge_leads, incident_edges, index_limit, lemma_incident_desc, other_end, reaches,
    topology_add_edge, topology_add_node, topology_bfs, topology_edge_endpoints, topology_edges,
    topology_edges_directed, topology_find_edge, topology_new, topology_node_count, topology_wf, touches,
};
use crate::graph::topology::near;
use crate::graph::trace::{bfs_core, bfs_entry, bfs_levels, depth_bound, listed};
use crate::types::{CallEdge, CallType, SourceLocation, Symbol, SymbolKind};
use crate::text::{chars_of, has_prefix, string_of, strip_prefix_chars};

verus! {

/// The call-graph view of a symbol.
#[derive(Debug, Clone, PartialEq, Eq)]
pub struct SymbolNode {
    /// Stable, globally unique symbol id.
    pub symbol_id: String,
    /// Identifier as written in the source.
    pub name: String,
    /// Symbol kind.
    pub kind: SymbolKind,
    /// File holding the symbol.
    pub file_path: String,
}

impl SymbolNode {
    /// The call-graph view of `symbol`: its id, name, kind and file.
    pub fn from_symbol(symbol: &Symbol) -> (r: SymbolNode)
        ensures
            r == symbol_node(*symbol),
    {
        SymbolNode {
            symbol_id: symbol.id.clone(),
            name: symbol.name.clone(),
            kind: symbol.kind.duplicate(),
            file_path: symbol.location.file_path.clone(),
        }
    }

    /// A copy equal to `self` field by field.
    pub fn duplicate(&self) -> (r: SymbolNode)
        ensures
            r == *self,
    {
        SymbolNode {
            symbol_id: self.symbol_id.clone(),
            name: self.name.clone(),
            kind: self.kind.duplicate(),
            file_path: self.file_path.clone(),
        }
    }
}

/// The call-graph view of a symbol.
pub open spec fn symbol_node(symbol: Symbol) -> SymbolNode {
    SymbolNode {
        symbol_id: symbol.id,
        name: symbol.name,
        kind: symbol.kind,
        file_path: symbol.location.file_path,
    }
}

/// One step of a traced call chain.
#[derive(Debug, Clone, PartialEq, Eq)]
pub struct CallChainNode {
    /// Symbol id.
    pub symbol_id: String,
    /// Symbol name.
    pub name: String,
    /// Breadth-first depth: 1 for the direct callers (or callees) of the
    /// starting symbol, 2 for theirs, and so on.
    pub depth: usize,
    /// Label of the call linking this symbol to the one it was reached from.
    pub call_type: String,
    /// File holding the symbol.
    pub file_path: String,
}

/// The label of a call type.
pub open spec fn call_type_label(ct: CallType) -> Seq<char> {
    match ct {
        CallType::Direct => "直接调用"@,
        CallType::Virtual => "虚函数调用"@,
        CallType::Callback => "回调调用"@,
        CallType::MacroExpansion => "宏展开调用"@,
        CallType::Unknown => "未知调用类型"@,
    }
}

/// The label of a call type.
pub fn call_type_to_str(ct: &CallType) -> (r: &'static str)
    ensures
        r@ == call_type_label(*ct),
{
    match ct {
        CallType::Direct => "直接调用",
        CallType::Virtual => "虚函数调用",
        CallType::Callback => "回调调用",
        CallType::MacroExpansion => "宏展开调用",
        CallType::Unknown => "未知调用类型",
    }
}

/// The (id, name) of a node.
pub open spec fn node_key(nd: SymbolNode) -> (Seq<char>, Seq<char>) {
    (nd.symbol_id@, nd.name@)
}

/// The position of the node with id `key` among `keys`, if any.
pub open spec fn keys_id_index(keys: Seq<(Seq<char>, Seq<char>)>, key: Seq<char>) -> Option<int> {
    if exists|i: int| 0 <= i < keys.len() && #[trigger] keys[i].0 == key {
        Some(choose|i: int| 0 <= i < keys.len() && #[trigger] keys[i].0 == key)
    } else {
        None
    }
}

/// The position of the last node named `key` among `keys`, if any.
pub open spec fn keys_name_index(keys: Seq<(Seq<char>, Seq<char>)>, key: Seq<char>) -> Option<int> {
    if exists|i: int| 0 <= i < keys.len() && #[trigger] keys[i].1 == key {
        Some(
            choose|i: int|
                0 <= i < keys.len() && #[trigger] keys[i].1 == key && forall|j: int| i < j < keys.len() ==> keys[j].1 != key,
        )
    } else {
        None
    }
}

/// The node `key` designates among `keys`: by id first, then by name.
pub open spec fn keys_lookup(keys: Seq<(Seq<char>, Seq<char>)>, key: Seq<char>) -> Option<int> {
    match keys_id_index(keys, key) {
        Some(i) => Some(i),
        None => keys_name_index(keys, key),
    }
}

/// The most recently added edge `a -> b`, if any.
pub open spec fn latest_edge(edges: Seq<(int, int)>, a: int, b: int) -> Option<int> {
    if exists|i: int| 0 <= i < edges.len() && edges[i] == (a, b) {
        Some(
            choose|i: int|
                0 <= i < edges.len() && edges[i] == (a, b) && forall|j: int|
                    i < j < edges.len() ==> edges[j] != (a, b),
        )
    } else {
        None
    }
}

/// An edge `a -> b` with no later one is the latest.
proof fn lemma_latest_edge(edges: Seq<(int, int)>, a: int, b: int, i: int)
    requires
        0 <= i < edges.len(),
        edges[i] == (a, b),
        forall|j: int| i < j < edges.len() ==> edges[j] != (a, b),
    ensures
        latest_edge(edges, a, b) == Some(i),
{
    let c = choose|c: int|
        0 <= c < edges.len() && edges[c] == (a, b) && forall|j: int| c < j < edges.len() ==> edges[j] != (a, b);
    if c < i {
        assert(edges[i] != (a, b));
    }
    if c > i {
        assert(edges[c] != (a, b));
    }
}

/// Where some edge `a -> b` exists, the latest one is such an edge.
proof fn lemma_latest_some(edges: Seq<(int, int)>, a: int, b: int, i: int)
    requires
        0 <= i < edges.len(),
        edges[i] == (a, b),
    ensures
        latest_edge(edges, a, b) matches Some(e) && 0 <= e < edges.len() && edges[e] == (a, b),
    decreases edges.len() - i,
{
    if exists|j: int| i < j < edges.len() && edges[j] == (a, b) {
        let j = choose|j: int| i < j < edges.len() && edges[j] == (a, b);
        lemma_latest_some(edges, a, b, j);
    } else {
        lemma_latest_edge(edges, a, b, i);
    }
}

/// No call type is labelled `Unknown`.
proof fn lemma_label_known(ct: CallType)
    ensures
        call_type_label(ct) != "Unknown"@,
{
    reveal_strlit("Unknown");
    reveal_strlit("直接调用");
    reveal_strlit("虚函数调用");
    reveal_strlit("回调调用");
    reveal_strlit("宏展开调用");
    reveal_strlit("未知调用类型");
    assert("Unknown"@.len() == 7);
    match ct {
        CallType::Direct => assert("直接调用"@.len() == 4),
        CallType::Virtual => assert("虚函数调用"@.len() == 5),
        CallType::Callback => assert("回调调用"@.len() == 4),
        CallType::MacroExpansion => assert("宏展开调用"@.len() == 5),
        CallType::Unknown => assert("未知调用类型"@.len() == 6),
    }
}

/// A call graph over `petgraph`: node `i` is `nodes[i]`, edge `k` carries
/// the call type `calls[k]`.
pub struct CallGraph {
    graph: DiGraph<(), ()>,
    nodes: Vec<SymbolNode>,
    calls: Vec<CallType>,
    id_to_index: StringHashMap<usize>,
    name_to_index: StringHashMap<usize>,
}

impl CallGraph {
    /// The nodes, in insertion order.
    pub closed spec fn node_seq(&self) -> Seq<SymbolNode> {
        self.nodes@
    }

    /// The edges as (caller index, callee index), in insertion order.
    pub closed spec fn edge_seq(&self) -> Seq<(int, int)> {
        topology_edges(self.graph)
    }

    /// The call type of each edge.
    pub closed spec fn call_types(&self) -> Seq<CallType> {
        self.calls@
    }

    /// Internal consistency: the payloads match the topology, ids are
    /// unique and mapped to their node, and every name is mapped to the most
    /// recently added node carrying it.
    pub closed spec fn wf(&self) -> bool {
        &&& topology_wf(self.graph)
        &&& self.nodes@.len() == topology_node_count(self.graph)
        &&& self.calls@.len() == topology_edges(self.graph).len()
        &&& forall|k: Seq<char>| #[trigger]
            self.id_to_index@.contains_key(k) ==> self.id_to_index@[k] < self.nodes@.len()
                && self.nodes@[self.id_to_index@[k] as int].symbol_id@ == k
        &&& forall|i: int|
            0 <= i < self.nodes@.len() ==> #[trigger] self.id_to_index@.contains_key(self.nodes@[i].symbol_id@)
                && self.id_to_index@[self.nodes@[i].symbol_id@] == i
        &&& forall|k: Seq<char>| #[trigger]
            self.name_to_index@.contains_key(k) ==> self.name_to_index@[k] < self.nodes@.len()
                && self.nodes@[self.name_to_index@[k] as int].name@ == k && forall|j: int|
                self.name_to_index@[k] < j < self.nodes@.len() ==> #[trigger] self.nodes@[j].name@ != k
        &&& forall|i: int|
            0 <= i < self.nodes@.len() ==> #[trigger] self.name_to_index@.contains_key(self.nodes@[i].name@)
    }

    /// The (id, name) of each node, in node order.
    pub open spec fn node_keys(&self) -> Seq<(Seq<char>, Seq<char>)> {
        self.node_seq().map_values(|nd: SymbolNode| node_key(nd))
    }

    /// The node whose id is `key`, if any.
    pub open spec fn id_index(&self, key: Seq<char>) -> Option<int> {
        keys_id_index(self.node_keys(), key)
    }

    /// The most recently added node named `key`, if any.
    pub open spec fn name_index(&self, key: Seq<char>) -> Option<int> {
        keys_name_index(self.node_keys(), key)
    }

    /// The node a key designates: by id first, then by name.
    pub open spec fn lookup(&self, key: Seq<char>) -> Option<int> {
        keys_lookup(self.node_keys(), key)
    }

    /// The label of the link between `p` and `c`: the type of the latest
    /// edge `p -> c`, else of the latest edge `c -> p`, else `Unknown`.
    pub open spec fn edge_label(&self, p: int, c: int) -> Seq<char> {
        match latest_edge(self.edge_seq(), p, c) {
            Some(e) => call_type_label(self.call_types()[e]),
            None => match latest_edge(self.edge_seq(), c, p) {
                Some(e) => call_type_label(self.call_types()[e]),
                None => "Unknown"@,
            },
        }
    }

    /// The id and name maps agree with `lookup`.
    proof fn lemma_lookup(&self, key: Seq<char>)
        requires
            self.wf(),
        ensures
            self.id_to_index@.contains_key(key) ==> self.id_index(key) == Some(self.id_to_index@[key] as int),
            !self.id_to_index@.contains_key(key) ==> self.id_index(key) is None,
            self.name_to_index@.contains_key(key) ==> self.name_index(key) == Some(self.name_to_index@[key] as int),
            !self.name_to_index@.contains_key(key) ==> self.name_index(key) is None,
            self.lookup(key) matches Some(i) ==> 0 <= i < self.node_seq().len(),
    {
        let keys = self.node_keys();
        assert(keys.len() == self.node_seq().len());
        if self.id_to_index@.contains_key(key) {
            let i = self.id_to_index@[key] as int;
            assert(keys[i].0 == key);
            let c = choose|c: int| 0 <= c < keys.len() && #[trigger] keys[c].0 == key;
            assert(self.id_to_index@.contains_key(self.nodes@[c].symbol_id@));
        } else {
            if exists|i: int| 0 <= i < keys.len() && #[trigger] keys[i].0 == key {
                let c = choose|c: int| 0 <= c < keys.len() && #[trigger] keys[c].0 == key;
                assert(self.id_to_index@.contains_key(self.nodes@[c].symbol_id@));
            }
        }
        if self.name_to_index@.contains_key(key) {
            let i = self.name_to_index@[key] as int;
            assert(keys[i].1 == key);
            assert forall|j: int| i < j < keys.len() implies keys[j].1 != key by {
                assert(self.nodes@[j].name@ != key);
            }
            let c = choose|c: int|
                0 <= c < keys.len() && #[trigger] keys[c].1 == key && forall|j: int| c < j < keys.len() ==> keys[j].1 != key;
            if c < i {
                assert(keys[i].1 != key);
            }
            if c > i {
                assert(self.nodes@[c].name@ != key);
            }
        } else {
            if exists|i: int| 0 <= i < keys.len() && #[trigger] keys[i].1 == key {
                let c = choose|c: int| 0 <= c < keys.len() && #[trigger] keys[c].1 == key;
                assert(self.name_to_index@.contains_key(self.nodes@[c].name@));
            }
        }
    }

    /// An empty graph.
    pub fn new() -> (g: Self)
        ensures
            g.wf(),
            g.node_seq() == Seq::<SymbolNode>::empty(),
            g.edge_seq() == Seq::<(int, int)>::empty(),
    {
        CallGraph {
            graph: topology_new(),
            nodes: Vec::new(),
            calls: Vec::new(),
            id_to_index: StringHashMap::new(),
            name_to_index: StringHashMap::new(),
        }
    }

    /// Adds `node` unless a node with its id exists; returns the index of the
    /// node carrying that id. A new node also becomes the one its name finds.
    pub fn add_node(&mut self, node: SymbolNode) -> (idx: usize)
        requires
            old(self).wf(),
            old(self).node_seq().len() + 1 < index_limit(),
        ensures
            final(self).wf(),
            final(self).edge_seq() == old(self).edge_seq(),
            final(self).call_types() == old(self).call_types(),
            old(self).id_index(node.symbol_id@) matches Some(i) ==> idx == i && final(self).node_seq()
                == old(self).node_seq(),
            old(self).id_index(node.symbol_id@) is None ==> idx == old(self).node_seq().len()
                && final(self).node_seq() == old(self).node_seq().push(node),
            final(self).id_index(node.symbol_id@) == Some(idx as int),
    {
        proof {
            old(self).lemma_lookup(node.symbol_id@);
        }
        match self.id_to_index.get(node.symbol_id.as_str()) {
            Some(idx) => {
                let idx = *idx;
                idx
            },
            None => {
                let idx = topology_add_node(&mut self.graph);
                let key = node.symbol_id.clone();
                let name = node.name.clone();
                self.nodes.push(node);
                self.id_to_index.insert(key, idx);
                self.name_to_index.insert(name, idx);
                proof {
                    let nn = self.nodes@[idx as int];
                    assert forall|k: Seq<char>| #[trigger]
                        self.id_to_index@.contains_key(k) implies self.id_to_index@[k] < self.nodes@.len()
                        && self.nodes@[self.id_to_index@[k] as int].symbol_id@ == k by {
                        if k != nn.symbol_id@ {
                            assert(old(self).id_to_index@.contains_key(k));
                        }
                    }
                    assert forall|i: int|
                        0 <= i < self.nodes@.len() implies #[trigger] self.id_to_index@.contains_key(
                        self.nodes@[i].symbol_id@,
                    ) && self.id_to_index@[self.nodes@[i].symbol_id@] == i by {
                        if i < idx {
                            assert(old(self).id_to_index@.contains_key(old(self).nodes@[i].symbol_id@));
                        }
                    }
                    assert forall|k: Seq<char>| #[trigger]
                        self.name_to_index@.contains_key(k) implies self.name_to_index@[k] < self.nodes@.len()
                        && self.nodes@[self.name_to_index@[k] as int].name@ == k && forall|j: int|
                        self.name_to_index@[k] < j < self.nodes@.len() ==> #[trigger] self.nodes@[j].name@ != k by {
                        if k != nn.name@ {
                            assert(old(self).name_to_index@.contains_key(k));
                            assert forall|j: int| self.name_to_index@[k] < j < self.nodes@.len() implies #[trigger] self.nodes@[j].name@ != k by {
                                if j < idx {
                                    assert(old(self).nodes@[j].name@ != k);
                                }
                            }
                        }
                    }
                    assert forall|i: int|
                        0 <= i < self.nodes@.len() implies #[trigger] self.name_to_index@.contains_key(self.nodes@[i].name@) by {
                        if i < idx {
                            assert(old(self).name_to_index@.contains_key(old(self).nodes@[i].name@));
                        }
                    }
                    self.lemma_lookup(nn.symbol_id@);
                }
                idx
            },
        }
    }

    /// The node `key` designates: by id, else by name.
    fn find_node_index(&self, key: &str) -> (r: Option<usize>)
        requires
            self.wf(),
        ensures
            r matches Some(i) ==> self.lookup(key@) == Some(i as int) && i < self.node_seq().len(),
            r is None ==> self.lookup(key@) is None,
    {
        proof {
            self.lemma_lookup(key@);
        }
        match self.id_to_index.get(key) {
            Some(i) => Some(*i),
            None => match self.name_to_index.get(key) {
                Some(i) => Some(*i),
                None => None,
            },
        }
    }

    /// Adds the call `caller -> callee` (each found by id, else by name),
    /// keeping its call type; does nothing when either is missing. Repeated
    /// calls add parallel edges.
    pub fn add_edge(&mut self, caller: &str, callee: &str, edge: CallEdge)
        requires
            old(self).wf(),
            old(self).edge_seq().len() + 1 < index_limit(),
        ensures
            final(self).wf(),
            final(self).node_seq() == old(self).node_seq(),
            (old(self).lookup(caller@) is Some && old(self).lookup(callee@) is Some) ==> {
                &&& final(self).edge_seq() == old(self).edge_seq().push(
                    (old(self).lookup(caller@)->0, old(self).lookup(callee@)->0),
                )
                &&& final(self).call_types() == old(self).call_types().push(edge.call_type)
            },
            !(old(self).lookup(caller@) is Some && old(self).lookup(callee@) is Some) ==> {
                &&& final(self).edge_seq() == old(self).edge_seq()
                &&& final(self).call_types() == old(self).call_types()
            },
    {
        let from = self.find_node_index(caller);
        let to = self.find_node_index(callee);
        match (from, to) {
            (Some(a), Some(b)) => {
                topology_add_edge(&mut self.graph, a, b);
                self.calls.push(edge.call_type);
                proof {
                    assert forall|i: int|
                        0 <= i < topology_edges(self.graph).len() implies 0 <= #[trigger] topology_edges(self.graph)[i].0
                        < topology_node_count(self.graph) && 0 <= topology_edges(self.graph)[i].1 < topology_node_count(self.graph) by {
                        if i < topology_edges(old(self).graph).len() {
                            assert(topology_edges(self.graph)[i] == topology_edges(old(self).graph)[i]);
                        }
                    }
                }
            },
            _ => {},
        }
    }

    /// The node `symbol_id` designates (by id, else by name).
    pub fn get_node_by_id(&self, symbol_id: &str) -> (r: Option<&SymbolNode>)
        requires
            self.wf(),
        ensures
            r matches Some(n) ==> self.lookup(symbol_id@) matches Some(i) && *n == self.node_seq()[i],
            r is None ==> self.lookup(symbol_id@) is None,
    {
        match self.find_node_index(symbol_id) {
            Some(i) => Some(&self.nodes[i]),
            None => None,
        }
    }

    /// The number of nodes.
    pub fn node_count(&self) -> (n: usize)
        ensures
            n == self.node_seq().len(),
    {
        self.nodes.len()
    }

    /// The number of edges.
    pub fn edge_count(&self) -> (n: usize)
        requires
            self.wf(),
        ensures
            n == self.edge_seq().len(),
    {
        self.calls.len()
    }

    /// Edge endpoints are nodes.
    pub proof fn lemma_edge_target(&self, k: int)
        requires
            self.wf(),
            0 <= k < self.edge_seq().len(),
        ensures
            0 <= self.edge_seq()[k].0 < self.node_seq().len(),
            0 <= self.edge_seq()[k].1 < self.node_seq().len(),
    {
        self.lemma_edge_bounds(k);
    }

    /// Edge endpoints are nodes.
    proof fn lemma_edge_bounds(&self, k: int)
        requires
            self.wf(),
            0 <= k < self.edge_seq().len(),
        ensures
            0 <= self.edge_seq()[k].0 < self.node_seq().len(),
            0 <= self.edge_seq()[k].1 < self.node_seq().len(),
    {
        assert(0 <= topology_edges(self.graph)[k].0 < topology_node_count(self.graph));
    }

    /// The edges touching node `i`, as indices, most recent first.
    fn incident(&self, i: usize, incoming: bool) -> (r: Vec<usize>)
        requires
            self.wf(),
            i < self.node_seq().len(),
        ensures
            r@.map_values(|e: usize| e as int) == incident_edges(self.edge_seq(), i as int, incoming),
            forall|m: int| 0 <= m < r.len() ==> #[trigger] r@[m] < self.edge_seq().len()
                && touches(self.edge_seq(), i as int, incoming, r@[m] as int),
    {
        let es = topology_edges_directed(&self.graph, i, incoming);
        proof {
            lemma_incident_desc(self.edge_seq(), i as int, incoming, self.edge_seq().len() as int);
            assert forall|m: int| 0 <= m < es.len() implies #[trigger] es@[m] < self.edge_seq().len()
                && touches(self.edge_seq(), i as int, incoming, es@[m] as int) by {
                assert(incident_edges(self.edge_seq(), i as int, incoming)[m] == es@[m] as int);
            }
        }
        es
    }

    /// `(fan_in, fan_out)` of the node `key` designates: the numbers of
    /// edges entering and leaving it; `(0, 0)` when there is none.
    pub open spec fn degree_of(&self, key: Seq<char>) -> (int, int) {
        match self.lookup(key) {
            Some(i) => (
                incident_edges(self.edge_seq(), i, true).len() as int,
                incident_edges(self.edge_seq(), i, false).len() as int,
            ),
            None => (0, 0),
        }
    }

    /// `(fan_in, fan_out)` of the node `symbol_id` designates: the numbers of
    /// edges entering and leaving it; `(0, 0)` when there is none.
    pub fn degree(&self, symbol_id: &str) -> (r: (u64, u64))
        requires
            self.wf(),
        ensures
            r.0 == self.degree_of(symbol_id@).0,
            r.1 == self.degree_of(symbol_id@).1,
    {
        match self.find_node_index(symbol_id) {
            Some(i) => {
                let ins = self.incident(i, true);
                let outs = self.incident(i, false);
                proof {
                    assert(ins@.map_values(|e: usize| e as int).len() == ins.len());
                    assert(outs@.map_values(|e: usize| e as int).len() == outs.len());
                    assert(ins.len() <= self.edge_seq().len()) by {
                        crate::graph::topology::lemma_incident_desc(self.edge_seq(), i as int, true, self.edge_seq().len() as int);
                        lemma_incident_len(self.edge_seq(), i as int, true, self.edge_seq().len() as int);
                    }
                    assert(outs.len() <= self.edge_seq().len()) by {
                        lemma_incident_len(self.edge_seq(), i as int, false, self.edge_seq().len() as int);
                    }
                }
                (ins.len() as u64, outs.len() as u64)
            },
            None => (0, 0),
        }
    }

    /// The ids at the other ends of the edges touching node `i`.
    fn neighbour_ids(&self, i: usize, incoming: bool) -> (r: Vec<String>)
        requires
            self.wf(),
            i < self.node_seq().len(),
        ensures
            r@.map_values(|s: String| s@) == incident_edges(self.edge_seq(), i as int, incoming).map_values(
                |e: int| self.node_seq()[other_end(self.edge_seq(), incoming, e)].symbol_id@,
            ),
    {
        let es = self.incident(i, incoming);
        let ghost inc = incident_edges(self.edge_seq(), i as int, incoming);
        let mut r: Vec<String> = Vec::new();
        let mut j: usize = 0;
        while j < es.len()
            invariant
                self.wf(),
                j <= es.len(),
                r.len() == j,
                es@.map_values(|e: usize| e as int) == inc,
                forall|m: int| 0 <= m < es.len() ==> #[trigger] es@[m] < self.edge_seq().len(),
                forall|m: int| 0 <= m < j ==> r@[m]@ == #[trigger] self.node_seq()[other_end(self.edge_seq(), incoming, inc[m])].symbol_id@,
            decreases es.len() - j,
        {
            let e = es[j];
            assert(inc[j as int] == e as int);
            let ends = topology_edge_endpoints(&self.graph, e);
            proof {
                self.lemma_edge_bounds(e as int);
            }
            let other = if incoming { ends.0 } else { ends.1 };
            r.push(self.nodes[other].symbol_id.clone());
            j = j + 1;
        }
        proof {
            assert(r@.map_values(|s: String| s@) =~= inc.map_values(
                |e: int| self.node_seq()[other_end(self.edge_seq(), incoming, e)].symbol_id@,
            ));
        }
        r
    }

    /// The ids of the callers of the node `symbol_id` designates, one per
    /// incoming edge, most recent edge first; empty when there is none.
    pub fn get_callers(&self, symbol_id: &str) -> (r: Vec<String>)
        requires
            self.wf(),
        ensures
            self.lookup(symbol_id@) matches Some(i) ==> r@.map_values(|s: String| s@) == incident_edges(
                self.edge_seq(),
                i,
                true,
            ).map_values(|e: int| self.node_seq()[self.edge_seq()[e].0].symbol_id@),
            self.lookup(symbol_id@) is None ==> r@ == Seq::<String>::empty(),
    {
        match self.find_node_index(symbol_id) {
            Some(i) => {
                let r = self.neighbour_ids(i, true);
                proof {
                    assert(incident_edges(self.edge_seq(), i as int, true).map_values(
                        |e: int| self.node_seq()[other_end(self.edge_seq(), true, e)].symbol_id@,
                    ) =~= incident_edges(self.edge_seq(), i as int, true).map_values(
                        |e: int| self.node_seq()[self.edge_seq()[e].0].symbol_id@,
                    ));
                }
                r
            },
            None => Vec::new(),
        }
    }

    /// The ids of the callees of the node `symbol_id` designates, one per
    /// outgoing edge, most recent edge first; empty when there is none.
    pub fn get_callees(&self, symbol_id: &str) -> (r: Vec<String>)
        requires
            self.wf(),
        ensures
            self.lookup(symbol_id@) matches Some(i) ==> r@.map_values(|s: String| s@) == incident_edges(
                self.edge_seq(),
                i,
                false,
            ).map_values(|e: int| self.node_seq()[self.edge_seq()[e].1].symbol_id@),
            self.lookup(symbol_id@) is None ==> r@ == Seq::<String>::empty(),
    {
        match self.find_node_index(symbol_id) {
            Some(i) => {
                let r = self.neighbour_ids(i, false);
                proof {
                    assert(incident_edges(self.edge_seq(), i as int, false).map_values(
                        |e: int| self.node_seq()[other_end(self.edge_seq(), false, e)].symbol_id@,
                    ) =~= incident_edges(self.edge_seq(), i as int, false).map_values(
                        |e: int| self.node_seq()[self.edge_seq()[e].1].symbol_id@,
                    ));
                }
                r
            },
            None => Vec::new(),
        }
    }

    /// `r` lists the ids of the nodes reachable from `s`, `s` first, each once.
    pub open spec fn is_reach_listing(&self, s: int, r: Seq<String>) -> bool {
        exists|ord: Seq<int>| {
            &&& ord.len() == r.len()
            &&& ord[0] == s
            &&& forall|k: int| 0 <= k < ord.len() ==> 0 <= #[trigger] ord[k] < self.node_seq().len()
                && r[k]@ == self.node_seq()[ord[k]].symbol_id@
            &&& forall|a: int, b: int| 0 <= a < b < ord.len() ==> ord[a] != ord[b]
            &&& forall|v: int|
                0 <= v < self.node_seq().len() ==> (reaches(self.edge_seq(), s, v) <==> exists|k: int|
                    0 <= k < ord.len() && #[trigger] ord[k] == v)
        }
    }

    /// The ids of every symbol reachable from the one `symbol_id` designates
    /// along call edges, itself first, each once; empty when there is none.
    pub fn bfs_reachable(&self, symbol_id: &str) -> (r: Vec<String>)
        requires
            self.wf(),
        ensures
            self.lookup(symbol_id@) is None ==> r@ == Seq::<String>::empty(),
            self.lookup(symbol_id@) matches Some(s) ==> self.is_reach_listing(s, r@),
    {
        match self.find_node_index(symbol_id) {
            Some(s) => {
                let order = topology_bfs(&self.graph, s);
                let ghost ord = order@.map_values(|v: usize| v as int);
                let mut r: Vec<String> = Vec::new();
                let mut k: usize = 0;
                while k < order.len()
                    invariant
                        self.wf(),
                        k <= order.len(),
                        r.len() == k,
                        ord == order@.map_values(|v: usize| v as int),
                        forall|m: int| 0 <= m < order.len() ==> #[trigger] order@[m] < self.node_seq().len(),
                        forall|m: int| 0 <= m < k ==> r@[m]@ == #[trigger] self.node_seq()[ord[m]].symbol_id@,
                    decreases order.len() - k,
                {
                    r.push(self.nodes[order[k]].symbol_id.clone());
                    k = k + 1;
                }
                proof {
                    assert forall|v: int|
                        0 <= v < self.node_seq().len() implies (reaches(self.edge_seq(), s as int, v) <==> exists|k: int|
                            0 <= k < ord.len() && #[trigger] ord[k] == v) by {
                        if reaches(self.edge_seq(), s as int, v) {
                            let i = choose|i: int| 0 <= i < order.len() && order[i] as int == v;
                            assert(ord[i] == v);
                        }
                        if exists|k: int| 0 <= k < ord.len() && #[trigger] ord[k] == v {
                            let k = choose|k: int| 0 <= k < ord.len() && #[trigger] ord[k] == v;
                            assert(order[k] as int == v);
                        }
                    }
                    assert(ord[0] == s);
                    assert(ord.len() == r.len());
                    assert(forall|a: int, b: int| 0 <= a < b < ord.len() ==> ord[a] != ord[b]) by {
                        assert forall|a: int, b: int| 0 <= a < b < ord.len() implies ord[a] != ord[b] by {
                            assert(order[a] != order[b]);
                        }
                    }
                    assert(self.is_reach_listing(s as int, r@));
                }
                r
            },
            None => Vec::new(),
        }
    }
}

/// At most `k` edges lie below `k`.
proof fn lemma_incident_len(edges: Seq<(int, int)>, a: int, incoming: bool, k: int)
    requires
        0 <= k <= edges.len(),
    ensures
        crate::graph::topology::incident_desc(edges, a, incoming, k).len() <= k,
    decreases k,
{
    if k > 0 {
        lemma_incident_len(edges, a, incoming, k - 1);
    }
}

/// The depths of a traced chain.
pub open spec fn chain_depths(r: Seq<CallChainNode>) -> Seq<usize> {
    r.map_values(|c: CallChainNode| c.depth)
}

/// `ord`, `dep` and `par` form a complete breadth-first trace from `s`:
/// `s` itself (depth 0) is not listed, each entry sits at its distance from
/// `s`, between 1 and `max_depth`, was reached from a parent one level up,
/// depths never decrease, no node is listed twice, and every other node
/// within `max_depth` steps is listed.
pub open spec fn is_bfs_trace(
    edges: Seq<(int, int)>,
    incoming: bool,
    s: int,
    n: int,
    max_depth: int,
    ord: Seq<usize>,
    dep: Seq<usize>,
    par: Seq<usize>,
) -> bool {
    &&& bfs_core(edges, incoming, s, n, max_depth, ord, dep, par)
    &&& forall|v: int|
        0 <= v < n && v != s && #[trigger] near(edges, incoming, s, v, depth_bound(max_depth)) ==> exists|k: int|
            0 <= k < ord.len() && ord[k] == v
}

impl CallGraph {
    /// `r` is a complete breadth-first trace from node `s` towards callers
    /// (`incoming`) or callees, bounded by `max_depth` (the start at depth 0):
    /// entry `k` shows node `ord[k]` at its distance, with the label of the
    /// link from the node `par[k]` it was reached from.
    pub open spec fn is_call_trace(&self, s: int, max_depth: int, incoming: bool, r: Seq<CallChainNode>) -> bool {
        exists|ord: Seq<usize>, par: Seq<usize>| {
            &&& ord.len() == r.len()
            &&& #[trigger] is_bfs_trace(self.edge_seq(), incoming, s, self.node_seq().len() as int, max_depth, ord, chain_depths(r), par)
            &&& forall|k: int| 0 <= k < r.len() ==> {
                &&& #[trigger] r[k].symbol_id@ == self.node_seq()[ord[k] as int].symbol_id@
                &&& r[k].name@ == self.node_seq()[ord[k] as int].name@
                &&& r[k].file_path@ == self.node_seq()[ord[k] as int].file_path@
                &&& r[k].call_type@ == self.edge_label(par[k] as int, ord[k] as int)
            }
        }
    }

    /// The label of the link from `from` to `to` (see `edge_label`), or
    /// `Unknown` when there is no `from`.
    fn get_edge_between(&self, from: Option<usize>, to: usize) -> (r: String)
        requires
            self.wf(),
            to < self.node_seq().len(),
            from matches Some(p) ==> p < self.node_seq().len(),
        ensures
            from matches Some(p) ==> r@ == self.edge_label(p as int, to as int),
            from is None ==> r@ == "Unknown"@,
    {
        let p = match from {
            Some(p) => p,
            None => return "Unknown".to_string(),
        };
        match topology_find_edge(&self.graph, p, to) {
            Some(e) => {
                proof {
                    lemma_latest_edge(self.edge_seq(), p as int, to as int, e as int);
                }
                call_type_to_str(&self.calls[e]).to_string()
            },
            None => match topology_find_edge(&self.graph, to, p) {
                Some(e) => {
                    proof {
                        lemma_latest_edge(self.edge_seq(), to as int, p as int, e as int);
                    }
                    call_type_to_str(&self.calls[e]).to_string()
                },
                None => "Unknown".to_string(),
            },
        }
    }

    /// The chain entry for node `i` at depth `d`, reached from `p`.
    fn chain_node(&self, i: usize, d: usize, p: usize) -> (c: CallChainNode)
        requires
            self.wf(),
            i < self.node_seq().len(),
            p < self.node_seq().len(),
        ensures
            c.symbol_id@ == self.node_seq()[i as int].symbol_id@,
            c.name@ == self.node_seq()[i as int].name@,
            c.file_path@ == self.node_seq()[i as int].file_path@,
            c.depth == d,
            c.call_type@ == self.edge_label(p as int, i as int),
    {
        let node = &self.nodes[i];
        CallChainNode {
            symbol_id: node.symbol_id.clone(),
            name: node.name.clone(),
            depth: d,
            call_type: self.get_edge_between(Some(p), i),
            file_path: node.file_path.clone(),
        }
    }

    /// The breadth-first trace from node `start` towards callers
    /// (`incoming`) or callees.
    fn trace_bfs(&self, start: usize, max_depth: usize, incoming: bool) -> (r: Vec<CallChainNode>)
        requires
            self.wf(),
            start < self.node_seq().len(),
        ensures
            self.is_call_trace(start as int, max_depth as int, incoming, r@),
    {
        let ghost edges = self.edge_seq();
        let ghost s = start as int;
        let ghost md = max_depth as int;
        let ghost nn = self.node_seq().len() as int;
        let (order, dep, par) = bfs_levels(&self.graph, start, max_depth, incoming);
        let mut result: Vec<CallChainNode> = Vec::new();
        let mut k: usize = 0;
        while k < order.len()
            invariant
                self.wf(),
                edges == self.edge_seq(),
                nn == self.node_seq().len(),
                s == start,
                md == max_depth,
                bfs_core(edges, incoming, s, nn, md, order@, dep@, par@),
                k <= order.len(),
                result.len() == k,
                forall|q: int| #![trigger result@[q]] 0 <= q < k ==> {
                    &&& result@[q].symbol_id@ == self.node_seq()[order@[q] as int].symbol_id@
                    &&& result@[q].name@ == self.node_seq()[order@[q] as int].name@
                    &&& result@[q].file_path@ == self.node_seq()[order@[q] as int].file_path@
                    &&& result@[q].depth == dep@[q]
                    &&& result@[q].call_type@ == self.edge_label(par@[q] as int, order@[q] as int)
                },
            decreases order.len() - k,
        {
            proof {
                assert(bfs_entry(edges, incoming, s, nn, md, order@, dep@, par@, k as int));
            }
            result.push(self.chain_node(order[k], dep[k], par[k]));
            k = k + 1;
        }
        proof {
            assert(chain_depths(result@) =~= dep@);
            assert forall|v: int|
                0 <= v < nn && v != s && #[trigger] near(edges, incoming, s, v, depth_bound(md)) implies exists|q: int|
                    0 <= q < order@.len() && order@[q] == v by {
                assert(listed(order@, v));
            }
            assert(is_bfs_trace(edges, incoming, s, nn, md, order@, chain_depths(result@), par@));
        }
        result
    }

    /// The callers of the symbol `symbol_id` designates, breadth first up to
    /// `max_depth` levels (the symbol itself at depth 0, never listed);
    /// empty when there is none.
    pub fn trace_callers(&self, symbol_id: &str, max_depth: usize) -> (r: Vec<CallChainNode>)
        requires
            self.wf(),
        ensures
            self.lookup(symbol_id@) is None ==> r@ == Seq::<CallChainNode>::empty(),
            self.lookup(symbol_id@) matches Some(s) ==> self.is_call_trace(s, max_depth as int, true, r@),
    {
        match self.find_node_index(symbol_id) {
            Some(s) => self.trace_bfs(s, max_depth, true),
            None => Vec::new(),
        }
    }

    /// The callees of the symbol `symbol_id` designates, breadth first up to
    /// `max_depth` levels (the symbol itself at depth 0, never listed);
    /// empty when there is none.
    pub fn trace_callees(&self, symbol_id: &str, max_depth: usize) -> (r: Vec<CallChainNode>)
        requires
            self.wf(),
        ensures
            self.lookup(symbol_id@) is None ==> r@ == Seq::<CallChainNode>::empty(),
            self.lookup(symbol_id@) matches Some(s) ==> self.is_call_trace(s, max_depth as int, false, r@),
    {
        match self.find_node_index(symbol_id) {
            Some(s) => self.trace_bfs(s, max_depth, false),
            None => Vec::new(),
        }
    }
}

impl CallGraph {
    /// A call trace never lists its start symbol, lists each symbol at most
    /// once, and keeps every depth between 1 and `max_depth`.
    pub proof fn law_trace_shape(&self, s: int, max_depth: int, incoming: bool, r: Seq<CallChainNode>)
        requires
            self.wf(),
            0 <= s < self.node_seq().len(),
            self.is_call_trace(s, max_depth, incoming, r),
        ensures
            forall|k: int|
                0 <= k < r.len() ==> (#[trigger] r[k]).symbol_id@ != self.node_seq()[s].symbol_id@ && 1 <= r[k].depth
                    <= max_depth,
            forall|a: int, b: int| 0 <= a < b < r.len() ==> (#[trigger] r[a]).symbol_id@ != (#[trigger] r[b]).symbol_id@,
    {
        let n = self.node_seq().len() as int;
        let (ord, par) = choose|ord: Seq<usize>, par: Seq<usize>| {
            &&& ord.len() == r.len()
            &&& #[trigger] is_bfs_trace(self.edge_seq(), incoming, s, n, max_depth, ord, chain_depths(r), par)
            &&& forall|k: int| 0 <= k < r.len() ==> {
                &&& #[trigger] r[k].symbol_id@ == self.node_seq()[ord[k] as int].symbol_id@
                &&& r[k].name@ == self.node_seq()[ord[k] as int].name@
                &&& r[k].file_path@ == self.node_seq()[ord[k] as int].file_path@
                &&& r[k].call_type@ == self.edge_label(par[k] as int, ord[k] as int)
            }
        };
        let dep = chain_depths(r);
        assert forall|k: int| 0 <= k < r.len() implies (#[trigger] r[k]).symbol_id@ != self.node_seq()[s].symbol_id@ && 1
            <= r[k].depth <= max_depth by {
            assert(bfs_entry(self.edge_seq(), incoming, s, n, max_depth, ord, dep, par, k));
            assert(dep[k] == r[k].depth);
            let i = ord[k] as int;
            assert(self.id_to_index@.contains_key(self.nodes@[i].symbol_id@));
            assert(self.id_to_index@[self.nodes@[i].symbol_id@] == i);
            assert(self.id_to_index@.contains_key(self.nodes@[s].symbol_id@));
            assert(self.id_to_index@[self.nodes@[s].symbol_id@] == s);
        }
        assert forall|a: int, b: int| 0 <= a < b < r.len() implies (#[trigger] r[a]).symbol_id@ != (#[trigger] r[b]).symbol_id@ by {
            assert(bfs_entry(self.edge_seq(), incoming, s, n, max_depth, ord, dep, par, a));
            assert(bfs_entry(self.edge_seq(), incoming, s, n, max_depth, ord, dep, par, b));
            assert(ord[a] != ord[b]);
            let x = ord[a] as int;
            let y = ord[b] as int;
            assert(self.id_to_index@.contains_key(self.nodes@[x].symbol_id@));
            assert(self.id_to_index@[self.nodes@[x].symbol_id@] == x);
            assert(self.id_to_index@.contains_key(self.nodes@[y].symbol_id@));
            assert(self.id_to_index@[self.nodes@[y].symbol_id@] == y);
        }
    }
}

impl CallGraph {
    /// Entry `k` of a trace from `s` names a node `c` joined by edge `e`, in
    /// either direction, to its parent `p` (the start at depth 1, else the
    /// node of an earlier entry one level up), an edge `p -> c` being taken
    /// where there is one, and carries that edge's call type; it is never
    /// labelled `Unknown`.
    pub open spec fn entry_joined_to_parent(&self, s: int, r: Seq<CallChainNode>, k: int) -> bool {
        r[k].call_type@ != "Unknown"@ && exists|p: int, c: int, e: int| #![trigger self.node_seq()[p], self.node_seq()[c], self.edge_seq()[e]] {
            &&& 0 <= p < self.node_seq().len()
            &&& 0 <= c < self.node_seq().len()
            &&& 0 <= e < self.edge_seq().len()
            &&& self.node_seq()[c].symbol_id@ == r[k].symbol_id@
            &&& (r[k].depth == 1 ==> p == s)
            &&& (r[k].depth > 1 ==> exists|j: int| #![trigger r[j]]
                0 <= j < k && r[j].depth + 1 == r[k].depth && r[j].symbol_id@ == self.node_seq()[p].symbol_id@)
            &&& (self.edge_seq()[e] == (p, c) || self.edge_seq()[e] == (c, p))
            &&& ((exists|i: int| 0 <= i < self.edge_seq().len() && self.edge_seq()[i] == (p, c)) ==> self.edge_seq()[e] == (p, c))
            &&& r[k].call_type@ == call_type_label(self.call_types()[e])
        }
    }

    /// Entry `k` of a call trace is joined to its parent (see
    /// `entry_joined_to_parent`).
    #[verifier::spinoff_prover]
    #[verifier::rlimit(80)]
    proof fn lemma_trace_label_at(
        &self,
        s: int,
        max_depth: int,
        incoming: bool,
        r: Seq<CallChainNode>,
        k: int,
    )
        requires
            self.wf(),
            0 <= s < self.node_seq().len(),
            0 <= k < r.len(),
            self.is_call_trace(s, max_depth, incoming, r),
        ensures
            self.entry_joined_to_parent(s, r, k),
    {
        let n = self.node_seq().len() as int;
        let edges = self.edge_seq();
        let (ord, par) = choose|ord: Seq<usize>, par: Seq<usize>| {
            &&& ord.len() == r.len()
            &&& #[trigger] is_bfs_trace(self.edge_seq(), incoming, s, n, max_depth, ord, chain_depths(r), par)
            &&& forall|k: int| 0 <= k < r.len() ==> {
                &&& #[trigger] r[k].symbol_id@ == self.node_seq()[ord[k] as int].symbol_id@
                &&& r[k].name@ == self.node_seq()[ord[k] as int].name@
                &&& r[k].file_path@ == self.node_seq()[ord[k] as int].file_path@
                &&& r[k].call_type@ == self.edge_label(par[k] as int, ord[k] as int)
            }
        };
        let dep = chain_depths(r);
        assert(r[k].symbol_id@ == self.node_seq()[ord[k] as int].symbol_id@);
        assert(bfs_entry(edges, incoming, s, n, max_depth, ord, dep, par, k));
        assert(dep[k] == r[k].depth);
        let p = par[k] as int;
        let c = ord[k] as int;
        let i0 = choose|i: int| 0 <= i < edges.len() && any_edge()(i) && #[trigger] edge_leads(edges, incoming, i, p, c);
        let fwd = exists|i: int| 0 <= i < edges.len() && edges[i] == (p, c);
        if fwd {
            let ip = choose|i: int| 0 <= i < edges.len() && edges[i] == (p, c);
            lemma_latest_some(edges, p, c, ip);
        } else {
            assert(edges[i0] == (c, p));
            lemma_latest_some(edges, c, p, i0);
        }
        let e = if fwd {
            latest_edge(edges, p, c)->Some_0
        } else {
            latest_edge(edges, c, p)->Some_0
        };
        assert(r[k].call_type@ == self.edge_label(p, c));
        assert(r[k].call_type@ == call_type_label(self.call_types()[e]));
        lemma_label_known(self.call_types()[e]);
        if r[k].depth > 1 {
            let k2 = choose|k2: int| 0 <= k2 < k && #[trigger] ord[k2] == par[k] && dep[k2] + 1 == dep[k];
            assert(r[k2].symbol_id@ == self.node_seq()[ord[k2] as int].symbol_id@);
            assert(dep[k2] == r[k2].depth);
            assert(0 <= k2 < k && r[k2].depth + 1 == r[k].depth && r[k2].symbol_id@ == self.node_seq()[p].symbol_id@);
        }
        assert(0 <= e < edges.len());
        assert(edges[e] == (p, c) || edges[e] == (c, p));
        assert(fwd ==> edges[e] == (p, c));
        assert(self.node_seq()[c].symbol_id@ == r[k].symbol_id@);
        assert(self.node_seq()[p] == self.node_seq()[p]);
    }

    /// Each entry of a call trace carries the call type of an edge that
    /// joins it to its parent (the start symbol at depth 1, else an earlier
    /// entry one level up), in either direction, an edge from the parent to
    /// the entry being preferred; so no entry is ever labelled `Unknown`.
    #[verifier::spinoff_prover]
    #[verifier::rlimit(80)]
    pub proof fn law_trace_labels(&self, s: int, max_depth: int, incoming: bool, r: Seq<CallChainNode>)
        requires
            self.wf(),
            0 <= s < self.node_seq().len(),
            self.is_call_trace(s, max_depth, incoming, r),
        ensures
            forall|k: int| 0 <= k < r.len() ==> #[trigger] self.entry_joined_to_parent(s, r, k),
    {
        assert forall|k: int| 0 <= k < r.len() implies #[trigger] self.entry_joined_to_parent(s, r, k) by {
            self.lemma_trace_label_at(s, max_depth, incoming, r, k);
        }
    }
}

/// `keys` with the node key `k` appended unless its id is already present.
pub open spec fn with_key(keys: Seq<(Seq<char>, Seq<char>)>, k: (Seq<char>, Seq<char>)) -> Seq<(Seq<char>, Seq<char>)> {
    if keys_id_index(keys, k.0) is Some {
        keys
    } else {
        keys.push(k)
    }
}

/// A map of strings seen through the strings' views.
pub open spec fn strings_view(m: Map<Seq<char>, String>) -> Map<Seq<char>, Seq<char>> {
    Map::new(|k: Seq<char>| m.dom().contains(k), |k: Seq<char>| m[k]@)
}

/// The id a call endpoint `key` resolves to: `key` itself when it is a node
/// id, else the first stable id recorded for a symbol named `key`, else
/// `key` unchanged.
pub open spec fn resolve_in(keys: Seq<(Seq<char>, Seq<char>)>, stable: Map<Seq<char>, Seq<char>>, key: Seq<char>) -> Seq<char> {
    if keys_id_index(keys, key) is Some {
        key
    } else if stable.contains_key(key) {
        stable[key]
    } else {
        key
    }
}

/// `keys` after making sure `id` designates a node: unchanged when it
/// does, else with a placeholder of id `id` named `key` appended.
pub open spec fn ensure_in(keys: Seq<(Seq<char>, Seq<char>)>, id: Seq<char>, key: Seq<char>) -> Seq<(Seq<char>, Seq<char>)> {
    if keys_lookup(keys, id) is Some {
        keys
    } else {
        keys.push((id, key))
    }
}

/// A placeholder node: kind `Unknown("未索引")`, no file.
pub open spec fn is_placeholder(nd: SymbolNode) -> bool {
    &&& nd.kind matches SymbolKind::Unknown(k) && k@ == "未索引"@
    &&& nd.file_path@ == Seq::<char>::empty()
}

/// The node keys and stable-id table after the entries `symbols:{id}` of
/// the store: each decoded symbol is added (first id wins) and its name
/// remembers the first stable id seen for it.
pub open spec fn symbol_phase(symbols: Seq<(String, Option<Symbol>)>) -> (Seq<(Seq<char>, Seq<char>)>, Map<Seq<char>, Seq<char>>)
    decreases symbols.len(),
{
    if symbols.len() == 0 {
        (Seq::empty(), Map::empty())
    } else {
        let prev = symbol_phase(symbols.drop_last());
        match symbols.last().1 {
            Some(sym) => (
                with_key(prev.0, (sym.id@, sym.name@)),
                if prev.1.contains_key(sym.name@) {
                    prev.1
                } else {
                    prev.1.insert(sym.name@, symbols.last().0@.skip("symbols:"@.len() as int))
                },
            ),
            None => prev,
        }
    }
}

/// The node keys and stable-id table after a list of (stable id, name)
/// pairs.
pub open spec fn id_phase(ids: Seq<(String, String)>) -> (Seq<(Seq<char>, Seq<char>)>, Map<Seq<char>, Seq<char>>)
    decreases ids.len(),
{
    if ids.len() == 0 {
        (Seq::empty(), Map::empty())
    } else {
        let prev = id_phase(ids.drop_last());
        let (id, name) = ids.last();
        (
            with_key(prev.0, (id@, name@)),
            if prev.1.contains_key(name@) {
                prev.1
            } else {
                prev.1.insert(name@, id@)
            },
        )
    }
}

/// Node keys, edges and call types after adding the calls `calls` to a
/// graph with node keys `keys`: each call's endpoints are resolved, given a
/// placeholder node when nothing matches, and joined by an edge.
pub open spec fn call_phase(
    keys: Seq<(Seq<char>, Seq<char>)>,
    stable: Map<Seq<char>, Seq<char>>,
    calls: Seq<CallEdge>,
) -> (Seq<(Seq<char>, Seq<char>)>, Seq<(int, int)>, Seq<CallType>)
    decreases calls.len(),
{
    if calls.len() == 0 {
        (keys, Seq::empty(), Seq::empty())
    } else {
        let prev = call_phase(keys, stable, calls.drop_last());
        let e = calls.last();
        let a = resolve_in(prev.0, stable, e.caller_id@);
        let b = resolve_in(prev.0, stable, e.callee_id@);
        let k1 = ensure_in(prev.0, a, e.caller_id@);
        let k2 = ensure_in(k1, b, e.callee_id@);
        (k2, prev.1.push((keys_lookup(k2, a)->0, keys_lookup(k2, b)->0)), prev.2.push(e.call_type))
    }
}

/// A key that designates a node still does after a node is appended.
proof fn lemma_lookup_push(keys: Seq<(Seq<char>, Seq<char>)>, x: (Seq<char>, Seq<char>), key: Seq<char>)
    requires
        keys_lookup(keys, key) is Some,
    ensures
        keys_lookup(keys.push(x), key) is Some,
{
    let k2 = keys.push(x);
    if exists|i: int| 0 <= i < keys.len() && #[trigger] keys[i].0 == key {
        let i = choose|i: int| 0 <= i < keys.len() && #[trigger] keys[i].0 == key;
        assert(k2[i].0 == key);
    } else {
        assert(exists|i: int| 0 <= i < keys.len() && #[trigger] keys[i].1 == key);
        let i = choose|i: int| 0 <= i < keys.len() && #[trigger] keys[i].1 == key;
        assert(k2[i].1 == key);
    }
}

/// Each phase adds at most one node per symbol and two per call.
proof fn lemma_phase_len(symbols: Seq<(String, Option<Symbol>)>, ids: Seq<(String, String)>)
    ensures
        symbol_phase(symbols).0.len() <= symbols.len(),
        id_phase(ids).0.len() <= ids.len(),
    decreases symbols.len() + ids.len(),
{
    if symbols.len() > 0 {
        lemma_phase_len(symbols.drop_last(), ids);
    }
    if ids.len() > 0 {
        lemma_phase_len(symbols, ids.drop_last());
    }
}

/// Each call adds one edge and at most two nodes.
proof fn lemma_call_phase_len(keys: Seq<(Seq<char>, Seq<char>)>, stable: Map<Seq<char>, Seq<char>>, calls: Seq<CallEdge>)
    ensures
        call_phase(keys, stable, calls).0.len() <= keys.len() + 2 * calls.len(),
        call_phase(keys, stable, calls).0.len() >= keys.len(),
        call_phase(keys, stable, calls).1.len() == calls.len(),
        call_phase(keys, stable, calls).0.take(keys.len() as int) == keys,
    decreases calls.len(),
{
    if calls.len() > 0 {
        lemma_call_phase_len(keys, stable, calls.drop_last());
        let prev = call_phase(keys, stable, calls.drop_last());
        let e = calls.last();
        let a = resolve_in(prev.0, stable, e.caller_id@);
        let b = resolve_in(prev.0, stable, e.callee_id@);
        let k1 = ensure_in(prev.0, a, e.caller_id@);
        let k2 = ensure_in(k1, b, e.callee_id@);
        assert(k2.take(keys.len() as int) =~= prev.0.take(keys.len() as int));
    } else {
        assert(keys.take(keys.len() as int) =~= keys);
    }
}

/// The most calls or symbols a graph is built from, so that `petgraph`'s
/// `u32` indices cannot run out.
pub open spec fn max_build_entries() -> int {
    0x1000_0000
}

impl CallGraph {
    /// The id `key` resolves to (see `resolve_in`), given the first stable
    /// id recorded for each symbol name.
    fn resolve_symbol_ref(call_graph: &CallGraph, name_to_stable: &StringHashMap<String>, key: &str) -> (r: String)
        requires
            call_graph.wf(),
        ensures
            r@ == resolve_in(call_graph.node_keys(), strings_view(name_to_stable@), key@),
    {
        proof {
            call_graph.lemma_lookup(key@);
        }
        if call_graph.id_to_index.contains_key(key) {
            return key.to_string();
        }
        if call_graph.name_to_index.contains_key(key) {
            if let Some(id) = name_to_stable.get(key) {
                return id.clone();
            }
            return key.to_string();
        }
        if let Some(id) = name_to_stable.get(key) {
            return id.clone();
        }
        key.to_string()
    }

    /// Makes sure `node_id` designates a node, adding a placeholder named
    /// `fallback_name` when it does not.
    fn ensure_node_exists(call_graph: &mut CallGraph, node_id: &str, fallback_name: &str)
        requires
            old(call_graph).wf(),
            old(call_graph).node_seq().len() + 1 < index_limit(),
        ensures
            final(call_graph).wf(),
            final(call_graph).node_keys() == ensure_in(old(call_graph).node_keys(), node_id@, fallback_name@),
            final(call_graph).node_seq().take(old(call_graph).node_seq().len() as int) == old(call_graph).node_seq(),
            old(call_graph).node_seq().len() <= final(call_graph).node_seq().len() <= old(call_graph).node_seq().len() + 1,
            forall|i: int|
                old(call_graph).node_seq().len() <= i < final(call_graph).node_seq().len() ==> is_placeholder(
                    #[trigger] final(call_graph).node_seq()[i],
                ),
            final(call_graph).edge_seq() == old(call_graph).edge_seq(),
            final(call_graph).call_types() == old(call_graph).call_types(),
    {
        proof {
            call_graph.lemma_lookup(node_id@);
        }
        if call_graph.id_to_index.contains_key(node_id) || call_graph.name_to_index.contains_key(node_id) {
            proof {
                assert(call_graph.node_seq().take(call_graph.node_seq().len() as int) =~= call_graph.node_seq());
            }
            return ;
        }
        let placeholder = SymbolNode {
            symbol_id: node_id.to_string(),
            name: fallback_name.to_string(),
            kind: SymbolKind::Unknown("未索引".to_string()),
            file_path: String::new(),
        };
        let ghost before = *call_graph;
        call_graph.add_node(placeholder);
        proof {
            assert(call_graph.node_keys() =~= before.node_keys().push((node_id@, fallback_name@)));
            assert(call_graph.node_seq().take(before.node_seq().len() as int) =~= before.node_seq());
        }
    }

    /// Adds the calls `edges` (see `call_phase`).
    fn add_call_edges(call_graph: &mut CallGraph, name_to_stable: &StringHashMap<String>, edges: &[CallEdge])
        requires
            old(call_graph).wf(),
            old(call_graph).node_seq().len() + 2 * edges.len() + 2 < index_limit(),
            old(call_graph).edge_seq().len() + edges.len() + 2 < index_limit(),
        ensures
            final(call_graph).wf(),
            ({
                let out = call_phase(old(call_graph).node_keys(), strings_view(name_to_stable@), edges@);
                &&& final(call_graph).node_keys() == out.0
                &&& final(call_graph).edge_seq() == old(call_graph).edge_seq() + out.1
                &&& final(call_graph).call_types() == old(call_graph).call_types() + out.2
            }),
            final(call_graph).node_seq().len() >= old(call_graph).node_seq().len(),
            final(call_graph).node_seq().take(old(call_graph).node_seq().len() as int) == old(call_graph).node_seq(),
            forall|i: int|
                old(call_graph).node_seq().len() <= i < final(call_graph).node_seq().len() ==> is_placeholder(
                    #[trigger] final(call_graph).node_seq()[i],
                ),
    {
        let ghost g0 = *call_graph;
        let ghost keys0 = g0.node_keys();
        let ghost stable = strings_view(name_to_stable@);
        let mut i: usize = 0;
        while i < edges.len()
            invariant
                i <= edges.len(),
                call_graph.wf(),
                keys0 == g0.node_keys(),
                stable == strings_view(name_to_stable@),
                g0.node_seq().len() + 2 * edges.len() + 2 < index_limit(),
                g0.edge_seq().len() + edges.len() + 2 < index_limit(),
                call_graph.node_keys() == call_phase(keys0, stable, edges@.take(i as int)).0,
                call_graph.edge_seq() == g0.edge_seq() + call_phase(keys0, stable, edges@.take(i as int)).1,
                call_graph.call_types() == g0.call_types() + call_phase(keys0, stable, edges@.take(i as int)).2,
                call_graph.node_seq().len() <= g0.node_seq().len() + 2 * i,
                call_graph.node_seq().take(g0.node_seq().len() as int) == g0.node_seq(),
                call_graph.node_seq().len() >= g0.node_seq().len(),
                forall|j: int|
                    g0.node_seq().len() <= j < call_graph.node_seq().len() ==> is_placeholder(#[trigger] call_graph.node_seq()[j]),
            decreases edges.len() - i,
        {
            let ghost before = *call_graph;
            proof {
                assert(edges@.take(i + 1).drop_last() =~= edges@.take(i as int));
                lemma_call_phase_len(keys0, stable, edges@.take(i as int));
            }
            let edge = &edges[i];
            let caller_id = Self::resolve_symbol_ref(call_graph, name_to_stable, edge.caller_id.as_str());
            let callee_id = Self::resolve_symbol_ref(call_graph, name_to_stable, edge.callee_id.as_str());
            let ghost mid0 = *call_graph;
            Self::ensure_node_exists(call_graph, caller_id.as_str(), edge.caller_id.as_str());
            let ghost mid1 = *call_graph;
            Self::ensure_node_exists(call_graph, callee_id.as_str(), edge.callee_id.as_str());
            let ghost mid2 = *call_graph;
            proof {
                let k1 = mid1.node_keys();
                let k2 = mid2.node_keys();
                assert(keys_lookup(k1, caller_id@) is Some) by {
                    if keys_lookup(mid0.node_keys(), caller_id@) is None {
                        let x = (caller_id@, edge.caller_id@);
                        assert(k1 == mid0.node_keys().push(x));
                        assert(k1[mid0.node_keys().len() as int].0 == caller_id@);
                    }
                }
                if keys_lookup(k1, callee_id@) is None {
                    lemma_lookup_push(k1, (callee_id@, edge.callee_id@), caller_id@);
                    assert(k2[k1.len() as int].0 == callee_id@);
                }
                assert(keys_lookup(k2, callee_id@) is Some);
                assert(keys_lookup(k2, caller_id@) is Some);
                assert forall|j: int|
                    g0.node_seq().len() <= j < mid2.node_seq().len() implies is_placeholder(#[trigger] mid2.node_seq()[j]) by {
                    if j < mid1.node_seq().len() {
                        assert(mid2.node_seq()[j] == mid1.node_seq().take(mid1.node_seq().len() as int)[j]);
                        if j < mid0.node_seq().len() {
                            assert(mid1.node_seq()[j] == mid0.node_seq().take(mid0.node_seq().len() as int)[j]);
                        }
                    }
                }
                assert(mid2.node_seq().take(g0.node_seq().len() as int) =~= g0.node_seq()) by {
                    assert forall|j: int| 0 <= j < g0.node_seq().len() implies mid2.node_seq()[j] == g0.node_seq()[j] by {
                        assert(mid2.node_seq()[j] == mid1.node_seq().take(mid1.node_seq().len() as int)[j]);
                        assert(mid1.node_seq()[j] == mid0.node_seq().take(mid0.node_seq().len() as int)[j]);
                        assert(mid0.node_seq()[j] == g0.node_seq().take(g0.node_seq().len() as int)[j]);
                    }
                }
                self_lemma_keys_len(mid2);
            }
            call_graph.add_edge(caller_id.as_str(), callee_id.as_str(), edge.duplicate());
            proof {
                assert(call_graph.edge_seq() =~= g0.edge_seq() + call_phase(keys0, stable, edges@.take(i + 1)).1);
                assert(call_graph.call_types() =~= g0.call_types() + call_phase(keys0, stable, edges@.take(i + 1)).2);
            }
            i = i + 1;
        }
        proof {
            assert(edges@.take(i as int) =~= edges@);
        }
    }
}

/// The keys are one per node.
proof fn self_lemma_keys_len(g: CallGraph)
    ensures
        g.node_keys().len() == g.node_seq().len(),
{
}

/// `nd` is the node of a symbol decoded from one of the first `bound`
/// entries.
pub open spec fn decoded_from(symbols: Seq<(String, Option<Symbol>)>, bound: int, nd: SymbolNode) -> bool {
    exists|j: int, sym: Symbol| #![trigger symbols[j], symbol_node(sym)] 0 <= j < bound && symbols[j].1 == Some(sym) && nd == symbol_node(sym)
}

/// A node decoded from the first `b1` entries is decoded from the first `b2 >= b1`.
proof fn lemma_decoded_from_grow(symbols: Seq<(String, Option<Symbol>)>, b1: int, b2: int, nd: SymbolNode)
    requires
        decoded_from(symbols, b1, nd),
        b1 <= b2,
    ensures
        decoded_from(symbols, b2, nd),
{
    let (j, sym) = choose|j: int, sym: Symbol| #![trigger symbols[j], symbol_node(sym)] 0 <= j < b1 && symbols[j].1 == Some(sym) && nd == symbol_node(sym);
    assert(symbols[j].1 == Some(sym) && nd == symbol_node(sym));
}

impl CallGraph {
    /// Builds the graph from the store: first the `symbols:{stable id}`
    /// entries (each with its decoded symbol, or `None` where the value did
    /// not decode), then the call edges. See `symbol_phase` and `call_phase`.
    pub fn build_from_sled(symbols: &[(String, Option<Symbol>)], edges: &[CallEdge]) -> (g: CallGraph)
        requires
            symbols.len() < max_build_entries(),
            edges.len() < max_build_entries(),
            forall|i: int| 0 <= i < symbols.len() ==> has_prefix(#[trigger] symbols@[i].0@, "symbols:"@),
        ensures
            g.wf(),
            ({
                let first = symbol_phase(symbols@);
                let out = call_phase(first.0, first.1, edges@);
                &&& g.node_keys() == out.0
                &&& g.edge_seq() == out.1
                &&& g.call_types() == out.2
                &&& forall|i: int| 0 <= i < first.0.len() ==> #[trigger] decoded_from(symbols@, symbols.len() as int, g.node_seq()[i])
                &&& forall|i: int| first.0.len() <= i < g.node_seq().len() ==> is_placeholder(#[trigger] g.node_seq()[i])
            }),
    {
        let mut g = CallGraph::new();
        let mut name_to_stable: StringHashMap<String> = StringHashMap::new();
        let prefix = chars_of("symbols:");
        let mut i: usize = 0;
        proof {
            assert(g.node_keys() =~= symbol_phase(symbols@.take(0)).0);
            assert(strings_view(name_to_stable@) =~= symbol_phase(symbols@.take(0)).1);
        }
        while i < symbols.len()
            invariant
                i <= symbols.len(),
                symbols.len() < max_build_entries(),
                forall|k: int| 0 <= k < symbols.len() ==> has_prefix(#[trigger] symbols@[k].0@, "symbols:"@),
                prefix@ == "symbols:"@,
                g.wf(),
                g.edge_seq() == Seq::<(int, int)>::empty(),
                g.call_types() == Seq::<CallType>::empty(),
                g.node_keys() == symbol_phase(symbols@.take(i as int)).0,
                strings_view(name_to_stable@) == symbol_phase(symbols@.take(i as int)).1,
                g.node_seq().len() <= i,
                forall|k: int| 0 <= k < g.node_seq().len() ==> #[trigger] decoded_from(symbols@, i as int, g.node_seq()[k]),
            decreases symbols.len() - i,
        {
            proof {
                assert(symbols@.take(i + 1).drop_last() =~= symbols@.take(i as int));
            }
            let ghost before = g;
            let ghost map_before = name_to_stable@;
            let entry = &symbols[i];
            match &entry.1 {
                Some(symbol) => {
                    let key = chars_of(entry.0.as_str());
                    let stable_id = match strip_prefix_chars(key.as_slice(), prefix.as_slice()) {
                        Some(rest) => string_of(rest.as_slice()),
                        None => String::new(),
                    };
                    proof {
                        assert(has_prefix(symbols@[i as int].0@, "symbols:"@));
                        assert(stable_id@ == entry.0@.skip("symbols:"@.len() as int));
                    }
                    let node = SymbolNode::from_symbol(symbol);
                    g.add_node(node);
                    if !name_to_stable.contains_key(symbol.name.as_str()) {
                        name_to_stable.insert(symbol.name.clone(), stable_id);
                    }
                    proof {
                        assert(g.node_keys() =~= with_key(before.node_keys(), (symbol.id@, symbol.name@)));
                        assert(strings_view(name_to_stable@) =~= symbol_phase(symbols@.take(i + 1)).1);
                        assert forall|k: int| 0 <= k < g.node_seq().len() implies #[trigger] decoded_from(symbols@, i + 1, g.node_seq()[k]) by {
                            if k < before.node_seq().len() {
                                assert(g.node_seq()[k] == before.node_seq()[k]);
                                lemma_decoded_from_grow(symbols@, i as int, i + 1, g.node_seq()[k]);
                            } else {
                                assert(symbols@[i as int].1 == Some(*symbol));
                                assert(g.node_seq()[k] == symbol_node(*symbol));
                            }
                        }
                    }
                },
                None => {
                    proof {
                        assert forall|k: int| 0 <= k < g.node_seq().len() implies #[trigger] decoded_from(symbols@, i + 1, g.node_seq()[k]) by {
                            lemma_decoded_from_grow(symbols@, i as int, i + 1, g.node_seq()[k]);
                        }
                    }
                },
            }
            i = i + 1;
        }
        proof {
            assert(symbols@.take(i as int) =~= symbols@);
        }
        let ghost mid = g;
        Self::add_call_edges(&mut g, &name_to_stable, edges);
        proof {
            assert(g.edge_seq() =~= call_phase(mid.node_keys(), strings_view(name_to_stable@), edges@).1);
            assert(g.call_types() =~= call_phase(mid.node_keys(), strings_view(name_to_stable@), edges@).2);
            assert forall|k: int| 0 <= k < symbol_phase(symbols@).0.len() implies #[trigger] decoded_from(symbols@, symbols.len() as int, g.node_seq()[k]) by {
                assert(mid.node_keys().len() == mid.node_seq().len());
                assert(g.node_seq().take(mid.node_seq().len() as int)[k] == mid.node_seq()[k]);
                assert(decoded_from(symbols@, symbols.len() as int, mid.node_seq()[k]));
            }
        }
        g
    }
}

/// A node made from a (stable id, name) pair: kind `Function`, no file.
pub open spec fn id_node_matches(ids: Seq<(String, String)>, nd: SymbolNode) -> bool {
    exists|j: int|
        0 <= j < ids.len() && #[trigger] ids[j].0@ == nd.symbol_id@ && ids[j].1@ == nd.name@ && nd.kind == SymbolKind::Function
            && nd.file_path@ == Seq::<char>::empty()
}

/// The keys after adding a node for the id `id` (named `id`) unless present.
pub open spec fn with_raw_key(keys: Seq<(Seq<char>, Seq<char>)>, id: Seq<char>) -> Seq<(Seq<char>, Seq<char>)> {
    with_key(keys, (id, id))
}

impl CallGraph {
    /// Builds the graph from the (stable id, name) pairs of the full-text
    /// index, each a node of kind `Function`, then the call edges. See
    /// `id_phase` and `call_phase`.
    pub fn build_from_tantivy(all_symbol_ids: &[(String, String)], edges: &[CallEdge]) -> (g: CallGraph)
        requires
            all_symbol_ids.len() < max_build_entries(),
            edges.len() < max_build_entries(),
        ensures
            g.wf(),
            ({
                let first = id_phase(all_symbol_ids@);
                let out = call_phase(first.0, first.1, edges@);
                &&& g.node_keys() == out.0
                &&& g.edge_seq() == out.1
                &&& g.call_types() == out.2
                &&& forall|i: int| 0 <= i < first.0.len() ==> #[trigger] id_node_matches(all_symbol_ids@, g.node_seq()[i])
                &&& forall|i: int| first.0.len() <= i < g.node_seq().len() ==> is_placeholder(#[trigger] g.node_seq()[i])
            }),
    {
        let mut g = CallGraph::new();
        let mut name_to_stable: StringHashMap<String> = StringHashMap::new();
        let mut i: usize = 0;
        proof {
            assert(g.node_keys() =~= id_phase(all_symbol_ids@.take(0)).0);
            assert(strings_view(name_to_stable@) =~= id_phase(all_symbol_ids@.take(0)).1);
        }
        while i < all_symbol_ids.len()
            invariant
                i <= all_symbol_ids.len(),
                all_symbol_ids.len() < max_build_entries(),
                g.wf(),
                g.edge_seq() == Seq::<(int, int)>::empty(),
                g.call_types() == Seq::<CallType>::empty(),
                g.node_keys() == id_phase(all_symbol_ids@.take(i as int)).0,
                strings_view(name_to_stable@) == id_phase(all_symbol_ids@.take(i as int)).1,
                g.node_seq().len() <= i,
                forall|k: int| 0 <= k < g.node_seq().len() ==> #[trigger] id_node_matches(all_symbol_ids@, g.node_seq()[k]),
            decreases all_symbol_ids.len() - i,
        {
            proof {
                assert(all_symbol_ids@.take(i + 1).drop_last() =~= all_symbol_ids@.take(i as int));
            }
            let ghost before = g;
            let entry = &all_symbol_ids[i];
            let node = SymbolNode {
                symbol_id: entry.0.clone(),
                name: entry.1.clone(),
                kind: SymbolKind::Function,
                file_path: String::new(),
            };
            g.add_node(node);
            if !name_to_stable.contains_key(entry.1.as_str()) {
                name_to_stable.insert(entry.1.clone(), entry.0.clone());
            }
            proof {
                assert(g.node_keys() =~= with_key(before.node_keys(), (entry.0@, entry.1@)));
                assert(strings_view(name_to_stable@) =~= id_phase(all_symbol_ids@.take(i + 1)).1);
                assert forall|k: int| 0 <= k < g.node_seq().len() implies #[trigger] id_node_matches(all_symbol_ids@, g.node_seq()[k]) by {
                    if k < before.node_seq().len() {
                        assert(g.node_seq()[k] == before.node_seq()[k]);
                    } else {
                        assert(all_symbol_ids@[i as int].0@ == g.node_seq()[k].symbol_id@);
                    }
                }
            }
            i = i + 1;
        }
        proof {
            assert(all_symbol_ids@.take(i as int) =~= all_symbol_ids@);
        }
        let ghost mid = g;
        Self::add_call_edges(&mut g, &name_to_stable, edges);
        proof {
            assert(g.edge_seq() =~= call_phase(mid.node_keys(), strings_view(name_to_stable@), edges@).1);
            assert(g.call_types() =~= call_phase(mid.node_keys(), strings_view(name_to_stable@), edges@).2);
            assert forall|k: int| 0 <= k < id_phase(all_symbol_ids@).0.len() implies #[trigger] id_node_matches(all_symbol_ids@, g.node_seq()[k]) by {
                assert(mid.node_keys().len() == mid.node_seq().len());
                assert(g.node_seq().take(mid.node_seq().len() as int)[k] == mid.node_seq()[k]);
                assert(id_node_matches(all_symbol_ids@, mid.node_seq()[k]));
            }
        }
        g
    }

    /// Adds the call `caller_id -> callee_id` (type `Direct`), first adding
    /// a `Function` node in `test.rs` for each id that no node carries.
    pub fn add_edge_raw(&mut self, caller_id: &str, callee_id: &str)
        requires
            old(self).wf(),
            old(self).node_seq().len() + 3 < index_limit(),
            old(self).edge_seq().len() + 2 < index_limit(),
        ensures
            final(self).wf(),
            ({
                let keys = with_raw_key(with_raw_key(old(self).node_keys(), caller_id@), callee_id@);
                &&& final(self).node_keys() == keys
                &&& final(self).edge_seq() == old(self).edge_seq().push(
                    (keys_lookup(keys, caller_id@)->0, keys_lookup(keys, callee_id@)->0),
                )
                &&& final(self).call_types() == old(self).call_types().push(CallType::Direct)
            }),
            final(self).node_seq().take(old(self).node_seq().len() as int) == old(self).node_seq(),
            forall|i: int|
                old(self).node_seq().len() <= i < final(self).node_seq().len() ==> (#[trigger] final(self).node_seq()[i]).kind
                    == SymbolKind::Function && final(self).node_seq()[i].file_path@ == "test.rs"@,
    {
        let ghost g0 = *self;
        proof {
            self.lemma_lookup(caller_id@);
        }
        if !self.id_to_index.contains_key(caller_id) {
            let node = SymbolNode {
                symbol_id: caller_id.to_string(),
                name: caller_id.to_string(),
                kind: SymbolKind::Function,
                file_path: "test.rs".to_string(),
            };
            self.add_node(node);
        }
        let ghost g1 = *self;
        proof {
            self.lemma_lookup(caller_id@);
            assert(g1.id_index(caller_id@) is Some);
            assert(g1.node_keys() =~= with_raw_key(g0.node_keys(), caller_id@));
            assert(g1.node_seq().take(g0.node_seq().len() as int) =~= g0.node_seq());
            self.lemma_lookup(callee_id@);
        }
        if !self.id_to_index.contains_key(callee_id) {
            let node = SymbolNode {
                symbol_id: callee_id.to_string(),
                name: callee_id.to_string(),
                kind: SymbolKind::Function,
                file_path: "test.rs".to_string(),
            };
            self.add_node(node);
        }
        let ghost g2 = *self;
        proof {
            assert(g2.node_keys() =~= with_raw_key(g1.node_keys(), callee_id@));
            assert(g2.node_seq().take(g0.node_seq().len() as int) =~= g0.node_seq()) by {
                assert forall|j: int| 0 <= j < g0.node_seq().len() implies g2.node_seq()[j] == g0.node_seq()[j] by {
                    assert(g2.node_seq()[j] == g1.node_seq()[j]);
                    assert(g1.node_seq()[j] == g0.node_seq().take(g0.node_seq().len() as int)[j]);
                }
            }
            let keys = g2.node_keys();
            let ci = choose|i: int| 0 <= i < g1.node_keys().len() && #[trigger] g1.node_keys()[i].0 == caller_id@;
            assert(keys[ci].0 == caller_id@);
            self.lemma_lookup(caller_id@);
            self.lemma_lookup(callee_id@);
            assert(keys_id_index(keys, caller_id@) is Some);
            assert(keys_id_index(keys, callee_id@) is Some);
        }
        let edge = CallEdge {
            caller_id: caller_id.to_string(),
            callee_id: callee_id.to_string(),
            location: SourceLocation { file_path: "test.rs".to_string(), line: 1, column: 1, end_line: 1, end_column: 1 },
            call_type: CallType::Direct,
        };
        self.add_edge(caller_id, callee_id, edge);
    }
}

} // verus!
