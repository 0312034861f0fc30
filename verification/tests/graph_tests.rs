use codeconnect::graph::call_graph::{call_type_to_str, CallGraph, SymbolNode};
use codeconnect::graph::cycle_detect::CycleDetector;
use codeconnect::graph::dep_graph::{DepEdge, DepNode, DepNodeKind, DependencyGraph};
use codeconnect::graph::metrics::{source_cache_from, MetricCalculator};
use codeconnect::graph::type_hierarchy::{infer_inherit_relation, kind_to_string, InheritEdge, TypeHierarchy, TypeNode};
use codeconnect::types::{CallEdge, CallType, Import, ImportResolution, SourceLocation, Symbol, SymbolKind};

fn make_node(id: &str, name: &str) -> SymbolNode {
    SymbolNode { symbol_id: id.to_string(), name: name.to_string(), kind: SymbolKind::Function, file_path: format!("{}.rs", name) }
}

fn make_call(caller: &str, callee: &str, ct: CallType) -> CallEdge {
    CallEdge {
        caller_id: caller.to_string(),
        callee_id: callee.to_string(),
        location: SourceLocation { file_path: String::new(), line: 0, column: 0, end_line: 0, end_column: 0 },
        call_type: ct,
    }
}

#[test]
fn test_new_graph_is_empty() {
    let g = CallGraph::new();
    assert_eq!(g.node_count(), 0);
    assert_eq!(g.edge_count(), 0);
}

#[test]
fn test_add_node_and_find_by_id() {
    let mut g = CallGraph::new();
    g.add_node(make_node("func_a", "func_a"));
    let found = g.get_node_by_id("func_a");
    assert!(found.is_some());
    assert_eq!(found.unwrap().name, "func_a");
}

#[test]
fn test_add_duplicate_node_returns_same_index() {
    let mut g = CallGraph::new();
    let idx1 = g.add_node(make_node("dup", "dup"));
    let idx2 = g.add_node(make_node("dup", "dup_v2"));
    assert_eq!(idx1, idx2);
    let node = g.get_node_by_id("dup").unwrap();
    assert_eq!(node.name, "dup");
}

#[test]
fn test_get_node_by_id_not_found() {
    let g = CallGraph::new();
    assert!(g.get_node_by_id("nonexistent").is_none());
}

#[test]
fn test_trace_callers_simple_chain() {
    let mut g = CallGraph::new();
    g.add_node(make_node("main", "main"));
    g.add_node(make_node("helper", "helper"));
    g.add_node(make_node("util", "util"));
    g.add_edge("main", "helper", make_call("main", "helper", CallType::Direct));
    g.add_edge("helper", "util", make_call("helper", "util", CallType::Direct));

    let callers = g.trace_callers("util", 10);
    let names: Vec<String> = callers.iter().map(|c| c.name.clone()).collect();
    assert!(names.contains(&"helper".to_string()));
    assert!(names.contains(&"main".to_string()));
    let helper = callers.iter().find(|c| c.name == "helper").unwrap();
    assert_eq!(helper.depth, 1);
    let main = callers.iter().find(|c| c.name == "main").unwrap();
    assert_eq!(main.depth, 2);
}

#[test]
fn test_trace_callees_simple_chain() {
    let mut g = CallGraph::new();
    g.add_node(make_node("main", "main"));
    g.add_node(make_node("helper", "helper"));
    g.add_node(make_node("util", "util"));
    g.add_edge("main", "helper", make_call("main", "helper", CallType::Direct));
    g.add_edge("helper", "util", make_call("helper", "util", CallType::Direct));

    let callees = g.trace_callees("main", 10);
    let names: Vec<String> = callees.iter().map(|c| c.name.clone()).collect();
    assert!(names.contains(&"helper".to_string()));
    assert!(names.contains(&"util".to_string()));
    let helper = callees.iter().find(|c| c.name == "helper").unwrap();
    assert_eq!(helper.depth, 1);
    let util = callees.iter().find(|c| c.name == "util").unwrap();
    assert_eq!(util.depth, 2);
}

#[test]
fn test_max_depth_limit() {
    let mut g = CallGraph::new();
    let ids = ["a", "b", "c", "d", "e"];
    for id in &ids {
        g.add_node(make_node(id, id));
    }
    for i in 0..ids.len() - 1 {
        g.add_edge(ids[i], ids[i + 1], make_call(ids[i], ids[i + 1], CallType::Direct));
    }
    let callees = g.trace_callees("a", 2);
    let max_depth = callees.iter().map(|c| c.depth).max().unwrap_or(0);
    assert!(max_depth <= 2);
    let names: Vec<String> = callees.iter().map(|c| c.name.clone()).collect();
    assert!(names.contains(&"b".to_string()));
    assert!(names.contains(&"c".to_string()));
    assert!(!names.contains(&"d".to_string()));
}

#[test]
fn test_trace_nonexistent_symbol() {
    let g = CallGraph::new();
    assert!(g.trace_callers("ghost", 10).is_empty());
    assert!(g.trace_callees("ghost", 10).is_empty());
}

#[test]
fn test_call_type_in_result() {
    let mut g = CallGraph::new();
    g.add_node(make_node("a", "a"));
    g.add_node(make_node("b", "b"));
    g.add_edge("a", "b", make_call("a", "b", CallType::Virtual));
    let callees = g.trace_callees("a", 10);
    assert_eq!(callees.len(), 1);
    assert_eq!(callees[0].call_type, "虚函数调用");
}

#[test]
fn test_call_type_labels() {
    assert_eq!(call_type_to_str(&CallType::Direct), "直接调用");
    assert_eq!(call_type_to_str(&CallType::Callback), "回调调用");
    assert_eq!(call_type_to_str(&CallType::MacroExpansion), "宏展开调用");
    assert_eq!(call_type_to_str(&CallType::Unknown), "未知调用类型");
}

#[test]
fn test_degree_and_neighbours() {
    let mut g = CallGraph::new();
    g.add_edge_raw("main", "helper");
    g.add_edge_raw("main", "logger");
    g.add_edge_raw("helper", "logger");
    assert_eq!(g.degree("logger"), (2, 0));
    assert_eq!(g.degree("main"), (0, 2));
    assert_eq!(g.degree("nobody"), (0, 0));
    let mut callers = g.get_callers("logger");
    callers.sort();
    assert_eq!(callers, vec!["helper".to_string(), "main".to_string()]);
    let mut reach = g.bfs_reachable("main");
    reach.sort();
    assert_eq!(reach, vec!["helper".to_string(), "logger".to_string(), "main".to_string()]);
}

fn dep(id: &str) -> DepNode {
    DepNode { id: id.into(), name: id.into(), kind: DepNodeKind::File }
}

fn import_edge() -> DepEdge {
    DepEdge { edge_type: "import".into(), count: 1 }
}

fn build_self_loop_graph() -> DependencyGraph {
    let mut graph = DependencyGraph::new();
    graph.add_node(dep("a"));
    graph.add_node(dep("b"));
    graph.add_edge("a", "a", import_edge());
    graph.add_edge("a", "b", import_edge());
    graph
}

fn build_acyclic_graph() -> DependencyGraph {
    let mut graph = DependencyGraph::new();
    graph.add_node(dep("a"));
    graph.add_node(dep("b"));
    graph.add_node(dep("c"));
    graph.add_edge("a", "b", import_edge());
    graph.add_edge("b", "c", import_edge());
    graph
}

fn build_cyclic_graph() -> DependencyGraph {
    let mut graph = DependencyGraph::new();
    graph.add_node(dep("a"));
    graph.add_node(dep("b"));
    graph.add_node(dep("c"));
    graph.add_edge("a", "b", import_edge());
    graph.add_edge("b", "c", import_edge());
    graph.add_edge("c", "a", import_edge());
    graph
}

#[test]
fn test_detect_cycles_acyclic() {
    assert!(CycleDetector::detect_cycles(&build_acyclic_graph()).is_empty());
}

#[test]
fn test_detect_cycles_cyclic() {
    let cycles = CycleDetector::detect_cycles(&build_cyclic_graph());
    assert_eq!(cycles.len(), 1);
    assert_eq!(cycles[0].len(), 3);
}

#[test]
fn test_detect_cycles_empty_graph() {
    assert!(CycleDetector::detect_cycles(&DependencyGraph::new()).is_empty());
}

#[test]
fn test_detect_cycles_single_node() {
    let mut graph = DependencyGraph::new();
    graph.add_node(dep("single"));
    assert!(CycleDetector::detect_cycles(&graph).is_empty());
}

#[test]
fn test_detect_cycles_self_loop() {
    let graph = build_self_loop_graph();
    assert!(CycleDetector::detect_cycles(&graph).is_empty());
}

#[test]
fn test_has_cycle_acyclic() {
    assert!(!CycleDetector::has_cycle(&build_acyclic_graph()));
}

#[test]
fn test_has_cycle_cyclic() {
    assert!(CycleDetector::has_cycle(&build_cyclic_graph()));
}

#[test]
fn test_has_cycle_empty() {
    assert!(!CycleDetector::has_cycle(&DependencyGraph::new()));
}

#[test]
fn test_topological_order_acyclic() {
    let order = CycleDetector::topological_order(&build_acyclic_graph());
    assert!(order.is_ok());
    let nodes = order.unwrap();
    assert_eq!(nodes.len(), 3);
    let pos = |id: &str| nodes.iter().position(|n| n.id == id).unwrap();
    assert!(pos("a") < pos("b"));
    assert!(pos("b") < pos("c"));
}

#[test]
fn test_topological_order_cyclic() {
    let result = CycleDetector::topological_order(&build_cyclic_graph());
    assert!(result.is_err());
    assert!(!result.unwrap_err().is_empty());
}

#[test]
fn test_topological_order_empty() {
    let result = CycleDetector::topological_order(&DependencyGraph::new());
    assert!(result.is_ok());
    assert!(result.unwrap().is_empty());
}

#[test]
fn test_topological_order_self_loop_fails() {
    let result = CycleDetector::topological_order(&build_self_loop_graph());
    assert!(result.is_err());
}

#[test]
fn test_empty_graph() {
    let graph = DependencyGraph::new();
    assert_eq!(graph.node_count(), 0);
    assert_eq!(graph.edge_count(), 0);
    assert!(graph.get_dependencies("nonexistent").is_empty());
    assert!(graph.get_dependents("nonexistent").is_empty());
}

#[test]
fn test_manual_graph_construction() {
    let mut graph = DependencyGraph::new();
    graph.add_node(dep("a.rs"));
    graph.add_node(dep("b.rs"));
    assert_eq!(graph.add_edge("a.rs", "b.rs", import_edge()), Some(()));
    assert_eq!(graph.node_count(), 2);
    assert_eq!(graph.edge_count(), 1);
    let deps = graph.get_dependencies("a.rs");
    assert_eq!(deps.len(), 1);
    assert_eq!(deps[0].id, "b.rs");
    let dependents = graph.get_dependents("b.rs");
    assert_eq!(dependents.len(), 1);
    assert_eq!(dependents[0].id, "a.rs");
}

#[test]
fn test_add_edge_missing_node() {
    let mut graph = DependencyGraph::new();
    graph.add_node(dep("a.rs"));
    assert_eq!(graph.add_edge("a.rs", "zz.rs", import_edge()), None);
    assert_eq!(graph.edge_count(), 0);
}

#[test]
fn test_get_or_create_node_dedup() {
    let mut graph = DependencyGraph::new();
    let idx1 = graph.get_or_create_node("a.rs", "a.rs", DepNodeKind::File);
    let idx2 = graph.get_or_create_node("b.rs", "b.rs", DepNodeKind::File);
    let idx1_again = graph.get_or_create_node("a.rs", "a.rs", DepNodeKind::File);
    assert_eq!(idx1, idx1_again);
    assert_ne!(idx1, idx2);
    assert_eq!(graph.node_count(), 2);
}

#[test]
fn test_edge_count_aggregation() {
    let mut graph = DependencyGraph::new();
    graph.get_or_create_node("a.rs", "a.rs", DepNodeKind::File);
    graph.get_or_create_node("b.rs", "b.rs", DepNodeKind::File);
    graph.add_edge("a.rs", "b.rs", import_edge());
    graph.add_edge("a.rs", "b.rs", import_edge());
    let edges = graph.edges();
    assert_eq!(edges.len(), 1);
    assert_eq!(edges[0].2.count, 2);
}

#[test]
fn test_resolve_import_target() {
    let mk = |res: ImportResolution| Import {
        file_path: "src/main.rs".to_string(),
        import_path: "crate::lib".to_string(),
        alias: None,
        line: 1,
        resolution: res,
    };
    assert_eq!(DependencyGraph::resolve_import_target(&mk(ImportResolution::Resolved("src/lib.rs".to_string()))), "src/lib.rs");
    assert_eq!(DependencyGraph::resolve_import_target(&mk(ImportResolution::External("serde".to_string()))), "serde");
    assert_eq!(DependencyGraph::resolve_import_target(&mk(ImportResolution::Unresolved)), "");
}

#[test]
fn test_nodes_and_edges() {
    let mut graph = DependencyGraph::new();
    graph.get_or_create_node("a.rs", "a.rs", DepNodeKind::File);
    graph.get_or_create_node("b.rs", "b.rs", DepNodeKind::File);
    graph.get_or_create_node("c.rs", "c.rs", DepNodeKind::File);
    graph.add_edge("a.rs", "b.rs", import_edge());
    graph.add_edge("b.rs", "c.rs", import_edge());
    assert_eq!(graph.nodes().len(), 3);
    assert_eq!(graph.edges().len(), 2);
}

#[test]
fn test_nonexistent_node() {
    let graph = DependencyGraph::new();
    assert!(graph.get_dependencies("nope").is_empty());
    assert!(graph.get_dependents("nope").is_empty());
}

#[test]
fn test_default() {
    let graph = DependencyGraph::default();
    assert_eq!(graph.node_count(), 0);
    assert_eq!(graph.edge_count(), 0);
}

#[test]
fn test_build_file_graph_counts_imports() {
    let imp = |file: &str, target: &str| {
        Some(Import {
            file_path: file.to_string(),
            import_path: target.to_string(),
            alias: None,
            line: 1,
            resolution: ImportResolution::Resolved(target.to_string()),
        })
    };
    let entries = vec![
        ("imports:a.rs::x".to_string(), imp("a.rs", "b.rs")),
        ("imports:a.rs::y".to_string(), imp("a.rs", "b.rs")),
        ("imports:b.rs::z".to_string(), imp("b.rs", "c.rs")),
        ("imports:broken".to_string(), imp("x", "y")),
        ("imports:c.rs::w".to_string(), None),
    ];
    let g = DependencyGraph::build_file_graph(&entries);
    assert_eq!(g.node_count(), 3);
    assert_eq!(g.edge_count(), 2);
    let edges = g.edges();
    let ab = edges.iter().find(|e| e.0.id == "a.rs").unwrap();
    assert_eq!(ab.1.id, "b.rs");
    assert_eq!(ab.2.count, 2);
    assert_eq!(ab.2.edge_type, "import");
}

#[test]
fn test_build_symbol_graph_kinds() {
    let calls = vec!["edges:f::g".to_string(), "edges:f::g".to_string(), "edges:bad".to_string()];
    let refs = vec!["refs:g::T".to_string()];
    let g = DependencyGraph::build_symbol_graph(&calls, &refs);
    assert_eq!(g.node_count(), 3);
    let edges = g.edges();
    assert_eq!(edges.len(), 2);
    let fg = edges.iter().find(|e| e.0.id == "f").unwrap();
    assert_eq!(fg.2.edge_type, "call");
    assert_eq!(fg.2.count, 2);
    let gt = edges.iter().find(|e| e.0.id == "g").unwrap();
    assert_eq!(gt.2.edge_type, "reference");
    assert_eq!(gt.1.kind, DepNodeKind::Symbol);
}

fn make_symbol(id: &str, name: &str, complexity: Option<u64>) -> Symbol {
    Symbol {
        id: id.to_string(),
        name: name.to_string(),
        kind: SymbolKind::Function,
        location: SourceLocation { file_path: "test.rs".to_string(), line: 1, column: 1, end_line: 1, end_column: 1 },
        signature: None,
        doc_comment: None,
        parent_id: None,
        modifiers: vec![],
        is_exported: false,
        complexity,
    }
}

fn type_node(name: &str, kind: &str) -> TypeNode {
    TypeNode { symbol_id: format!("id_{}", name), name: name.to_string(), kind: kind.to_string(), file_path: "test.rs".to_string() }
}

fn edge(relation: &str, percent: u8) -> InheritEdge {
    InheritEdge { relation: relation.to_string(), confidence_percent: percent }
}

fn build_sample_hierarchy() -> TypeHierarchy {
    let mut h = TypeHierarchy::new();
    h.add_node(type_node("Object", "class"));
    h.add_node(type_node("Animal", "class"));
    h.add_node(type_node("Dog", "class"));
    h.add_edge("Dog", "Animal", edge("extends", 90));
    h.add_edge("Animal", "Object", edge("extends", 90));
    h
}

#[test]
fn test_complexity_uses_precomputed_value() {
    let symbol = make_symbol("f1", "my_func", Some(42));
    assert_eq!(MetricCalculator::compute_complexity(&symbol, "hello world"), 42);
}

#[test]
fn test_complexity_minimal_function() {
    let symbol = make_symbol("f2", "simple", None);
    assert_eq!(MetricCalculator::compute_complexity(&symbol, "fn simple() { return 1; }"), 1);
}

#[test]
fn test_complexity_single_if() {
    let symbol = make_symbol("f3", "single_if", None);
    let source = r#"
            fn single_if(x: i32) {
                if x > 0 {
                    println!("positive");
                }
            }
        "#;
    assert_eq!(MetricCalculator::compute_complexity(&symbol, source), 2);
}

#[test]
fn test_complexity_multiple_branches() {
    let symbol = make_symbol("f4", "multi_branch", None);
    let source = r#"
            fn multi_branch(x: i32) {
                if x > 0 {
                    return 1;
                } else if x < 0 {
                    return -1;
                }
                for i in 0..10 {
                    while true {
                        break;
                    }
                }
                match x {
                    1 => {},
                    _ => {},
                }
            }
        "#;
    assert_eq!(MetricCalculator::compute_complexity(&symbol, source), 6);
}

#[test]
fn test_complexity_with_logical_operators() {
    let symbol = make_symbol("f5", "logical_ops", None);
    let source = "fn check(x: bool, y: bool) { return x && y || !x; }";
    assert_eq!(MetricCalculator::compute_complexity(&symbol, source), 3);
}

#[test]
fn test_complexity_loop_keyword() {
    let symbol = make_symbol("f6", "loop_fn", None);
    assert_eq!(MetricCalculator::compute_complexity(&symbol, "fn forever() { loop { break; } }"), 2);
}

#[test]
fn test_complexity_catch_try() {
    let symbol = make_symbol("f7", "try_catch", None);
    let source = r#"
            function try_catch() {
                try {
                    risky();
                } catch (e) {
                    handle(e);
                } finally {
                    cleanup();
                }
            }
        "#;
    assert_eq!(MetricCalculator::compute_complexity(&symbol, source), 3);
}

#[test]
fn test_complexity_switch_statement() {
    let symbol = make_symbol("f8", "switch_fn", None);
    let source = r#"
            void switch_fn(int x) {
                switch (x) {
                    case 1: break;
                    case 2: break;
                    default: break;
                }
            }
        "#;
    assert_eq!(MetricCalculator::compute_complexity(&symbol, source), 4);
}

#[test]
fn test_complexity_ternary_operator() {
    let symbol = make_symbol("f9", "ternary", None);
    assert_eq!(MetricCalculator::compute_complexity(&symbol, "let x = a ? b : c;"), 2);
}

#[test]
fn test_compute_all_integration() {
    let mut cg = CallGraph::new();
    cg.add_edge_raw("main", "helper");
    cg.add_edge_raw("main", "logger");
    cg.add_edge_raw("helper", "logger");
    cg.add_edge_raw("orphan", "logger");
    let type_hierarchy = build_sample_hierarchy();
    let symbols = vec![
        make_symbol("main", "main", Some(3)),
        make_symbol("helper", "helper", Some(2)),
        make_symbol("logger", "logger", Some(1)),
        make_symbol("orphan", "orphan", None),
        make_symbol("Dog", "Dog", Some(5)),
    ];
    let metrics = MetricCalculator::compute_all(&symbols, &cg, &type_hierarchy, None);

    let main = metrics.iter().find(|m| m.name == "main").unwrap();
    assert_eq!(main.cyclomatic_complexity, 3);
    assert_eq!(main.fan_in, 0);
    assert_eq!(main.fan_out, 2);
    assert_eq!(main.depth_of_inheritance, 0);

    let helper = metrics.iter().find(|m| m.name == "helper").unwrap();
    assert_eq!(helper.cyclomatic_complexity, 2);
    assert_eq!(helper.fan_in, 1);
    assert_eq!(helper.fan_out, 1);
    assert_eq!(helper.depth_of_inheritance, 0);

    let logger = metrics.iter().find(|m| m.name == "logger").unwrap();
    assert_eq!(logger.cyclomatic_complexity, 1);
    assert_eq!(logger.fan_in, 3);
    assert_eq!(logger.fan_out, 0);
    assert_eq!(logger.depth_of_inheritance, 0);

    let orphan = metrics.iter().find(|m| m.name == "orphan").unwrap();
    assert_eq!(orphan.cyclomatic_complexity, 1);
    assert_eq!(orphan.fan_in, 0);
    assert_eq!(orphan.fan_out, 1);

    let dog = metrics.iter().find(|m| m.name == "Dog").unwrap();
    assert_eq!(dog.cyclomatic_complexity, 5);
    assert_eq!(dog.fan_in, 0);
    assert_eq!(dog.fan_out, 0);
    assert_eq!(dog.depth_of_inheritance, 2);
}

#[test]
fn test_compute_all_uses_source_cache() {
    let cg = CallGraph::new();
    let th = TypeHierarchy::new();
    let mut sym = make_symbol("f", "f", None);
    sym.location.line = 2;
    sym.location.end_line = 3;
    let mut text = "fn other() { if a {} if b {} }\nfn f() {\n if x && y {} }\n".to_string();
    for _ in 0..22 {
        text.push_str("// pad\n");
    }
    let cache = source_cache_from(vec![("test.rs".to_string(), text)]);
    let metrics = MetricCalculator::compute_all(&[sym], &cg, &th, Some(&cache));
    assert_eq!(metrics[0].cyclomatic_complexity, 3);
}

#[test]
fn test_detect_dead_code_no_entry_points() {
    let mut cg = CallGraph::new();
    cg.add_edge_raw("main", "helper");
    let all: Vec<String> = vec!["main".into(), "helper".into()];
    let dead = MetricCalculator::detect_dead_code(&all, &cg, &[]);
    assert_eq!(dead.len(), 2);
}

#[test]
fn test_detect_dead_code_all_reachable() {
    let mut cg = CallGraph::new();
    cg.add_edge_raw("main", "helper");
    cg.add_edge_raw("helper", "util");
    cg.add_edge_raw("util", "logger");
    let all: Vec<String> = vec!["main".into(), "helper".into(), "util".into(), "logger".into()];
    let dead = MetricCalculator::detect_dead_code(&all, &cg, &["main".to_string()]);
    assert!(dead.is_empty());
}

#[test]
fn test_detect_dead_code_partially_reachable() {
    let mut cg = CallGraph::new();
    cg.add_edge_raw("main", "helper");
    cg.add_edge_raw("main", "util");
    cg.add_edge_raw("orphan", "dead_func");
    let all: Vec<String> = vec!["main".into(), "helper".into(), "util".into(), "orphan".into(), "dead_func".into()];
    let dead = MetricCalculator::detect_dead_code(&all, &cg, &["main".to_string()]);
    assert_eq!(dead.len(), 2);
    let names: Vec<_> = dead.iter().map(|d| d.name.as_str()).collect();
    assert!(names.contains(&"orphan"));
    assert!(names.contains(&"dead_func"));
}

#[test]
fn test_detect_dead_code_confidence_isolated() {
    let cg = CallGraph::new();
    let all: Vec<String> = vec!["main".into(), "orphan".into()];
    let dead = MetricCalculator::detect_dead_code(&all, &cg, &["main".to_string()]);
    assert_eq!(dead.len(), 1);
    assert_eq!(dead[0].name, "orphan");
    assert_eq!(dead[0].confidence_percent, 100);
}

#[test]
fn test_detect_dead_code_confidence_has_callers() {
    let mut cg = CallGraph::new();
    cg.add_edge_raw("orphan", "dead_func");
    let all: Vec<String> = vec!["main".into(), "orphan".into(), "dead_func".into()];
    let dead = MetricCalculator::detect_dead_code(&all, &cg, &["main".to_string()]);
    assert_eq!(dead.len(), 2);
    assert_eq!(dead.iter().find(|d| d.name == "orphan").unwrap().confidence_percent, 100);
    assert_eq!(dead.iter().find(|d| d.name == "dead_func").unwrap().confidence_percent, 80);
}

#[test]
fn test_detect_dead_code_test_pattern() {
    let cg = CallGraph::new();
    let all: Vec<String> = vec!["main".into(), "test_my_func".into()];
    let dead = MetricCalculator::detect_dead_code(&all, &cg, &["main".to_string()]);
    assert_eq!(dead.iter().find(|d| d.name == "test_my_func").unwrap().confidence_percent, 50);
}

#[test]
fn test_detect_dead_code_underscore_prefix() {
    let cg = CallGraph::new();
    let all: Vec<String> = vec!["main".into(), "_internal_fn".into()];
    let dead = MetricCalculator::detect_dead_code(&all, &cg, &["main".to_string()]);
    assert_eq!(dead.iter().find(|d| d.name == "_internal_fn").unwrap().confidence_percent, 70);
}

#[test]
fn test_detect_dead_code_multiple_entry_points() {
    let mut cg = CallGraph::new();
    cg.add_edge_raw("pub_fn", "helper");
    cg.add_edge_raw("orphan", "unused");
    let all: Vec<String> = vec!["pub_fn".into(), "helper".into(), "main".into(), "orphan".into(), "unused".into()];
    let entries: Vec<String> = vec!["main".into(), "pub_fn".into()];
    let dead = MetricCalculator::detect_dead_code(&all, &cg, &entries);
    assert_eq!(dead.len(), 2);
    let names: Vec<_> = dead.iter().map(|d| d.name.as_str()).collect();
    assert!(names.contains(&"orphan"));
    assert!(names.contains(&"unused"));
}

#[test]
fn test_empty_symbols_list() {
    let cg = CallGraph::new();
    assert!(MetricCalculator::detect_dead_code(&[], &cg, &[]).is_empty());
}

#[test]
fn test_empty_hierarchy() {
    let h = TypeHierarchy::new();
    assert_eq!(h.node_count(), 0);
    assert_eq!(h.edge_count(), 0);
    assert!(h.get_ancestors("Nonexistent").is_empty());
    assert!(h.get_descendants("Nonexistent").is_empty());
    assert!(h.get_implementations("Nonexistent").is_empty());
}

#[test]
fn test_single_node() {
    let mut h = TypeHierarchy::new();
    h.add_node(type_node("BaseClass", "class"));
    assert_eq!(h.node_count(), 1);
    assert_eq!(h.edge_count(), 0);
    assert!(h.get_ancestors("BaseClass").is_empty());
    assert!(h.get_descendants("BaseClass").is_empty());
    assert!(h.get_implementations("BaseClass").is_empty());
    let found = h.find_node("BaseClass").unwrap();
    assert_eq!(found.name, "BaseClass");
    assert_eq!(found.kind, "class");
}

#[test]
fn test_simple_inheritance_chain() {
    let h = build_sample_hierarchy();
    assert_eq!(h.node_count(), 3);
    assert_eq!(h.edge_count(), 2);
    let ancestors = h.get_ancestors("Dog");
    let names: Vec<_> = ancestors.iter().map(|n| n.name.as_str()).collect();
    assert!(names.contains(&"Animal"));
    assert!(names.contains(&"Object"));
    assert_eq!(ancestors.len(), 2);
    let descendants = h.get_descendants("Object");
    let names: Vec<_> = descendants.iter().map(|n| n.name.as_str()).collect();
    assert!(names.contains(&"Animal"));
    assert!(names.contains(&"Dog"));
    assert_eq!(descendants.len(), 2);
    let ancestors = h.get_ancestors("Animal");
    assert_eq!(ancestors.len(), 1);
    assert_eq!(ancestors[0].name, "Object");
    let descendants = h.get_descendants("Animal");
    assert_eq!(descendants.len(), 1);
    assert_eq!(descendants[0].name, "Dog");
}

#[test]
fn test_interface_implementation() {
    let mut h = TypeHierarchy::new();
    h.add_node(type_node("IAnimal", "interface"));
    h.add_node(type_node("Dog", "class"));
    h.add_node(type_node("Cat", "class"));
    h.add_edge("Dog", "IAnimal", edge("implements", 90));
    h.add_edge("Cat", "IAnimal", edge("implements", 90));
    let impls = h.get_implementations("IAnimal");
    let names: Vec<_> = impls.iter().map(|n| n.name.as_str()).collect();
    assert!(names.contains(&"Dog"));
    assert!(names.contains(&"Cat"));
    assert_eq!(impls.len(), 2);
}

#[test]
fn test_get_descendants_ignores_implements() {
    let mut h = TypeHierarchy::new();
    h.add_node(type_node("Animal", "class"));
    h.add_node(type_node("Dog", "class"));
    h.add_node(type_node("IWalkable", "interface"));
    h.add_edge("Dog", "Animal", edge("extends", 90));
    h.add_edge("Dog", "IWalkable", edge("implements", 90));
    let descendants = h.get_descendants("Animal");
    assert_eq!(descendants.len(), 1);
    assert_eq!(descendants[0].name, "Dog");
    let descendants = h.get_descendants("IWalkable");
    assert_eq!(descendants.len(), 1);
    assert_eq!(descendants[0].name, "Dog");
    let impls = h.get_implementations("IWalkable");
    assert_eq!(impls.len(), 1);
    assert_eq!(impls[0].name, "Dog");
}

#[test]
fn test_multiple_inheritance() {
    let mut h = TypeHierarchy::new();
    h.add_node(type_node("FlyingThing", "class"));
    h.add_node(type_node("SwimmingThing", "class"));
    h.add_node(type_node("Duck", "class"));
    h.add_edge("Duck", "FlyingThing", edge("extends", 90));
    h.add_edge("Duck", "SwimmingThing", edge("extends", 90));
    assert_eq!(h.get_ancestors("Duck").len(), 2);
    let fly = h.get_descendants("FlyingThing");
    assert_eq!(fly.len(), 1);
    assert_eq!(fly[0].name, "Duck");
    let swim = h.get_descendants("SwimmingThing");
    assert_eq!(swim.len(), 1);
    assert_eq!(swim[0].name, "Duck");
}

#[test]
fn test_diamond_inheritance() {
    let mut h = TypeHierarchy::new();
    for n in ["A", "B", "C", "D"] {
        h.add_node(type_node(n, "class"));
    }
    h.add_edge("B", "A", edge("extends", 90));
    h.add_edge("C", "A", edge("extends", 90));
    h.add_edge("D", "B", edge("extends", 90));
    h.add_edge("D", "C", edge("extends", 90));
    assert_eq!(h.get_ancestors("D").len(), 3);
    assert_eq!(h.get_descendants("A").len(), 3);
}

#[test]
fn test_interface_inheritance_chain() {
    let mut h = TypeHierarchy::new();
    h.add_node(type_node("IAnimal", "interface"));
    h.add_node(type_node("IWalker", "interface"));
    h.add_node(type_node("IRunner", "interface"));
    h.add_node(type_node("Cheetah", "class"));
    h.add_edge("IWalker", "IAnimal", edge("extends", 80));
    h.add_edge("IRunner", "IWalker", edge("extends", 80));
    h.add_edge("Cheetah", "IRunner", edge("implements", 90));
    assert_eq!(h.get_implementations("IAnimal").len(), 0);
    assert_eq!(h.get_implementations("IWalker").len(), 0);
    let impls = h.get_implementations("IRunner");
    assert_eq!(impls.len(), 1);
    assert_eq!(impls[0].name, "Cheetah");
}

#[test]
fn test_non_existent_symbol() {
    let h = TypeHierarchy::new();
    assert!(h.get_ancestors("Ghost").is_empty());
    assert!(h.get_descendants("Ghost").is_empty());
    assert!(h.get_implementations("Ghost").is_empty());
    assert!(h.find_node("Ghost").is_none());
}

#[test]
fn test_all_nodes() {
    let mut h = TypeHierarchy::new();
    h.add_node(type_node("A", "class"));
    h.add_node(type_node("B", "class"));
    h.add_node(type_node("C", "interface"));
    assert_eq!(h.all_nodes().len(), 3);
}

#[test]
fn test_add_edge_unknown_type() {
    let mut h = TypeHierarchy::new();
    h.add_node(type_node("A", "class"));
    assert!(h.add_edge("A", "Missing", edge("extends", 90)).is_none());
    assert_eq!(h.edge_count(), 0);
}

#[test]
fn test_infer_class_extends_class() {
    let (rel, conf) = infer_inherit_relation(&SymbolKind::Class, &SymbolKind::Class);
    assert_eq!(rel, "extends");
    assert!(conf >= 90);
}

#[test]
fn test_infer_class_implements_interface() {
    let (rel, conf) = infer_inherit_relation(&SymbolKind::Class, &SymbolKind::Interface);
    assert_eq!(rel, "implements");
    assert!(conf >= 90);
}

#[test]
fn test_infer_struct_implements_trait() {
    let (rel, conf) = infer_inherit_relation(&SymbolKind::Struct, &SymbolKind::Trait);
    assert_eq!(rel, "implements");
    assert!(conf >= 90);
}

#[test]
fn test_infer_trait_extends_trait() {
    let (rel, conf) = infer_inherit_relation(&SymbolKind::Trait, &SymbolKind::Trait);
    assert_eq!(rel, "extends");
    assert!(conf >= 80);
}

#[test]
fn test_infer_enum_extends_enum() {
    let (rel, conf) = infer_inherit_relation(&SymbolKind::Enum, &SymbolKind::Enum);
    assert_eq!(rel, "extends");
    assert!(conf >= 90);
}

#[test]
fn test_infer_unknown_fallback() {
    let (_rel, conf) = infer_inherit_relation(&SymbolKind::Function, &SymbolKind::Class);
    assert!(conf <= 30);
}

#[test]
fn test_infer_unknown_relation_named_unknown() {
    let (rel, conf) = infer_inherit_relation(&SymbolKind::Function, &SymbolKind::Class);
    assert_eq!(rel, "unknown");
    assert_eq!(conf, 30);
}

#[test]
fn test_kind_names() {
    assert_eq!(kind_to_string(&SymbolKind::TypeAlias), "type_alias");
    assert_eq!(kind_to_string(&SymbolKind::Unknown("x".to_string())), "unknown(x)");
}

#[test]
fn test_build_from_sled_links_parents() {
    let mut base = make_symbol("id_base", "Base", None);
    base.kind = SymbolKind::Class;
    let mut child = make_symbol("id_child", "Child", None);
    child.kind = SymbolKind::Class;
    child.parent_id = Some("id_base".to_string());
    let h = TypeHierarchy::build_from_sled(&[base, child]);
    assert_eq!(h.node_count(), 2);
    let anc = h.get_ancestors("Child");
    assert_eq!(anc.len(), 1);
    assert_eq!(anc[0].name, "Base");
}

#[test]
fn test_extract_symbol_source_short_text_is_body() {
    let mut sym = make_symbol("f", "f", None);
    sym.location.line = 5;
    sym.location.end_line = 25;
    let text = (1..=30).map(|i| format!("l{i}")).collect::<Vec<_>>().join("\n");
    assert_eq!(MetricCalculator::extract_symbol_source(&sym, &text), None);
    let long = (1..=100).map(|i| format!("l{i}")).collect::<Vec<_>>().join("\n");
    sym.location.line = 2;
    sym.location.end_line = 4;
    assert_eq!(MetricCalculator::extract_symbol_source(&sym, &long), Some("l2\nl3\nl4".to_string()));
}

#[test]
fn test_trace_depth_zero_lists_nothing() {
    let mut g = CallGraph::new();
    g.add_node(make_node("a", "a"));
    g.add_node(make_node("b", "b"));
    g.add_edge("a", "b", make_call("a", "b", CallType::Direct));
    assert!(g.trace_callees("a", 0).is_empty());
    assert!(g.trace_callers("b", 0).is_empty());
    assert_eq!(g.trace_callees("a", 1).len(), 1);
}

#[test]
fn test_trace_excludes_start_on_cycle() {
    let mut g = CallGraph::new();
    g.add_node(make_node("a", "a"));
    g.add_node(make_node("b", "b"));
    g.add_edge("a", "b", make_call("a", "b", CallType::Direct));
    g.add_edge("b", "a", make_call("b", "a", CallType::Direct));
    let callers = g.trace_callers("a", 10);
    assert_eq!(callers.len(), 1);
    assert_eq!(callers[0].symbol_id, "b");
    assert_eq!(callers[0].depth, 1);
}

#[test]
fn test_trace_parallel_edges_listed_once() {
    let mut g = CallGraph::new();
    g.add_node(make_node("a", "a"));
    g.add_node(make_node("b", "b"));
    g.add_edge("a", "b", make_call("a", "b", CallType::Direct));
    g.add_edge("a", "b", make_call("a", "b", CallType::Callback));
    g.add_edge("a", "a", make_call("a", "a", CallType::Direct));
    let callees = g.trace_callees("a", 3);
    assert_eq!(callees.len(), 1);
    assert_eq!(callees[0].symbol_id, "b");
}

#[test]
fn test_ancestors_nearest_first() {
    let mut h = TypeHierarchy::new();
    for n in ["A", "B", "C", "D", "E"] {
        h.add_node(type_node(n, "class"));
    }
    h.add_edge("E", "D", edge("extends", 90));
    h.add_edge("D", "B", edge("extends", 90));
    h.add_edge("D", "C", edge("extends", 90));
    h.add_edge("B", "A", edge("extends", 90));
    h.add_edge("C", "A", edge("extends", 90));
    let names: Vec<String> = h.get_ancestors("E").iter().map(|n| n.name.clone()).collect();
    assert_eq!(names.len(), 4);
    assert_eq!(names[0], "D");
    assert!(names[1..3].contains(&"B".to_string()) && names[1..3].contains(&"C".to_string()));
    assert_eq!(names[3], "A");
    let desc: Vec<String> = h.get_descendants("A").iter().map(|n| n.name.clone()).collect();
    assert_eq!(desc.len(), 4);
    assert_eq!(desc[3], "E");
}

#[test]
fn test_complexity_one_more_branch_word_adds_one() {
    let symbol = make_symbol("f7", "grow", None);
    let base = "fn grow(x: i32) { x ?";
    let before = MetricCalculator::compute_complexity(&symbol, base);
    for word in ["if", "while", "&&", "rescue"] {
        let grown = format!("{} {}", base, word);
        assert_eq!(MetricCalculator::compute_complexity(&symbol, &grown), before + 1);
    }
}

#[test]
fn test_complexity_splits_tokens_at_unicode_white_space() {
    let symbol = make_symbol("f8", "spaces", None);
    assert_eq!(MetricCalculator::compute_complexity(&symbol, "if\u{3000}if\u{85}while\u{2009}for"), 5);
    assert_eq!(MetricCalculator::compute_complexity(&symbol, "if\u{200b}"), 1);
    for c in ['\t', '\n', '\u{b}', '\u{c}', '\r', ' ', '\u{a0}', '\u{1680}', '\u{2000}', '\u{200a}', '\u{2028}', '\u{2029}', '\u{202f}', '\u{205f}'] {
        assert!(c.is_whitespace());
        let text = format!("if{}if", c);
        assert_eq!(MetricCalculator::compute_complexity(&symbol, &text), 3);
    }
}
