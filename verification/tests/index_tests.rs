use codeconnect::call_sites::{resolve_call_sites, ResolvedCall};
use codeconnect::symbol_record::{kind_from_str, kind_str, split_modifiers, symbol_search_result_to_symbol, symbol_to_record};
use codeconnect::text_scan::{
    needs_derived_scan, scan_indexed_files, scan_lines, scan_one_file, snippet_around, text_needle, FileScan, TextHit,
    TextScanReport, TextTruthContext, MAX_SCAN_FILE_BYTES, SNIPPET_MAX_CHARS,
};
use codeconnect::types::{CallSite, CallType, FileMeta, SourceLocation, Symbol, SymbolKind};
use codeconnect::index_stats::FileIndexStats;
use codeconnect::index_status::{language_distribution, symbol_total};
use codeconnect::reindex::{content_fingerprint, reindex_action, unique_paths, ReindexAction, ReindexTally};
use codeconnect::walk_roots::{effective_walk_roots, invalid_roots_message, is_safe_relative_path, is_whole_project_root};

fn report_with(query: &str, files_with_hits: usize, total_hits: usize, hits: Vec<TextHit>) -> TextScanReport {
    TextScanReport {
        query: query.to_string(),
        needle: query.to_string(),
        files_total: 10,
        files_scanned: 10,
        files_skipped_large: 0,
        files_unreadable: 0,
        files_with_hits,
        total_hits,
        hits,
        scan_complete: true,
        elapsed_ms: 3,
    }
}

fn hit(path: &str, line: usize, snippet: &str) -> TextHit {
    TextHit { file_path: path.to_string(), line, snippet: snippet.to_string() }
}

#[test]
fn test_empty_needle_returns_no_hits() {
    let scans = vec![scan_lines("a.rs", "fn main() {}\n", "  ", 50)];
    let report = scan_indexed_files("  ", 1, scans, 50, 7);
    assert_eq!(report.total_hits, 0);
    assert!(report.scan_complete);
    assert_eq!(report.files_total, 1);
}

#[test]
fn test_scan_only_given_files() {
    let scans = vec![scan_one_file("in.rs", Some(18), Some("let SENTINEL = 1;\n"), "SENTINEL", 50)];
    let report = scan_indexed_files("SENTINEL", 1, scans, 50, 1);
    assert_eq!(report.total_hits, 1);
    assert_eq!(report.files_with_hits, 1);
    assert_eq!(report.hits[0].file_path, "in.rs");
    assert_eq!(report.hits[0].line, 1);
    assert_eq!(report.hits[0].snippet, "let SENTINEL = 1;");
}

#[test]
fn test_total_hits_counts_beyond_detail_limit() {
    let body: String = (0..120).map(|_| "NEEDLE\n").collect();
    let scans = vec![scan_one_file("a.rs", Some(body.len() as u64), Some(&body), "NEEDLE", 50)];
    let report = scan_indexed_files("NEEDLE", 1, scans, 50, 1);
    assert_eq!(report.total_hits, 120);
    assert_eq!(report.hits.len(), 50);
}

#[test]
fn test_missing_file_counted_unreadable() {
    let scans = vec![scan_one_file("gone.rs", None, None, "x", 50)];
    let report = scan_indexed_files("x", 1, scans, 50, 1);
    assert_eq!(report.files_unreadable, 1);
    assert!(report.scan_complete);
    assert!(report.coverage_warning().is_some());
}

#[test]
fn test_large_and_unscanned_files_reported() {
    let scans = vec![
        scan_one_file("big.rs", Some(MAX_SCAN_FILE_BYTES + 1), None, "x", 50),
        FileScan::skipped(),
        scan_one_file("ok.rs", Some(3), Some("x\n"), "x", 50),
    ];
    let report = scan_indexed_files("x", 3, scans, 50, 2500);
    assert_eq!(report.files_skipped_large, 1);
    assert_eq!(report.files_scanned, 1);
    assert!(!report.scan_complete);
    assert_eq!(
        report.coverage_warning().unwrap(),
        "文本扫描未覆盖全部：仅扫描了 1/3 个已索引文件，命中数为不完全统计；跳过 1 个超过 4MB 的文件。这些缺口里可能有命中，不能据此判断「不存在」。"
    );
}

#[test]
fn test_hits_kept_in_file_order_across_files() {
    let scans = vec![
        scan_lines("a.rs", "x\nx\n", "x", 3),
        scan_lines("b.rs", "y x\nx\n", "x", 3),
    ];
    let report = scan_indexed_files("x", 2, scans, 3, 0);
    assert_eq!(report.total_hits, 4);
    let where_: Vec<(String, usize)> = report.hits.iter().map(|h| (h.file_path.clone(), h.line)).collect();
    assert_eq!(where_, vec![("a.rs".to_string(), 1), ("a.rs".to_string(), 2), ("b.rs".to_string(), 1)]);
}

#[test]
fn test_notice_expands_for_zero_symbol_hits() {
    let report = report_with("MY_ENUM_VALUE", 2, 15, vec![hit("src/a.rs", 7, "case MY_ENUM_VALUE:")]);
    let notice = report.text_truth_notice(TextTruthContext::SymbolNotIndexed, 0).expect("notice");
    assert!(notice.contains("符号索引中未找到 `MY_ENUM_VALUE`"));
    assert!(notice.contains("文本检索在 2 个文件、15 处找到了它"));
    assert!(notice.contains("这不代表 MY_ENUM_VALUE 不存在"));
    assert!(notice.contains("改动前请以这些位置为准"));
    assert!(notice.contains("src/a.rs:7"));
}

#[test]
fn test_notice_sparse_symbol_hits_does_not_claim_not_found() {
    let report = report_with("compute", 1, 4, vec![hit("src/a.rs", 6, "pub fn compute()")]);
    let notice = report.text_truth_notice(TextTruthContext::SymbolNotIndexed, 1).unwrap();
    assert!(!notice.contains("符号索引中未找到"), "{}", notice);
    assert!(notice.contains("符号索引只命中 1 个"), "{}", notice);
    assert!(notice.contains("改动前请一并核对"), "{}", notice);
}

#[test]
fn test_notice_summarizes_when_symbol_hits_abundant() {
    let report = report_with("main", 30, 400, vec![hit("src/a.rs", 1, "fn main() {")]);
    let notice = report.text_truth_notice(TextTruthContext::SymbolNotIndexed, 20).expect("summary");
    assert_eq!(notice, "文本另有 30 个文件 400 处出现（含注释/字符串，仅作核对参考）");
    assert!(!notice.contains("src/a.rs:1"));
}

#[test]
fn test_notice_absent_when_abundant_and_no_text_hits() {
    let report = report_with("main", 0, 0, vec![]);
    assert!(report.text_truth_notice(TextTruthContext::SymbolNotIndexed, 20).is_none());
}

#[test]
fn test_notice_reports_incomplete_scan_instead_of_zero() {
    let mut report = report_with("ghost", 0, 0, vec![]);
    report.scan_complete = false;
    report.files_scanned = 3;
    let notice = report.text_truth_notice(TextTruthContext::SymbolNotIndexed, 0).unwrap();
    assert!(notice.contains("文本扫描未完成"));
    assert!(notice.contains("不能"));
    assert_eq!(notice, "⚠ 文本扫描未完成（预算内只扫了 3/10 个已索引文件），**不能**据此判断 `ghost` 不存在。");
}

#[test]
fn test_notice_complete_scan_without_hits() {
    let report = report_with("ghost", 0, 0, vec![]);
    assert_eq!(
        report.text_truth_notice(TextTruthContext::NoCallers, 0).unwrap(),
        "文本检索在 10 个已索引文件的原文里也没有找到 `ghost`。注意：未索引的文件不在扫描范围内。"
    );
}

#[test]
fn test_no_callers_context_wording() {
    let report = report_with("Add", 3, 7, vec![hit("src/b.cpp", 9, "Add(x, y);")]);
    let notice = report.text_truth_notice(TextTruthContext::NoCallers, 0).unwrap();
    assert!(notice.contains("调用图中没有 `Add` 的调用方"));
    assert!(notice.contains("这不代表它没有调用方"));
    assert!(notice.ends_with("\n文本命中明细:\n  src/b.cpp:9  Add(x, y);"));
}

#[test]
fn test_snippet_keeps_window_around_match() {
    let line = format!("{}NEEDLE{}", "a".repeat(300), "b".repeat(300));
    let snippet = snippet_around(&line, 300, 6, SNIPPET_MAX_CHARS);
    assert!(snippet.contains("NEEDLE"), "{}", snippet);
    assert!(snippet.chars().count() <= SNIPPET_MAX_CHARS);
}

#[test]
fn test_snippet_short_line_untouched() {
    assert_eq!(snippet_around("let x = 1;", 4, 1, 200), "let x = 1;");
}

#[test]
fn test_snippet_at_line_edges() {
    let line = "x".repeat(10);
    assert_eq!(snippet_around(&line, 0, 1, 5), "xxx…");
    assert_eq!(snippet_around(&line, 9, 1, 5), "…xxx");
}

#[test]
fn test_text_needle_plain_identifier_unchanged() {
    assert_eq!(text_needle("MY_ENUM_VALUE"), "MY_ENUM_VALUE");
    assert_eq!(text_needle("  main  "), "main");
}

#[test]
fn test_text_needle_derives_last_segment() {
    assert_eq!(text_needle("Class::method()"), "method");
    assert_eq!(text_needle("ns::Sub::Type"), "Type");
    assert_eq!(text_needle("obj.foo()"), "foo");
    assert_eq!(text_needle("ptr->run(a, b)"), "run");
}

#[test]
fn test_text_needle_keeps_free_text() {
    assert_eq!(text_needle("parse config"), "parse config");
    assert_eq!(text_needle("a::"), "a::");
}

#[test]
fn test_corpus_falls_back_to_derived_needle() {
    let source = "let x = Zzqqxxtargetzzqqxx;\n";
    let query = "Zzqqxxtargetzzqqxx()";
    let first = scan_indexed_files(query, 1, vec![scan_lines("a.rs", source, query, 50)], 50, 0);
    let derived = text_needle(query);
    assert!(needs_derived_scan(&first, &derived));
    let mut report = scan_indexed_files(&derived, 1, vec![scan_lines("a.rs", source, &derived, 50)], 50, 0);
    report.query = query.to_string();
    assert_eq!(report.total_hits, 1);
    assert_eq!(report.needle, "Zzqqxxtargetzzqqxx");
    let notice = report.text_truth_notice(TextTruthContext::SymbolNotIndexed, 0).unwrap();
    assert!(notice.contains("这不代表 Zzqqxxtargetzzqqxx() 不存在"), "{}", notice);
    assert!(notice.contains("文本检索串取 `Zzqqxxtargetzzqqxx`"), "{}", notice);
    assert!(!needs_derived_scan(&report, &derived));
}

fn symbol(id: &str, name: &str, kind: SymbolKind, line: u64, end_line: u64) -> Symbol {
    Symbol {
        id: id.to_string(),
        name: name.to_string(),
        kind,
        location: SourceLocation { file_path: "f.rs".to_string(), line, column: 1, end_line, end_column: 1 },
        signature: None,
        doc_comment: None,
        parent_id: None,
        modifiers: vec![],
        is_exported: false,
        complexity: None,
    }
}

fn call(caller: &str, callee: &str, line: u64) -> CallSite {
    CallSite {
        caller_id: caller.to_string(),
        callee_name: callee.to_string(),
        location: SourceLocation { file_path: "f.rs".to_string(), line, column: 3, end_line: line, end_column: 9 },
        call_type: CallType::Direct,
    }
}

#[test]
fn test_resolve_call_sites() {
    let symbols = vec![
        symbol("id_outer", "outer", SymbolKind::Function, 1, 20),
        symbol("id_inner", "inner", SymbolKind::Method, 5, 10),
        symbol("id_t", "T", SymbolKind::Struct, 1, 30),
        symbol("id_helper_old", "helper", SymbolKind::Function, 40, 41),
        symbol("id_helper", "helper", SymbolKind::Function, 50, 51),
    ];
    let calls = vec![
        call("", "helper", 7),
        call("explicit", "external", 60),
        call("", "", 7),
        call("", "x", 0),
    ];
    let edges = resolve_call_sites(&symbols, &calls);
    assert_eq!(
        edges,
        vec![
            ResolvedCall { call_index: 0, caller_id: "id_outer".into(), callee_id: "id_helper".into() },
            ResolvedCall { call_index: 0, caller_id: "id_inner".into(), callee_id: "id_helper".into() },
            ResolvedCall { call_index: 1, caller_id: "explicit".into(), callee_id: "external".into() },
        ]
    );
}

#[test]
fn test_walk_roots() {
    assert!(is_whole_project_root(""));
    assert!(is_whole_project_root("."));
    assert!(is_whole_project_root("./"));
    assert!(!is_whole_project_root("src"));
    assert!(!is_whole_project_root("/"));
    assert!(is_safe_relative_path("src/a"));
    assert!(is_safe_relative_path("./src"));
    assert!(!is_safe_relative_path("../x"));
    assert!(!is_safe_relative_path("/abs"));
    assert_eq!(effective_walk_roots("/p", &[], &[]), vec!["/p"]);
    let roots = vec!["src".to_string(), ".".to_string()];
    assert_eq!(effective_walk_roots("/p", &roots, &[false, false]), vec!["/p"]);
    let roots = vec!["src".to_string(), "../out".to_string(), "docs".to_string(), "gone".to_string()];
    assert_eq!(effective_walk_roots("/p", &roots, &[true, true, true, false]), vec!["/p/src", "/p/docs"]);
    assert!(effective_walk_roots("/p", &["gone".to_string()], &[false]).is_empty());
}

#[test]
fn test_symbol_record_round_trip() {
    let mut s = symbol("rust::a.rs::function::f::1234abcd", "f", SymbolKind::Function, 3, 9);
    s.signature = Some("fn f()".to_string());
    s.modifiers = vec!["pub".to_string(), "async".to_string()];
    s.complexity = Some(4);
    s.is_exported = true;
    let record = symbol_to_record(&s, "rust");
    assert_eq!(record.kind, "function");
    assert_eq!(record.modifiers, "pub, async");
    assert_eq!(record.doc_comment, "");
    assert_eq!(record.language, "rust");
    let back = symbol_search_result_to_symbol(&record);
    assert_eq!(back, s);
}

#[test]
fn test_symbol_record_absent_values() {
    let s = symbol("id", "g", SymbolKind::Unknown("weird".into()), 1, 1);
    let record = symbol_to_record(&s, "go");
    assert_eq!(record.kind, "unknown");
    assert_eq!(record.complexity, 0);
    let back = symbol_search_result_to_symbol(&record);
    assert_eq!(back.kind, SymbolKind::Unknown("unknown".into()));
    assert_eq!(back.complexity, None);
    assert_eq!(back.signature, None);
    assert!(back.modifiers.is_empty());
}

#[test]
fn test_kind_names_and_modifiers() {
    assert_eq!(kind_str(&SymbolKind::TypeAlias), "type_alias");
    assert_eq!(kind_from_str("macro"), SymbolKind::Macro);
    assert_eq!(kind_from_str("constant"), SymbolKind::Unknown("constant".into()));
    assert_eq!(split_modifiers(""), Vec::<String>::new());
    assert_eq!(split_modifiers("pub, , static"), vec!["pub".to_string(), "static".to_string()]);
    assert_eq!(split_modifiers("a,b"), vec!["a,b".to_string()]);
}

#[test]
fn test_effective_walk_roots_free_function() {
    let project = "/work/project";
    // no roots: the whole project
    assert_eq!(effective_walk_roots(project, &[], &[]), vec![project.to_string()]);
    // a "." root: the whole project
    assert_eq!(effective_walk_roots(project, &[".".to_string()], &[true]), vec![project.to_string()]);
    // a subdirectory that exists: only it
    assert_eq!(
        effective_walk_roots(project, &["crates/a".to_string()], &[true]),
        vec!["/work/project/crates/a".to_string()]
    );
    // every root invalid: nothing
    assert!(effective_walk_roots(project, &["nope".to_string()], &[false]).is_empty());
    // some invalid: only the valid ones
    assert_eq!(
        effective_walk_roots(project, &["nope".to_string(), "crates/b".to_string()], &[false, true]),
        vec!["/work/project/crates/b".to_string()]
    );
}

#[test]
fn test_is_whole_project_root() {
    assert!(is_whole_project_root(""));
    assert!(is_whole_project_root("."));
    assert!(is_whole_project_root("./"));
    assert!(!is_whole_project_root("crates"));
    assert!(!is_whole_project_root("crates/cli"));
}

#[test]
fn test_is_safe_relative() {
    assert!(is_safe_relative_path("crates/cli"));
    assert!(is_safe_relative_path("crates/cli/src"));
    assert!(!is_safe_relative_path("../outside"));
    assert!(!is_safe_relative_path("crates/../../outside"));
    assert!(!is_safe_relative_path("/etc"));
    assert!(!is_safe_relative_path("C:/Windows"));
}

#[test]
fn test_file_index_stats_merge() {
    let s1 = FileIndexStats { symbols: 10, calls: 5, imports: 2 };
    let s2 = FileIndexStats { symbols: 20, calls: 8, imports: 3 };
    let s3 = FileIndexStats::default();
    let merged = FileIndexStats::merge(&[s1, s2, s3]);
    assert_eq!(merged.symbols, 30);
    assert_eq!(merged.calls, 13);
    assert_eq!(merged.imports, 5);
    assert_eq!(FileIndexStats::merge(&[]), FileIndexStats::default());
}

#[test]
fn test_invalid_roots_message_lists_roots() {
    let roots = vec!["nope".to_string(), "gone/sub".to_string()];
    assert!(effective_walk_roots("/p", &roots, &[false, false]).is_empty());
    assert_eq!(
        invalid_roots_message(&roots),
        "workspace.roots 配置的目录全部无效（nope, gone/sub），未索引任何文件。请检查 .codeconnect.toml 中 [workspace].roots 的路径拼写"
    );
}

#[test]
fn test_reindex_action_order_of_checks() {
    let fp = content_fingerprint("fn main() {}\n");
    // unreadable: removed, whatever else holds
    assert_eq!(reindex_action(false, Some(fp.as_str()), &fp, true, true), ReindexAction::Remove);
    // unchanged content: skipped before any parser is asked
    assert_eq!(reindex_action(true, Some(fp.as_str()), &fp, false, false), ReindexAction::Skip);
    // no parser, or a failed parse: the old data stays
    assert_eq!(reindex_action(true, None, &fp, false, false), ReindexAction::Keep);
    assert_eq!(reindex_action(true, Some("0000"), &fp, true, false), ReindexAction::Keep);
    // changed and parsed: replaced
    assert_eq!(reindex_action(true, Some("0000"), &fp, true, true), ReindexAction::Replace);
    assert_eq!(reindex_action(true, None, &fp, true, true), ReindexAction::Replace);
}

#[test]
fn test_content_fingerprint_is_blake3_hex() {
    let fp = content_fingerprint("hello");
    assert_eq!(fp, blake3::hash(b"hello").to_hex().to_string());
    assert_eq!(fp.len(), 64);
    assert_ne!(fp, "hello");
    assert_ne!(content_fingerprint("hello"), content_fingerprint("hello!"));
}

#[test]
fn test_reindex_tally_and_commit() {
    let mut t = ReindexTally::new();
    assert!(!t.needs_commit());
    t.record(ReindexAction::Skip);
    t.record(ReindexAction::Keep);
    assert!(!t.needs_commit());
    assert_eq!((t.reindexed, t.skipped, t.removed), (0, 1, 0));
    t.record(ReindexAction::Remove);
    assert!(t.needs_commit());
    t.record(ReindexAction::Replace);
    t.record(ReindexAction::Replace);
    assert_eq!((t.reindexed, t.skipped, t.removed), (2, 1, 1));
    assert!(t.needs_commit());
}

#[test]
fn test_unique_paths_keeps_first_occurrence() {
    let none: Vec<String> = Vec::new();
    assert!(unique_paths(&none).is_empty());
    let paths = vec!["a.rs".to_string(), "b.rs".to_string(), "a.rs".to_string(), "b.rs".to_string(), "c.rs".to_string()];
    assert_eq!(unique_paths(&paths), vec!["a.rs".to_string(), "b.rs".to_string(), "c.rs".to_string()]);
}

fn meta(path: &str, language: &str, symbols: u64) -> FileMeta {
    FileMeta {
        file_path: path.to_string(),
        language: language.to_string(),
        content_hash: String::new(),
        symbol_count: symbols,
        indexed_at: 0,
    }
}

#[test]
fn test_language_distribution_most_files_first() {
    let metas = vec![
        meta("a.ts", "typescript", 3),
        meta("a.rs", "rust", 10),
        meta("b.rs", "rust", 5),
        meta("A.java", "java", 7),
        meta("c.rs", "rust", 1),
        meta("b.ts", "typescript", 2),
    ];
    assert_eq!(
        language_distribution(&metas),
        vec![("rust".to_string(), 3), ("typescript".to_string(), 2), ("java".to_string(), 1)]
    );
    assert_eq!(symbol_total(&metas), 28);
    assert!(language_distribution(&[]).is_empty());
    assert_eq!(symbol_total(&[]), 0);
    // equal counts keep the order in which the languages first occur
    let tie = vec![meta("x.java", "java", 1), meta("y.c", "c", 1)];
    assert_eq!(language_distribution(&tie), vec![("java".to_string(), 1), ("c".to_string(), 1)]);
}
