use codeconnect::diff::branch_diff::{BranchDiffer, ChangeKind, DeltaStatus, FileDelta};
use codeconnect::diff::symbol_diff::{LineRange, SymbolDiff, SymbolRangeMap};

fn ratio(r: &codeconnect::diff::symbol_diff::OverlapRatio) -> f64 {
    r.capped_lines() as f64 / r.symbol_lines as f64
}

#[test]
fn test_full_overlap() {
    let ranges = vec![LineRange { start: 10, end: 20 }];
    let r = SymbolDiff::compute_overlap(&ranges, 12, 15);
    assert!((ratio(&r) - 1.0).abs() < 0.001);
}

#[test]
fn test_partial_overlap() {
    let ranges = vec![LineRange { start: 10, end: 15 }];
    let r = SymbolDiff::compute_overlap(&ranges, 12, 20);
    assert!((ratio(&r) - 4.0 / 9.0).abs() < 0.001);
}

#[test]
fn test_no_overlap() {
    let ranges = vec![LineRange { start: 10, end: 15 }];
    let r = SymbolDiff::compute_overlap(&ranges, 20, 30);
    assert_eq!(ratio(&r), 0.0);
    assert_eq!(r.overlap_lines, 0);
}

#[test]
fn test_multiple_ranges() {
    let ranges = vec![LineRange { start: 10, end: 15 }, LineRange { start: 30, end: 35 }];
    let r = SymbolDiff::compute_overlap(&ranges, 12, 32);
    assert_eq!(r.symbol_lines, 21);
    assert_eq!(r.overlap_lines, 7);
    assert!((ratio(&r) - 7.0 / 21.0).abs() < 0.001);
}

#[test]
fn test_single_line_symbol() {
    let ranges = vec![LineRange { start: 10, end: 10 }];
    let r = SymbolDiff::compute_overlap(&ranges, 10, 10);
    assert!((ratio(&r) - 1.0).abs() < 0.001);
}

#[test]
fn test_overlap_capped_at_one() {
    let ranges = vec![LineRange { start: 1, end: 10 }, LineRange { start: 1, end: 10 }];
    let r = SymbolDiff::compute_overlap(&ranges, 1, 10);
    assert_eq!(r.overlap_lines, 10);
    assert_eq!(r.capped_lines(), 10);
    assert!((ratio(&r) - 1.0).abs() < 0.001);
}

#[test]
fn test_parse_hunk_header_with_count() {
    let result = SymbolDiff::parse_hunk_header("@@ -1,5 +1,10 @@");
    assert!(result.is_some());
    let range = result.unwrap();
    assert_eq!(range.start, 1);
    assert_eq!(range.end, 10);
}

#[test]
fn test_parse_hunk_header_without_count() {
    let result = SymbolDiff::parse_hunk_header("@@ -5 +10 @@");
    assert!(result.is_some());
    let range = result.unwrap();
    assert_eq!(range.start, 10);
    assert_eq!(range.end, 10);
}

#[test]
fn test_parse_hunk_header_context() {
    let result = SymbolDiff::parse_hunk_header("@@ -10,7 +10,6 @@ fn main() {");
    assert!(result.is_some());
    let range = result.unwrap();
    assert_eq!(range.start, 10);
    assert_eq!(range.end, 15);
}

#[test]
fn test_parse_hunk_header_zero_count_and_garbage() {
    assert!(SymbolDiff::parse_hunk_header("@@ -10,0 +11,0 @@").is_none());
    assert!(SymbolDiff::parse_hunk_header("no plus here").is_none());
    assert!(SymbolDiff::parse_hunk_header("@@ -1 +x @@").is_none());
}

#[test]
fn test_parse_diff_hunks_multi_file() {
    let diff_text = r#"diff --git a/src/main.rs b/src/main.rs
--- a/src/main.rs
+++ b/src/main.rs
@@ -1,3 +1,5 @@ fn main() {
 fn main() {
+    println!("hello");
 }

diff --git a/src/lib.rs b/src/lib.rs
--- a/src/lib.rs
+++ b/src/lib.rs
@@ -10,0 +11,5 @@ pub fn add(a: i32, b: i32) -> i32 {
+pub fn add(a: i32, b: i32) -> i32 {
+    a + b
+}
+
"#;
    let result = SymbolDiff::parse_diff_hunks(diff_text);
    let main_ranges = &result.iter().find(|(f, _)| f == "src/main.rs").expect("src/main.rs").1;
    assert_eq!(main_ranges.len(), 1);
    assert_eq!(main_ranges[0].start, 1);
    assert_eq!(main_ranges[0].end, 5);
    let lib_ranges = &result.iter().find(|(f, _)| f == "src/lib.rs").expect("src/lib.rs").1;
    assert_eq!(lib_ranges.len(), 1);
    assert_eq!(lib_ranges[0].start, 11);
    assert_eq!(lib_ranges[0].end, 15);
}

#[test]
fn test_parse_diff_empty() {
    let result = SymbolDiff::parse_diff_hunks("");
    assert!(result.is_empty());
}

#[test]
fn test_parse_diff_hunks_groups_repeated_file() {
    let text = "+++ b/x.rs\n@@ -1 +1,2 @@\n+++ b/y.rs\n@@ -3 +3 @@\n+++ b/x.rs\n@@ -9 +9,3 @@\n";
    let result = SymbolDiff::parse_diff_hunks(text);
    assert_eq!(result.len(), 2);
    assert_eq!(result[0].0, "x.rs");
    assert_eq!(result[0].1, vec![LineRange { start: 1, end: 2 }, LineRange { start: 9, end: 11 }]);
    assert_eq!(result[1].0, "y.rs");
}

#[test]
fn test_parse_diff_hunks_ignores_headers_before_file() {
    let result = SymbolDiff::parse_diff_hunks("@@ -1 +1 @@\r\n+++ b/z.rs\r\n@@ -2 +2 @@\r\n");
    assert_eq!(result.len(), 1);
    assert_eq!(result[0].0, "z.rs");
    assert_eq!(result[0].1, vec![LineRange { start: 2, end: 2 }]);
}

#[test]
fn test_symbol_range_map_basic() {
    let mut map = SymbolRangeMap::new();
    assert_eq!(map.file_count(), 0);
    assert_eq!(map.symbol_count(), 0);
    map.add_symbol("id_main", "main", "src/main.rs", 1, 5);
    map.add_symbol("id_helper", "helper", "src/main.rs", 10, 15);
    map.add_symbol("id_init", "init", "src/lib.rs", 1, 3);
    assert_eq!(map.file_count(), 2);
    assert_eq!(map.symbol_count(), 3);
}

#[test]
fn test_map_lines_to_symbols() {
    let mut map = SymbolRangeMap::new();
    map.add_symbol("id_main", "main", "src/main.rs", 1, 10);
    map.add_symbol("id_helper", "helper", "src/main.rs", 20, 25);
    map.add_symbol("id_util", "util", "src/util.rs", 5, 15);
    let changed = vec![
        ("src/main.rs".to_string(), vec![LineRange { start: 1, end: 5 }]),
        ("src/util.rs".to_string(), vec![LineRange { start: 10, end: 12 }]),
    ];
    let affected = SymbolDiff::map_lines_to_symbols(&changed, &map);
    assert_eq!(affected.len(), 2);
    let main_affected = affected.iter().find(|s| s.name == "main").unwrap();
    assert!(main_affected.overlap_ratio.overlap_lines > 0);
    assert_eq!(main_affected.file_path, "src/main.rs");
    let util_affected = affected.iter().find(|s| s.name == "util").unwrap();
    assert!(util_affected.overlap_ratio.overlap_lines > 0);
    assert_eq!(util_affected.file_path, "src/util.rs");
    assert!(affected.iter().all(|s| s.name != "helper"));
}

#[test]
fn test_map_lines_to_symbols_no_overlap() {
    let mut map = SymbolRangeMap::new();
    map.add_symbol("id_main", "main", "src/main.rs", 1, 10);
    let changed = vec![("src/main.rs".to_string(), vec![LineRange { start: 50, end: 60 }])];
    assert!(SymbolDiff::map_lines_to_symbols(&changed, &map).is_empty());
}

#[test]
fn test_map_lines_to_symbols_sorted() {
    let mut map = SymbolRangeMap::new();
    map.add_symbol("id_a", "func_a", "src/lib.rs", 1, 10);
    map.add_symbol("id_b", "func_b", "src/lib.rs", 20, 25);
    let changed = vec![("src/lib.rs".to_string(), vec![LineRange { start: 3, end: 5 }, LineRange { start: 20, end: 25 }])];
    let affected = SymbolDiff::map_lines_to_symbols(&changed, &map);
    assert_eq!(affected.len(), 2);
    assert!(ratio(&affected[0].overlap_ratio) >= ratio(&affected[1].overlap_ratio));
    assert_eq!(affected[0].name, "func_b");
    assert_eq!(affected[1].name, "func_a");
}

#[test]
fn test_map_lines_equal_ratios_keep_order() {
    let mut map = SymbolRangeMap::new();
    map.add_symbol("id_a", "a", "f.rs", 1, 2);
    map.add_symbol("id_b", "b", "f.rs", 3, 4);
    map.add_symbol("id_c", "c", "f.rs", 5, 8);
    let changed = vec![("f.rs".to_string(), vec![LineRange { start: 1, end: 8 }])];
    let affected = SymbolDiff::map_lines_to_symbols(&changed, &map);
    let names: Vec<&str> = affected.iter().map(|a| a.name.as_str()).collect();
    assert_eq!(names, vec!["a", "b", "c"]);
    assert_eq!(affected[2].line_range, LineRange { start: 5, end: 8 });
    assert_eq!(affected[2].symbol_id, "id_c");
}

fn delta(status: DeltaStatus, new_path: Option<&str>, old_path: Option<&str>) -> FileDelta {
    FileDelta {
        status,
        new_path: new_path.map(|p| p.to_string()),
        old_path: old_path.map(|p| p.to_string()),
        is_binary: false,
    }
}

#[test]
fn test_branch_diff_summary_counts() {
    let deltas = vec![
        delta(DeltaStatus::Added, Some("a.rs"), None),
        delta(DeltaStatus::Modified, Some("b.rs"), Some("b.rs")),
        delta(DeltaStatus::Deleted, Some("c.rs"), Some("c.rs")),
        delta(DeltaStatus::Renamed, Some("d2.rs"), Some("d.rs")),
        delta(DeltaStatus::Typechange, Some("e.rs"), None),
        delta(DeltaStatus::Copied, None, Some("f.rs")),
    ];
    let d = BranchDiffer::summarize("main", "feature", &deltas);
    assert_eq!(d.from_ref, "main");
    assert_eq!(d.to_ref, "feature");
    assert_eq!(d.changed_files.len(), 6);
    assert_eq!(d.added_count, 1);
    assert_eq!(d.deleted_count, 1);
    assert_eq!(d.modified_count, 4);
    assert_eq!(d.changed_files[3].change_kind, ChangeKind::Renamed);
    assert_eq!(d.changed_files[3].old_path.as_deref(), Some("d.rs"));
    assert_eq!(d.changed_files[1].old_path, None);
    assert_eq!(d.changed_files[4].change_kind, ChangeKind::TypeChanged);
    assert_eq!(d.changed_files[5].change_kind, ChangeKind::Modified);
    assert_eq!(d.changed_files[5].path, "");
    let paths = BranchDiffer::list_changed_files(d);
    assert_eq!(paths, vec!["a.rs", "b.rs", "c.rs", "d2.rs", "e.rs", ""]);
}

#[test]
fn test_change_kind_mapping() {
    assert_eq!(BranchDiffer::change_kind_of(DeltaStatus::Added), ChangeKind::Added);
    assert_eq!(BranchDiffer::change_kind_of(DeltaStatus::Unmodified), ChangeKind::Modified);
    assert_eq!(BranchDiffer::change_kind_of(DeltaStatus::Conflicted), ChangeKind::Modified);
}

#[test]
fn test_parse_diff_new_and_deleted_files() {
    let text = "--- a/x.rs\n+++ b/x.rs\n@@ -1 +1 @@\n--- /dev/null\n+++ b/new.rs\n@@ -0,0 +1 @@\n--- a/old.rs\n+++ /dev/null\n@@ -1 +0,0 @@\n@@ -5 +7 @@\n";
    let result = SymbolDiff::parse_diff_hunks(text);
    assert_eq!(
        result,
        vec![
            ("x.rs".to_string(), vec![LineRange { start: 1, end: 1 }]),
            ("new.rs".to_string(), vec![LineRange { start: 1, end: 1 }]),
        ]
    );
}

#[test]
fn test_parse_hunk_header_reads_new_field_only() {
    assert_eq!(SymbolDiff::parse_hunk_header("@@ -3 +3 @@ x + y"), Some(LineRange { start: 3, end: 3 }));
    assert_eq!(SymbolDiff::parse_hunk_header("@@ -1,2 +4,3 @@ fn a() { b + c }"), Some(LineRange { start: 4, end: 6 }));
}

#[test]
fn test_compute_overlap_counts_each_line_once() {
    let ranges = vec![LineRange { start: 10, end: 15 }, LineRange { start: 12, end: 15 }];
    let r = SymbolDiff::compute_overlap(&ranges, 10, 20);
    assert_eq!(r.overlap_lines, 6);
    assert_eq!(r.symbol_lines, 11);
}
