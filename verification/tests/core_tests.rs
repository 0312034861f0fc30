use codeconnect::config::{
    load_config_from, load_config_from_with_source, merge_configs, CodeConnectConfig, LanguagesConfig, ProjectConfig,
    SemanticConfig, WorkspaceConfig,
};
use codeconnect::path_util::{join_path, lexical_normalize, paths_equal, strip_verbatim_prefix};
use codeconnect::response::{McpResponse, PageToken, ResponseStatus};
use codeconnect::symbol_id::StableSymbolId;
use codeconnect::text_scan::{budget_spent, SCAN_BUDGET_MS};

#[test]
fn test_default_config() {
    let config = CodeConnectConfig::default();
    assert_eq!(config.workspace.roots.len(), 1);
    assert!(config.languages.rust);
    assert!(config.languages.java);
    assert!(config.index.incremental);
    assert_eq!(config.search.max_results, 100);
    assert_eq!(config.complexity.warning_threshold, 15);
    assert_eq!(config.complexity.error_threshold, 30);
    assert!(config.dead_code.is_empty());
    assert!(config.rules.is_empty());
}

#[test]
fn test_languages_config_default() {
    let config = LanguagesConfig::default();
    assert!(config.rust);
    assert!(config.typescript);
    assert!(config.javascript);
    assert!(config.java);
    assert!(!config.kotlin);
    assert!(config.csharp);
    assert!(config.c);
    assert!(config.cpp);
}

#[test]
fn test_workspace_config_default() {
    let config = WorkspaceConfig::default();
    assert_eq!(config.roots, vec![".".to_string()]);
    assert!(!config.excludes.is_empty());
}

#[test]
fn test_semantic_default_is_disabled() {
    let config = CodeConnectConfig::default();
    assert!(!config.semantic.is_enabled());
    assert!(config.semantic.model_value().is_none());
}

fn semantic(enabled: Option<bool>, model: Option<&str>) -> SemanticConfig {
    SemanticConfig { enabled, model: model.map(|m| m.to_string()), model_dir: None }
}

#[test]
fn test_semantic_model_implies_enabled() {
    let cfg = semantic(None, Some("m1"));
    assert!(cfg.is_enabled());
    assert_eq!(cfg.model_value(), Some("m1".to_string()));

    let cfg = semantic(Some(false), Some("m1"));
    assert!(!cfg.is_enabled());
    assert!(cfg.disabled_but_model_set());

    let cfg = semantic(None, Some("   "));
    assert!(!cfg.is_enabled());
}

#[test]
fn test_semantic_merge_is_field_wise() {
    let mut base = CodeConnectConfig::default();
    base.semantic.model = Some("global-model".into());
    base.semantic.model_dir = Some("D:/models".to_string());

    let mut overlay = CodeConnectConfig::default();
    overlay.semantic.enabled = Some(true);
    merge_configs(&mut base, overlay);

    assert_eq!(base.semantic.enabled, Some(true));
    assert_eq!(base.semantic.model.as_deref(), Some("global-model"));
    assert_eq!(base.semantic.model_dir.as_deref(), Some("D:/models"));
}

#[test]
fn test_semantic_model_value_is_trimmed() {
    let cfg = semantic(Some(true), Some("  bge-m3 \t"));
    assert_eq!(cfg.model_value(), Some("bge-m3".to_string()));
    assert!(!cfg.disabled_but_model_set());
}

#[test]
fn test_project_file_overrides_global_and_reports_sources() {
    let global = CodeConnectConfig::default();
    let mut project = CodeConnectConfig::default();
    project.index.data_dir = "idx".to_string();
    project.search.max_results = 7;
    let p = ProjectConfig { config: project, path: "/p/.codeconnect.toml".to_string(), data_dir_explicit: true };
    let (config, source) = load_config_from_with_source((global, Some("/home/g.toml".to_string())), Some(p));
    assert_eq!(config.index.data_dir, "idx");
    assert_eq!(config.search.max_results, 7);
    assert_eq!(source.project_file.as_deref(), Some("/p/.codeconnect.toml"));
    assert_eq!(source.data_dir_file.as_deref(), Some("/p/.codeconnect.toml"));
}

#[test]
fn test_default_data_dir_in_project_keeps_global_source() {
    let mut global = CodeConnectConfig::default();
    global.index.data_dir = "/var/idx".to_string();
    let project = CodeConnectConfig::default();
    let p = ProjectConfig { config: project, path: "/p/.codeconnect.toml".to_string(), data_dir_explicit: true };
    let (config, source) = load_config_from_with_source((global, Some("/home/g.toml".to_string())), Some(p));
    assert_eq!(config.index.data_dir, "/var/idx");
    assert_eq!(source.data_dir_file.as_deref(), Some("/home/g.toml"));
}

#[test]
fn test_no_project_file_keeps_global() {
    let mut global = CodeConnectConfig::default();
    global.search.max_results = 3;
    let config = load_config_from((global, None), None);
    assert_eq!(config.search.max_results, 3);
}

#[test]
fn test_strip_drive_prefix() {
    assert_eq!(strip_verbatim_prefix(r"\\?\F:\a\b.rs"), r"F:\a\b.rs".to_string());
}

#[test]
fn test_strip_unc_prefix() {
    assert_eq!(strip_verbatim_prefix(r"\\?\UNC\server\share\x"), r"\\server\share\x".to_string());
}

#[test]
fn test_plain_path_unchanged() {
    assert_eq!(strip_verbatim_prefix(r"F:\a\b"), r"F:\a\b".to_string());
    assert_eq!(strip_verbatim_prefix(r"\\server\share\x"), r"\\server\share\x".to_string());
}

#[test]
fn test_join_path_cases() {
    assert_eq!(join_path("/root", "x"), "/root/x");
    assert_eq!(join_path("/root/", "x"), "/root/x");
    assert_eq!(join_path("", "x"), "x");
    assert_eq!(join_path("/root", "/abs"), "/abs");
    assert_eq!(join_path("a", ""), "a/");
}

#[test]
fn test_paths_equal_by_components() {
    assert!(paths_equal("a//b/", "a/b"));
    assert!(paths_equal("a/./b", "a/b"));
    assert!(!paths_equal("./a", "a"));
    assert!(!paths_equal("/a", "a"));
    assert!(!paths_equal("a/../b", "b"));
}

#[test]
fn test_lexical_normalize() {
    assert_eq!(lexical_normalize("/a/b/../c/./d"), "/a/c/d");
    assert_eq!(lexical_normalize("a/../../b"), "b");
    assert_eq!(lexical_normalize("/.."), "/");
    assert_eq!(lexical_normalize("./x//y/"), "x/y");
    assert_eq!(lexical_normalize(""), "");
}

#[test]
fn test_create_stable_id() {
    let id = StableSymbolId::new("rust", "src/main.rs", "function", "main");
    assert_eq!(id.language, "rust");
    assert_eq!(id.relative_path, "src/main.rs");
    assert_eq!(id.kind, "function");
    assert_eq!(id.name, "main");
    assert_eq!(id.fingerprint.len(), 8);
}

#[test]
fn test_fingerprint_is_stable() {
    let id1 = StableSymbolId::new("rust", "src/main.rs", "function", "main");
    let id2 = StableSymbolId::new("rust", "src/main.rs", "function", "main");
    assert_eq!(id1.fingerprint, id2.fingerprint);
}

#[test]
fn test_fingerprint_differs() {
    let id1 = StableSymbolId::new("rust", "src/main.rs", "function", "main");
    let id2 = StableSymbolId::new("rust", "src/main.rs", "function", "other");
    assert_ne!(id1.fingerprint, id2.fingerprint);
}

#[test]
fn test_fingerprint_is_hex_of_blake3_prefix() {
    let id = StableSymbolId::new("rust", "src/main.rs", "function", "main");
    let want = blake3::hash(b"main::src/main.rs::rust::function");
    assert_eq!(id.fingerprint, hex::encode(&want.as_bytes()[..4]));
}

#[test]
fn test_to_string_and_parse() {
    let original = StableSymbolId::new("typescript", "src/components/App.tsx", "class", "App");
    let serialized = original.to_storage_string();
    let parsed = StableSymbolId::parse(&serialized).unwrap();
    assert_eq!(original, parsed);
}

#[test]
fn test_storage_string_layout() {
    let id = StableSymbolId::new("rust", "a.rs", "function", "f");
    assert_eq!(id.to_storage_string(), format!("rust::a.rs::function::f::{}", id.fingerprint));
}

#[test]
fn test_parse_invalid_format() {
    let result = StableSymbolId::parse("too::few::fields");
    assert!(result.is_err());
}

#[test]
fn test_parse_too_many_fields() {
    assert!(StableSymbolId::parse("a::b::c::d::e::f").is_err());
    assert!(StableSymbolId::parse("a::b::c::d::e").is_ok());
}

#[test]
fn test_success_response() {
    let response = McpResponse::success("hello", 1, 1, 42);
    assert_eq!(response.status, ResponseStatus::Success);
    assert_eq!(response.data, Some("hello"));
    assert!(response.warnings.is_empty());
    assert_eq!(response.meta.took_ms, 42);
    assert_eq!(response.request_id.len(), 36);
}

#[test]
fn test_error_response() {
    let response = McpResponse::<()>::error("something went wrong");
    assert_eq!(response.status, ResponseStatus::Error);
    assert!(response.data.is_none());
    assert_eq!(response.warnings, vec!["something went wrong"]);
}

#[test]
fn test_with_warning() {
    let response = McpResponse::success("data", 1, 1, 10).with_warning("stale index".into());
    assert_eq!(response.status, ResponseStatus::Partial);
    assert_eq!(response.warnings, vec!["stale index"]);
}

#[test]
fn test_page_token_and_staleness() {
    let response = McpResponse::success(1u8, 5, 1, 0).with_page_token("tok".into()).with_staleness(99);
    assert_eq!(response.meta.next_page_token.as_deref(), Some("tok"));
    assert_eq!(response.meta.index_staleness_ms, Some(99));
    let token = PageToken::new("abc123".into(), 50);
    assert_eq!(token.query_hash, "abc123");
    assert_eq!(token.offset, 50);
}

#[test]
fn test_scan_budget_spent_only_past_the_budget() {
    assert!(!budget_spent(0));
    assert!(!budget_spent(SCAN_BUDGET_MS));
    assert!(budget_spent(SCAN_BUDGET_MS + 1));
    assert!(budget_spent(u64::MAX));
}
