use codeconnect::mcp_setup::{bashrc_update, global_report, plan_config_edit, project_report, serve_args, server_command, to_forward_slashes, update_notice, ConfigEdit, DocShape};
use codeconnect::analysis::{complexity_marker, complexity_ranking, complexity_summary, confidence_label, dead_code_inputs};
use codeconnect::cli::{check_index_dirs_exist, index_dirs, simplify_call_type};
use codeconnect::graph::metrics::CodeMetrics;
use codeconnect::types::{SourceLocation, Symbol, SymbolKind};

#[test]
fn test_check_index_dirs() {
    assert!(check_index_dirs_exist(&[true, true, true]).is_ok());
    assert_eq!(
        check_index_dirs_exist(&[false, true, false]).err().unwrap(),
        "索引数据不完整，缺失: tantivy, sled\n请先运行 `codeconnect index` 构建索引。"
    );
    assert_eq!(
        check_index_dirs_exist(&[true, false, true]).err().unwrap(),
        "索引数据不完整，缺失: 调用边索引\n请先运行 `codeconnect index` 构建索引。"
    );
    assert_eq!(index_dirs("/d"), vec!["/d/tantivy", "/d/tantivy_edges", "/d/sled"]);
}

#[test]
fn test_simplify_call_type() {
    assert_eq!(simplify_call_type("直接调用"), "direct");
    assert_eq!(simplify_call_type("虚函数调用"), "virtual");
    assert_eq!(simplify_call_type("回调调用"), "callback");
    assert_eq!(simplify_call_type("宏展开调用"), "macro");
    assert_eq!(simplify_call_type("其它"), "其它");
}

fn metric(name: &str, c: u64) -> CodeMetrics {
    CodeMetrics {
        symbol_id: name.to_string(),
        name: name.to_string(),
        cyclomatic_complexity: c,
        fan_in: 0,
        fan_out: 0,
        depth_of_inheritance: 0,
    }
}

#[test]
fn test_complexity_ranking_and_summary() {
    let ms: Vec<CodeMetrics> = vec![metric("a", 3), metric("b", 40), metric("c", 16), metric("d", 40), metric("e", 1)];
    assert_eq!(complexity_ranking(&ms), vec![1, 3, 2, 0, 4]);
    assert_eq!(complexity_summary(&ms), (100, 3, 2));
    let many: Vec<CodeMetrics> = (0..15).map(|i| metric("x", i)).collect();
    let top = complexity_ranking(&many);
    assert_eq!(top.len(), 10);
    assert_eq!(top[0], 14);
    assert_eq!(top[9], 5);
    assert_eq!(complexity_marker(31), " 🔴");
    assert_eq!(complexity_marker(30), " 🟡");
    assert_eq!(complexity_marker(15), "");
}

fn sym(id: &str, name: &str, kind: SymbolKind, exported: bool) -> Symbol {
    Symbol {
        id: id.to_string(),
        name: name.to_string(),
        kind,
        location: SourceLocation { file_path: "f.rs".to_string(), line: 1, column: 1, end_line: 1, end_column: 1 },
        signature: None,
        doc_comment: None,
        parent_id: None,
        modifiers: vec![],
        is_exported: exported,
        complexity: None,
    }
}

#[test]
fn test_dead_code_inputs() {
    let syms = vec![
        sym("s1", "S", SymbolKind::Struct, true),
        sym("f1", "helper", SymbolKind::Function, false),
        sym("m1", "main", SymbolKind::Function, false),
        sym("p1", "api", SymbolKind::Method, true),
    ];
    let (ids, entries) = dead_code_inputs(&syms);
    assert_eq!(ids, vec!["f1", "m1", "p1"]);
    assert_eq!(entries, vec!["m1", "p1"]);
    let (ids, entries) = dead_code_inputs(&syms[..2]);
    assert_eq!(ids, vec!["f1"]);
    assert_eq!(entries, vec!["f1"]);
    let (ids, entries) = dead_code_inputs(&syms[..1]);
    assert!(ids.is_empty() && entries.is_empty());
    assert_eq!(confidence_label(100), "高");
    assert_eq!(confidence_label(80), "高");
    assert_eq!(confidence_label(70), "中");
    assert_eq!(confidence_label(49), "低");
}

#[test]
fn test_mcp_server_command_and_args() {
    assert_eq!(server_command(true, Some("/opt/bin/cc")).unwrap(), "codeconnect");
    assert_eq!(server_command(false, Some("/opt/bin/cc")).unwrap(), "/opt/bin/cc");
    assert_eq!(server_command(false, None).unwrap_err(), "无法将可执行文件路径转换为 UTF-8 字符串");
    assert_eq!(serve_args(Some("D:/work/proj")), vec!["serve", "-p", "D:/work/proj"]);
    assert_eq!(serve_args(None), vec!["serve"]);
    assert_eq!(to_forward_slashes(r"C:\Users\me\proj"), "C:/Users/me/proj");
    assert_eq!(to_forward_slashes("/already/fine"), "/already/fine");
}

#[test]
fn test_mcp_config_edit_plan() {
    assert_eq!(plan_config_edit(None).unwrap(), ConfigEdit::Create);
    let with_entry = DocShape { root_is_object: true, servers_is_object: true, has_entry: true };
    assert_eq!(plan_config_edit(Some(with_entry)).unwrap(), ConfigEdit::UpdateEntry);
    let without_entry = DocShape { root_is_object: true, servers_is_object: true, has_entry: false };
    assert_eq!(plan_config_edit(Some(without_entry)).unwrap(), ConfigEdit::AddEntry);
    let no_servers = DocShape { root_is_object: true, servers_is_object: false, has_entry: false };
    assert_eq!(plan_config_edit(Some(no_servers)).unwrap(), ConfigEdit::AddServers);
    let not_object = DocShape { root_is_object: false, servers_is_object: false, has_entry: false };
    assert_eq!(plan_config_edit(Some(not_object)).unwrap_err(), "配置文件根元素不是 JSON 对象");
    assert_eq!(update_notice(false), "✓ 已检测到现有 codeconnect 配置，将更新");
    assert_eq!(update_notice(true), "✓ 已检测到现有 codeconnect 全局配置，将更新");
}

#[test]
fn test_mcp_reports() {
    assert_eq!(
        project_report("/p/.mcp.json", "codeconnect", "/p"),
        vec!["✓ MCP 配置已写入: /p/.mcp.json", "  命令:  codeconnect", "  参数:  serve -p /p", "  项目:  /p"]
    );
    assert_eq!(project_report("x", "/bin/cc", "/p")[1], "  命令:  \"/bin/cc\"");
    let fixed = global_report("/h/global.json", Some("/p"));
    assert_eq!(fixed.len(), 5);
    assert_eq!(fixed[0], "✓ 全局 MCP 配置已写入: /h/global.json");
    assert_eq!(fixed[2], "  参数:  serve -p /p");
    let open = global_report("/h/global.json", None);
    assert_eq!(open.len(), 10);
    assert_eq!(open[2], "  参数:  serve");
    assert_eq!(open[9], "    codeconnect mcp-setup --global --project-root <项目绝对路径>");
}

#[test]
fn test_bashrc_update() {
    let line = "\nexport PATH=\"$PATH:/opt/cc\" # codeconnect\n";
    assert_eq!(bashrc_update(None, "/opt/cc").unwrap(), line);
    assert_eq!(bashrc_update(Some("alias ll='ls -l'"), "/opt/cc").unwrap(), format!("alias ll='ls -l'{}", line));
    let already = format!("# rc{}# more\n", line);
    assert_eq!(bashrc_update(Some(&already), "/opt/cc"), None);
    assert!(bashrc_update(Some(&already), "/opt/other").is_some());
}
