//! Registering the server with an MCP client: the command and arguments
//! written into the client's configuration, how an existing configuration
//! file is updated, what the user is told, and the shell startup line that
//! puts the program on `PATH`.
//!
//! Reading and writing files, and the JSON document itself, are the
//! caller's; the caller reports here what it found in an existing document.
use vstd::prelude::*;

use crate::text::{append_str, contains_chars, contains_seq, str_eq, string_of, string_views};

verus! {

/// The program's name on `PATH`.
pub open spec fn program_name() -> Seq<char> {
    "codeconnect"@
}

/// The command a client runs: the program's name when it is on `PATH`,
/// else the running executable's path, which must be valid UTF-8
/// (`exe` is `None` otherwise).
pub open spec fn command_for(in_path: bool, exe: Option<Seq<char>>) -> Result<Seq<char>, Seq<char>> {
    if in_path {
        Ok(program_name())
    } else {
        match exe {
            Some(e) => Ok(e),
            None => Err("无法将可执行文件路径转换为 UTF-8 字符串"@),
        }
    }
}

/// The command written into a project configuration (see `command_for`).
pub fn server_command(in_path: bool, exe: Option<&str>) -> (r: Result<String, String>)
    ensures
        match (r, command_for(in_path, match exe {
            Some(e) => Some(e@),
            None => None,
        })) {
            (Ok(c), Ok(s)) => c@ == s,
            (Err(m), Err(s)) => m@ == s,
            _ => false,
        },
{
    if in_path {
        Ok("codeconnect".to_string())
    } else {
        match exe {
            Some(e) => Ok(e.to_string()),
            None => Err("无法将可执行文件路径转换为 UTF-8 字符串".to_string()),
        }
    }
}

/// `s` with every backslash turned into a forward slash.
pub open spec fn forward_slashes(s: Seq<char>) -> Seq<char> {
    s.map_values(|c: char| if c == '\\' { '/' } else { c })
}

/// Turns backslashes into forward slashes (see `forward_slashes`), the form
/// in which paths are written into a client configuration.
pub fn to_forward_slashes(s: &str) -> (r: String)
    ensures
        r@ == forward_slashes(s@),
{
    let c = crate::text::chars_of(s);
    let mut out: Vec<char> = Vec::new();
    let mut i: usize = 0;
    while i < c.len()
        invariant
            i <= c.len(),
            c@ == s@,
            out@ == forward_slashes(s@).take(i as int),
        decreases c.len() - i,
    {
        let ch = if c[i] == '\\' {
            '/'
        } else {
            c[i]
        };
        out.push(ch);
        proof {
            assert(out@ =~= forward_slashes(s@).take(i + 1));
        }
        i = i + 1;
    }
    proof {
        assert(forward_slashes(s@).take(i as int) =~= forward_slashes(s@));
    }
    string_of(out.as_slice())
}

/// The arguments of the server entry: `serve`, then `-p` and the project
/// root when one is fixed.
pub open spec fn serve_args_of(root: Option<Seq<char>>) -> Seq<Seq<char>> {
    match root {
        Some(r) => seq!["serve"@, "-p"@, r],
        None => seq!["serve"@],
    }
}

/// The arguments of the server entry (see `serve_args_of`).
pub fn serve_args(root: Option<&str>) -> (r: Vec<String>)
    ensures
        string_views(r@) == serve_args_of(match root {
            Some(p) => Some(p@),
            None => None,
        }),
{
    let mut r: Vec<String> = Vec::new();
    r.push("serve".to_string());
    match root {
        Some(p) => {
            r.push("-p".to_string());
            r.push(p.to_string());
            proof {
                assert(string_views(r@) =~= seq!["serve"@, "-p"@, p@]);
            }
        },
        None => {
            proof {
                assert(string_views(r@) =~= seq!["serve"@]);
            }
        },
    }
    r
}

/// What an existing configuration document looks like where the server
/// entry goes.
#[derive(Debug, Clone, Copy, PartialEq, Eq, Structural)]
pub struct DocShape {
    /// The document's root is a JSON object.
    pub root_is_object: bool,
    /// The root has an `mcpServers` member that is an object.
    pub servers_is_object: bool,
    /// That object already has a `codeconnect` member.
    pub has_entry: bool,
}

/// How the configuration file is written.
#[derive(Debug, Clone, Copy, PartialEq, Eq, Structural)]
pub enum ConfigEdit {
    /// No file yet: a new document holding only `mcpServers.codeconnect`.
    Create,
    /// The `codeconnect` entry exists under `mcpServers`: replace it.
    UpdateEntry,
    /// `mcpServers` exists without the entry: add it.
    AddEntry,
    /// The root has no `mcpServers` object: set `mcpServers` to an object
    /// holding only the entry, the rest of the root untouched.
    AddServers,
}

/// The refusal of a document whose root is not an object.
pub open spec fn not_object_text() -> Seq<char> {
    "配置文件根元素不是 JSON 对象"@
}

/// The edit for the document found (`None`: no file).
pub open spec fn edit_for(existing: Option<DocShape>) -> Result<ConfigEdit, Seq<char>> {
    match existing {
        None => Ok(ConfigEdit::Create),
        Some(s) => if s.servers_is_object {
            Ok(if s.has_entry { ConfigEdit::UpdateEntry } else { ConfigEdit::AddEntry })
        } else if s.root_is_object {
            Ok(ConfigEdit::AddServers)
        } else {
            Err(not_object_text())
        },
    }
}

/// Decides how the configuration file is written (see `edit_for`).
pub fn plan_config_edit(existing: Option<DocShape>) -> (r: Result<ConfigEdit, String>)
    ensures
        match (r, edit_for(existing)) {
            (Ok(e), Ok(s)) => e == s,
            (Err(m), Err(s)) => m@ == s,
            _ => false,
        },
{
    match existing {
        None => Ok(ConfigEdit::Create),
        Some(s) => if s.servers_is_object {
            Ok(if s.has_entry { ConfigEdit::UpdateEntry } else { ConfigEdit::AddEntry })
        } else if s.root_is_object {
            Ok(ConfigEdit::AddServers)
        } else {
            Err("配置文件根元素不是 JSON 对象".to_string())
        },
    }
}

/// The notice printed before an existing entry is replaced.
pub open spec fn update_notice_text(global: bool) -> Seq<char> {
    if global {
        "✓ 已检测到现有 codeconnect 全局配置，将更新"@
    } else {
        "✓ 已检测到现有 codeconnect 配置，将更新"@
    }
}

/// The notice printed before an existing entry is replaced (see
/// `update_notice_text`).
pub fn update_notice(global: bool) -> (r: String)
    ensures
        r@ == update_notice_text(global),
{
    if global {
        "✓ 已检测到现有 codeconnect 全局配置，将更新".to_string()
    } else {
        "✓ 已检测到现有 codeconnect 配置，将更新".to_string()
    }
}

/// `a` followed by `b`.
fn concat(a: &str, b: &str) -> (r: String)
    ensures
        r@ == a@ + b@,
{
    let mut buf: Vec<char> = Vec::new();
    append_str(&mut buf, a);
    append_str(&mut buf, b);
    string_of(buf.as_slice())
}

/// How the command is shown: the program's name as it is, a path quoted.
pub open spec fn command_shown(command: Seq<char>) -> Seq<char> {
    if command == program_name() {
        program_name()
    } else {
        "\""@ + command + "\""@
    }
}

/// The lines reported after a project configuration was written to `path`.
pub open spec fn project_report_lines(path: Seq<char>, command: Seq<char>, root: Seq<char>) -> Seq<Seq<char>> {
    seq![
        "✓ MCP 配置已写入: "@ + path,
        "  命令:  "@ + command_shown(command),
        "  参数:  serve -p "@ + root,
        "  项目:  "@ + root,
    ]
}

/// The report after a project configuration was written (see
/// `project_report_lines`).
pub fn project_report(path: &str, command: &str, root: &str) -> (r: Vec<String>)
    ensures
        string_views(r@) == project_report_lines(path@, command@, root@),
{
    let shown = if str_eq(command, "codeconnect") {
        "codeconnect".to_string()
    } else {
        let mut buf: Vec<char> = Vec::new();
        append_str(&mut buf, "\"");
        append_str(&mut buf, command);
        append_str(&mut buf, "\"");
        string_of(buf.as_slice())
    };
    let mut r: Vec<String> = Vec::new();
    r.push(concat("✓ MCP 配置已写入: ", path));
    r.push(concat("  命令:  ", shown.as_str()));
    r.push(concat("  参数:  serve -p ", root));
    r.push(concat("  项目:  ", root));
    proof {
        assert(string_views(r@) =~= project_report_lines(path@, command@, root@));
    }
    r
}

/// The lines reported after the global configuration was written to
/// `path`; without a fixed project the user is told that the client's
/// working directory decides what is indexed.
pub open spec fn global_report_lines(path: Seq<char>, root: Option<Seq<char>>) -> Seq<Seq<char>> {
    seq!["✓ 全局 MCP 配置已写入: "@ + path, "  命令:  codeconnect"@] + match root {
        Some(r) => seq!["  参数:  serve -p "@ + r, "  项目:  "@ + r, "  索引范围已固定为该目录，与客户端 cwd 无关。"@],
        None => seq![
            "  参数:  serve"@,
            ""@,
            "⚠ 未指定项目目录，配置中不含 -p 参数。"@,
            "  此配置依赖客户端以项目目录为 cwd 启动 MCP 子进程；"@,
            "  若客户端从其他目录启动，索引的将是那个目录而不是你的项目。"@,
            ""@,
            "  如需固定索引某个项目，请重新运行:"@,
            "    codeconnect mcp-setup --global --project-root <项目绝对路径>"@,
        ],
    }
}

/// The report after the global configuration was written (see
/// `global_report_lines`).
pub fn global_report(path: &str, root: Option<&str>) -> (r: Vec<String>)
    ensures
        string_views(r@) == global_report_lines(path@, match root {
            Some(p) => Some(p@),
            None => None,
        }),
{
    let mut r: Vec<String> = Vec::new();
    r.push(concat("✓ 全局 MCP 配置已写入: ", path));
    r.push("  命令:  codeconnect".to_string());
    match root {
        Some(p) => {
            r.push(concat("  参数:  serve -p ", p));
            r.push(concat("  项目:  ", p));
            r.push("  索引范围已固定为该目录，与客户端 cwd 无关。".to_string());
            proof {
                assert(string_views(r@) =~= global_report_lines(path@, Some(p@)));
            }
        },
        None => {
            r.push("  参数:  serve".to_string());
            r.push("".to_string());
            r.push("⚠ 未指定项目目录，配置中不含 -p 参数。".to_string());
            r.push("  此配置依赖客户端以项目目录为 cwd 启动 MCP 子进程；".to_string());
            r.push("  若客户端从其他目录启动，索引的将是那个目录而不是你的项目。".to_string());
            r.push("".to_string());
            r.push("  如需固定索引某个项目，请重新运行:".to_string());
            r.push("    codeconnect mcp-setup --global --project-root <项目绝对路径>".to_string());
            proof {
                assert(string_views(r@) =~= global_report_lines(path@, None));
            }
        },
    }
    r
}

/// The line appended to `~/.bashrc` to put `dir` on `PATH`, with a newline
/// on each side.
pub open spec fn export_line_of(dir: Seq<char>) -> Seq<char> {
    "\nexport PATH=\"$PATH:"@ + dir + "\" # codeconnect\n"@
}

/// The export line without its surrounding newlines: the text whose
/// presence means `dir` is already added.
pub open spec fn export_marker_of(dir: Seq<char>) -> Seq<char> {
    "export PATH=\"$PATH:"@ + dir + "\" # codeconnect"@
}

/// The new `~/.bashrc` content that adds `dir` to `PATH`, or `None` when
/// the file already has the export line. `content` is `None` when the file
/// could not be read; the export line then becomes the whole file.
pub fn bashrc_update(content: Option<&str>, dir: &str) -> (r: Option<String>)
    ensures
        content is None ==> (r matches Some(s) && s@ == export_line_of(dir@)),
        content matches Some(c) ==> if contains_seq(c@, export_marker_of(dir@)) {
            r is None
        } else {
            r matches Some(s) && s@ == c@ + export_line_of(dir@)
        },
{
    let mut line: Vec<char> = Vec::new();
    append_str(&mut line, "\nexport PATH=\"$PATH:");
    append_str(&mut line, dir);
    append_str(&mut line, "\" # codeconnect\n");
    let mut marker: Vec<char> = Vec::new();
    append_str(&mut marker, "export PATH=\"$PATH:");
    append_str(&mut marker, dir);
    append_str(&mut marker, "\" # codeconnect");
    match content {
        None => Some(string_of(line.as_slice())),
        Some(c) => {
            let cv = crate::text::chars_of(c);
            if contains_chars(cv.as_slice(), marker.as_slice()) {
                None
            } else {
                let mut buf: Vec<char> = Vec::new();
                append_str(&mut buf, c);
                crate::text::append_chars(&mut buf, line.as_slice());
                Some(string_of(buf.as_slice()))
            }
        },
    }
}

} // verus!
