//! Helpers of the command-line front end: the index layout check and the
//! short labels of call types.
use vstd::prelude::*;

use crate::path_util::{join_path, path_join};
use crate::text::{append_str, chars_eq, chars_of, join_strings, join_with, string_of, string_views};

verus! {

/// The index directories under a data directory, with the names used in
/// messages: full-text index, call-edge index, key-value store.
pub open spec fn index_dir_names() -> Seq<Seq<char>> {
    seq!["tantivy"@, "调用边索引"@, "sled"@]
}

/// The paths of the index directories under `data_dir`.
pub open spec fn index_dir_paths(data_dir: Seq<char>) -> Seq<Seq<char>> {
    seq![path_join(data_dir, "tantivy"@), path_join(data_dir, "tantivy_edges"@), path_join(data_dir, "sled"@)]
}

/// The paths of the index directories (see `index_dir_paths`).
pub fn index_dirs(data_dir: &str) -> (r: Vec<String>)
    ensures
        string_views(r@) == index_dir_paths(data_dir@),
{
    let mut r: Vec<String> = Vec::new();
    r.push(join_path(data_dir, "tantivy"));
    r.push(join_path(data_dir, "tantivy_edges"));
    r.push(join_path(data_dir, "sled"));
    proof {
        assert(string_views(r@) =~= index_dir_paths(data_dir@));
    }
    r
}

/// The names of the index directories that are absent, in order.
pub open spec fn missing_dirs(present: Seq<bool>) -> Seq<Seq<char>>
    decreases present.len(),
{
    if present.len() == 0 {
        Seq::empty()
    } else {
        let prev = missing_dirs(present.drop_last());
        if present.last() { prev } else { prev.push(index_dir_names()[present.len() - 1]) }
    }
}

/// The message for an incomplete index.
pub open spec fn incomplete_index_text(missing: Seq<Seq<char>>) -> Seq<char> {
    "索引数据不完整，缺失: "@ + join_with(missing, ", "@) + "\n请先运行 `codeconnect index` 构建索引。"@
}

/// Checks that the index was built: `present[i]` tells whether the `i`-th
/// of `index_dirs(data_dir)` exists. The index is not created here; that
/// is the `index` command's work.
pub fn check_index_dirs_exist(present: &[bool]) -> (r: Result<(), String>)
    requires
        present.len() == index_dir_names().len(),
    ensures
        missing_dirs(present@).len() == 0 ==> r is Ok,
        missing_dirs(present@).len() > 0 ==> (r matches Err(m) && m@ == incomplete_index_text(missing_dirs(present@))),
{
    let mut names: Vec<String> = Vec::new();
    names.push("tantivy".to_string());
    names.push("调用边索引".to_string());
    names.push("sled".to_string());
    proof {
        assert(string_views(names@) =~= index_dir_names());
    }
    let mut missing: Vec<String> = Vec::new();
    let mut i: usize = 0;
    while i < present.len()
        invariant
            i <= present.len(),
            present.len() == index_dir_names().len(),
            string_views(names@) == index_dir_names(),
            string_views(missing@) == missing_dirs(present@.take(i as int)),
        decreases present.len() - i,
    {
        proof {
            assert(present@.take(i + 1).drop_last() =~= present@.take(i as int));
            assert(present@.take(i + 1).last() == present@[i as int]);
            assert(string_views(names@)[i as int] == names@[i as int]@);
        }
        if !present[i] {
            let ghost before = string_views(missing@);
            missing.push(names[i].clone());
            proof {
                assert(string_views(missing@) =~= before.push(names@[i as int]@));
            }
        }
        i = i + 1;
    }
    proof {
        assert(present@.take(i as int) =~= present@);
    }
    if missing.len() == 0 {
        proof {
            assert(string_views(missing@).len() == 0);
        }
        return Ok(());
    }
    let mut buf: Vec<char> = Vec::new();
    append_str(&mut buf, "索引数据不完整，缺失: ");
    let list = join_strings(missing.as_slice(), ", ");
    append_str(&mut buf, list.as_str());
    append_str(&mut buf, "\n请先运行 `codeconnect index` 构建索引。");
    Err(string_of(buf.as_slice()))
}

/// The short terminal label of a call type name; other names are kept.
pub open spec fn call_type_label(ct: Seq<char>) -> Seq<char> {
    if ct == "直接调用"@ {
        "direct"@
    } else if ct == "虚函数调用"@ {
        "virtual"@
    } else if ct == "回调调用"@ {
        "callback"@
    } else if ct == "宏展开调用"@ {
        "macro"@
    } else {
        ct
    }
}

/// Whether `s` is the text `lit`.
fn is_text(s: &str, lit: &str) -> (b: bool)
    ensures
        b == (s@ == lit@),
{
    let a = chars_of(s);
    let b = chars_of(lit);
    chars_eq(a.as_slice(), b.as_slice())
}

/// Shortens a call type name for the terminal (see `call_type_label`).
pub fn simplify_call_type(ct: &str) -> (r: &str)
    ensures
        r@ == call_type_label(ct@),
{
    if is_text(ct, "直接调用") {
        "direct"
    } else if is_text(ct, "虚函数调用") {
        "virtual"
    } else if is_text(ct, "回调调用") {
        "callback"
    } else if is_text(ct, "宏展开调用") {
        "macro"
    } else {
        ct
    }
}

} // verus!
