//! Which directories an indexing run walks: `workspace.roots` read against
//! the project root. Whether a candidate is a directory inside the project
//! is the caller's finding.
use vstd::prelude::*;

use crate::path_util::{has_root, join_path, path_join, path_parts, split_parts};
use crate::text::{append_str, chars_of, join_strings, join_with, string_of, string_views, vecs_view};

verus! {

/// A path that stands for the whole project root: empty, `.` or `./`.
pub open spec fn is_whole_root(p: Seq<char>) -> bool {
    !has_root(p) && path_parts(p).len() == 0
}

/// A path that starts with a drive letter and a colon (`C:`, `c:/x`).
pub open spec fn has_drive_prefix(p: Seq<char>) -> bool {
    p.len() >= 2 && p[1] == ':' && (('a' <= p[0] && p[0] <= 'z') || ('A' <= p[0] && p[0] <= 'Z'))
}

/// A path below the project root: relative, without a drive prefix and
/// without `..`.
pub open spec fn is_safe_relative(p: Seq<char>) -> bool {
    !has_root(p) && !has_drive_prefix(p) && forall|i: int| 0 <= i < path_parts(p).len() ==> #[trigger] path_parts(p)[i] != seq!['.', '.']
}

/// Whether a path stands for the whole project root (see `is_whole_root`).
pub fn is_whole_project_root(p: &str) -> (b: bool)
    ensures
        b == is_whole_root(p@),
{
    let c = chars_of(p);
    let root = c.len() > 0 && c[0] == '/';
    let parts = split_parts(c.as_slice());
    proof {
        assert(vecs_view(parts@).len() == parts.len());
    }
    !root && parts.len() == 0
}

/// Whether a path stays below the project root (see `is_safe_relative`).
pub fn is_safe_relative_path(p: &str) -> (b: bool)
    ensures
        b == is_safe_relative(p@),
{
    let c = chars_of(p);
    if c.len() > 0 && c[0] == '/' {
        return false;
    }
    if c.len() >= 2 && c[1] == ':' && (('a' <= c[0] && c[0] <= 'z') || ('A' <= c[0] && c[0] <= 'Z')) {
        return false;
    }
    let parts = split_parts(c.as_slice());
    let ghost pv = vecs_view(parts@);
    let mut i: usize = 0;
    while i < parts.len()
        invariant
            i <= parts.len(),
            pv == vecs_view(parts@),
            pv == path_parts(p@),
            forall|j: int| 0 <= j < i ==> #[trigger] pv[j] != seq!['.', '.'],
        decreases parts.len() - i,
    {
        proof {
            assert(pv[i as int] == parts@[i as int]@);
        }
        if parts[i].len() == 2 && parts[i][0] == '.' && parts[i][1] == '.' {
            proof {
                assert(parts@[i as int]@ =~= seq!['.', '.']);
            }
            return false;
        }
        proof {
            if parts@[i as int]@ == seq!['.', '.'] {
                assert(parts@[i as int]@[0] == '.' && parts@[i as int]@[1] == '.');
            }
        }
        i = i + 1;
    }
    true
}

/// The configured roots that are kept: those below the project root that
/// the caller found to be directories inside it.
pub open spec fn kept_roots(project_root: Seq<char>, roots: Seq<Seq<char>>, usable: Seq<bool>) -> Seq<Seq<char>>
    decreases roots.len(),
{
    if roots.len() == 0 {
        Seq::empty()
    } else {
        let prev = kept_roots(project_root, roots.drop_last(), usable);
        let i = roots.len() - 1;
        if is_safe_relative(roots[i]) && usable[i] { prev.push(path_join(project_root, roots[i])) } else { prev }
    }
}

/// The directories to walk: the project root itself when no root is
/// configured or one stands for the whole project; otherwise
/// `<project_root>/<root>` for each usable root below the project root.
/// `usable[i]` tells whether `<project_root>/<roots[i]>` is a directory
/// that stays inside the project root. An empty result means every
/// configured root was invalid.
pub fn effective_walk_roots(project_root: &str, roots: &[String], usable: &[bool]) -> (r: Vec<String>)
    requires
        usable.len() == roots.len(),
    ensures
        (roots.len() == 0 || exists|i: int| 0 <= i < roots.len() && is_whole_root(#[trigger] roots@[i]@))
            ==> string_views(r@) == seq![project_root@],
        !(roots.len() == 0 || exists|i: int| 0 <= i < roots.len() && is_whole_root(#[trigger] roots@[i]@))
            ==> string_views(r@) == kept_roots(project_root@, string_views(roots@), usable@),
{
    let mut whole = roots.len() == 0;
    let mut k: usize = 0;
    while k < roots.len()
        invariant
            k <= roots.len(),
            whole == (roots.len() == 0 || exists|i: int| 0 <= i < k && is_whole_root(#[trigger] roots@[i]@)),
        decreases roots.len() - k,
    {
        if is_whole_project_root(roots[k].as_str()) {
            whole = true;
        }
        k = k + 1;
    }
    if whole {
        let mut r: Vec<String> = Vec::new();
        r.push(project_root.to_string());
        proof {
            assert(string_views(r@) =~= seq![project_root@]);
        }
        return r;
    }
    let ghost rv = string_views(roots@);
    let mut r: Vec<String> = Vec::new();
    let mut i: usize = 0;
    proof {
        assert(rv.take(0) =~= Seq::<Seq<char>>::empty());
        assert(string_views(r@) =~= Seq::<Seq<char>>::empty());
    }
    while i < roots.len()
        invariant
            i <= roots.len(),
            usable.len() == roots.len(),
            rv == string_views(roots@),
            string_views(r@) == kept_roots(project_root@, rv.take(i as int), usable@),
        decreases roots.len() - i,
    {
        proof {
            let t = rv.take(i + 1);
            assert(t.drop_last() =~= rv.take(i as int));
            assert(t[i as int] == roots@[i as int]@);
        }
        if is_safe_relative_path(roots[i].as_str()) && usable[i] {
            let ghost before = string_views(r@);
            r.push(join_path(project_root, roots[i].as_str()));
            proof {
                assert(string_views(r@) =~= before.push(path_join(project_root@, roots@[i as int]@)));
            }
        }
        i = i + 1;
    }
    proof {
        assert(rv.take(i as int) =~= rv);
    }
    r
}

/// The refusal of an indexing run whose configured roots are all invalid.
pub open spec fn invalid_roots_text(roots: Seq<Seq<char>>) -> Seq<char> {
    "workspace.roots 配置的目录全部无效（"@ + join_with(roots, ", "@)
        + "），未索引任何文件。请检查 .codeconnect.toml 中 [workspace].roots 的路径拼写"@
}

/// The error an indexing run gives when `effective_walk_roots` kept no
/// directory: it lists the configured roots, comma-separated.
pub fn invalid_roots_message(roots: &[String]) -> (r: String)
    ensures
        r@ == invalid_roots_text(string_views(roots@)),
{
    let mut buf: Vec<char> = Vec::new();
    append_str(&mut buf, "workspace.roots 配置的目录全部无效（");
    let list = join_strings(roots, ", ");
    append_str(&mut buf, list.as_str());
    append_str(&mut buf, "），未索引任何文件。请检查 .codeconnect.toml 中 [workspace].roots 的路径拼写");
    string_of(buf.as_slice())
}

} // verus!
