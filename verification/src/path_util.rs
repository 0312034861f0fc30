//! Path text helpers: joining paths as `Path::join` does with `/`
//! separators, and stripping the Windows verbatim prefix that
//! `canonicalize` adds.
use vstd::prelude::*;
use vstd::string::StringExecFns;

use crate::text::{append_chars, append_str, chars_of, has_prefix, join_with, string_of, strip_prefix_chars};

verus! {

/// `\\?\UNC\`
pub open spec fn verbatim_unc_prefix() -> Seq<char> {
    seq!['\\', '\\', '?', '\\', 'U', 'N', 'C', '\\']
}

/// `\\?\`
pub open spec fn verbatim_prefix() -> Seq<char> {
    seq!['\\', '\\', '?', '\\']
}

/// `\\`
pub open spec fn unc_prefix() -> Seq<char> {
    seq!['\\', '\\']
}

/// The path with its verbatim prefix undone: `\\?\UNC\server\share\x`
/// becomes `\\server\share\x`, `\\?\F:\x` becomes `F:\x`, anything else is
/// unchanged. Separators are left as they are.
pub open spec fn without_verbatim(s: Seq<char>) -> Seq<char> {
    if has_prefix(s, verbatim_unc_prefix()) {
        unc_prefix() + s.skip(verbatim_unc_prefix().len() as int)
    } else if has_prefix(s, verbatim_prefix()) {
        s.skip(verbatim_prefix().len() as int)
    } else {
        s
    }
}

/// Strips the Windows `\\?\` verbatim prefix from a path (see
/// `without_verbatim`); the UNC form is checked first.
pub fn strip_verbatim_prefix(path: &str) -> (r: String)
    ensures
        r@ == without_verbatim(path@),
{
    let s = chars_of(path);
    let unc = vec!['\\', '\\', '?', '\\', 'U', 'N', 'C', '\\'];
    let plain = vec!['\\', '\\', '?', '\\'];
    proof {
        assert(unc@ =~= verbatim_unc_prefix());
        assert(plain@ =~= verbatim_prefix());
    }
    if let Some(rest) = strip_prefix_chars(s.as_slice(), unc.as_slice()) {
        let mut out = vec!['\\', '\\'];
        let mut i: usize = 0;
        while i < rest.len()
            invariant
                i <= rest.len(),
                out@ == unc_prefix() + rest@.take(i as int),
            decreases rest.len() - i,
        {
            out.push(rest[i]);
            proof {
                assert(out@ =~= unc_prefix() + rest@.take(i + 1));
            }
            i = i + 1;
        }
        proof {
            assert(rest@.take(i as int) =~= rest@);
        }
        return string_of(out.as_slice());
    }
    if let Some(rest) = strip_prefix_chars(s.as_slice(), plain.as_slice()) {
        return string_of(rest.as_slice());
    }
    path.to_string()
}


/// `base.join(rel)` with `/` as separator: an absolute `rel` replaces
/// `base`; otherwise `rel` follows `base`, with a `/` between them unless
/// `base` is empty or already ends with one.
pub open spec fn path_join(base: Seq<char>, rel: Seq<char>) -> Seq<char> {
    if rel.len() > 0 && rel[0] == '/' {
        rel
    } else if base.len() == 0 || base.last() == '/' {
        base + rel
    } else {
        base + seq!['/'] + rel
    }
}

/// Joins two paths (see `path_join`).
pub fn join_path(base: &str, rel: &str) -> (r: String)
    ensures
        r@ == path_join(base@, rel@),
{
    let b = chars_of(base);
    let r = chars_of(rel);
    if r.len() > 0 && r[0] == '/' {
        return rel.to_string();
    }
    let mut out = b;
    if out.len() > 0 && out[out.len() - 1] != '/' {
        out.push('/');
    }
    append_str(&mut out, rel);
    proof {
        if base@.len() > 0 && base@.last() != '/' {
            assert(out@ =~= base@ + seq!['/'] + rel@);
        }
    }
    string_of(out.as_slice())
}


/// A segment that names a path component: not empty and not `.`.
pub open spec fn is_part(seg: Seq<char>) -> bool {
    seg.len() > 0 && seg != seq!['.']
}

/// `parts` with `seg` added when it names a component.
pub open spec fn flush_part(parts: Seq<Seq<char>>, seg: Seq<char>) -> Seq<Seq<char>> {
    if is_part(seg) { parts.push(seg) } else { parts }
}

/// Left-to-right scan of a path: the components so far and the segment
/// being read.
pub open spec fn scan_parts(p: Seq<char>) -> (Seq<Seq<char>>, Seq<char>)
    decreases p.len(),
{
    if p.len() == 0 {
        (Seq::empty(), Seq::empty())
    } else {
        let prev = scan_parts(p.drop_last());
        if p.last() == '/' {
            (flush_part(prev.0, prev.1), Seq::empty())
        } else {
            (prev.0, prev.1.push(p.last()))
        }
    }
}

/// The named components of a path (`Path::components` without the root
/// and the leading `.`): the segments between `/`s, empty ones and `.`
/// left out.
pub open spec fn path_parts(p: Seq<char>) -> Seq<Seq<char>> {
    flush_part(scan_parts(p).0, scan_parts(p).1)
}

/// The path starts at the root.
pub open spec fn has_root(p: Seq<char>) -> bool {
    p.len() > 0 && p[0] == '/'
}

/// The path starts with a `.` component.
pub open spec fn starts_cur_dir(p: Seq<char>) -> bool {
    p == seq!['.'] || has_prefix(p, seq!['.', '/'])
}

/// Two paths with the same components (`Path == Path`).
pub open spec fn same_path(a: Seq<char>, b: Seq<char>) -> bool {
    &&& has_root(a) == has_root(b)
    &&& starts_cur_dir(a) == starts_cur_dir(b)
    &&& path_parts(a) == path_parts(b)
}

/// Reads the named components of a path (see `path_parts`).
pub fn split_parts(p: &[char]) -> (r: Vec<Vec<char>>)
    ensures
        crate::text::vecs_view(r@) == path_parts(p@),
{
    let mut parts: Vec<Vec<char>> = Vec::new();
    let mut cur: Vec<char> = Vec::new();
    let mut i: usize = 0;
    proof {
        assert(p@.take(0) =~= Seq::<char>::empty());
        assert(crate::text::vecs_view(parts@) =~= Seq::<Seq<char>>::empty());
    }
    while i < p.len()
        invariant
            i <= p.len(),
            crate::text::vecs_view(parts@) == scan_parts(p@.take(i as int)).0,
            cur@ == scan_parts(p@.take(i as int)).1,
        decreases p.len() - i,
    {
        proof {
            assert(p@.take(i + 1).drop_last() =~= p@.take(i as int));
            assert(p@.take(i + 1).last() == p@[i as int]);
        }
        if p[i] == '/' {
            let part = is_part_exec(cur.as_slice());
            if part {
                let ghost before = crate::text::vecs_view(parts@);
                parts.push(cur);
                proof {
                    assert(crate::text::vecs_view(parts@) =~= before.push(scan_parts(p@.take(i as int)).1));
                }
            }
            cur = Vec::new();
        } else {
            cur.push(p[i]);
        }
        i = i + 1;
    }
    proof {
        assert(p@.take(i as int) =~= p@);
    }
    if is_part_exec(cur.as_slice()) {
        let ghost before = crate::text::vecs_view(parts@);
        parts.push(cur);
        proof {
            assert(crate::text::vecs_view(parts@) =~= before.push(scan_parts(p@).1));
        }
    }
    parts
}

/// Whether a segment names a component (see `is_part`).
fn is_part_exec(seg: &[char]) -> (b: bool)
    ensures
        b == is_part(seg@),
{
    if seg.len() == 0 {
        return false;
    }
    if seg.len() == 1 && seg[0] == '.' {
        proof {
            assert(seg@ =~= seq!['.']);
        }
        return false;
    }
    proof {
        if seg.len() == 1 {
            assert(seg@ != seq!['.']) by {
                assert(seg@[0] != seq!['.'][0]);
            }
        } else {
            assert(seg@.len() != seq!['.'].len());
        }
    }
    true
}

/// Whether two paths have the same components (see `same_path`).
pub fn paths_equal(a: &str, b: &str) -> (r: bool)
    ensures
        r == same_path(a@, b@),
{
    let x = chars_of(a);
    let y = chars_of(b);
    let root_x = x.len() > 0 && x[0] == '/';
    let root_y = y.len() > 0 && y[0] == '/';
    let cur_x = starts_cur_dir_exec(x.as_slice());
    let cur_y = starts_cur_dir_exec(y.as_slice());
    if root_x != root_y || cur_x != cur_y {
        return false;
    }
    let px = split_parts(x.as_slice());
    let py = split_parts(y.as_slice());
    if px.len() != py.len() {
        proof {
            assert(crate::text::vecs_view(px@).len() == px.len());
            assert(crate::text::vecs_view(py@).len() == py.len());
        }
        return false;
    }
    let mut i: usize = 0;
    while i < px.len()
        invariant
            i <= px.len(),
            px.len() == py.len(),
            crate::text::vecs_view(px@) == path_parts(a@),
            crate::text::vecs_view(py@) == path_parts(b@),
            forall|j: int| 0 <= j < i ==> (#[trigger] px@[j])@ == py@[j]@,
        decreases px.len() - i,
    {
        if !crate::text::chars_eq(px[i].as_slice(), py[i].as_slice()) {
            proof {
                assert(crate::text::vecs_view(px@)[i as int] == px@[i as int]@);
                assert(crate::text::vecs_view(py@)[i as int] == py@[i as int]@);
            }
            return false;
        }
        i = i + 1;
    }
    proof {
        assert(crate::text::vecs_view(px@) =~= crate::text::vecs_view(py@));
    }
    true
}

/// Whether a path starts with a `.` component (see `starts_cur_dir`).
fn starts_cur_dir_exec(p: &[char]) -> (b: bool)
    ensures
        b == starts_cur_dir(p@),
{
    if p.len() == 1 && p[0] == '.' {
        proof {
            assert(p@ =~= seq!['.']);
        }
        return true;
    }
    let r = p.len() >= 2 && p[0] == '.' && p[1] == '/';
    proof {
        if p@ == seq!['.'] {
            assert(p.len() == 1);
        }
        if r {
            assert(p@.take(2) =~= seq!['.', '/']);
        }
        if has_prefix(p@, seq!['.', '/']) {
            assert(p@[0] == seq!['.', '/'][0]);
            assert(p@[1] == seq!['.', '/'][1]);
        }
    }
    r
}


/// One component of lexical normalisation: `..` drops the last kept
/// component (if any), anything else is kept.
pub open spec fn normalize_step(stack: Seq<Seq<char>>, part: Seq<char>) -> Seq<Seq<char>> {
    if part == seq!['.', '.'] {
        if stack.len() > 0 { stack.drop_last() } else { stack }
    } else {
        stack.push(part)
    }
}

/// The components kept by lexical normalisation.
pub open spec fn normalize_parts(parts: Seq<Seq<char>>) -> Seq<Seq<char>>
    decreases parts.len(),
{
    if parts.len() == 0 {
        Seq::empty()
    } else {
        normalize_step(normalize_parts(parts.drop_last()), parts.last())
    }
}

/// A path with `.` and `..` resolved without the file system: `.` is
/// dropped, `..` removes the component before it (never the root), and
/// repeated or trailing `/` disappear.
pub open spec fn lexical(p: Seq<char>) -> Seq<char> {
    (if has_root(p) { seq!['/'] } else { Seq::empty() }) + join_with(normalize_parts(path_parts(p)), seq!['/'])
}

/// Resolves `.` and `..` lexically (see `lexical`).
pub fn lexical_normalize(path: &str) -> (r: String)
    ensures
        r@ == lexical(path@),
{
    let p = chars_of(path);
    let parts = split_parts(p.as_slice());
    let ghost pv = crate::text::vecs_view(parts@);
    let mut stack: Vec<Vec<char>> = Vec::new();
    let mut i: usize = 0;
    proof {
        assert(pv.take(0) =~= Seq::<Seq<char>>::empty());
        assert(crate::text::vecs_view(stack@) =~= Seq::<Seq<char>>::empty());
    }
    while i < parts.len()
        invariant
            i <= parts.len(),
            pv == crate::text::vecs_view(parts@),
            crate::text::vecs_view(stack@) == normalize_parts(pv.take(i as int)),
        decreases parts.len() - i,
    {
        let part = &parts[i];
        proof {
            assert(pv.take(i + 1).drop_last() =~= pv.take(i as int));
            assert(pv.take(i + 1).last() == part@);
        }
        let ghost before = crate::text::vecs_view(stack@);
        if part.len() == 2 && part[0] == '.' && part[1] == '.' {
            proof {
                assert(part@ =~= seq!['.', '.']);
            }
            if stack.len() > 0 {
                stack.pop();
                proof {
                    assert(crate::text::vecs_view(stack@) =~= before.drop_last());
                }
            }
        } else {
            proof {
                if part@ == seq!['.', '.'] {
                    assert(part@[0] == '.' && part@[1] == '.');
                }
            }
            stack.push(part.clone());
            proof {
                assert(crate::text::vecs_view(stack@) =~= before.push(part@));
            }
        }
        i = i + 1;
    }
    proof {
        assert(pv.take(i as int) =~= pv);
    }
    let ghost sv = crate::text::vecs_view(stack@);
    let mut buf: Vec<char> = Vec::new();
    if p.len() > 0 && p[0] == '/' {
        buf.push('/');
    }
    let ghost lead = buf@;
    proof {
        assert(lead == (if has_root(path@) { seq!['/'] } else { Seq::<char>::empty() }));
    }
    let mut k: usize = 0;
    proof {
        assert(sv.take(0) =~= Seq::<Seq<char>>::empty());
        assert(buf@ =~= lead + join_with(sv.take(0), seq!['/']));
    }
    while k < stack.len()
        invariant
            k <= stack.len(),
            sv == crate::text::vecs_view(stack@),
            buf@ == lead + join_with(sv.take(k as int), seq!['/']),
        decreases stack.len() - k,
    {
        let ghost b0 = buf@;
        if k > 0 {
            buf.push('/');
        }
        append_chars(&mut buf, stack[k].as_slice());
        proof {
            let w = sv.take(k + 1);
            assert(w.drop_last() =~= sv.take(k as int));
            assert(w.last() == stack@[k as int]@);
            if k == 0 {
                assert(w.len() == 1);
                assert(buf@ =~= lead + w[0]);
            } else {
                assert(buf@ =~= lead + (join_with(sv.take(k as int), seq!['/']) + seq!['/'] + w.last()));
            }
        }
        k = k + 1;
    }
    proof {
        assert(sv.take(k as int) =~= sv);
    }
    string_of(buf.as_slice())
}


/// No `/` in the text.
pub open spec fn no_slash(e: Seq<char>) -> bool {
    forall|i: int| 0 <= i < e.len() ==> e[i] != '/'
}

/// A component lexical normalisation keeps: named, without `/`, not `..`.
pub open spec fn clean_part(e: Seq<char>) -> bool {
    is_part(e) && no_slash(e) && e != seq!['.', '.']
}

/// Reading text without `/` extends the segment being read.
proof fn lemma_scan_plain(x: Seq<char>, e: Seq<char>)
    requires
        no_slash(e),
    ensures
        scan_parts(x + e) == (scan_parts(x).0, scan_parts(x).1 + e),
    decreases e.len(),
{
    if e.len() == 0 {
        assert(x + e =~= x);
        assert(scan_parts(x).1 + e =~= scan_parts(x).1);
    } else {
        let d = e.drop_last();
        lemma_scan_plain(x, d);
        assert((x + e).drop_last() =~= x + d);
        assert((x + e).last() == e.last());
        assert(e[e.len() - 1] != '/');
        assert(scan_parts(x).1 + d.push(e.last()) =~= (scan_parts(x).1 + d).push(e.last()));
        assert(d.push(e.last()) =~= e);
    }
}

/// A `/` ends the segment being read.
proof fn lemma_scan_slash(x: Seq<char>, e: Seq<char>)
    requires
        no_slash(e),
    ensures
        scan_parts(x + seq!['/'] + e) == (flush_part(scan_parts(x).0, scan_parts(x).1), e),
{
    let y = x + seq!['/'];
    assert(y.drop_last() =~= x);
    assert(y.last() == '/');
    lemma_scan_plain(y, e);
    assert(Seq::<char>::empty() + e =~= e);
}

/// The text before a path's components: `/` for a rooted path.
pub open spec fn root_prefix(rooted: bool) -> Seq<char> {
    if rooted { seq!['/'] } else { Seq::empty() }
}

/// Nothing has been read after the root prefix.
proof fn lemma_scan_prefix(rooted: bool)
    ensures
        scan_parts(root_prefix(rooted)) == (Seq::<Seq<char>>::empty(), Seq::<char>::empty()),
        path_parts(root_prefix(rooted)) == Seq::<Seq<char>>::empty(),
{
    let pre = root_prefix(rooted);
    let e = Seq::<char>::empty();
    assert(scan_parts(e) == (Seq::<Seq<char>>::empty(), e));
    assert(!is_part(e));
    if rooted {
        assert(pre.len() == 1);
        assert(pre.drop_last() =~= e);
        assert(pre.last() == '/');
        assert(scan_parts(pre) == (flush_part(Seq::<Seq<char>>::empty(), e), e));
    } else {
        assert(pre =~= e);
    }
}

/// Reading joined clean components gives them back, the last one still
/// being read.
proof fn lemma_scan_join(rooted: bool, s: Seq<Seq<char>>)
    requires
        s.len() > 0,
        forall|i: int| 0 <= i < s.len() ==> clean_part(#[trigger] s[i]),
    ensures
        scan_parts(root_prefix(rooted) + join_with(s, seq!['/'])) == (s.drop_last(), s.last()),
    decreases s.len(),
{
    let pre = root_prefix(rooted);
    lemma_scan_prefix(rooted);
    if s.len() == 1 {
        assert(clean_part(s[0]));
        lemma_scan_plain(pre, s[0]);
        assert(Seq::<char>::empty() + s[0] =~= s[0]);
        assert(s.drop_last() =~= Seq::<Seq<char>>::empty());
    } else {
        let d = s.drop_last();
        assert forall|i: int| 0 <= i < d.len() implies clean_part(#[trigger] d[i]) by {
            assert(d[i] == s[i]);
        }
        lemma_scan_join(rooted, d);
        assert(clean_part(s[s.len() - 1]));
        let x = pre + join_with(d, seq!['/']);
        lemma_scan_slash(x, s.last());
        assert(pre + join_with(s, seq!['/']) =~= x + seq!['/'] + s.last());
        assert(clean_part(d[d.len() - 1]));
        assert(d.drop_last().push(d.last()) =~= d);
    }
}

/// The components of joined clean components are those components.
proof fn lemma_parts_of_join(rooted: bool, s: Seq<Seq<char>>)
    requires
        forall|i: int| 0 <= i < s.len() ==> clean_part(#[trigger] s[i]),
    ensures
        path_parts(root_prefix(rooted) + join_with(s, seq!['/'])) == s,
        has_root(root_prefix(rooted) + join_with(s, seq!['/'])) == rooted,
{
    let text = root_prefix(rooted) + join_with(s, seq!['/']);
    if s.len() == 0 {
        assert(join_with(s, seq!['/']) == Seq::<char>::empty());
        assert(text =~= root_prefix(rooted));
        lemma_scan_prefix(rooted);
        assert(s =~= Seq::<Seq<char>>::empty());
    } else {
        lemma_scan_join(rooted, s);
        assert(clean_part(s[s.len() - 1]));
        assert(s.last() == s[s.len() - 1]);
        assert(is_part(s.last()));
        assert(path_parts(text) == flush_part(s.drop_last(), s.last()));
        assert(s.drop_last().push(s.last()) =~= s);
        if !rooted {
            lemma_join_first(s);
            assert(clean_part(s[0]));
            assert(s[0][0] != '/');
            assert(text =~= join_with(s, seq!['/']));
        }
    }
}

/// A join of clean components begins with the first one's first character.
proof fn lemma_join_first(s: Seq<Seq<char>>)
    requires
        s.len() > 0,
        forall|i: int| 0 <= i < s.len() ==> clean_part(#[trigger] s[i]),
    ensures
        join_with(s, seq!['/']).len() > 0,
        join_with(s, seq!['/'])[0] == s[0][0],
    decreases s.len(),
{
    assert(clean_part(s[0]));
    if s.len() > 1 {
        let d = s.drop_last();
        assert forall|i: int| 0 <= i < d.len() implies clean_part(#[trigger] d[i]) by {
            assert(d[i] == s[i]);
        }
        lemma_join_first(d);
        assert(d[0] == s[0]);
    }
}

/// Every component read from a path is named and holds no `/`.
proof fn lemma_parts_named(p: Seq<char>)
    ensures
        no_slash(scan_parts(p).1),
        forall|i: int| 0 <= i < scan_parts(p).0.len() ==> is_part(#[trigger] scan_parts(p).0[i]) && no_slash(scan_parts(p).0[i]),
        forall|i: int| 0 <= i < path_parts(p).len() ==> is_part(#[trigger] path_parts(p)[i]) && no_slash(path_parts(p)[i]),
    decreases p.len(),
{
    if p.len() > 0 {
        lemma_parts_named(p.drop_last());
        let prev = scan_parts(p.drop_last());
        if p.last() != '/' {
            assert forall|i: int| 0 <= i < prev.1.push(p.last()).len() implies prev.1.push(p.last())[i] != '/' by {
                if i < prev.1.len() {
                    assert(prev.1.push(p.last())[i] == prev.1[i]);
                }
            }
        }
    }
}

/// Normalisation keeps only clean components taken from its input.
proof fn lemma_normalize_clean(parts: Seq<Seq<char>>)
    requires
        forall|i: int| 0 <= i < parts.len() ==> is_part(#[trigger] parts[i]) && no_slash(parts[i]),
    ensures
        forall|i: int| 0 <= i < normalize_parts(parts).len() ==> clean_part(#[trigger] normalize_parts(parts)[i]),
    decreases parts.len(),
{
    if parts.len() > 0 {
        let d = parts.drop_last();
        assert forall|i: int| 0 <= i < d.len() implies is_part(#[trigger] d[i]) && no_slash(d[i]) by {
            assert(d[i] == parts[i]);
        }
        lemma_normalize_clean(d);
        let st = normalize_parts(d);
        let l = parts.last();
        assert(is_part(parts[parts.len() - 1]) && no_slash(parts[parts.len() - 1]));
        if l == seq!['.', '.'] {
            if st.len() > 0 {
                assert forall|i: int| 0 <= i < st.drop_last().len() implies clean_part(#[trigger] st.drop_last()[i]) by {
                    assert(st.drop_last()[i] == st[i]);
                }
            }
        } else {
            assert forall|i: int| 0 <= i < st.push(l).len() implies clean_part(#[trigger] st.push(l)[i]) by {
                if i < st.len() {
                    assert(st.push(l)[i] == st[i]);
                }
            }
        }
    }
}

/// Normalising clean components changes nothing.
proof fn lemma_normalize_fixed(s: Seq<Seq<char>>)
    requires
        forall|i: int| 0 <= i < s.len() ==> clean_part(#[trigger] s[i]),
    ensures
        normalize_parts(s) == s,
    decreases s.len(),
{
    if s.len() > 0 {
        let d = s.drop_last();
        assert forall|i: int| 0 <= i < d.len() implies clean_part(#[trigger] d[i]) by {
            assert(d[i] == s[i]);
        }
        lemma_normalize_fixed(d);
        assert(clean_part(s[s.len() - 1]));
        assert(d.push(s.last()) =~= s);
    }
}

/// Lexical normalisation leaves no `.` or `..` component, keeps the root,
/// and normalising again changes nothing.
pub proof fn law_lexical_normal_form(p: Seq<char>)
    ensures
        forall|i: int| 0 <= i < path_parts(lexical(p)).len() ==> #[trigger] path_parts(lexical(p))[i] != seq!['.'] && path_parts(lexical(p))[i] != seq!['.', '.'],
        has_root(lexical(p)) == has_root(p),
        lexical(lexical(p)) == lexical(p),
{
    lemma_parts_named(p);
    let s = normalize_parts(path_parts(p));
    lemma_normalize_clean(path_parts(p));
    assert(lexical(p) == root_prefix(has_root(p)) + join_with(s, seq!['/']));
    lemma_parts_of_join(has_root(p), s);
    lemma_normalize_fixed(s);
    assert forall|i: int| 0 <= i < s.len() implies #[trigger] s[i] != seq!['.'] && s[i] != seq!['.', '.'] by {
        assert(clean_part(s[i]));
    }
}

} // verus!
