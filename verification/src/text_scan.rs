//! Plain-text scan within the indexed files ("text truth").
//!
//! A symbol index is never complete, and "not in the index" looks exactly
//! like "not in the code": both are zero hits, with no warning. This module
//! puts the result of a plain text scan of the indexed files next to the
//! symbol results, so that sparse or zero hits are never silent.
//!
//! Matching is grep's: case-sensitive substring search, hits counted per
//! line. Reading the files (and the time budget) is the caller's part.
use vstd::prelude::*;

use crate::config::{trim_bounds, trimmed};
use crate::text::{
    append_chars, append_str, chars_of, contains_chars, contains_seq, decimal, find_chars, find_first,
    find_last_seq, join_strings, join_with, lines_of, push_usize, rfind_chars, rfind_from, slice_to_vec, split_lines,
    string_of, string_views, vecs_view,
};

verus! {

/// Longest snippet of a line, in characters.
pub const SNIPPET_MAX_CHARS: usize = 200;

/// At most this many hits are listed; the true total is always given.
pub const TEXT_DETAIL_LIMIT: usize = 50;

/// From this many symbol hits on, text hits are summarised in one line.
pub const TEXT_SUMMARY_THRESHOLD: usize = 5;

/// Time budget of a scan, in milliseconds.
pub const SCAN_BUDGET_MS: u64 = 2000;

/// Larger files are skipped (and counted).
pub const MAX_SCAN_FILE_BYTES: u64 = 4194304;

/// One text hit.
#[derive(Debug, Clone, PartialEq, Eq)]
pub struct TextHit {
    /// File path relative to the project root.
    pub file_path: String,
    /// Line number (1-based).
    pub line: usize,
    /// The line's text around the match (at most `SNIPPET_MAX_CHARS`).
    pub snippet: String,
}

/// A hit as plain values: path, line, snippet.
pub type HitView = (Seq<char>, int, Seq<char>);

impl TextHit {
    /// The hit as plain values.
    pub open spec fn view_hit(&self) -> HitView {
        (self.file_path@, self.line as int, self.snippet@)
    }
}

/// The contents of a list of hits.
pub open spec fn hit_views(v: Seq<TextHit>) -> Seq<HitView> {
    v.map_values(|h: TextHit| h.view_hit())
}

/// The Unicode `Alphabetic` or `Numeric` property (`char::is_alphanumeric`).
pub uninterp spec fn alphanumeric(c: char) -> bool;

/// Calls `char::is_alphanumeric`; its result is named `alphanumeric`.
#[verifier::external_body]
fn char_is_alphanumeric(c: char) -> (r: bool)
    ensures
        r == alphanumeric(c),
{
    c.is_alphanumeric()
}

/// A character of an identifier.
pub open spec fn is_ident_char(c: char) -> bool {
    alphanumeric(c) || c == '_'
}

/// The longest run of identifier characters that ends `s`.
pub open spec fn ident_suffix(s: Seq<char>) -> Seq<char>
    decreases s.len(),
{
    if s.len() > 0 && is_ident_char(s.last()) {
        ident_suffix(s.drop_last()).push(s.last())
    } else {
        Seq::empty()
    }
}

/// `t` up to the first `p` (`split(p).next()`).
pub open spec fn before_first(t: Seq<char>, p: Seq<char>) -> Seq<char> {
    match find_first(t, p) {
        Some(k) => t.take(k),
        None => t,
    }
}

/// `t` after the last `p` (`rsplit(p).next()`).
pub open spec fn after_last(t: Seq<char>, p: Seq<char>) -> Seq<char> {
    match find_last_seq(t, p) {
        Some(k) => t.skip(k + p.len()),
        None => t,
    }
}

/// Text written as a qualified name or a call.
pub open spec fn is_qualified(t: Seq<char>) -> bool {
    contains_seq(t, "::"@) || contains_seq(t, "->"@) || contains_seq(t, "."@) || contains_seq(t, "("@)
}

/// The text to search for a query: the trimmed query, or, for a qualified
/// name or call (`Class::method()`, `obj.foo()`, `p->run(a)`), its last
/// identifier, which is what the source spells literally.
pub open spec fn needle_of(input: Seq<char>) -> Seq<char> {
    let t = trimmed(input);
    if !is_qualified(t) {
        t
    } else {
        let head = after_last(after_last(after_last(before_first(t, "("@), "->"@), "::"@), "."@);
        let seg = ident_suffix(head);
        if seg.len() == 0 { t } else { seg }
    }
}

/// The part of `t` before the first `p` (see `before_first`).
fn before_first_exec(t: &[char], p: &[char]) -> (r: Vec<char>)
    ensures
        r@ == before_first(t@, p@),
{
    match find_chars(t, p, 0) {
        Some(k) => {
            proof {
                crate::text::lemma_find_from(t@, p@, 0);
            }
            slice_to_vec(t, 0, k)
        },
        None => slice_to_vec(t, 0, t.len()),
    }
}

/// The part of `t` after the last `p` (see `after_last`).
fn after_last_exec(t: &[char], p: &[char]) -> (r: Vec<char>)
    ensures
        r@ == after_last(t@, p@),
{
    match rfind_chars(t, p) {
        Some(k) => {
            proof {
                lemma_rfind_bound(t@, p@, t@.len() - p@.len());
                assert(find_last_seq(t@, p@) == rfind_from(t@, p@, t@.len() - p@.len()));
                assert(k + p.len() <= t.len());
            }
            slice_to_vec(t, k + p.len(), t.len())
        },
        None => slice_to_vec(t, 0, t.len()),
    }
}

/// A last occurrence lies within the text.
proof fn lemma_rfind_bound(s: Seq<char>, p: Seq<char>, i: int)
    ensures
        rfind_from(s, p, i) matches Some(k) ==> 0 <= k && k + p.len() <= s.len(),
    decreases i + 1,
{
    if i >= 0 && !crate::text::occurs_at(s, p, i) {
        lemma_rfind_bound(s, p, i - 1);
    }
}

/// The text to search for a query (see `needle_of`).
pub fn text_needle(input: &str) -> (r: String)
    ensures
        r@ == needle_of(input@),
{
    let s = chars_of(input);
    let (a, b) = trim_bounds(s.as_slice());
    let t = slice_to_vec(s.as_slice(), a, b);
    let colons = chars_of("::");
    let arrow = chars_of("->");
    let dot = chars_of(".");
    let paren = chars_of("(");
    let qualified = contains_chars(t.as_slice(), colons.as_slice()) || contains_chars(t.as_slice(), arrow.as_slice())
        || contains_chars(t.as_slice(), dot.as_slice()) || contains_chars(t.as_slice(), paren.as_slice());
    if !qualified {
        return string_of(t.as_slice());
    }
    let h0 = before_first_exec(t.as_slice(), paren.as_slice());
    let h1 = after_last_exec(h0.as_slice(), arrow.as_slice());
    let h2 = after_last_exec(h1.as_slice(), colons.as_slice());
    let head = after_last_exec(h2.as_slice(), dot.as_slice());
    let mut k = head.len();
    proof {
        assert(head@.take(k as int) =~= head@);
    }
    while k > 0 && char_is_alphanumeric_or_underscore(head[k - 1])
        invariant
            k <= head.len(),
            ident_suffix(head@) == ident_suffix(head@.take(k as int)) + head@.subrange(k as int, head.len() as int),
        decreases k,
    {
        proof {
            let w = head@.take(k as int);
            assert(w.last() == head@[k - 1]);
            assert(w.drop_last() =~= head@.take(k - 1));
            assert(ident_suffix(w) == ident_suffix(head@.take(k - 1)).push(head@[k - 1]));
            assert(ident_suffix(head@.take(k - 1)).push(head@[k - 1]) + head@.subrange(k as int, head.len() as int)
                =~= ident_suffix(head@.take(k - 1)) + head@.subrange(k - 1, head.len() as int));
        }
        k = k - 1;
    }
    proof {
        if k > 0 {
            assert(head@.take(k as int).last() == head@[k - 1]);
        }
        assert(ident_suffix(head@.take(k as int)) =~= Seq::<char>::empty());
        assert(ident_suffix(head@) =~= head@.subrange(k as int, head.len() as int));
    }
    if k == head.len() {
        string_of(t.as_slice())
    } else {
        string_of(slice_to_vec(head.as_slice(), k, head.len()).as_slice())
    }
}

/// Whether a character belongs to an identifier (see `is_ident_char`).
fn char_is_alphanumeric_or_underscore(c: char) -> (b: bool)
    ensures
        b == is_ident_char(c),
{
    c == '_' || char_is_alphanumeric(c)
}

/// The characters a snippet may hold besides its two ellipses (at least one).
pub open spec fn snippet_budget(max_chars: int) -> int {
    if max_chars >= 3 { max_chars - 2 } else { 1 }
}

/// Where the window starts before it is pushed back inside the line: the
/// match centred as far as the budget allows.
pub open spec fn window_start(match_idx: int, needle_chars: int, max_chars: int) -> int {
    let budget = snippet_budget(max_chars);
    let n = if needle_chars >= 1 { needle_chars } else { 1 };
    let n = if n <= budget { n } else { budget };
    let half = (budget - n) / 2;
    if match_idx >= half { match_idx - half } else { 0 }
}

/// The text of `line` around a match at character `match_idx`: the whole
/// line when it has at most `max_chars` characters; otherwise a window of
/// the budget's size, centred on the match but kept within the line, with
/// `…` where text was cut.
pub open spec fn snippet_of(line: Seq<char>, match_idx: int, needle_chars: int, max_chars: int) -> Seq<char> {
    if line.len() <= max_chars {
        line
    } else {
        let budget = snippet_budget(max_chars);
        let s0 = window_start(match_idx, needle_chars, max_chars);
        let start = if s0 + budget > line.len() { line.len() - budget } else { s0 };
        let end = start + budget;
        (if start > 0 { seq!['…'] } else { Seq::empty() }) + line.subrange(start, end)
            + (if end < line.len() { seq!['…'] } else { Seq::empty() })
    }
}

/// The window end stays within `usize` (else the arithmetic overflows).
pub open spec fn snippet_fits(line_len: int, match_idx: int, needle_chars: int, max_chars: int) -> bool {
    line_len > max_chars ==> window_start(match_idx, needle_chars, max_chars) + snippet_budget(max_chars) <= usize::MAX
}

/// Cuts a snippet of a long line around a match (see `snippet_of`).
pub fn snippet_around(line: &str, match_char_idx: usize, needle_chars: usize, max_chars: usize) -> (r: String)
    requires
        snippet_fits(line@.len() as int, match_char_idx as int, needle_chars as int, max_chars as int),
    ensures
        r@ == snippet_of(line@, match_char_idx as int, needle_chars as int, max_chars as int),
{
    let chars = chars_of(line);
    if chars.len() <= max_chars {
        return line.to_string();
    }
    let budget: usize = if max_chars >= 3 { max_chars - 2 } else { 1 };
    let n0: usize = if needle_chars >= 1 { needle_chars } else { 1 };
    let n: usize = if n0 <= budget { n0 } else { budget };
    let half: usize = (budget - n) / 2;
    let mut start: usize = if match_char_idx >= half { match_char_idx - half } else { 0 };
    if start + budget > chars.len() {
        start = chars.len() - budget;
    }
    let end = start + budget;
    let mut buf: Vec<char> = Vec::new();
    if start > 0 {
        buf.push('…');
    }
    let ghost b0 = buf@;
    append_chars(&mut buf, slice_to_vec(chars.as_slice(), start, end).as_slice());
    if end < chars.len() {
        buf.push('…');
    }
    proof {
        let pre: Seq<char> = if start > 0 { seq!['…'] } else { Seq::empty() };
        assert(b0 =~= pre);
    }
    string_of(buf.as_slice())
}


/// The hit a line gives, if the needle occurs in it: the line number
/// (1-based) and a snippet of the trimmed line around the first match.
pub open spec fn hit_of(rel: Seq<char>, idx: int, line: Seq<char>, needle: Seq<char>) -> Option<HitView> {
    let t = trimmed(line);
    match find_first(t, needle) {
        Some(k) => Some((rel, idx + 1, snippet_of(t, k, needle.len() as int, SNIPPET_MAX_CHARS as int))),
        None => None,
    }
}

/// The hits of a file's lines, in line order.
pub open spec fn line_hits(rel: Seq<char>, lines: Seq<Seq<char>>, needle: Seq<char>) -> Seq<HitView>
    decreases lines.len(),
{
    if lines.len() == 0 {
        Seq::empty()
    } else {
        let prev = line_hits(rel, lines.drop_last(), needle);
        match hit_of(rel, lines.len() - 1, lines.last(), needle) {
            Some(h) => prev.push(h),
            None => prev,
        }
    }
}

/// At most `n` elements from the front.
pub open spec fn first_n<A>(s: Seq<A>, n: int) -> Seq<A> {
    if n < s.len() { s.take(n) } else { s }
}

/// The outcome of scanning one file.
#[derive(Debug)]
pub struct FileScan {
    /// The file was read and scanned.
    pub scanned: bool,
    /// The file was skipped for its size.
    pub skipped_large: bool,
    /// The file could not be read.
    pub unreadable: bool,
    /// Lines with a hit.
    pub hit_count: usize,
    /// The first hits.
    pub hits: Vec<TextHit>,
}

impl FileScan {
    /// A file left out (the time budget ran out).
    pub fn skipped() -> (r: FileScan)
        ensures
            !r.scanned && !r.skipped_large && !r.unreadable && r.hit_count == 0 && r.hits@.len() == 0,
    {
        FileScan { scanned: false, skipped_large: false, unreadable: false, hit_count: 0, hits: Vec::new() }
    }
}

/// Scans the text of one file: every line whose trimmed text contains the
/// needle counts; the first `max_hits` of them are kept as hits.
pub fn scan_lines(relative_path: &str, source: &str, needle: &str, max_hits: usize) -> (r: FileScan)
    requires
        source@.len() <= isize::MAX,
    ensures
        r.scanned && !r.skipped_large && !r.unreadable,
        r.hit_count == line_hits(relative_path@, lines_of(source@), needle@).len(),
        hit_views(r.hits@) == first_n(line_hits(relative_path@, lines_of(source@), needle@), max_hits as int),
        r.hits@.len() <= max_hits,
        r.hits@.len() <= r.hit_count,
{
    let src = chars_of(source);
    let lines = split_lines(src.as_slice());
    let nd = chars_of(needle);
    let needle_chars = nd.len();
    let ghost ls = lines_of(source@);
    let ghost rel = relative_path@;
    let mut hits: Vec<TextHit> = Vec::new();
    let mut hit_count: usize = 0;
    let mut i: usize = 0;
    proof {
        crate::text::lemma_lines_bounded(source@);
        assert(ls.take(0) =~= Seq::<Seq<char>>::empty());
        assert(hit_views(hits@) =~= Seq::<HitView>::empty());
    }
    while i < lines.len()
        invariant
            i <= lines.len(),
            vecs_view(lines@) == ls,
            ls == lines_of(source@),
            forall|j: int| 0 <= j < ls.len() ==> (#[trigger] ls[j]).len() <= source@.len(),
            source@.len() <= isize::MAX,
            nd@ == needle@,
            needle_chars == needle@.len(),
            rel == relative_path@,
            hit_count == line_hits(rel, ls.take(i as int), needle@).len(),
            hit_count <= i,
            hit_views(hits@) == first_n(line_hits(rel, ls.take(i as int), needle@), max_hits as int),
        decreases lines.len() - i,
    {
        let line = &lines[i];
        proof {
            assert(ls[i as int] == line@);
            assert(ls.take(i + 1).drop_last() =~= ls.take(i as int));
            assert(ls.take(i + 1).last() == line@);
        }
        let (a, b) = trim_bounds(line.as_slice());
        let t = slice_to_vec(line.as_slice(), a, b);
        let ghost prev = line_hits(rel, ls.take(i as int), needle@);
        match find_chars(t.as_slice(), nd.as_slice(), 0) {
            Some(k) => {
                proof {
                    crate::text::lemma_find_from(t@, needle@, 0);
                    assert(t@.len() <= source@.len());
                }
                if hits.len() < max_hits {
                    let snippet = snippet_around(string_of(t.as_slice()).as_str(), k, needle_chars, SNIPPET_MAX_CHARS);
                    let h = TextHit { file_path: relative_path.to_string(), line: i + 1, snippet };
                    let ghost before = hit_views(hits@);
                    hits.push(h);
                    proof {
                        assert(hit_views(hits@) =~= before.push(h.view_hit()));
                        assert(prev.len() < max_hits);
                        assert(first_n(prev.push(h.view_hit()), max_hits as int) =~= prev.push(h.view_hit()));
                    }
                } else {
                    proof {
                        let nh = hit_of(rel, i as int, line@, needle@).unwrap();
                        assert(first_n(prev.push(nh), max_hits as int) =~= first_n(prev, max_hits as int));
                    }
                }
                hit_count = hit_count + 1;
            },
            None => {},
        }
        i = i + 1;
    }
    proof {
        assert(ls.take(i as int) =~= ls);
    }
    FileScan { scanned: true, skipped_large: false, unreadable: false, hit_count, hits }
}

/// Scans one indexed file from what the caller found on disk: its size
/// (`None` when it could not be read) and its text (`None` when reading
/// failed). Files over `MAX_SCAN_FILE_BYTES` are skipped and counted.
pub fn scan_one_file(relative_path: &str, size: Option<u64>, source: Option<&str>, needle: &str, max_hits: usize) -> (r: FileScan)
    requires
        source matches Some(s) ==> s@.len() <= isize::MAX,
    ensures
        match size {
            None => !r.scanned && !r.skipped_large && r.unreadable && r.hit_count == 0 && r.hits@.len() == 0,
            Some(n) => if n > MAX_SCAN_FILE_BYTES {
                !r.scanned && r.skipped_large && !r.unreadable && r.hit_count == 0 && r.hits@.len() == 0
            } else {
                match source {
                    None => !r.scanned && !r.skipped_large && r.unreadable && r.hit_count == 0 && r.hits@.len() == 0,
                    Some(s) => r.scanned && !r.skipped_large && !r.unreadable
                        && r.hit_count == line_hits(relative_path@, lines_of(s@), needle@).len()
                        && hit_views(r.hits@) == first_n(line_hits(relative_path@, lines_of(s@), needle@), max_hits as int),
                }
            },
        },
{
    match size {
        None => FileScan { scanned: false, skipped_large: false, unreadable: true, hit_count: 0, hits: Vec::new() },
        Some(n) => {
            if n > MAX_SCAN_FILE_BYTES {
                return FileScan { scanned: false, skipped_large: true, unreadable: false, hit_count: 0, hits: Vec::new() };
            }
            match source {
                None => FileScan { scanned: false, skipped_large: false, unreadable: true, hit_count: 0, hits: Vec::new() },
                Some(s) => scan_lines(relative_path, s, needle, max_hits),
            }
        },
    }
}

/// A scan as plain values: scanned, skipped, unreadable, hit count, hits.
pub type ScanView = (bool, bool, bool, int, Seq<HitView>);

impl FileScan {
    /// The scan as plain values.
    pub open spec fn view_scan(&self) -> ScanView {
        (self.scanned, self.skipped_large, self.unreadable, self.hit_count as int, hit_views(self.hits@))
    }
}

/// The contents of a list of scans.
pub open spec fn scan_views(v: Seq<FileScan>) -> Seq<ScanView> {
    v.map_values(|s: FileScan| s.view_scan())
}

/// How many scans satisfy a flag, and the sum of hit counts.
pub open spec fn scan_totals(s: Seq<ScanView>) -> (int, int, int, int, int)
    decreases s.len(),
{
    if s.len() == 0 {
        (0, 0, 0, 0, 0)
    } else {
        let p = scan_totals(s.drop_last());
        let x = s.last();
        (
            p.0 + if x.0 { 1int } else { 0 },
            p.1 + if x.1 { 1int } else { 0 },
            p.2 + if x.2 { 1int } else { 0 },
            p.3 + if x.3 > 0 { 1int } else { 0 },
            p.4 + x.3,
        )
    }
}

/// All hits of the scans, file after file.
pub open spec fn all_scan_hits(s: Seq<ScanView>) -> Seq<HitView>
    decreases s.len(),
{
    if s.len() == 0 {
        Seq::empty()
    } else {
        all_scan_hits(s.drop_last()) + s.last().4
    }
}

/// The report of a text scan.
#[derive(Debug, Clone)]
pub struct TextScanReport {
    /// The query as given (for wording).
    pub query: String,
    /// The text actually searched (see `text_needle`).
    pub needle: String,
    /// Indexed files.
    pub files_total: usize,
    /// Files read and scanned.
    pub files_scanned: usize,
    /// Files skipped for their size.
    pub files_skipped_large: usize,
    /// Files that could not be read (likely deleted since indexing).
    pub files_unreadable: usize,
    /// Files with hits.
    pub files_with_hits: usize,
    /// Lines with hits, all of them (not cut to the listed hits).
    pub total_hits: usize,
    /// The first hits (at most the limit asked for).
    pub hits: Vec<TextHit>,
    /// Whether every file was dealt with within the time budget.
    pub scan_complete: bool,
    /// Time taken, in milliseconds.
    pub elapsed_ms: u64,
}

/// Every count in a list of scans fits in `usize`.
pub open spec fn scans_fit(s: Seq<ScanView>) -> bool {
    scan_totals(s).4 <= usize::MAX
}

/// A prefix's counts stay below the whole's.
proof fn lemma_totals_prefix(s: Seq<ScanView>, k: int)
    requires
        0 <= k <= s.len(),
        forall|i: int| 0 <= i < s.len() ==> (#[trigger] s[i]).3 >= 0,
    ensures
        scan_totals(s.take(k)).0 <= k,
        scan_totals(s.take(k)).1 <= k,
        scan_totals(s.take(k)).2 <= k,
        scan_totals(s.take(k)).3 <= k,
        0 <= scan_totals(s.take(k)).4 <= scan_totals(s).4,
    decreases s.len() - k,
{
    let t = s.take(k);
    assert forall|i: int| 0 <= i < t.len() implies (#[trigger] t[i]).3 >= 0 by {
        assert(t[i] == s[i]);
    }
    lemma_totals_bounds(t);
    if k < s.len() {
        lemma_totals_prefix(s, k + 1);
        assert(s.take(k + 1).drop_last() =~= s.take(k));
        assert(s.take(k + 1).last() == s[k]);
    } else {
        assert(s.take(k) =~= s);
    }
}

/// Counts are bounded by the number of scans.
proof fn lemma_totals_bounds(s: Seq<ScanView>)
    requires
        forall|i: int| 0 <= i < s.len() ==> (#[trigger] s[i]).3 >= 0,
    ensures
        scan_totals(s).0 <= s.len(),
        scan_totals(s).1 <= s.len(),
        scan_totals(s).2 <= s.len(),
        scan_totals(s).3 <= s.len(),
        scan_totals(s).4 >= 0,
    decreases s.len(),
{
    if s.len() > 0 {
        let d = s.drop_last();
        assert forall|i: int| 0 <= i < d.len() implies (#[trigger] d[i]).3 >= 0 by {
            assert(d[i] == s[i]);
        }
        lemma_totals_bounds(d);
        assert(s.last() == s[s.len() - 1]);
    }
}

/// Whether a scan that has run `elapsed_ms` milliseconds is over its time
/// budget, so that the files not yet read are left unscanned.
pub fn budget_spent(elapsed_ms: u64) -> (b: bool)
    ensures
        b == (elapsed_ms > SCAN_BUDGET_MS),
{
    elapsed_ms > SCAN_BUDGET_MS
}

/// Whether text is empty or all white space.
fn is_blank(s: &str) -> (b: bool)
    ensures
        b == (trimmed(s@).len() == 0),
{
    let c = chars_of(s);
    let (a, z) = trim_bounds(c.as_slice());
    a == z
}

/// Merges the per-file scans of the indexed files (in their order) into a
/// report. A blank needle would match every line: it gives an empty,
/// complete report.
pub fn scan_indexed_files(needle: &str, files_total: usize, scans: Vec<FileScan>, max_hits: usize, elapsed_ms: u64) -> (r: TextScanReport)
    requires
        trimmed(needle@).len() > 0 ==> scans@.len() == files_total,
        scans_fit(scan_views(scans@)),
    ensures
        r.query@ == needle@,
        r.needle@ == needle@,
        r.files_total == files_total,
        trimmed(needle@).len() == 0 ==> r.files_scanned == 0 && r.files_skipped_large == 0 && r.files_unreadable == 0
            && r.files_with_hits == 0 && r.total_hits == 0 && r.hits@.len() == 0 && r.scan_complete && r.elapsed_ms == 0,
        trimmed(needle@).len() > 0 ==> {
            let tot = scan_totals(scan_views(scans@));
            &&& r.files_scanned == tot.0
            &&& r.files_skipped_large == tot.1
            &&& r.files_unreadable == tot.2
            &&& r.files_with_hits == tot.3
            &&& r.total_hits == tot.4
            &&& hit_views(r.hits@) == first_n(all_scan_hits(scan_views(scans@)), max_hits as int)
            &&& r.scan_complete == (tot.0 + tot.1 + tot.2 == files_total)
            &&& r.elapsed_ms == elapsed_ms
        },
        r.hits@.len() <= max_hits,
{
    if is_blank(needle) {
        return TextScanReport {
            query: needle.to_string(),
            needle: needle.to_string(),
            files_total,
            files_scanned: 0,
            files_skipped_large: 0,
            files_unreadable: 0,
            files_with_hits: 0,
            total_hits: 0,
            hits: Vec::new(),
            scan_complete: true,
            elapsed_ms: 0,
        };
    }
    let ghost sv = scan_views(scans@);
    let mut scans = scans;
    let mut hits: Vec<TextHit> = Vec::new();
    let mut total_hits: usize = 0;
    let mut files_with_hits: usize = 0;
    let mut files_skipped_large: usize = 0;
    let mut files_unreadable: usize = 0;
    let mut files_scanned: usize = 0;
    let mut i: usize = 0;
    proof {
        assert(sv.take(0) =~= Seq::<ScanView>::empty());
        assert(hit_views(hits@) =~= Seq::<HitView>::empty());
        assert forall|j: int| 0 <= j < sv.len() implies (#[trigger] sv[j]).3 >= 0 by {}
    }
    while i < scans.len()
        invariant
            i <= scans.len(),
            scans@.len() == sv.len(),
            forall|j: int| i <= j < sv.len() ==> sv[j] == (#[trigger] scans@[j]).view_scan(),
            forall|j: int| 0 <= j < sv.len() ==> (#[trigger] sv[j]).3 >= 0,
            scans_fit(sv),
            files_scanned == scan_totals(sv.take(i as int)).0,
            files_skipped_large == scan_totals(sv.take(i as int)).1,
            files_unreadable == scan_totals(sv.take(i as int)).2,
            files_with_hits == scan_totals(sv.take(i as int)).3,
            total_hits == scan_totals(sv.take(i as int)).4,
            hit_views(hits@) == first_n(all_scan_hits(sv.take(i as int)), max_hits as int),
        decreases scans.len() - i,
    {
        proof {
            lemma_totals_prefix(sv, i + 1);
            assert(sv.take(i + 1).drop_last() =~= sv.take(i as int));
            assert(sv.take(i + 1).last() == sv[i as int]);
        }
        if scans[i].scanned {
            files_scanned = files_scanned + 1;
        }
        if scans[i].skipped_large {
            files_skipped_large = files_skipped_large + 1;
        }
        if scans[i].unreadable {
            files_unreadable = files_unreadable + 1;
        }
        if scans[i].hit_count > 0 {
            files_with_hits = files_with_hits + 1;
        }
        total_hits = total_hits + scans[i].hit_count;
        let ghost prev_all = all_scan_hits(sv.take(i as int));
        let ghost fh = sv[i as int].4;
        let mut taken: Vec<TextHit> = Vec::new();
        std::mem::swap(&mut taken, &mut scans[i].hits);
        proof {
            assert(hit_views(taken@) == fh);
        }
        if hits.len() < max_hits {
            let room = max_hits - hits.len();
            taken.truncate(room);
            let ghost before = hit_views(hits@);
            let ghost tk = hit_views(taken@);
            hits.append(&mut taken);
            proof {
                assert(hit_views(hits@) =~= before + tk);
                assert(before == prev_all);
                assert(tk =~= first_n(fh, room as int));
                assert(first_n(prev_all + fh, max_hits as int) =~= prev_all + first_n(fh, room as int));
            }
        } else {
            proof {
                assert(first_n(prev_all + fh, max_hits as int) =~= first_n(prev_all, max_hits as int));
            }
        }
        i = i + 1;
    }
    proof {
        assert(sv.take(i as int) =~= sv);
    }
    TextScanReport {
        query: needle.to_string(),
        needle: needle.to_string(),
        files_total,
        files_scanned,
        files_skipped_large,
        files_unreadable,
        files_with_hits,
        total_hits,
        hits,
        scan_complete: files_scanned as u128 + files_skipped_large as u128 + files_unreadable as u128 == files_total as u128,
        elapsed_ms,
    }
}


/// What a text-truth notice is about; it decides the wording.
#[derive(Debug, Clone, Copy, PartialEq, Eq, Structural)]
pub enum TextTruthContext {
    /// The symbol index has no hit (symbol search).
    SymbolNotIndexed,
    /// The call graph has no caller (reference search).
    NoCallers,
}

/// A listed hit: `  {file}:{line}  {snippet}`.
pub open spec fn detail_text(h: HitView) -> Seq<char> {
    "  "@ + h.0 + ":"@ + decimal(h.1 as nat) + "  "@ + h.2
}

/// The one-line summary of text hits.
pub open spec fn summary_text(files_with_hits: nat, total_hits: nat) -> Seq<char> {
    "文本另有 "@ + decimal(files_with_hits) + " 个文件 "@ + decimal(total_hits) + " 处出现（含注释/字符串，仅作核对参考）"@
}

/// The gaps of a scan, one phrase each.
pub open spec fn coverage_parts(r: TextScanReport) -> Seq<Seq<char>> {
    let a: Seq<Seq<char>> = if !r.scan_complete {
        seq!["仅扫描了 "@ + decimal(r.files_scanned as nat) + "/"@ + decimal(r.files_total as nat) + " 个已索引文件，命中数为不完全统计"@]
    } else {
        Seq::empty()
    };
    let b: Seq<Seq<char>> = if r.files_skipped_large > 0 {
        seq!["跳过 "@ + decimal(r.files_skipped_large as nat) + " 个超过 "@ + decimal(4) + "MB 的文件"@]
    } else {
        Seq::empty()
    };
    let c: Seq<Seq<char>> = if r.files_unreadable > 0 {
        seq![decimal(r.files_unreadable as nat) + " 个已索引文件读取失败（可能已被删除，建议 reindex）"@]
    } else {
        Seq::empty()
    };
    a + b + c
}

/// The coverage warning of a scan: present exactly when it has a gap.
pub open spec fn coverage_text(r: TextScanReport) -> Option<Seq<char>> {
    let parts = coverage_parts(r);
    if parts.len() == 0 {
        None
    } else {
        Some("文本扫描未覆盖全部："@ + join_with(parts, "；"@) + "。这些缺口里可能有命中，不能据此判断「不存在」。"@)
    }
}

/// Says which text was searched when it is not the query itself.
pub open spec fn needle_note_text(r: TextScanReport) -> Seq<char> {
    if r.needle@ == r.query@ {
        Seq::empty()
    } else {
        "（文本检索串取 `"@ + r.needle@ + "`：由 `"@ + r.query@ + "` 的末段标识符得到）"@
    }
}

/// The opening sentence when text hits exist and symbol hits are few.
pub open spec fn headline_text(r: TextScanReport, context: TextTruthContext, symbol_hits: nat) -> Seq<char> {
    let q = r.query@;
    let f = decimal(r.files_with_hits as nat);
    let n = decimal(r.total_hits as nat);
    match context {
        TextTruthContext::SymbolNotIndexed => if symbol_hits == 0 {
            "符号索引中未找到 `"@ + q + "`。但文本检索在 "@ + f + " 个文件、"@ + n + " 处找到了它 —— 这不代表 "@ + q
                + " 不存在，更可能是它属于索引未覆盖的符号类别。下面列出文本命中位置；改动前请以这些位置为准。"@
        } else {
            "符号索引只命中 "@ + decimal(symbol_hits) + " 个，文本检索另有 "@ + f + " 个文件、"@ + n + " 处出现 `"@ + q
                + "` —— 稀疏命中时符号索引很可能没覆盖全，下面列出文本命中位置，改动前请一并核对。"@
        },
        TextTruthContext::NoCallers => if symbol_hits == 0 {
            "调用图中没有 `"@ + q + "` 的调用方。但文本检索在 "@ + f + " 个文件、"@ + n
                + " 处找到了它 —— 这不代表它没有调用方，更可能是调用边未覆盖这类引用（限定名调用、宏、间接调用等）。下面列出文本命中位置；改动前请以这些位置为准。"@
        } else {
            "调用图只找到 "@ + decimal(symbol_hits) + " 个调用方，文本检索另有 "@ + f + " 个文件、"@ + n + " 处出现 `"@ + q
                + "` —— 调用边覆盖不全时这个数字会偏小，下面列出文本命中位置，改动前请一并核对。"@
        },
    }
}

/// The listed hits, each on a line of its own after the heading.
pub open spec fn details_text(hits: Seq<HitView>) -> Seq<char>
    decreases hits.len(),
{
    if hits.len() == 0 {
        Seq::empty()
    } else {
        details_text(hits.drop_last()) + "\n"@ + detail_text(hits.last())
    }
}

/// The text-truth notice (see `TextScanReport::text_truth_notice`).
pub open spec fn notice_text(r: TextScanReport, context: TextTruthContext, symbol_hits: nat) -> Option<Seq<char>> {
    let abundant = symbol_hits >= TEXT_SUMMARY_THRESHOLD;
    if r.total_hits == 0 {
        if abundant {
            None
        } else if r.scan_complete {
            Some("文本检索在 "@ + decimal(r.files_scanned as nat) + " 个已索引文件的原文里也没有找到 `"@ + r.needle@ + "`。"@
                + needle_note_text(r) + "注意：未索引的文件不在扫描范围内。"@)
        } else {
            Some("⚠ 文本扫描未完成（预算内只扫了 "@ + decimal(r.files_scanned as nat) + "/"@ + decimal(r.files_total as nat)
                + " 个已索引文件），**不能**据此判断 `"@ + r.query@ + "` 不存在。"@)
        }
    } else if abundant {
        Some(summary_text(r.files_with_hits as nat, r.total_hits as nat))
    } else {
        Some(headline_text(r, context, symbol_hits) + (if r.needle@ != r.query@ { "\n"@ + needle_note_text(r) } else { Seq::empty() })
            + "\n文本命中明细:"@ + details_text(hit_views(r.hits@)))
    }
}

impl TextScanReport {
    /// Whether the text has any hit.
    pub fn has_hits(&self) -> (b: bool)
        ensures
            b == (self.total_hits > 0),
    {
        self.total_hits > 0
    }

    /// The listed hits as lines (see `detail_text`).
    pub fn detail_lines(&self) -> (r: Vec<String>)
        ensures
            string_views(r@) == hit_views(self.hits@).map_values(|h: HitView| detail_text(h)),
    {
        let mut r: Vec<String> = Vec::new();
        let mut i: usize = 0;
        while i < self.hits.len()
            invariant
                i <= self.hits.len(),
                r.len() == i,
                forall|j: int| 0 <= j < i ==> (#[trigger] r@[j])@ == detail_text(self.hits@[j].view_hit()),
            decreases self.hits.len() - i,
        {
            let h = &self.hits[i];
            let mut buf: Vec<char> = Vec::new();
            append_str(&mut buf, "  ");
            append_str(&mut buf, h.file_path.as_str());
            append_str(&mut buf, ":");
            push_usize(h.line, &mut buf);
            append_str(&mut buf, "  ");
            append_str(&mut buf, h.snippet.as_str());
            r.push(string_of(buf.as_slice()));
            i = i + 1;
        }
        proof {
            assert(string_views(r@) =~= hit_views(self.hits@).map_values(|h: HitView| detail_text(h)));
        }
        r
    }

    /// The one-line summary (see `summary_text`).
    pub fn summary_line(&self) -> (r: String)
        ensures
            r@ == summary_text(self.files_with_hits as nat, self.total_hits as nat),
    {
        let mut buf: Vec<char> = Vec::new();
        append_str(&mut buf, "文本另有 ");
        push_usize(self.files_with_hits, &mut buf);
        append_str(&mut buf, " 个文件 ");
        push_usize(self.total_hits, &mut buf);
        append_str(&mut buf, " 处出现（含注释/字符串，仅作核对参考）");
        string_of(buf.as_slice())
    }

    /// The warning for a scan that did not cover every file (see
    /// `coverage_text`): left unsaid, "not scanned" would pass for "not
    /// there".
    pub fn coverage_warning(&self) -> (r: Option<String>)
        ensures
            match r {
                Some(s) => coverage_text(*self) == Some(s@),
                None => coverage_text(*self) is None,
            },
    {
        let mut parts: Vec<String> = Vec::new();
        let ghost r0 = *self;
        if !self.scan_complete {
            let mut buf: Vec<char> = Vec::new();
            append_str(&mut buf, "仅扫描了 ");
            push_usize(self.files_scanned, &mut buf);
            append_str(&mut buf, "/");
            push_usize(self.files_total, &mut buf);
            append_str(&mut buf, " 个已索引文件，命中数为不完全统计");
            parts.push(string_of(buf.as_slice()));
        }
        let ghost pa = string_views(parts@);
        if self.files_skipped_large > 0 {
            let mut buf: Vec<char> = Vec::new();
            append_str(&mut buf, "跳过 ");
            push_usize(self.files_skipped_large, &mut buf);
            append_str(&mut buf, " 个超过 ");
            push_decimal_mb(&mut buf);
            append_str(&mut buf, "MB 的文件");
            parts.push(string_of(buf.as_slice()));
        }
        let ghost pb = string_views(parts@);
        if self.files_unreadable > 0 {
            let mut buf: Vec<char> = Vec::new();
            push_usize(self.files_unreadable, &mut buf);
            append_str(&mut buf, " 个已索引文件读取失败（可能已被删除，建议 reindex）");
            parts.push(string_of(buf.as_slice()));
        }
        proof {
            assert(string_views(parts@) =~= coverage_parts(r0));
        }
        if parts.len() == 0 {
            return None;
        }
        let mut buf: Vec<char> = Vec::new();
        append_str(&mut buf, "文本扫描未覆盖全部：");
        let joined = join_strings(parts.as_slice(), "；");
        append_str(&mut buf, joined.as_str());
        append_str(&mut buf, "。这些缺口里可能有命中，不能据此判断「不存在」。");
        Some(string_of(buf.as_slice()))
    }

    /// Names the text searched when it differs from the query; empty
    /// otherwise (see `needle_note_text`).
    pub fn needle_note(&self) -> (r: String)
        ensures
            r@ == needle_note_text(*self),
    {
        if self.needle == self.query {
            return String::new();
        }
        let mut buf: Vec<char> = Vec::new();
        append_str(&mut buf, "（文本检索串取 `");
        append_str(&mut buf, self.needle.as_str());
        append_str(&mut buf, "`：由 `");
        append_str(&mut buf, self.query.as_str());
        append_str(&mut buf, "` 的末段标识符得到）");
        string_of(buf.as_slice())
    }

    /// The text-truth block shown beside symbol results (see `notice_text`):
    /// nothing when symbol hits are plenty and the text has none; one
    /// summary line when both are plenty; the listed hits when symbol hits
    /// are few or none; and, with no text hit, what was scanned, so that
    /// "really absent" and "not scanned" can be told apart.
    pub fn text_truth_notice(&self, context: TextTruthContext, symbol_hits: usize) -> (r: Option<String>)
        ensures
            match r {
                Some(s) => notice_text(*self, context, symbol_hits as nat) == Some(s@),
                None => notice_text(*self, context, symbol_hits as nat) is None,
            },
    {
        let abundant = symbol_hits >= TEXT_SUMMARY_THRESHOLD;
        if !self.has_hits() {
            if abundant {
                return None;
            }
            let mut buf: Vec<char> = Vec::new();
            if self.scan_complete {
                append_str(&mut buf, "文本检索在 ");
                push_usize(self.files_scanned, &mut buf);
                append_str(&mut buf, " 个已索引文件的原文里也没有找到 `");
                append_str(&mut buf, self.needle.as_str());
                append_str(&mut buf, "`。");
                let note = self.needle_note();
                append_str(&mut buf, note.as_str());
                append_str(&mut buf, "注意：未索引的文件不在扫描范围内。");
            } else {
                append_str(&mut buf, "⚠ 文本扫描未完成（预算内只扫了 ");
                push_usize(self.files_scanned, &mut buf);
                append_str(&mut buf, "/");
                push_usize(self.files_total, &mut buf);
                append_str(&mut buf, " 个已索引文件），**不能**据此判断 `");
                append_str(&mut buf, self.query.as_str());
                append_str(&mut buf, "` 不存在。");
            }
            return Some(string_of(buf.as_slice()));
        }
        if abundant {
            return Some(self.summary_line());
        }
        let mut buf: Vec<char> = Vec::new();
        self.push_headline(&mut buf, context, symbol_hits);
        let note = self.needle_note();
        if self.needle != self.query {
            append_str(&mut buf, "\n");
            append_str(&mut buf, note.as_str());
        }
        append_str(&mut buf, "\n文本命中明细:");
        let lines = self.detail_lines();
        let ghost hv = hit_views(self.hits@);
        let ghost b0 = buf@;
        let mut i: usize = 0;
        proof {
            assert(hv.take(0) =~= Seq::<HitView>::empty());
            assert(b0 + details_text(hv.take(0)) =~= b0);
            assert(string_views(lines@).len() == lines.len());
        }
        while i < lines.len()
            invariant
                i <= lines.len(),
                lines.len() == hv.len(),
                string_views(lines@) == hv.map_values(|h: HitView| detail_text(h)),
                buf@ == b0 + details_text(hv.take(i as int)),
            decreases lines.len() - i,
        {
            append_str(&mut buf, "\n");
            append_str(&mut buf, lines[i].as_str());
            proof {
                assert(hv.take(i + 1).drop_last() =~= hv.take(i as int));
                assert(hv.take(i + 1).last() == hv[i as int]);
                assert(string_views(lines@)[i as int] == lines@[i as int]@);
            }
            i = i + 1;
        }
        proof {
            assert(hv.take(i as int) =~= hv);
        }
        Some(string_of(buf.as_slice()))
    }

    /// Appends the opening sentence (see `headline_text`).
    fn push_headline(&self, buf: &mut Vec<char>, context: TextTruthContext, symbol_hits: usize)
        ensures
            final(buf)@ == old(buf)@ + headline_text(*self, context, symbol_hits as nat),
    {
        let q = self.query.as_str();
        match context {
            TextTruthContext::SymbolNotIndexed => {
                if symbol_hits == 0 {
                    append_str(buf, "符号索引中未找到 `");
                    append_str(buf, q);
                    append_str(buf, "`。但文本检索在 ");
                    push_usize(self.files_with_hits, buf);
                    append_str(buf, " 个文件、");
                    push_usize(self.total_hits, buf);
                    append_str(buf, " 处找到了它 —— 这不代表 ");
                    append_str(buf, q);
                    append_str(buf, " 不存在，更可能是它属于索引未覆盖的符号类别。下面列出文本命中位置；改动前请以这些位置为准。");
                } else {
                    append_str(buf, "符号索引只命中 ");
                    push_usize(symbol_hits, buf);
                    append_str(buf, " 个，文本检索另有 ");
                    push_usize(self.files_with_hits, buf);
                    append_str(buf, " 个文件、");
                    push_usize(self.total_hits, buf);
                    append_str(buf, " 处出现 `");
                    append_str(buf, q);
                    append_str(buf, "` —— 稀疏命中时符号索引很可能没覆盖全，下面列出文本命中位置，改动前请一并核对。");
                }
            },
            TextTruthContext::NoCallers => {
                if symbol_hits == 0 {
                    append_str(buf, "调用图中没有 `");
                    append_str(buf, q);
                    append_str(buf, "` 的调用方。但文本检索在 ");
                    push_usize(self.files_with_hits, buf);
                    append_str(buf, " 个文件、");
                    push_usize(self.total_hits, buf);
                    append_str(buf, " 处找到了它 —— 这不代表它没有调用方，更可能是调用边未覆盖这类引用（限定名调用、宏、间接调用等）。下面列出文本命中位置；改动前请以这些位置为准。");
                } else {
                    append_str(buf, "调用图只找到 ");
                    push_usize(symbol_hits, buf);
                    append_str(buf, " 个调用方，文本检索另有 ");
                    push_usize(self.files_with_hits, buf);
                    append_str(buf, " 个文件、");
                    push_usize(self.total_hits, buf);
                    append_str(buf, " 处出现 `");
                    append_str(buf, q);
                    append_str(buf, "` —— 调用边覆盖不全时这个数字会偏小，下面列出文本命中位置，改动前请一并核对。");
                }
            },
        }
    }
}

/// Appends the size limit in megabytes.
fn push_decimal_mb(buf: &mut Vec<char>)
    ensures
        final(buf)@ == old(buf)@ + decimal(4),
{
    crate::text::push_decimal(MAX_SCAN_FILE_BYTES / 1048576, buf);
}

/// Whether a scan that found nothing should be repeated with the needle
/// derived from the query: only when it differs from what was searched.
pub fn needs_derived_scan(report: &TextScanReport, derived: &str) -> (b: bool)
    ensures
        b == (report.total_hits == 0 && derived@ != report.needle@),
{
    let d = derived.to_string();
    report.total_hits == 0 && d != report.needle
}

} // verus!
