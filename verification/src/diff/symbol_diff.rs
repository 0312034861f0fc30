//! Symbol-level diff: unified-diff hunks mapped onto the line ranges of
//! symbols, to find the symbols a change touches.
use vstd::prelude::*;

use crate::text::{chars_eq, chars_of, has_prefix, lines_of, slice_to_vec, split_lines, starts_with_chars, string_of, vecs_view};

verus! {

/// A range of changed lines (1-based, inclusive).
#[derive(Debug, Clone, Copy, PartialEq, Eq)]
pub struct LineRange {
    /// First line.
    pub start: u64,
    /// Last line.
    pub end: u64,
}

/// A decimal digit.
pub open spec fn is_digit(c: char) -> bool {
    '0' <= c && c <= '9'
}

/// The value of a digit string.
pub open spec fn digits_value(s: Seq<char>) -> nat
    decreases s.len(),
{
    if s.len() == 0 {
        0
    } else {
        digits_value(s.drop_last()) * 10 + ((s.last() as u32) - ('0' as u32)) as nat
    }
}

/// A digit string as a `u64` (`u64::from_str` on text that holds only
/// digits and commas): `None` when it is empty, holds a non-digit or
/// exceeds `u64::MAX`.
pub open spec fn parse_u64(s: Seq<char>) -> Option<u64> {
    if s.len() > 0 && (forall|i: int| 0 <= i < s.len() ==> is_digit(#[trigger] s[i])) && digits_value(s) <= u64::MAX {
        Some(digits_value(s) as u64)
    } else {
        None
    }
}

/// Appending a digit never lowers the value.
proof fn lemma_digits_grow(s: Seq<char>, k: int)
    requires
        0 <= k <= s.len(),
        forall|i: int| 0 <= i < s.len() ==> is_digit(#[trigger] s[i]),
    ensures
        digits_value(s.take(k)) <= digits_value(s),
    decreases s.len() - k,
{
    if k < s.len() {
        lemma_digits_grow(s, k + 1);
        assert(s.take(k + 1).drop_last() =~= s.take(k));
        assert(s.take(k + 1).last() == s[k]);
    } else {
        assert(s.take(k) =~= s);
    }
}

/// Parses a digit string (see `parse_u64`).
fn parse_digits(s: &[char]) -> (r: Option<u64>)
    ensures
        r == parse_u64(s@),
{
    if s.len() == 0 {
        return None;
    }
    let mut v: u64 = 0;
    let mut i: usize = 0;
    while i < s.len()
        invariant
            i <= s.len(),
            forall|j: int| 0 <= j < i ==> is_digit(#[trigger] s@[j]),
            v == digits_value(s@.take(i as int)),
        decreases s.len() - i,
    {
        let c = s[i];
        if !('0' <= c && c <= '9') {
            proof {
                assert(!is_digit(s@[i as int]));
            }
            return None;
        }
        let d = (c as u32 - '0' as u32) as u64;
        proof {
            assert(s@.take(i + 1).drop_last() =~= s@.take(i as int));
            assert(s@.take(i + 1).last() == c);
        }
        if v > (u64::MAX - d) / 10 {
            proof {
                assert(digits_value(s@.take(i + 1)) == v * 10 + d);
                assert(v * 10 + d > u64::MAX) by (nonlinear_arith)
                    requires
                        v > (u64::MAX - d) / 10,
                        d <= 9,
                ;
                if forall|j: int| 0 <= j < s@.len() ==> is_digit(#[trigger] s@[j]) {
                    lemma_digits_grow(s@, i + 1);
                }
            }
            return None;
        }
        v = v * 10 + d;
        i = i + 1;
    }
    proof {
        assert(s@.take(i as int) =~= s@);
    }
    Some(v)
}

/// The position of the first `c` in `s`, if any.
pub open spec fn first_index_of(s: Seq<char>, c: char) -> Option<int>
    decreases s.len(),
{
    if s.len() == 0 {
        None
    } else if s[0] == c {
        Some(0)
    } else {
        match first_index_of(s.drop_first(), c) {
            Some(k) => Some(k + 1),
            None => None,
        }
    }
}

/// The leading run of digits and commas of `s`.
pub open spec fn number_run(s: Seq<char>) -> Seq<char>
    decreases s.len(),
{
    if s.len() > 0 && (is_digit(s[0]) || s[0] == ',') {
        seq![s[0]] + number_run(s.drop_first())
    } else {
        Seq::empty()
    }
}

/// The new-file range of a hunk header `@@ -a,b +c,d @@ ...`, read from
/// its `+c,d` field (the first `+`; the old-file field has none, and text
/// after the closing `@@` is not read): `start,count` gives
/// `start..=start+count-1` (nothing when the count is zero), a lone `start`
/// gives the single line.
pub open spec fn hunk_range(header: Seq<char>) -> Option<(int, int)> {
    match first_index_of(header, '+') {
        None => None,
        Some(p) => {
            let num = number_run(header.skip(p + 1));
            match first_index_of(num, ',') {
                Some(c) => match (parse_u64(num.take(c)), parse_u64(num.skip(c + 1))) {
                    (Some(start), Some(count)) => if count > 0 {
                        Some((start as int, start + count - 1))
                    } else {
                        None
                    },
                    _ => None,
                },
                None => match parse_u64(num) {
                    Some(start) => Some((start as int, start as int)),
                    None => None,
                },
            }
        },
    }
}

/// The header's range ends within `u64` (a larger one overflows).
pub open spec fn hunk_fits(header: Seq<char>) -> bool {
    hunk_range(header) matches Some(r) ==> r.1 <= u64::MAX
}

/// Where the first `c` is.
fn find_first_char(s: &[char], c: char) -> (r: Option<usize>)
    ensures
        r matches Some(k) ==> first_index_of(s@, c) == Some(k as int) && k < s.len(),
        r is None ==> first_index_of(s@, c) is None,
{
    let mut i: usize = 0;
    proof {
        assert(s@.skip(0) =~= s@);
    }
    while i < s.len()
        invariant
            i <= s.len(),
            forall|j: int| 0 <= j < i ==> #[trigger] s@[j] != c,
            first_index_of(s@, c) == (match first_index_of(s@.skip(i as int), c) {
                Some(k) => Some(k + i),
                None => None,
            }),
        decreases s.len() - i,
    {
        proof {
            assert(s@.skip(i as int).drop_first() =~= s@.skip(i + 1));
            assert(s@.skip(i as int)[0] == s@[i as int]);
        }
        if s[i] == c {
            return Some(i);
        }
        i = i + 1;
    }
    proof {
        assert(s@.skip(i as int) =~= Seq::<char>::empty());
    }
    None
}

/// The leading run of digits and commas.
fn take_number_run(s: &[char]) -> (r: Vec<char>)
    ensures
        r@ == number_run(s@),
{
    let mut j: usize = 0;
    while j < s.len() && (('0' <= s[j] && s[j] <= '9') || s[j] == ',')
        invariant
            j <= s.len(),
            forall|m: int| 0 <= m < j ==> is_digit(#[trigger] s@[m]) || s@[m] == ',',
        decreases s.len() - j,
    {
        j = j + 1;
    }
    proof {
        lemma_number_run(s@, j as int);
    }
    slice_to_vec(s, 0, j)
}

/// The run ends where the first other character is.
proof fn lemma_number_run(s: Seq<char>, k: int)
    requires
        0 <= k <= s.len(),
        forall|m: int| 0 <= m < k ==> is_digit(#[trigger] s[m]) || s[m] == ',',
        k == s.len() || !(is_digit(s[k]) || s[k] == ','),
    ensures
        number_run(s) == s.subrange(0, k),
    decreases k,
{
    if k > 0 {
        assert forall|m: int| 0 <= m < k - 1 implies is_digit(#[trigger] s.drop_first()[m]) || s.drop_first()[m] == ',' by {
            assert(s.drop_first()[m] == s[m + 1]);
        }
        if k < s.len() {
            assert(s.drop_first()[k - 1] == s[k]);
        }
        lemma_number_run(s.drop_first(), k - 1);
        assert(seq![s[0]] + s.drop_first().subrange(0, k - 1) =~= s.subrange(0, k));
    } else {
        assert(s.subrange(0, 0) =~= Seq::<char>::empty());
    }
}

/// Finds symbols a diff touches; holds no state.
pub struct SymbolDiff;

impl SymbolDiff {
    /// Reads the new-file range of a hunk header (see `hunk_range`).
    pub fn parse_hunk_header(header: &str) -> (r: Option<LineRange>)
        requires
            hunk_fits(header@),
        ensures
            r matches Some(lr) ==> hunk_range(header@) == Some((lr.start as int, lr.end as int)),
            r is None ==> hunk_range(header@) is None,
    {
        let s = chars_of(header);
        let p = match find_first_char(s.as_slice(), '+') {
            Some(p) => p,
            None => return None,
        };
        let after = slice_to_vec(s.as_slice(), p + 1, s.len());
        proof {
            assert(after@ =~= s@.skip(p + 1));
        }
        let num = take_number_run(after.as_slice());
        match find_first_char(num.as_slice(), ',') {
            Some(c) => {
                let head = slice_to_vec(num.as_slice(), 0, c);
                let tail = slice_to_vec(num.as_slice(), c + 1, num.len());
                proof {
                    assert(head@ =~= num@.take(c as int));
                    assert(tail@ =~= num@.skip(c + 1));
                }
                let start = match parse_digits(head.as_slice()) {
                    Some(v) => v,
                    None => return None,
                };
                let count = match parse_digits(tail.as_slice()) {
                    Some(v) => v,
                    None => return None,
                };
                proof {
                    assert(num@ == number_run(header@.skip(p + 1)));
                    assert(hunk_range(header@) == (if count > 0 {
                        Some((start as int, start + count - 1))
                    } else {
                        None
                    }));
                }
                if count > 0 {
                    Some(LineRange { start, end: start + (count - 1) })
                } else {
                    None
                }
            },
            None => match parse_digits(num.as_slice()) {
                Some(start) => Some(LineRange { start, end: start }),
                None => None,
            },
        }
    }
}


/// A line that names the new file the following hunks belong to
/// (`+++ b/<path>`).
pub open spec fn opens_file(line: Seq<char>) -> bool {
    has_prefix(line, "+++ b/"@)
}

/// The new-file line of a deleted file: its hunks belong to no file.
pub open spec fn drops_file(line: Seq<char>) -> bool {
    line == "+++ /dev/null"@
}

/// A hunk header line.
pub open spec fn is_hunk_header(line: Seq<char>) -> bool {
    has_prefix(line, "@@"@)
}

/// Every hunk header that follows a file line has a range within `u64`.
pub open spec fn hunks_fit(lines: Seq<Seq<char>>) -> bool {
    forall|i: int, j: int|
        0 <= j < i < lines.len() && #[trigger] opens_file(lines[j]) && #[trigger] is_hunk_header(lines[i])
            ==> hunk_fits(lines[i])
}

/// Where the entry of file `f` stands, if there is one.
pub open spec fn file_slot<V>(entries: Seq<(Seq<char>, V)>, f: Seq<char>) -> Option<int>
    decreases entries.len(),
{
    if entries.len() == 0 {
        None
    } else if entries[0].0 == f {
        Some(0)
    } else {
        match file_slot(entries.drop_first(), f) {
            Some(k) => Some(k + 1),
            None => None,
        }
    }
}

/// Appends a range to the entry of file `f`, opening one at the end when
/// the file has none yet.
pub open spec fn add_hunk(entries: Seq<(Seq<char>, Seq<LineRange>)>, f: Seq<char>, r: LineRange) -> Seq<(Seq<char>, Seq<LineRange>)> {
    match file_slot(entries, f) {
        Some(k) => entries.update(k, (f, entries[k].1.push(r))),
        None => entries.push((f, seq![r])),
    }
}

/// One line of the scan: a `+++ b/` line sets the current file, a
/// `+++ /dev/null` line clears it; a hunk header under a current file adds
/// its range, when it has one.
pub open spec fn hunk_step(
    st: (Option<Seq<char>>, Seq<(Seq<char>, Seq<LineRange>)>),
    line: Seq<char>,
) -> (Option<Seq<char>>, Seq<(Seq<char>, Seq<LineRange>)>) {
    if opens_file(line) {
        (Some(line.skip("+++ b/"@.len() as int)), st.1)
    } else if drops_file(line) {
        (None, st.1)
    } else if is_hunk_header(line) {
        match (st.0, hunk_range(line)) {
            (Some(f), Some(rg)) => (st.0, add_hunk(st.1, f, LineRange { start: rg.0 as u64, end: rg.1 as u64 })),
            _ => st,
        }
    } else {
        st
    }
}

/// The scan over a sequence of lines.
pub open spec fn hunk_scan(lines: Seq<Seq<char>>) -> (Option<Seq<char>>, Seq<(Seq<char>, Seq<LineRange>)>)
    decreases lines.len(),
{
    if lines.len() == 0 {
        (None, Seq::empty())
    } else {
        hunk_step(hunk_scan(lines.drop_last()), lines.last())
    }
}

/// The changed ranges of a unified diff, per file, in the order in which
/// the files first received a hunk.
pub open spec fn diff_hunks(text: Seq<char>) -> Seq<(Seq<char>, Seq<LineRange>)> {
    hunk_scan(lines_of(text)).1
}

/// The contents of a list of per-file ranges.
pub open spec fn hunk_entries(v: Seq<(String, Vec<LineRange>)>) -> Seq<(Seq<char>, Seq<LineRange>)> {
    v.map_values(|e: (String, Vec<LineRange>)| (e.0@, e.1@))
}

/// A current file exists only after a file line.
proof fn lemma_scan_file(lines: Seq<Seq<char>>)
    ensures
        hunk_scan(lines).0 is Some ==> exists|j: int| 0 <= j < lines.len() && #[trigger] opens_file(lines[j]),
    decreases lines.len(),
{
    if lines.len() > 0 {
        lemma_scan_file(lines.drop_last());
        if hunk_scan(lines).0 is Some && !opens_file(lines.last()) {
            let j = choose|j: int| 0 <= j < lines.drop_last().len() && #[trigger] opens_file(lines.drop_last()[j]);
            assert(opens_file(lines[j]));
        }
        if opens_file(lines.last()) {
            assert(opens_file(lines[lines.len() - 1]));
        }
    }
}

/// Adds a range to the entry of file `f` (see `add_hunk`).
fn push_hunk(entries: &mut Vec<(String, Vec<LineRange>)>, f: &String, r: LineRange)
    ensures
        hunk_entries(final(entries)@) == add_hunk(hunk_entries(old(entries)@), f@, r),
{
    let ghost e0 = hunk_entries(entries@);
    let mut k: usize = 0;
    proof {
        assert(e0.skip(0) =~= e0);
    }
    while k < entries.len()
        invariant
            k <= entries.len(),
            e0 == hunk_entries(entries@),
            e0 == hunk_entries(old(entries)@),
            forall|j: int| 0 <= j < k ==> (#[trigger] e0[j]).0 != f@,
            file_slot(e0, f@) == (match file_slot(e0.skip(k as int), f@) {
                Some(m) => Some(m + k),
                None => None,
            }),
        decreases entries.len() - k,
    {
        proof {
            assert(e0.skip(k as int).drop_first() =~= e0.skip(k + 1));
            assert(e0.skip(k as int)[0] == e0[k as int]);
        }
        if entries[k].0 == *f {
            let mut v = entries[k].1.clone();
            let name = entries[k].0.clone();
            let ghost before = v@;
            v.push(r);
            proof {
                assert(before =~= entries@[k as int].1@);
            }
            entries.set(k, (name, v));
            proof {
                assert(e0[k as int].0 == f@);
                assert(file_slot(e0.skip(k as int), f@) == Some(0int));
                assert(file_slot(e0, f@) == Some(k as int));
                assert(hunk_entries(entries@) =~= e0.update(k as int, (f@, e0[k as int].1.push(r))));
            }
            return;
        }
        k = k + 1;
    }
    proof {
        assert(e0.skip(k as int) =~= Seq::<(Seq<char>, Seq<LineRange>)>::empty());
    }
    let name = f.clone();
    let mut v: Vec<LineRange> = Vec::new();
    v.push(r);
    entries.push((name, v));
    proof {
        assert(v@ =~= seq![r]);
        assert(hunk_entries(entries@) =~= e0.push((f@, seq![r])));
    }
}

impl SymbolDiff {
    /// Reads a unified diff (`git diff` output): each `+++ b/{path}` line
    /// names the file (the new side's path), a `+++ /dev/null` line (a
    /// deleted file) names none, and each `@@` header after it adds the
    /// header's new-file range to the file named last; headers while no file
    /// is named are passed over.
    pub fn parse_diff_hunks(diff_text: &str) -> (r: Vec<(String, Vec<LineRange>)>)
        requires
            hunks_fit(lines_of(diff_text@)),
        ensures
            hunk_entries(r@) == diff_hunks(diff_text@),
            files_distinct(hunk_entries(r@)),
    {
        let text = chars_of(diff_text);
        let lines = split_lines(text.as_slice());
        let file_prefix = chars_of("+++ b/");
        let dropped = chars_of("+++ /dev/null");
        let hunk_prefix = chars_of("@@");
        let ghost ls = lines_of(diff_text@);
        let mut result: Vec<(String, Vec<LineRange>)> = Vec::new();
        let mut current: Option<String> = None;
        let mut i: usize = 0;
        proof {
            assert(ls.take(0) =~= Seq::<Seq<char>>::empty());
            assert(hunk_entries(result@) =~= Seq::<(Seq<char>, Seq<LineRange>)>::empty());
        }
        while i < lines.len()
            invariant
                i <= lines.len(),
                vecs_view(lines@) == ls,
                ls == lines_of(diff_text@),
                hunks_fit(ls),
                file_prefix@ == "+++ b/"@,
                dropped@ == "+++ /dev/null"@,
                hunk_prefix@ == "@@"@,
                hunk_scan(ls.take(i as int)).1 == hunk_entries(result@),
                hunk_scan(ls.take(i as int)).0 == (match current {
                    Some(f) => Some(f@),
                    None => None::<Seq<char>>,
                }),
            decreases lines.len() - i,
        {
            let line = &lines[i];
            proof {
                assert(ls[i as int] == line@);
                assert(ls.take(i + 1).drop_last() =~= ls.take(i as int));
                assert(ls.take(i + 1).last() == line@);
                lemma_scan_file(ls.take(i as int));
            }
            if starts_with_chars(line.as_slice(), file_prefix.as_slice()) {
                let rest = slice_to_vec(line.as_slice(), file_prefix.len(), line.len());
                proof {
                    assert(rest@ =~= line@.skip("+++ b/"@.len() as int));
                }
                current = Some(string_of(rest.as_slice()));
            } else if chars_eq(line.as_slice(), dropped.as_slice()) {
                current = None;
            } else if starts_with_chars(line.as_slice(), hunk_prefix.as_slice()) {
                match &current {
                    Some(f) => {
                        proof {
                            let j = choose|j: int| 0 <= j < ls.take(i as int).len() && #[trigger] opens_file(ls.take(i as int)[j]);
                            assert(opens_file(ls[j]));
                            assert(is_hunk_header(ls[i as int]));
                        }
                        let header = string_of(line.as_slice());
                        match Self::parse_hunk_header(header.as_str()) {
                            Some(lr) => {
                                push_hunk(&mut result, f, lr);
                            },
                            None => {},
                        }
                    },
                    None => {},
                }
            }
            i = i + 1;
        }
        proof {
            assert(ls.take(i as int) =~= ls);
            lemma_scan_distinct(ls);
        }
        result
    }
}


/// What `file_slot` finds.
proof fn lemma_file_slot<V>(entries: Seq<(Seq<char>, V)>, f: Seq<char>)
    ensures
        file_slot(entries, f) matches Some(k) ==> 0 <= k < entries.len() && entries[k].0 == f,
        file_slot(entries, f) is None ==> forall|j: int| 0 <= j < entries.len() ==> (#[trigger] entries[j]).0 != f,
    decreases entries.len(),
{
    if entries.len() > 0 && entries[0].0 != f {
        lemma_file_slot(entries.drop_first(), f);
        if file_slot(entries, f) is None {
            assert forall|j: int| 0 <= j < entries.len() implies (#[trigger] entries[j]).0 != f by {
                if j > 0 {
                    assert(entries[j] == entries.drop_first()[j - 1]);
                }
            }
        }
    }
}

/// No file has two entries.
pub open spec fn files_distinct<V>(entries: Seq<(Seq<char>, V)>) -> bool {
    forall|i: int, j: int| 0 <= i < j < entries.len() ==> (#[trigger] entries[i]).0 != (#[trigger] entries[j]).0
}

/// A symbol's range as the map holds it: id, name, first and last line.
pub type EntryView = (Seq<char>, Seq<char>, u64, u64);

/// A symbol's line range, stored under its file.
#[derive(Debug)]
pub struct SymbolRangeEntry {
    /// Stable symbol id.
    pub symbol_id: String,
    /// Symbol name.
    pub name: String,
    /// First line (1-based).
    pub line_start: u64,
    /// Last line (1-based).
    pub line_end: u64,
}

impl SymbolRangeEntry {
    /// The entry as plain values.
    pub open spec fn view_entry(&self) -> EntryView {
        (self.symbol_id@, self.name@, self.line_start, self.line_end)
    }
}

/// The number of symbols over all files.
pub open spec fn total_symbols(files: Seq<(Seq<char>, Seq<EntryView>)>) -> nat
    decreases files.len(),
{
    if files.len() == 0 {
        0
    } else {
        total_symbols(files.drop_last()) + files.last().1.len()
    }
}

/// Adds a symbol under file `f`, opening an entry at the end when the file
/// has none yet.
pub open spec fn add_entry(files: Seq<(Seq<char>, Seq<EntryView>)>, f: Seq<char>, e: EntryView) -> Seq<(Seq<char>, Seq<EntryView>)> {
    match file_slot(files, f) {
        Some(k) => files.update(k, (f, files[k].1.push(e))),
        None => files.push((f, seq![e])),
    }
}

/// Adding a symbol raises the symbol count by one and the file count by one
/// only when its file is new; every file already there keeps its place and
/// its symbols, the new one coming after them.
pub proof fn law_add_entry_counts(files: Seq<(Seq<char>, Seq<EntryView>)>, f: Seq<char>, e: EntryView)
    ensures
        total_symbols(add_entry(files, f, e)) == total_symbols(files) + 1,
        add_entry(files, f, e).len() == files.len() + if exists|j: int| 0 <= j < files.len() && (#[trigger] files[j]).0 == f {
            0int
        } else {
            1int
        },
        forall|j: int| 0 <= j < files.len() ==> (#[trigger] add_entry(files, f, e)[j]).0 == files[j].0
            && add_entry(files, f, e)[j].1.take(files[j].1.len() as int) == files[j].1,
{
    lemma_file_slot(files, f);
    let r = add_entry(files, f, e);
    match file_slot(files, f) {
        Some(k) => {
            lemma_total_update(files, k, (f, files[k].1.push(e)));
            assert(files[k].0 == f);
            assert(files[k].1.push(e).take(files[k].1.len() as int) =~= files[k].1);
            assert forall|j: int| 0 <= j < files.len() implies (#[trigger] r[j]).0 == files[j].0
                && r[j].1.take(files[j].1.len() as int) == files[j].1 by {
                if j != k {
                    assert(r[j] == files[j]);
                    assert(files[j].1.take(files[j].1.len() as int) =~= files[j].1);
                }
            }
        },
        None => {
            assert(r.drop_last() =~= files);
            assert(!exists|j: int| 0 <= j < files.len() && (#[trigger] files[j]).0 == f);
            assert forall|j: int| 0 <= j < files.len() implies (#[trigger] r[j]).0 == files[j].0
                && r[j].1.take(files[j].1.len() as int) == files[j].1 by {
                assert(r[j] == files[j]);
                assert(files[j].1.take(files[j].1.len() as int) =~= files[j].1);
            }
        },
    }
}

/// Symbol line ranges grouped by file, in the order in which the files
/// were first seen.
pub struct SymbolRangeMap {
    files: Vec<(String, Vec<SymbolRangeEntry>)>,
    count: usize,
}

/// A sum over a sequence that grows by one element at a position.
proof fn lemma_total_update(files: Seq<(Seq<char>, Seq<EntryView>)>, k: int, entry: (Seq<char>, Seq<EntryView>))
    requires
        0 <= k < files.len(),
        entry.1.len() == files[k].1.len() + 1,
    ensures
        total_symbols(files.update(k, entry)) == total_symbols(files) + 1,
    decreases files.len(),
{
    if k < files.len() - 1 {
        lemma_total_update(files.drop_last(), k, entry);
        assert(files.update(k, entry).drop_last() =~= files.drop_last().update(k, entry));
    } else {
        assert(files.update(k, entry).drop_last() =~= files.drop_last());
    }
}

impl SymbolRangeMap {
    /// The files and their symbols.
    pub closed spec fn view(&self) -> Seq<(Seq<char>, Seq<EntryView>)> {
        self.files@.map_values(|e: (String, Vec<SymbolRangeEntry>)| (e.0@, e.1@.map_values(|s: SymbolRangeEntry| s.view_entry())))
    }

    /// Each file once, and the symbol count kept.
    pub closed spec fn wf(&self) -> bool {
        &&& files_distinct(self@)
        &&& self.count == total_symbols(self@)
    }

    /// An empty map.
    pub fn new() -> (m: Self)
        ensures
            m.wf(),
            m@ == Seq::<(Seq<char>, Seq<EntryView>)>::empty(),
    {
        let m = SymbolRangeMap { files: Vec::new(), count: 0 };
        proof {
            assert(m@ =~= Seq::<(Seq<char>, Seq<EntryView>)>::empty());
        }
        m
    }

    /// Adds a symbol's line range under its file.
    pub fn add_symbol(&mut self, symbol_id: &str, name: &str, file_path: &str, line_start: u64, line_end: u64)
        requires
            old(self).wf(),
            total_symbols(old(self)@) < usize::MAX,
        ensures
            final(self).wf(),
            final(self)@ == add_entry(old(self)@, file_path@, (symbol_id@, name@, line_start, line_end)),
    {
        let ghost v0 = self@;
        let entry = SymbolRangeEntry {
            symbol_id: symbol_id.to_string(),
            name: name.to_string(),
            line_start,
            line_end,
        };
        let ghost ev = entry.view_entry();
        let fp = file_path.to_string();
        let mut k: usize = 0;
        proof {
            assert(v0.skip(0) =~= v0);
        }
        while k < self.files.len()
            invariant
                k <= self.files.len(),
                v0 == self@,
                v0 == old(self)@,
                self.wf(),
                self.count == old(self).count,
                total_symbols(v0) < usize::MAX,
                entry.view_entry() == ev,
                ev == (symbol_id@, name@, line_start, line_end),
                fp@ == file_path@,
                forall|j: int| 0 <= j < k ==> (#[trigger] v0[j]).0 != file_path@,
                file_slot(v0, file_path@) == (match file_slot(v0.skip(k as int), file_path@) {
                    Some(m) => Some(m + k),
                    None => None,
                }),
            decreases self.files.len() - k,
        {
            proof {
                assert(v0.skip(k as int).drop_first() =~= v0.skip(k + 1));
                assert(v0.skip(k as int)[0] == v0[k as int]);
                assert(v0[k as int].0 == self.files@[k as int].0@);
            }
            if self.files[k].0 == fp {
                let ghost f0 = self.files@;
                let mut group = Vec::new();
                std::mem::swap(&mut group, &mut self.files[k].1);
                let ghost g0 = group@;
                proof {
                    assert(g0 == f0[k as int].1@);
                }
                group.push(entry);
                let fname = self.files[k].0.clone();
                self.files.set(k, (fname, group));
                proof {
                    assert(file_slot(v0.skip(k as int), file_path@) == Some(0int));
                    let nv = (file_path@, v0[k as int].1.push(ev));
                    assert(g0.map_values(|s: SymbolRangeEntry| s.view_entry()) =~= v0[k as int].1);
                    assert(group@.map_values(|s: SymbolRangeEntry| s.view_entry()) =~= g0.map_values(|s: SymbolRangeEntry| s.view_entry()).push(ev));
                    assert forall|j: int| 0 <= j < self.files.len() && j != k implies self.files@[j] == f0[j] by {}
                    assert(self@ =~= v0.update(k as int, nv));
                    lemma_total_update(v0, k as int, nv);
                }
                self.count = self.count + 1;
                return;
            }
            k = k + 1;
        }
        proof {
            assert(v0.skip(k as int) =~= Seq::<(Seq<char>, Seq<EntryView>)>::empty());
            lemma_file_slot(v0, file_path@);
        }
        let mut group: Vec<SymbolRangeEntry> = Vec::new();
        group.push(entry);
        proof {
            assert(group@.map_values(|s: SymbolRangeEntry| s.view_entry()) =~= seq![ev]);
        }
        self.files.push((fp, group));
        self.count = self.count + 1;
        proof {
            assert(self@ =~= v0.push((file_path@, seq![ev])));
            assert(self@.drop_last() =~= v0);
        }
    }

    /// How many files hold symbols.
    pub fn file_count(&self) -> (n: usize)
        ensures
            n == self@.len(),
    {
        self.files.len()
    }

    /// How many symbols the map holds.
    pub fn symbol_count(&self) -> (n: usize)
        requires
            self.wf(),
        ensures
            n == total_symbols(self@),
    {
        self.count
    }
}


impl Default for SymbolRangeMap {
    fn default() -> (m: Self)
        ensures
            m.wf(),
            m@ == Seq::<(Seq<char>, Seq<EntryView>)>::empty(),
    {
        SymbolRangeMap::new()
    }
}

/// A symbol span `start..=end` whose line count fits in `u64`.
pub open spec fn span_fits(start: u64, end: u64) -> bool {
    start <= end && end - start + 1 <= u64::MAX
}

/// Line `l` lies in one of the changed ranges.
pub open spec fn covers(ranges: Seq<LineRange>, l: int) -> bool {
    exists|i: int| 0 <= i < ranges.len() && (#[trigger] ranges[i]).start <= l <= ranges[i].end
}

/// How many of the `n` lines from `lo` on lie in a changed range.
pub open spec fn covered_from(ranges: Seq<LineRange>, lo: int, n: nat) -> nat
    decreases n,
{
    if n == 0 {
        0
    } else {
        covered_from(ranges, lo, (n - 1) as nat) + if covers(ranges, lo + n - 1) {
            1nat
        } else {
            0nat
        }
    }
}

/// The lines of `start..=end` that intersect the changed ranges, each line
/// counted once however many ranges hold it.
pub open spec fn overlap_total(ranges: Seq<LineRange>, start: u64, end: u64) -> nat {
    if start <= end {
        covered_from(ranges, start as int, (end - start + 1) as nat)
    } else {
        0
    }
}

/// No more lines are covered than there are.
pub proof fn lemma_covered_bound(ranges: Seq<LineRange>, lo: int, n: nat)
    ensures
        covered_from(ranges, lo, n) <= n,
    decreases n,
{
    if n > 0 {
        lemma_covered_bound(ranges, lo, (n - 1) as nat);
    }
}

/// A symbol's share of changed lines: `overlap_lines / symbol_lines`,
/// capped at one.
#[derive(Debug, Clone, Copy, PartialEq, Eq)]
pub struct OverlapRatio {
    /// The symbol's lines that intersect the changed ranges.
    pub overlap_lines: u64,
    /// Lines of the symbol.
    pub symbol_lines: u64,
}

impl OverlapRatio {
    /// The numerator once capped at the denominator.
    pub open spec fn capped(self) -> int {
        if self.overlap_lines <= self.symbol_lines { self.overlap_lines as int } else { self.symbol_lines as int }
    }

    /// `self` is at least `other`, as fractions `capped / symbol_lines`.
    pub open spec fn at_least(self, other: OverlapRatio) -> bool {
        self.capped() * other.symbol_lines >= other.capped() * self.symbol_lines
    }

    /// The changed lines within the symbol, capped at its length.
    pub fn capped_lines(&self) -> (n: u64)
        ensures
            n == self.capped(),
    {
        if self.overlap_lines <= self.symbol_lines { self.overlap_lines } else { self.symbol_lines }
    }

    /// Whether `self` is at least `other` (see `at_least`).
    pub fn is_at_least(&self, other: &OverlapRatio) -> (b: bool)
        ensures
            b == self.at_least(*other),
    {
        let a = self.capped_lines() as u128;
        let b = other.capped_lines() as u128;
        let la = self.symbol_lines as u128;
        let lb = other.symbol_lines as u128;
        proof {
            assert(a * lb <= u64::MAX * u64::MAX) by (nonlinear_arith)
                requires a <= u64::MAX, lb <= u64::MAX;
            assert(b * la <= u64::MAX * u64::MAX) by (nonlinear_arith)
                requires b <= u64::MAX, la <= u64::MAX;
        }
        a * lb >= b * la
    }
}

impl SymbolDiff {
    /// How much of the symbol `symbol_start..=symbol_end` the changed ranges
    /// cover: the symbol's lines that intersect the diff (each counted once)
    /// over the symbol's lines.
    pub fn compute_overlap(ranges: &[LineRange], symbol_start: u64, symbol_end: u64) -> (r: OverlapRatio)
        requires
            span_fits(symbol_start, symbol_end),
        ensures
            r.overlap_lines == overlap_total(ranges@, symbol_start, symbol_end),
            r.symbol_lines == symbol_end - symbol_start + 1,
            r.overlap_lines <= r.symbol_lines,
    {
        let symbol_lines = symbol_end - symbol_start + 1;
        let mut overlap_lines: u64 = 0;
        let mut k: u64 = 0;
        while k < symbol_lines
            invariant
                k <= symbol_lines,
                symbol_lines == symbol_end - symbol_start + 1,
                span_fits(symbol_start, symbol_end),
                overlap_lines == covered_from(ranges@, symbol_start as int, k as nat),
                overlap_lines <= k,
            decreases symbol_lines - k,
        {
            let line = symbol_start + k;
            let mut hit = false;
            let mut i: usize = 0;
            while i < ranges.len()
                invariant
                    i <= ranges.len(),
                    hit == exists|j: int| 0 <= j < i && (#[trigger] ranges@[j]).start <= line <= ranges@[j].end,
                decreases ranges.len() - i,
            {
                if ranges[i].start <= line && line <= ranges[i].end {
                    hit = true;
                }
                i = i + 1;
            }
            proof {
                assert(hit == covers(ranges@, line as int));
            }
            if hit {
                overlap_lines = overlap_lines + 1;
            }
            k = k + 1;
        }
        OverlapRatio { overlap_lines, symbol_lines }
    }
}

/// An affected symbol as plain values: id, name, file, line range and
/// overlap.
pub type AffectedView = (Seq<char>, Seq<char>, Seq<char>, LineRange, OverlapRatio);

/// A symbol that a diff touches.
#[derive(Debug)]
pub struct AffectedSymbol {
    /// Stable symbol id.
    pub symbol_id: String,
    /// Symbol name.
    pub name: String,
    /// File the symbol is in.
    pub file_path: String,
    /// The symbol's line range.
    pub line_range: LineRange,
    /// How much of the symbol the changed lines cover.
    pub overlap_ratio: OverlapRatio,
}

impl AffectedSymbol {
    /// The record as plain values.
    pub open spec fn view_affected(&self) -> AffectedView {
        (self.symbol_id@, self.name@, self.file_path@, self.line_range, self.overlap_ratio)
    }
}

/// The contents of a list of affected symbols.
pub open spec fn affected_views(v: Seq<AffectedSymbol>) -> Seq<AffectedView> {
    v.map_values(|a: AffectedSymbol| a.view_affected())
}

/// The record for symbol `e` of `file` under the changed `ranges`.
pub open spec fn affected_of(file: Seq<char>, ranges: Seq<LineRange>, e: EntryView) -> AffectedView {
    (
        e.0,
        e.1,
        file,
        LineRange { start: e.2, end: e.3 },
        OverlapRatio { overlap_lines: overlap_total(ranges, e.2, e.3) as u64, symbol_lines: (e.3 - e.2 + 1) as u64 },
    )
}

/// The symbols of one file that the ranges touch, in the file's order.
pub open spec fn file_hits(file: Seq<char>, ranges: Seq<LineRange>, syms: Seq<EntryView>) -> Seq<AffectedView>
    decreases syms.len(),
{
    if syms.len() == 0 {
        Seq::empty()
    } else {
        let prev = file_hits(file, ranges, syms.drop_last());
        if overlap_total(ranges, syms.last().2, syms.last().3) > 0 {
            prev.push(affected_of(file, ranges, syms.last()))
        } else {
            prev
        }
    }
}

/// The touched symbols of every changed file, file by file.
pub open spec fn all_hits(changed: Seq<(Seq<char>, Seq<LineRange>)>, files: Seq<(Seq<char>, Seq<EntryView>)>) -> Seq<AffectedView>
    decreases changed.len(),
{
    if changed.len() == 0 {
        Seq::empty()
    } else {
        let last = changed.last();
        all_hits(changed.drop_last(), files) + match file_slot(files, last.0) {
            Some(k) => file_hits(last.0, last.1, files[k].1),
            None => Seq::empty(),
        }
    }
}

/// Inserts `x` into `sorted` after every element whose ratio is at least
/// its own (scanning from the end).
pub open spec fn insert_by_ratio(sorted: Seq<AffectedView>, x: AffectedView) -> Seq<AffectedView>
    decreases sorted.len(),
{
    if sorted.len() == 0 {
        seq![x]
    } else if sorted.last().4.at_least(x.4) {
        sorted.push(x)
    } else {
        insert_by_ratio(sorted.drop_last(), x).push(sorted.last())
    }
}

/// A stable sort by ratio, largest first: equal ratios keep their order.
pub open spec fn sort_by_ratio(s: Seq<AffectedView>) -> Seq<AffectedView>
    decreases s.len(),
{
    if s.len() == 0 {
        Seq::empty()
    } else {
        insert_by_ratio(sort_by_ratio(s.drop_last()), s.last())
    }
}

/// The affected symbols of a diff, largest overlap first.
pub open spec fn affected_symbols(changed: Seq<(Seq<char>, Seq<LineRange>)>, files: Seq<(Seq<char>, Seq<EntryView>)>) -> Seq<AffectedView> {
    sort_by_ratio(all_hits(changed, files))
}

/// Every symbol of a changed file has a span whose length and overlap fit
/// in `u64`.
pub open spec fn lines_fit(changed: Seq<(Seq<char>, Seq<LineRange>)>, files: Seq<(Seq<char>, Seq<EntryView>)>) -> bool {
    forall|i: int, k: int, m: int|
        0 <= i < changed.len() && file_slot(files, #[trigger] changed[i].0) == Some(k) && 0 <= m < files[k].1.len()
            ==> span_fits(#[trigger] files[k].1[m].2, files[k].1[m].3)
}

/// Inserts `x` into `v` as `insert_by_ratio` does.
fn insert_sorted(v: &mut Vec<AffectedSymbol>, x: AffectedSymbol)
    ensures
        affected_views(final(v)@) == insert_by_ratio(affected_views(old(v)@), x.view_affected()),
{
    let ghost s = affected_views(v@);
    let ghost xv = x.view_affected();
    let mut j = v.len();
    proof {
        assert(s.take(j as int) =~= s);
        assert(s.skip(j as int) =~= Seq::<AffectedView>::empty());
    }
    while j > 0 && !v[j - 1].overlap_ratio.is_at_least(&x.overlap_ratio)
        invariant
            j <= v.len(),
            s == affected_views(v@),
            xv == x.view_affected(),
            insert_by_ratio(s, xv) == insert_by_ratio(s.take(j as int), xv) + s.skip(j as int),
        decreases j,
    {
        proof {
            let t = s.take(j as int);
            assert(t.last() == s[j - 1]);
            assert(t.drop_last() =~= s.take(j - 1));
            assert(seq![s[j - 1]] + s.skip(j as int) =~= s.skip(j - 1));
            assert(insert_by_ratio(t, xv) == insert_by_ratio(s.take(j - 1), xv).push(s[j - 1]));
            assert(insert_by_ratio(s.take(j - 1), xv).push(s[j - 1]) + s.skip(j as int)
                =~= insert_by_ratio(s.take(j - 1), xv) + s.skip(j - 1));
        }
        j = j - 1;
    }
    proof {
        if j > 0 {
            assert(s.take(j as int).last() == s[j - 1]);
        }
        assert(insert_by_ratio(s.take(j as int), xv) =~= s.take(j as int).push(xv));
    }
    v.insert(j, x);
    proof {
        assert(affected_views(v@) =~= s.take(j as int).push(xv) + s.skip(j as int));
    }
}

impl SymbolRangeMap {
    /// Where the entry of file `f` stands.
    fn slot_of(&self, f: &String) -> (r: Option<usize>)
        ensures
            r matches Some(k) ==> file_slot(self@, f@) == Some(k as int),
            r is None ==> file_slot(self@, f@) is None,
    {
        let ghost v0 = self@;
        let mut k: usize = 0;
        proof {
            assert(v0.skip(0) =~= v0);
        }
        while k < self.files.len()
            invariant
                k <= self.files.len(),
                v0 == self@,
                file_slot(v0, f@) == (match file_slot(v0.skip(k as int), f@) {
                    Some(m) => Some(m + k),
                    None => None,
                }),
            decreases self.files.len() - k,
        {
            proof {
                assert(v0.skip(k as int).drop_first() =~= v0.skip(k + 1));
                assert(v0.skip(k as int)[0] == v0[k as int]);
                assert(v0[k as int].0 == self.files@[k as int].0@);
            }
            if self.files[k].0 == *f {
                return Some(k);
            }
            k = k + 1;
        }
        proof {
            assert(v0.skip(k as int) =~= Seq::<(Seq<char>, Seq<EntryView>)>::empty());
        }
        None
    }
}

impl SymbolDiff {
    /// The symbols whose line ranges the changed ranges touch, each with its
    /// overlap, largest overlap first (a stable sort: equal overlaps keep
    /// the order of the changed files and, within a file, of the map).
    pub fn map_lines_to_symbols(changed_lines: &[(String, Vec<LineRange>)], symbol_map: &SymbolRangeMap) -> (r: Vec<AffectedSymbol>)
        requires
            lines_fit(hunk_entries(changed_lines@), symbol_map@),
        ensures
            affected_views(r@) == affected_symbols(hunk_entries(changed_lines@), symbol_map@),
            ratio_sorted(affected_views(r@)),
            affected_views(r@).to_multiset() =~= all_hits(hunk_entries(changed_lines@), symbol_map@).to_multiset(),
    {
        let ghost ch = hunk_entries(changed_lines@);
        let ghost files = symbol_map@;
        let mut result: Vec<AffectedSymbol> = Vec::new();
        let ghost mut acc: Seq<AffectedView> = Seq::empty();
        let mut i: usize = 0;
        proof {
            assert(ch.take(0) =~= Seq::<(Seq<char>, Seq<LineRange>)>::empty());
            assert(affected_views(result@) =~= Seq::<AffectedView>::empty());
        }
        while i < changed_lines.len()
            invariant
                i <= changed_lines.len(),
                ch == hunk_entries(changed_lines@),
                files == symbol_map@,
                lines_fit(ch, files),
                acc == all_hits(ch.take(i as int), files),
                affected_views(result@) == sort_by_ratio(acc),
            decreases changed_lines.len() - i,
        {
            let file = &changed_lines[i].0;
            let ranges = &changed_lines[i].1;
            proof {
                assert(ch[i as int] == (file@, ranges@));
                assert(ch.take(i + 1).drop_last() =~= ch.take(i as int));
                assert(ch.take(i + 1).last() == ch[i as int]);
            }
            let ghost acc0 = acc;
            match symbol_map.slot_of(file) {
                Some(k) => {
                    proof {
                        lemma_file_slot(files, file@);
                    }
                    let syms = &symbol_map.files[k].1;
                    let ghost sv = files[k as int].1;
                    proof {
                        assert(sv =~= syms@.map_values(|s: SymbolRangeEntry| s.view_entry()));
                        assert(sv.take(0) =~= Seq::<EntryView>::empty());
                        assert(acc0 + file_hits(file@, ranges@, sv.take(0)) =~= acc0);
                    }
                    let mut j: usize = 0;
                    while j < syms.len()
                        invariant
                            j <= syms.len(),
                            ch == hunk_entries(changed_lines@),
                            files == symbol_map@,
                            lines_fit(ch, files),
                            0 <= i < ch.len(),
                            ch[i as int] == (file@, ranges@),
                            file_slot(files, file@) == Some(k as int),
                            0 <= k < files.len(),
                            sv == files[k as int].1,
                            sv == syms@.map_values(|s: SymbolRangeEntry| s.view_entry()),
                            acc == acc0 + file_hits(file@, ranges@, sv.take(j as int)),
                            affected_views(result@) == sort_by_ratio(acc),
                        decreases syms.len() - j,
                    {
                        let s = &syms[j];
                        proof {
                            assert(sv[j as int] == s.view_entry());
                            assert(sv.take(j + 1).drop_last() =~= sv.take(j as int));
                            assert(sv.take(j + 1).last() == sv[j as int]);
                            assert(file_slot(files, ch[i as int].0) == Some(k as int));
                            assert(span_fits(files[k as int].1[j as int].2, files[k as int].1[j as int].3));
                        }
                        let ov = SymbolDiff::compute_overlap(ranges.as_slice(), s.line_start, s.line_end);
                        if ov.overlap_lines > 0 {
                            let a = AffectedSymbol {
                                symbol_id: s.symbol_id.clone(),
                                name: s.name.clone(),
                                file_path: file.clone(),
                                line_range: LineRange { start: s.line_start, end: s.line_end },
                                overlap_ratio: ov,
                            };
                            proof {
                                assert(a.view_affected() == affected_of(file@, ranges@, sv[j as int]));
                                assert(acc.push(a.view_affected()).drop_last() =~= acc);
                                assert(acc0 + file_hits(file@, ranges@, sv.take(j + 1)) =~= acc.push(a.view_affected()));
                                acc = acc.push(a.view_affected());
                            }
                            insert_sorted(&mut result, a);
                        } else {
                            proof {
                                assert(file_hits(file@, ranges@, sv.take(j + 1)) == file_hits(file@, ranges@, sv.take(j as int)));
                            }
                        }
                        j = j + 1;
                    }
                    proof {
                        assert(sv.take(j as int) =~= sv);
                    }
                },
                None => {
                    proof {
                        assert(acc0 + Seq::<AffectedView>::empty() =~= acc0);
                    }
                },
            }
            i = i + 1;
        }
        proof {
            assert(ch.take(i as int) =~= ch);
            lemma_all_hits_positive(ch, files);
            law_sort_by_ratio(all_hits(ch, files));
        }
        result
    }
}


/// Comparing ratios with positive denominators is transitive.
proof fn lemma_at_least_trans(a: OverlapRatio, b: OverlapRatio, c: OverlapRatio)
    requires
        a.symbol_lines > 0,
        b.symbol_lines > 0,
        c.symbol_lines > 0,
        a.at_least(b),
        b.at_least(c),
    ensures
        a.at_least(c),
{
    let (na, nb, nc) = (a.capped(), b.capped(), c.capped());
    let (la, lb, lc) = (a.symbol_lines as int, b.symbol_lines as int, c.symbol_lines as int);
    assert(na * lc >= nc * la) by (nonlinear_arith)
        requires
            la > 0,
            lb > 0,
            lc > 0,
            na * lb >= nb * la,
            nb * lc >= nc * lb,
    {
        assert(na * lb * lc >= nb * la * lc);
        assert(nb * lc * la >= nc * lb * la);
        assert(na * lc * lb >= nc * la * lb);
    }
}

/// Largest ratio first.
pub open spec fn ratio_sorted(s: Seq<AffectedView>) -> bool {
    forall|i: int, j: int| 0 <= i < j < s.len() ==> (#[trigger] s[i]).4.at_least((#[trigger] s[j]).4)
}

/// Every ratio has a positive denominator.
pub open spec fn ratios_positive(s: Seq<AffectedView>) -> bool {
    forall|i: int| 0 <= i < s.len() ==> (#[trigger] s[i]).4.symbol_lines > 0
}

/// Inserting adds `x` and keeps the rest.
proof fn lemma_insert_contents(s: Seq<AffectedView>, x: AffectedView)
    ensures
        insert_by_ratio(s, x).to_multiset() =~= s.to_multiset().insert(x),
        insert_by_ratio(s, x).len() == s.len() + 1,
    decreases s.len(),
{
    broadcast use vstd::seq_lib::group_to_multiset_ensures;
    if s.len() > 0 && !s.last().4.at_least(x.4) {
        lemma_insert_contents(s.drop_last(), x);
        assert(s.drop_last().push(s.last()) =~= s);
    } else if s.len() > 0 {
    } else {
        assert(seq![x] =~= Seq::<AffectedView>::empty().push(x));
    }
}

/// Inserting into a sorted sequence keeps it sorted.
proof fn lemma_insert_sorted(s: Seq<AffectedView>, x: AffectedView)
    requires
        ratio_sorted(s),
        ratios_positive(s),
        x.4.symbol_lines > 0,
    ensures
        ratio_sorted(insert_by_ratio(s, x)),
        ratios_positive(insert_by_ratio(s, x)),
    decreases s.len(),
{
    broadcast use vstd::seq_lib::group_to_multiset_ensures;
    let r = insert_by_ratio(s, x);
    if s.len() == 0 {
    } else if s.last().4.at_least(x.4) {
        assert forall|i: int, j: int| 0 <= i < j < r.len() implies (#[trigger] r[i]).4.at_least((#[trigger] r[j]).4) by {
            if j == s.len() {
                if i < s.len() - 1 {
                    lemma_at_least_trans(s[i].4, s.last().4, x.4);
                }
            }
        }
    } else {
        let d = s.drop_last();
        let l = s.last();
        lemma_insert_sorted(d, x);
        lemma_insert_contents(d, x);
        let q = insert_by_ratio(d, x);
        assert forall|i: int| 0 <= i < q.len() implies (#[trigger] q[i]).4.at_least(l.4) by {
            assert(q.to_multiset().count(q[i]) > 0);
            if q[i] == x {
            } else {
                assert(d.to_multiset().count(q[i]) > 0);
                let m = choose|m: int| 0 <= m < d.len() && d[m] == q[i];
                assert(s[m] == d[m]);
            }
        }
        assert forall|i: int, j: int| 0 <= i < j < r.len() implies (#[trigger] r[i]).4.at_least((#[trigger] r[j]).4) by {
            if j == q.len() {
                assert(r[i] == q[i]);
            } else {
                assert(r[i] == q[i] && r[j] == q[j]);
            }
        }
        assert forall|i: int| 0 <= i < r.len() implies (#[trigger] r[i]).4.symbol_lines > 0 by {
            if i < q.len() {
                assert(r[i] == q[i]);
            }
        }
    }
}

/// The sort orders largest ratio first and keeps every element.
pub proof fn law_sort_by_ratio(s: Seq<AffectedView>)
    requires
        ratios_positive(s),
    ensures
        ratio_sorted(sort_by_ratio(s)),
        sort_by_ratio(s).to_multiset() =~= s.to_multiset(),
    decreases s.len(),
{
    broadcast use vstd::seq_lib::group_to_multiset_ensures;
    if s.len() > 0 {
        let d = s.drop_last();
        assert(ratios_positive(d)) by {
            assert forall|i: int| 0 <= i < d.len() implies (#[trigger] d[i]).4.symbol_lines > 0 by {
                assert(d[i] == s[i]);
            }
        }
        law_sort_by_ratio(d);
        lemma_sort_positive(d);
        lemma_insert_sorted(sort_by_ratio(d), s.last());
        lemma_insert_contents(sort_by_ratio(d), s.last());
        assert(d.push(s.last()) =~= s);
    }
}

/// Sorting keeps every denominator positive.
proof fn lemma_sort_positive(s: Seq<AffectedView>)
    requires
        ratios_positive(s),
    ensures
        ratios_positive(sort_by_ratio(s)),
    decreases s.len(),
{
    if s.len() > 0 {
        let d = s.drop_last();
        assert(ratios_positive(d)) by {
            assert forall|i: int| 0 <= i < d.len() implies (#[trigger] d[i]).4.symbol_lines > 0 by {
                assert(d[i] == s[i]);
            }
        }
        law_sort_by_ratio(d);
        lemma_sort_positive(d);
        lemma_insert_sorted(sort_by_ratio(d), s.last());
    }
}


/// Each touched symbol has a positive line count.
proof fn lemma_file_hits_positive(file: Seq<char>, ranges: Seq<LineRange>, syms: Seq<EntryView>)
    requires
        forall|m: int| 0 <= m < syms.len() ==> span_fits(#[trigger] syms[m].2, syms[m].3),
    ensures
        ratios_positive(file_hits(file, ranges, syms)),
    decreases syms.len(),
{
    if syms.len() > 0 {
        let d = syms.drop_last();
        assert forall|m: int| 0 <= m < d.len() implies span_fits(#[trigger] d[m].2, d[m].3) by {
            assert(d[m] == syms[m]);
        }
        lemma_file_hits_positive(file, ranges, d);
        assert(span_fits(syms[syms.len() - 1].2, syms[syms.len() - 1].3));
    }
}

/// Every hit of a map whose spans fit has a positive line count.
proof fn lemma_all_hits_positive(changed: Seq<(Seq<char>, Seq<LineRange>)>, files: Seq<(Seq<char>, Seq<EntryView>)>)
    requires
        lines_fit(changed, files),
    ensures
        ratios_positive(all_hits(changed, files)),
    decreases changed.len(),
{
    if changed.len() > 0 {
        let d = changed.drop_last();
        assert(lines_fit(d, files)) by {
            assert forall|i: int, k: int, m: int|
                0 <= i < d.len() && file_slot(files, #[trigger] d[i].0) == Some(k) && 0 <= m < files[k].1.len()
                implies span_fits(#[trigger] files[k].1[m].2, files[k].1[m].3) by {
                assert(d[i] == changed[i]);
            }
        }
        lemma_all_hits_positive(d, files);
        let last = changed.last();
        let tail = match file_slot(files, last.0) {
            Some(k) => file_hits(last.0, last.1, files[k].1),
            None => Seq::empty(),
        };
        if let Some(k) = file_slot(files, last.0) {
            lemma_file_slot(files, last.0);
            assert forall|m: int| 0 <= m < files[k].1.len() implies span_fits(#[trigger] files[k].1[m].2, files[k].1[m].3) by {
                assert(changed[changed.len() - 1].0 == last.0);
            }
            lemma_file_hits_positive(last.0, last.1, files[k].1);
        }
        let a = all_hits(d, files);
        assert forall|i: int| 0 <= i < a.len() + tail.len() implies (#[trigger] (a + tail)[i]).4.symbol_lines > 0 by {
            if i < a.len() {
                assert((a + tail)[i] == a[i]);
            } else {
                assert((a + tail)[i] == tail[i - a.len()]);
            }
        }
    }
}


/// Adding a hunk keeps each file once.
proof fn lemma_add_hunk_distinct(e: Seq<(Seq<char>, Seq<LineRange>)>, f: Seq<char>, r: LineRange)
    requires
        files_distinct(e),
    ensures
        files_distinct(add_hunk(e, f, r)),
{
    lemma_file_slot(e, f);
    let n = add_hunk(e, f, r);
    match file_slot(e, f) {
        Some(k) => {
            assert forall|i: int, j: int| 0 <= i < j < n.len() implies (#[trigger] n[i]).0 != (#[trigger] n[j]).0 by {
                assert(n[i].0 == e[i].0 && n[j].0 == e[j].0);
            }
        },
        None => {
            assert forall|i: int, j: int| 0 <= i < j < n.len() implies (#[trigger] n[i]).0 != (#[trigger] n[j]).0 by {
                assert(n[i] == e[i]);
                if j < e.len() {
                    assert(n[j] == e[j]);
                }
            }
        },
    }
}

/// The scan never lists a file twice.
proof fn lemma_scan_distinct(lines: Seq<Seq<char>>)
    ensures
        files_distinct(hunk_scan(lines).1),
    decreases lines.len(),
{
    if lines.len() > 0 {
        lemma_scan_distinct(lines.drop_last());
        let st = hunk_scan(lines.drop_last());
        let line = lines.last();
        if !opens_file(line) && is_hunk_header(line) {
            if let (Some(f), Some(rg)) = (st.0, hunk_range(line)) {
                lemma_add_hunk_distinct(st.1, f, LineRange { start: rg.0 as u64, end: rg.1 as u64 });
            }
        }
    }
}

/// Every overlap lies in (0, 1]: at least one line of the symbol changed,
/// and no more lines than the symbol has.
pub open spec fn ratios_in_unit(s: Seq<AffectedView>) -> bool {
    forall|i: int|
        0 <= i < s.len() ==> 0 < (#[trigger] s[i]).4.overlap_lines && s[i].4.overlap_lines <= s[i].4.symbol_lines
}

/// The touched symbols of one file have overlaps in (0, 1].
proof fn lemma_file_hits_unit(file: Seq<char>, ranges: Seq<LineRange>, syms: Seq<EntryView>)
    requires
        forall|m: int| 0 <= m < syms.len() ==> span_fits(#[trigger] syms[m].2, syms[m].3),
    ensures
        ratios_in_unit(file_hits(file, ranges, syms)),
    decreases syms.len(),
{
    if syms.len() > 0 {
        let d = syms.drop_last();
        assert forall|m: int| 0 <= m < d.len() implies span_fits(#[trigger] d[m].2, d[m].3) by {
            assert(d[m] == syms[m]);
        }
        lemma_file_hits_unit(file, ranges, d);
        let e = syms.last();
        assert(span_fits(syms[syms.len() - 1].2, syms[syms.len() - 1].3));
        lemma_covered_bound(ranges, e.2 as int, (e.3 - e.2 + 1) as nat);
        let prev = file_hits(file, ranges, d);
        if overlap_total(ranges, e.2, e.3) > 0 {
            let x = affected_of(file, ranges, e);
            assert forall|i: int| 0 <= i < prev.len() + 1 implies 0 < (#[trigger] prev.push(x)[i]).4.overlap_lines
                && prev.push(x)[i].4.overlap_lines <= prev.push(x)[i].4.symbol_lines by {
                if i < prev.len() {
                    assert(prev.push(x)[i] == prev[i]);
                }
            }
        }
    }
}

/// Every hit of a map whose spans fit has an overlap in (0, 1].
proof fn lemma_all_hits_unit(changed: Seq<(Seq<char>, Seq<LineRange>)>, files: Seq<(Seq<char>, Seq<EntryView>)>)
    requires
        lines_fit(changed, files),
    ensures
        ratios_in_unit(all_hits(changed, files)),
    decreases changed.len(),
{
    if changed.len() > 0 {
        let d = changed.drop_last();
        assert(lines_fit(d, files)) by {
            assert forall|i: int, k: int, m: int|
                0 <= i < d.len() && file_slot(files, #[trigger] d[i].0) == Some(k) && 0 <= m < files[k].1.len()
                implies span_fits(#[trigger] files[k].1[m].2, files[k].1[m].3) by {
                assert(d[i] == changed[i]);
            }
        }
        lemma_all_hits_unit(d, files);
        let last = changed.last();
        let tail = match file_slot(files, last.0) {
            Some(k) => file_hits(last.0, last.1, files[k].1),
            None => Seq::empty(),
        };
        if let Some(k) = file_slot(files, last.0) {
            lemma_file_slot(files, last.0);
            assert forall|m: int| 0 <= m < files[k].1.len() implies span_fits(#[trigger] files[k].1[m].2, files[k].1[m].3) by {
                assert(changed[changed.len() - 1].0 == last.0);
            }
            lemma_file_hits_unit(last.0, last.1, files[k].1);
        }
        let a = all_hits(d, files);
        assert forall|i: int| 0 <= i < a.len() + tail.len() implies 0 < (#[trigger] (a + tail)[i]).4.overlap_lines
            && (a + tail)[i].4.overlap_lines <= (a + tail)[i].4.symbol_lines by {
            if i < a.len() {
                assert((a + tail)[i] == a[i]);
            } else {
                assert((a + tail)[i] == tail[i - a.len()]);
            }
        }
    }
}

/// Every affected symbol has an overlap ratio in (0, 1]: some of its lines
/// intersect the diff, and the intersecting lines never outnumber its
/// lines.
pub proof fn law_affected_overlap_in_unit(changed: Seq<(Seq<char>, Seq<LineRange>)>, files: Seq<(Seq<char>, Seq<EntryView>)>)
    requires
        lines_fit(changed, files),
    ensures
        ratios_in_unit(affected_symbols(changed, files)),
{
    broadcast use vstd::seq_lib::group_to_multiset_ensures;
    let h = all_hits(changed, files);
    lemma_all_hits_positive(changed, files);
    lemma_all_hits_unit(changed, files);
    law_sort_by_ratio(h);
    let s = sort_by_ratio(h);
    assert forall|i: int| 0 <= i < s.len() implies 0 < (#[trigger] s[i]).4.overlap_lines
        && s[i].4.overlap_lines <= s[i].4.symbol_lines by {
        assert(s.to_multiset().count(s[i]) > 0);
        assert(h.to_multiset().count(s[i]) > 0);
        assert(h.contains(s[i]));
        let j = choose|j: int| 0 <= j < h.len() && h[j] == s[i];
        assert(0 < h[j].4.overlap_lines);
    }
}

/// The per-file ranges of a scan are well shaped: each file has at least
/// one range, each range runs forward, and each file is named by a
/// `+++ b/` line of the diff.
pub open spec fn hunks_well_shaped(lines: Seq<Seq<char>>, entries: Seq<(Seq<char>, Seq<LineRange>)>) -> bool {
    forall|i: int|
        0 <= i < entries.len() ==> {
            &&& (#[trigger] entries[i]).1.len() > 0
            &&& forall|m: int| 0 <= m < entries[i].1.len() ==> (#[trigger] entries[i].1[m]).start <= entries[i].1[m].end
            &&& named_in(lines, entries[i].0)
        }
}

/// File `f` is named by a `+++ b/<f>` line.
pub open spec fn named_in(lines: Seq<Seq<char>>, f: Seq<char>) -> bool {
    exists|j: int| 0 <= j < lines.len() && #[trigger] opens_file(lines[j]) && lines[j].skip("+++ b/"@.len() as int) == f
}

/// The current file of a scan is named by a `+++ b/` line.
pub open spec fn current_named(lines: Seq<Seq<char>>, cur: Option<Seq<char>>) -> bool {
    cur matches Some(f) ==> named_in(lines, f)
}

/// The scan keeps its results well shaped, line by line.
proof fn lemma_scan_shape(lines: Seq<Seq<char>>)
    requires
        hunks_fit(lines),
    ensures
        hunks_well_shaped(lines, hunk_scan(lines).1),
        current_named(lines, hunk_scan(lines).0),
    decreases lines.len(),
{
    if lines.len() > 0 {
        let d = lines.drop_last();
        let line = lines.last();
        assert(hunks_fit(d)) by {
            assert forall|i: int, j: int|
                0 <= j < i < d.len() && #[trigger] opens_file(d[j]) && #[trigger] is_hunk_header(d[i]) implies hunk_fits(d[i]) by {
                assert(d[i] == lines[i] && d[j] == lines[j]);
            }
        }
        lemma_scan_shape(d);
        lemma_scan_file(d);
        let st = hunk_scan(d);
        let e0 = st.1;
        // what held of `d` holds of `lines`
        assert forall|j: int| 0 <= j < d.len() implies #[trigger] lines[j] == d[j] by {}
        if opens_file(line) {
            assert(opens_file(lines[lines.len() - 1]));
            assert(named_in(lines, line.skip("+++ b/"@.len() as int)));
        } else if drops_file(line) {
        } else if is_hunk_header(line) {
            match (st.0, hunk_range(line)) {
                (Some(f), Some(rg)) => {
                    let j0 = choose|j: int| 0 <= j < d.len() && #[trigger] opens_file(d[j]);
                    assert(opens_file(lines[j0]));
                    assert(is_hunk_header(lines[lines.len() - 1]));
                    assert(hunk_fits(lines[lines.len() - 1]));
                    let r = LineRange { start: rg.0 as u64, end: rg.1 as u64 };
                    assert(r.start <= r.end);
                    let e1 = add_hunk(e0, f, r);
                    lemma_file_slot(e0, f);
                    assert forall|i: int| 0 <= i < e1.len() implies {
                        &&& (#[trigger] e1[i]).1.len() > 0
                        &&& forall|m: int| 0 <= m < e1[i].1.len() ==> (#[trigger] e1[i].1[m]).start <= e1[i].1[m].end
                        &&& named_in(lines, e1[i].0)
                    } by {
                        match file_slot(e0, f) {
                            Some(k) => {
                                if i == k {
                                    assert forall|m: int| 0 <= m < e1[i].1.len() implies (#[trigger] e1[i].1[m]).start <= e1[i].1[m].end by {
                                        if m < e0[k].1.len() {
                                            assert(e1[i].1[m] == e0[k].1[m]);
                                        }
                                    }
                                    let j = choose|j: int| 0 <= j < d.len() && #[trigger] opens_file(d[j]) && d[j].skip("+++ b/"@.len() as int) == e0[k].0;
                                    assert(opens_file(lines[j]));
                                }
                            },
                            None => {
                                if i < e0.len() {
                                    let j = choose|j: int| 0 <= j < d.len() && #[trigger] opens_file(d[j]) && d[j].skip("+++ b/"@.len() as int) == e0[i].0;
                                    assert(opens_file(lines[j]));
                                } else {
                                    let j = choose|j: int| 0 <= j < d.len() && #[trigger] opens_file(d[j]) && d[j].skip("+++ b/"@.len() as int) == f;
                                    assert(opens_file(lines[j]));
                                }
                            },
                        }
                        if file_slot(e0, f) is Some && i != file_slot(e0, f)->0 || file_slot(e0, f) is None && i < e0.len() {
                            let j = choose|j: int| 0 <= j < d.len() && #[trigger] opens_file(d[j]) && d[j].skip("+++ b/"@.len() as int) == e0[i].0;
                            assert(opens_file(lines[j]));
                        }
                    }
                    let j = choose|j: int| 0 <= j < d.len() && #[trigger] opens_file(d[j]) && d[j].skip("+++ b/"@.len() as int) == f;
                    assert(opens_file(lines[j]));
                },
                _ => {},
            }
        }
        if !opens_file(line) && !drops_file(line) {
            assert forall|i: int| 0 <= i < st.1.len() implies #[trigger] named_in(lines, st.1[i].0) by {
                let j = choose|j: int| 0 <= j < d.len() && #[trigger] opens_file(d[j]) && d[j].skip("+++ b/"@.len() as int) == st.1[i].0;
                assert(opens_file(lines[j]));
            }
            if let Some(f) = st.0 {
                let j = choose|j: int| 0 <= j < d.len() && #[trigger] opens_file(d[j]) && d[j].skip("+++ b/"@.len() as int) == f;
                assert(opens_file(lines[j]));
            }
        } else {
            assert forall|i: int| 0 <= i < st.1.len() implies #[trigger] named_in(lines, st.1[i].0) by {
                let j = choose|j: int| 0 <= j < d.len() && #[trigger] opens_file(d[j]) && d[j].skip("+++ b/"@.len() as int) == st.1[i].0;
                assert(opens_file(lines[j]));
            }
        }
    }
}

/// The shape of a parsed diff: an empty text has no files; every file has
/// at least one range; every range runs forward (`start <= end`); every
/// file is named by a `+++ b/<file>` line of the text; no file is listed
/// twice.
pub proof fn law_diff_hunks_shape(text: Seq<char>)
    requires
        hunks_fit(lines_of(text)),
    ensures
        text.len() == 0 ==> diff_hunks(text).len() == 0,
        hunks_well_shaped(lines_of(text), diff_hunks(text)),
        files_distinct(diff_hunks(text)),
{
    lemma_scan_shape(lines_of(text));
    lemma_scan_distinct(lines_of(text));
}

} // verus!
