//! What indexing one file found, and the totals over many files.
use vstd::prelude::*;

verus! {

/// The counts that indexing one file produced.
#[derive(Debug, Clone, Copy, PartialEq, Eq, Structural)]
pub struct FileIndexStats {
    /// Symbols extracted.
    pub symbols: u64,
    /// Call sites found.
    pub calls: u64,
    /// Imports found.
    pub imports: u64,
}

/// The symbols of all the files.
pub open spec fn total_symbols(s: Seq<FileIndexStats>) -> int
    decreases s.len(),
{
    if s.len() == 0 {
        0
    } else {
        total_symbols(s.drop_last()) + s.last().symbols
    }
}

/// The call sites of all the files.
pub open spec fn total_calls(s: Seq<FileIndexStats>) -> int
    decreases s.len(),
{
    if s.len() == 0 {
        0
    } else {
        total_calls(s.drop_last()) + s.last().calls
    }
}

/// The imports of all the files.
pub open spec fn total_imports(s: Seq<FileIndexStats>) -> int
    decreases s.len(),
{
    if s.len() == 0 {
        0
    } else {
        total_imports(s.drop_last()) + s.last().imports
    }
}

/// A prefix never counts more than the whole.
proof fn lemma_prefix_totals(s: Seq<FileIndexStats>, i: int)
    requires
        0 <= i <= s.len(),
    ensures
        total_symbols(s.take(i)) <= total_symbols(s),
        total_calls(s.take(i)) <= total_calls(s),
        total_imports(s.take(i)) <= total_imports(s),
    decreases s.len(),
{
    if i < s.len() {
        assert(s.drop_last().take(i) =~= s.take(i));
        lemma_prefix_totals(s.drop_last(), i);
    } else {
        assert(s.take(i) =~= s);
    }
}

impl Default for FileIndexStats {
    /// No symbols, calls or imports.
    fn default() -> (r: FileIndexStats)
        ensures
            r.symbols == 0 && r.calls == 0 && r.imports == 0,
    {
        FileIndexStats { symbols: 0, calls: 0, imports: 0 }
    }
}

impl FileIndexStats {
    /// Adds up the counts of several files, field by field.
    pub fn merge(stats: &[FileIndexStats]) -> (r: FileIndexStats)
        requires
            total_symbols(stats@) <= u64::MAX,
            total_calls(stats@) <= u64::MAX,
            total_imports(stats@) <= u64::MAX,
        ensures
            r.symbols == total_symbols(stats@),
            r.calls == total_calls(stats@),
            r.imports == total_imports(stats@),
    {
        let mut merged = FileIndexStats { symbols: 0, calls: 0, imports: 0 };
        let mut i: usize = 0;
        while i < stats.len()
            invariant
                i <= stats.len(),
                total_symbols(stats@) <= u64::MAX,
                total_calls(stats@) <= u64::MAX,
                total_imports(stats@) <= u64::MAX,
                merged.symbols == total_symbols(stats@.take(i as int)),
                merged.calls == total_calls(stats@.take(i as int)),
                merged.imports == total_imports(stats@.take(i as int)),
            decreases stats.len() - i,
        {
            proof {
                assert(stats@.take(i + 1).drop_last() =~= stats@.take(i as int));
                lemma_prefix_totals(stats@, i + 1);
            }
            let s = stats[i];
            merged.symbols = merged.symbols + s.symbols;
            merged.calls = merged.calls + s.calls;
            merged.imports = merged.imports + s.imports;
            i = i + 1;
        }
        proof {
            assert(stats@.take(i as int) =~= stats@);
        }
        merged
    }
}

} // verus!
