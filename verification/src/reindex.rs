//! The decisions of an incremental reindex: which changed files are looked
//! at, what happens to each, and whether the batch must be committed.
//!
//! Reading a file, looking up its stored fingerprint and parsing it are the
//! caller's work; each of those findings is handed in here. A file is
//! parsed before its old data is dropped, so a file that fails to parse
//! keeps what the index already had for it.
use vstd::prelude::*;

use crate::symbol_id::{blake3_digest, blake3_hash, hex_encode, hex_lower, str_bytes, utf8};
use crate::text::{str_eq, string_views};

verus! {

/// What an incremental run does with one changed file.
#[derive(Debug, Clone, Copy, PartialEq, Eq, Structural)]
pub enum ReindexAction {
    /// The file could not be read (it was deleted): drop its data.
    Remove,
    /// Its content has the stored fingerprint: leave it alone.
    Skip,
    /// No parser takes it, or parsing failed: leave its old data in place.
    Keep,
    /// Drop its old data and write what the parse produced.
    Replace,
}

/// The action for a file from what the caller found, in the order the
/// caller finds it: whether the file could be read, the fingerprint stored
/// for it (if one could be read), the fingerprint of its content, whether a
/// parser takes it and whether parsing succeeded.
pub open spec fn action_for(
    readable: bool,
    stored: Option<Seq<char>>,
    current: Seq<char>,
    parser_found: bool,
    parsed: bool,
) -> ReindexAction {
    if !readable {
        ReindexAction::Remove
    } else if stored == Some(current) {
        ReindexAction::Skip
    } else if !parser_found || !parsed {
        ReindexAction::Keep
    } else {
        ReindexAction::Replace
    }
}

/// Decides what happens to one changed file (see `action_for`). The
/// arguments after `readable` matter only where the earlier ones let the
/// run go on to find them.
pub fn reindex_action(
    readable: bool,
    stored: Option<&str>,
    current: &str,
    parser_found: bool,
    parsed: bool,
) -> (r: ReindexAction)
    ensures
        r == action_for(readable, match stored {
            Some(s) => Some(s@),
            None => None,
        }, current@, parser_found, parsed),
{
    if !readable {
        return ReindexAction::Remove;
    }
    let same = match stored {
        Some(s) => str_eq(s, current),
        None => false,
    };
    if same {
        ReindexAction::Skip
    } else if !parser_found || !parsed {
        ReindexAction::Keep
    } else {
        ReindexAction::Replace
    }
}

/// A file's content fingerprint: the lower-case hex of the blake3 hash of
/// its UTF-8 bytes.
pub open spec fn content_fingerprint_of(source: Seq<char>) -> Seq<char> {
    hex_lower(blake3_digest(utf8(source)))
}

/// The fingerprint stored for a file's content (see
/// `content_fingerprint_of`).
pub fn content_fingerprint(source: &str) -> (r: String)
    ensures
        r@ == content_fingerprint_of(source@),
{
    let digest = blake3_hash(str_bytes(source));
    hex_encode(digest.as_slice())
}

/// The counts of one incremental run.
#[derive(Debug, Clone, Copy, PartialEq, Eq, Structural)]
pub struct ReindexTally {
    /// Files whose data was replaced.
    pub reindexed: u64,
    /// Files left alone because their content had not changed.
    pub skipped: u64,
    /// Files whose data was dropped.
    pub removed: u64,
    /// Whether the index was touched, so the batch must be committed.
    pub mutated: bool,
}

impl ReindexTally {
    /// The tally is consistent: the index was touched exactly when some
    /// file was replaced or removed.
    pub open spec fn wf(self) -> bool {
        self.mutated == (self.reindexed + self.removed > 0)
    }

    /// Nothing counted yet.
    pub fn new() -> (t: ReindexTally)
        ensures
            t.wf(),
            t.reindexed == 0 && t.skipped == 0 && t.removed == 0 && !t.mutated,
    {
        ReindexTally { reindexed: 0, skipped: 0, removed: 0, mutated: false }
    }

    /// Counts one file's action. A kept file counts nowhere.
    pub fn record(&mut self, action: ReindexAction)
        requires
            old(self).wf(),
            old(self).reindexed < u64::MAX,
            old(self).skipped < u64::MAX,
            old(self).removed < u64::MAX,
        ensures
            final(self).wf(),
            final(self).reindexed == old(self).reindexed + (if action is Replace { 1int } else { 0int }),
            final(self).skipped == old(self).skipped + (if action is Skip { 1int } else { 0int }),
            final(self).removed == old(self).removed + (if action is Remove { 1int } else { 0int }),
    {
        match action {
            ReindexAction::Remove => {
                self.removed = self.removed + 1;
                self.mutated = true;
            },
            ReindexAction::Skip => {
                self.skipped = self.skipped + 1;
            },
            ReindexAction::Keep => {},
            ReindexAction::Replace => {
                self.reindexed = self.reindexed + 1;
                self.mutated = true;
            },
        }
    }

    /// Whether the batch must be committed (and the build time renewed).
    pub fn needs_commit(&self) -> (b: bool)
        requires
            self.wf(),
        ensures
            b == (self.reindexed + self.removed > 0),
    {
        self.mutated
    }
}

/// The paths with repeats dropped, each kept at its first place.
pub open spec fn first_occurrences(paths: Seq<Seq<char>>) -> Seq<Seq<char>>
    decreases paths.len(),
{
    if paths.len() == 0 {
        Seq::empty()
    } else {
        let prev = first_occurrences(paths.drop_last());
        if prev.contains(paths.last()) {
            prev
        } else {
            prev.push(paths.last())
        }
    }
}

/// No path is listed twice.
pub open spec fn no_repeats(s: Seq<Seq<char>>) -> bool {
    forall|i: int, j: int| 0 <= i < j < s.len() ==> #[trigger] s[i] != #[trigger] s[j]
}

/// Dropping repeats keeps every path once: nothing is listed twice, and a
/// path is listed exactly when it was among the changed files.
pub proof fn law_unique_paths(paths: Seq<Seq<char>>)
    ensures
        no_repeats(first_occurrences(paths)),
        forall|x: Seq<char>| #[trigger] first_occurrences(paths).contains(x) <==> paths.contains(x),
    decreases paths.len(),
{
    if paths.len() > 0 {
        let init = paths.drop_last();
        law_unique_paths(init);
        let prev = first_occurrences(init);
        assert forall|x: Seq<char>| #[trigger] paths.contains(x) <==> init.contains(x) || x == paths.last() by {
            if paths.contains(x) {
                let k = choose|k: int| 0 <= k < paths.len() && paths[k] == x;
                if k < paths.len() - 1 {
                    assert(init[k] == x);
                }
            }
            if init.contains(x) {
                let k = choose|k: int| 0 <= k < init.len() && init[k] == x;
                assert(paths[k] == x);
            }
            if x == paths.last() {
                assert(paths[paths.len() - 1] == x);
            }
        }
        if !prev.contains(paths.last()) {
            let r = prev.push(paths.last());
            assert forall|x: Seq<char>| #[trigger] r.contains(x) <==> prev.contains(x) || x == paths.last() by {
                if r.contains(x) {
                    let k = choose|k: int| 0 <= k < r.len() && r[k] == x;
                    if k < prev.len() {
                        assert(prev[k] == x);
                    }
                }
                if prev.contains(x) {
                    let k = choose|k: int| 0 <= k < prev.len() && prev[k] == x;
                    assert(r[k] == x);
                }
                if x == paths.last() {
                    assert(r[r.len() - 1] == x);
                }
            }
            assert forall|i: int, j: int| 0 <= i < j < r.len() implies #[trigger] r[i] != #[trigger] r[j] by {
                if j == r.len() - 1 {
                    assert(prev[i] == r[i]);
                    if r[i] == r[j] {
                        assert(prev.contains(paths.last()));
                    }
                } else {
                    assert(prev[i] == r[i] && prev[j] == r[j]);
                }
            }
        }
    }
}

/// The changed files with repeats dropped, each at its first place (see
/// `first_occurrences`). Nothing depends on which order they come in.
pub fn unique_paths(paths: &[String]) -> (r: Vec<String>)
    ensures
        string_views(r@) == first_occurrences(string_views(paths@)),
{
    let ghost pv = string_views(paths@);
    let mut out: Vec<String> = Vec::new();
    let mut i: usize = 0;
    proof {
        assert(pv.take(0) =~= Seq::<Seq<char>>::empty());
        assert(string_views(out@) =~= Seq::<Seq<char>>::empty());
    }
    while i < paths.len()
        invariant
            i <= paths.len(),
            pv == string_views(paths@),
            string_views(out@) == first_occurrences(pv.take(i as int)),
        decreases paths.len() - i,
    {
        let ghost ov = string_views(out@);
        let mut seen = false;
        let mut j: usize = 0;
        while j < out.len()
            invariant
                j <= out.len(),
                ov == string_views(out@),
                i < paths.len(),
                seen == (exists|k: int| 0 <= k < j && #[trigger] ov[k] == paths@[i as int]@),
            decreases out.len() - j,
        {
            if str_eq(out[j].as_str(), paths[i].as_str()) {
                proof {
                    assert(ov[j as int] == out@[j as int]@);
                }
                seen = true;
            } else {
                proof {
                    assert(ov[j as int] == out@[j as int]@);
                }
            }
            j = j + 1;
        }
        proof {
            let t = pv.take(i + 1);
            assert(t.drop_last() =~= pv.take(i as int));
            assert(t.last() == paths@[i as int]@);
            if seen {
                let k = choose|k: int| 0 <= k < j && #[trigger] ov[k] == paths@[i as int]@;
                assert(ov.contains(t.last()));
            } else {
                assert(!ov.contains(t.last())) by {
                    if ov.contains(t.last()) {
                        let k = choose|k: int| 0 <= k < ov.len() && ov[k] == t.last();
                        assert(ov[k] == paths@[i as int]@);
                    }
                }
            }
        }
        if !seen {
            out.push(paths[i].clone());
            proof {
                assert(string_views(out@) =~= ov.push(paths@[i as int]@));
            }
        }
        i = i + 1;
    }
    proof {
        assert(pv.take(i as int) =~= pv);
    }
    out
}

} // verus!
