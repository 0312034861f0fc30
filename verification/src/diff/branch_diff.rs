//! Comparing two git refs: the files that changed between them, each with
//! its kind of change, and a count per kind.
//!
//! Reading the repository is the caller's part; it hands over one
//! `FileDelta` per changed file, in the order in which git lists them.
use vstd::prelude::*;

verus! {

/// How a file changed between two refs.
#[derive(Debug, Clone, Copy, PartialEq, Eq, Structural)]
pub enum ChangeKind {
    /// The file is new.
    Added,
    /// The file's content changed.
    Modified,
    /// The file is gone.
    Deleted,
    /// The file moved from an old path.
    Renamed,
    /// The file's type changed (a file became a link, ...).
    TypeChanged,
}

/// The status git reports for one delta.
#[derive(Debug, Clone, Copy, PartialEq, Eq, Structural)]
pub enum DeltaStatus {
    Unmodified,
    Added,
    Deleted,
    Modified,
    Renamed,
    Copied,
    Ignored,
    Untracked,
    Typechange,
    Unreadable,
    Conflicted,
}

/// One delta of a tree-to-tree diff, as plain values.
#[derive(Debug, Clone)]
pub struct FileDelta {
    /// What git reports.
    pub status: DeltaStatus,
    /// Path on the new side, when git has one.
    pub new_path: Option<String>,
    /// Path on the old side, when git has one.
    pub old_path: Option<String>,
    /// Whether the new side is binary.
    pub is_binary: bool,
}

/// One changed file.
#[derive(Debug, Clone)]
pub struct ChangedFile {
    /// Path relative to the repository root.
    pub path: String,
    /// The former path of a renamed file.
    pub old_path: Option<String>,
    /// How it changed.
    pub change_kind: ChangeKind,
    /// Whether it is binary.
    pub is_binary: bool,
}

/// All changes between two refs.
#[derive(Debug, Clone)]
pub struct BranchDiff {
    /// The ref compared from.
    pub from_ref: String,
    /// The ref compared to.
    pub to_ref: String,
    /// The changed files.
    pub changed_files: Vec<ChangedFile>,
    /// Files added.
    pub added_count: usize,
    /// Files modified (renames and type changes count here).
    pub modified_count: usize,
    /// Files deleted.
    pub deleted_count: usize,
}

/// A changed file as plain values: path, former path, kind, binary.
pub type ChangedView = (Seq<char>, Option<Seq<char>>, ChangeKind, bool);

/// The kind of change a delta status stands for; statuses without a kind
/// of their own count as modifications.
pub open spec fn kind_of(status: DeltaStatus) -> ChangeKind {
    match status {
        DeltaStatus::Added => ChangeKind::Added,
        DeltaStatus::Modified => ChangeKind::Modified,
        DeltaStatus::Deleted => ChangeKind::Deleted,
        DeltaStatus::Renamed => ChangeKind::Renamed,
        DeltaStatus::Typechange => ChangeKind::TypeChanged,
        _ => ChangeKind::Modified,
    }
}

/// An optional path's contents.
pub open spec fn opt_view(p: Option<String>) -> Option<Seq<char>> {
    match p {
        Some(s) => Some(s@),
        None => None,
    }
}

/// The changed file a delta gives: the new path (empty when git has
/// none), the old path for a rename only.
pub open spec fn changed_of(d: FileDelta) -> ChangedView {
    (
        match d.new_path {
            Some(p) => p@,
            None => Seq::empty(),
        },
        if d.status == DeltaStatus::Renamed { opt_view(d.old_path) } else { None },
        kind_of(d.status),
        d.is_binary,
    )
}

impl ChangedFile {
    /// The record as plain values.
    pub open spec fn view_changed(&self) -> ChangedView {
        (self.path@, opt_view(self.old_path), self.change_kind, self.is_binary)
    }
}

/// The contents of a list of changed files.
pub open spec fn changed_views(v: Seq<ChangedFile>) -> Seq<ChangedView> {
    v.map_values(|f: ChangedFile| f.view_changed())
}

/// How many of the files changed in kind `k`.
pub open spec fn kind_count(files: Seq<ChangedView>, k: ChangeKind) -> nat
    decreases files.len(),
{
    if files.len() == 0 {
        0
    } else {
        kind_count(files.drop_last(), k) + if files.last().2 == k { 1nat } else { 0nat }
    }
}

/// A count never exceeds the number of files.
proof fn lemma_kind_count_bound(files: Seq<ChangedView>, k: ChangeKind)
    ensures
        kind_count(files, k) <= files.len(),
    decreases files.len(),
{
    if files.len() > 0 {
        lemma_kind_count_bound(files.drop_last(), k);
    }
}

/// The five counts add up to the number of files.
proof fn lemma_kind_counts_sum(files: Seq<ChangedView>)
    ensures
        kind_count(files, ChangeKind::Added) + kind_count(files, ChangeKind::Modified) + kind_count(files, ChangeKind::Deleted)
            + kind_count(files, ChangeKind::Renamed) + kind_count(files, ChangeKind::TypeChanged) == files.len(),
    decreases files.len(),
{
    if files.len() > 0 {
        lemma_kind_counts_sum(files.drop_last());
    }
}

/// Compares git refs; holds no state.
pub struct BranchDiffer;

/// A copy of an optional path.
fn copy_path(p: &Option<String>) -> (r: Option<String>)
    ensures
        opt_view(r) == opt_view(*p),
{
    match p {
        Some(s) => Some(s.clone()),
        None => None,
    }
}

impl BranchDiffer {
    /// The kind of change a delta status stands for (see `kind_of`).
    pub fn change_kind_of(status: DeltaStatus) -> (k: ChangeKind)
        ensures
            k == kind_of(status),
    {
        match status {
            DeltaStatus::Added => ChangeKind::Added,
            DeltaStatus::Modified => ChangeKind::Modified,
            DeltaStatus::Deleted => ChangeKind::Deleted,
            DeltaStatus::Renamed => ChangeKind::Renamed,
            DeltaStatus::Typechange => ChangeKind::TypeChanged,
            _ => ChangeKind::Modified,
        }
    }

    /// The changed file one delta gives (see `changed_of`).
    pub fn changed_file(delta: &FileDelta) -> (f: ChangedFile)
        ensures
            f.view_changed() == changed_of(*delta),
    {
        let path = match &delta.new_path {
            Some(p) => p.clone(),
            None => String::new(),
        };
        let old_path = if delta.status == DeltaStatus::Renamed { copy_path(&delta.old_path) } else { None };
        ChangedFile { path, old_path, change_kind: Self::change_kind_of(delta.status), is_binary: delta.is_binary }
    }

    /// Summarises the deltas between `from_ref` and `to_ref`: one changed
    /// file per delta, in order, and the number added, deleted and
    /// modified (renames and type changes count as modified).
    pub fn summarize(from_ref: &str, to_ref: &str, deltas: &[FileDelta]) -> (d: BranchDiff)
        ensures
            d.from_ref@ == from_ref@,
            d.to_ref@ == to_ref@,
            changed_views(d.changed_files@) == deltas@.map_values(|x: FileDelta| changed_of(x)),
            d.added_count == kind_count(changed_views(d.changed_files@), ChangeKind::Added),
            d.deleted_count == kind_count(changed_views(d.changed_files@), ChangeKind::Deleted),
            d.modified_count == kind_count(changed_views(d.changed_files@), ChangeKind::Modified)
                + kind_count(changed_views(d.changed_files@), ChangeKind::Renamed)
                + kind_count(changed_views(d.changed_files@), ChangeKind::TypeChanged),
            d.added_count + d.modified_count + d.deleted_count == deltas.len(),
    {
        let mut changed_files: Vec<ChangedFile> = Vec::new();
        let mut added_count: usize = 0;
        let mut modified_count: usize = 0;
        let mut deleted_count: usize = 0;
        let mut i: usize = 0;
        while i < deltas.len()
            invariant
                i <= deltas.len(),
                changed_views(changed_files@) == deltas@.take(i as int).map_values(|x: FileDelta| changed_of(x)),
                added_count == kind_count(changed_views(changed_files@), ChangeKind::Added),
                deleted_count == kind_count(changed_views(changed_files@), ChangeKind::Deleted),
                modified_count == kind_count(changed_views(changed_files@), ChangeKind::Modified)
                    + kind_count(changed_views(changed_files@), ChangeKind::Renamed)
                    + kind_count(changed_views(changed_files@), ChangeKind::TypeChanged),
                changed_files.len() == i,
            decreases deltas.len() - i,
        {
            let f = Self::changed_file(&deltas[i]);
            let kind = f.change_kind;
            let ghost before = changed_views(changed_files@);
            changed_files.push(f);
            proof {
                let after = changed_views(changed_files@);
                assert(after =~= before.push(f.view_changed()));
                assert(after.drop_last() =~= before);
                assert(deltas@.take(i + 1) =~= deltas@.take(i as int).push(deltas@[i as int]));
                assert(after =~= deltas@.take(i + 1).map_values(|x: FileDelta| changed_of(x)));
                lemma_kind_counts_sum(before);
            }
            match kind {
                ChangeKind::Added => added_count = added_count + 1,
                ChangeKind::Deleted => deleted_count = deleted_count + 1,
                _ => modified_count = modified_count + 1,
            }
            i = i + 1;
        }
        proof {
            assert(deltas@.take(i as int) =~= deltas@);
            lemma_kind_counts_sum(changed_views(changed_files@));
        }
        BranchDiff {
            from_ref: from_ref.to_string(),
            to_ref: to_ref.to_string(),
            changed_files,
            added_count,
            modified_count,
            deleted_count,
        }
    }

    /// The paths of the changed files, in order.
    pub fn list_changed_files(branch_diff: BranchDiff) -> (paths: Vec<String>)
        ensures
            paths@.map_values(|p: String| p@) == changed_views(branch_diff.changed_files@).map_values(|f: ChangedView| f.0),
    {
        let files = branch_diff.changed_files;
        let mut paths: Vec<String> = Vec::new();
        let mut i: usize = 0;
        while i < files.len()
            invariant
                i <= files.len(),
                files@ == branch_diff.changed_files@,
                paths.len() == i,
                forall|j: int| 0 <= j < i ==> (#[trigger] paths@[j])@ == files@[j].path@,
            decreases files.len() - i,
        {
            paths.push(files[i].path.clone());
            i = i + 1;
        }
        proof {
            assert(paths@.map_values(|p: String| p@) =~= changed_views(files@).map_values(|f: ChangedView| f.0));
        }
        paths
    }
}

} // verus!
