//! Merging and replaying commits.

use vstd::prelude::*;

use crate::bytes;
use crate::commit;
use crate::commit::{Commit, CommitModel, Signature, SignatureModel};
use crate::flat_tree;
use crate::flat_tree::{Conflict, ContentMerge, FlatTree, MergeEntry, TreeMerge};
use crate::fs;
use crate::fs::memory;
use crate::fs::memory::MemoryFileSystem;
use crate::fs::path;
use crate::fs::{Fault, FileSystem, Refusal};
use crate::fsck;
use crate::id_set;
use crate::index;
use crate::index::Index;
use crate::ls_tree;
use crate::object;
use crate::object::{ObjectId, ObjectKind};
use crate::operations::{HeadLog, HeadLogModel};
use crate::repository;
use crate::repository::Repository;
use crate::staging;
use crate::storage;
use crate::worktree_path;
use crate::write_tree;
use crate::{Error, Result};

verus! {

/// When a merge may just move forward.
#[derive(Clone, Copy, Debug, PartialEq, Eq, Structural)]
pub enum FastForwardMode {
    Allow,
    Only,
    Never,
}

impl Default for FastForwardMode {
    fn default() -> (r: Self)
        ensures
            r == FastForwardMode::Allow,
    {
        FastForwardMode::Allow
    }
}

/// Choices and limits of a merge.
pub struct MergeOptions {
    pub fast_forward: FastForwardMode,
    pub no_commit: bool,
    pub message: Vec<u8>,
    /// How trees are read.
    pub max_object_size: usize,
    pub max_text_merge_lines: usize,
    pub max_diff_trace_cells: usize,
    pub max_rename_comparisons: usize,
}

impl Default for MergeOptions {
    fn default() -> (r: Self)
        ensures
            r.fast_forward == FastForwardMode::Allow,
            !r.no_commit,
            r.message@ == bytes::utf8("Merge commit\n"@),
            r.max_object_size == 1024 * 1024 * 1024,
            r.max_text_merge_lines == 1_000_000,
            r.max_diff_trace_cells == 10_000_000,
            r.max_rename_comparisons == 1_000_000,
    {
        MergeOptions {
            fast_forward: FastForwardMode::Allow,
            no_commit: false,
            message: bytes::to_vec("Merge commit\n".as_bytes()),
            max_object_size: 1024 * 1024 * 1024,
            max_text_merge_lines: 1_000_000,
            max_diff_trace_cells: 10_000_000,
            max_rename_comparisons: 1_000_000,
        }
    }
}

/// What became of a merge.
#[derive(Debug, PartialEq, Eq)]
pub enum MergeResult {
    UpToDate { head: ObjectId },
    FastForward { old: ObjectId, new: ObjectId },
    Merged { commit: ObjectId },
    Prepared { tree: ObjectId },
    Conflicted { paths: Vec<Vec<u8>> },
}

/// Choices and limits of a merge of trees.
pub struct MergeTreeOptions {
    /// The commit or tree to merge from, in place of the common ancestors.
    pub merge_base: Option<ObjectId>,
    /// Takes the empty tree for the base of histories without a common commit.
    pub allow_unrelated_histories: bool,
    /// How trees are read.
    pub max_object_size: usize,
    pub max_text_merge_lines: usize,
    pub max_diff_trace_cells: usize,
    pub max_rename_comparisons: usize,
}

impl Default for MergeTreeOptions {
    fn default() -> (r: Self)
        ensures
            r.merge_base is None,
            !r.allow_unrelated_histories,
            r.max_object_size == 1024 * 1024 * 1024,
            r.max_text_merge_lines == 1_000_000,
            r.max_diff_trace_cells == 10_000_000,
            r.max_rename_comparisons == 1_000_000,
    {
        MergeTreeOptions {
            merge_base: None,
            allow_unrelated_histories: false,
            max_object_size: 1024 * 1024 * 1024,
            max_text_merge_lines: 1_000_000,
            max_diff_trace_cells: 10_000_000,
            max_rename_comparisons: 1_000_000,
        }
    }
}

/// One stage of a conflicted path.
#[derive(Debug, PartialEq, Eq)]
pub struct MergeTreeStage {
    /// Rename conflicts can use different paths.
    pub path: Vec<u8>,
    pub stage: u8,
    pub mode: u32,
    pub id: ObjectId,
}

/// A conflict of a merge of trees.
#[derive(Debug, PartialEq, Eq)]
pub struct MergeTreeConflict {
    pub path: Vec<u8>,
    /// The stages in index order: base, ours, theirs.
    pub stages: Vec<MergeTreeStage>,
}

impl View for MergeTreeStage {
    type V = flat_tree::StageModel;

    open spec fn view(&self) -> flat_tree::StageModel {
        flat_tree::StageModel {
            path: self.path@,
            stage: self.stage,
            entry: MergeEntry { mode: self.mode, id: self.id },
        }
    }
}

pub open spec fn stage_views(list: Seq<MergeTreeStage>) -> Seq<flat_tree::StageModel> {
    Seq::new(list.len(), |i: int| list[i]@)
}

/// Whether reported conflicts are those of a merge.
pub open spec fn reports(list: Seq<MergeTreeConflict>, conflicts: Seq<flat_tree::ConflictModel>) -> bool {
    list.len() == conflicts.len() && forall|i: int|
        0 <= i < list.len() ==> (#[trigger] list[i]).path@ == conflicts[i].path && stage_views(
            list[i].stages@,
        ) == conflicts[i].stages
}

/// The merged tree, and the conflicts. Where there are any, the tree holds
/// what they show.
pub struct MergeTreeResult {
    pub tree: ObjectId,
    pub conflicts: Vec<MergeTreeConflict>,
}

impl MergeTreeResult {
    pub fn is_clean(&self) -> (r: bool)
        ensures
            r == (self.conflicts@.len() == 0),
    {
        self.conflicts.len() == 0
    }
}

/// The direction of a replay.
#[derive(Clone, Copy, Debug, PartialEq, Eq, Structural)]
pub enum ReplayKind {
    CherryPick,
    Revert,
}

/// Choices and limits of a replay.
#[derive(Clone, Copy, Debug, PartialEq, Eq)]
pub struct ReplayOptions {
    /// The parent of a merge commit to replay against, counted from one.
    pub mainline: Option<usize>,
    pub no_commit: bool,
    pub allow_empty: bool,
    pub max_object_size: usize,
}

impl Default for ReplayOptions {
    fn default() -> (r: Self)
        ensures
            r.mainline is None && !r.no_commit && !r.allow_empty,
            r.max_object_size == 1024 * 1024 * 1024,
    {
        ReplayOptions {
            mainline: None,
            no_commit: false,
            allow_empty: false,
            max_object_size: 1024 * 1024 * 1024,
        }
    }
}

/// What became of a replay.
#[derive(Debug, PartialEq, Eq)]
pub enum ReplayResult {
    Committed { commit: ObjectId },
    Prepared { tree: ObjectId },
    Conflicted { paths: Vec<Vec<u8>> },
}

// ---------------------------------------------------------------------------
// Reading commits and trees

/// What a repository holds of a commit.
pub open spec fn stored_commit(files: memory::Tree, git: Seq<u8>, id: Seq<u8>, size: nat) -> core::result::Result<
    CommitModel,
    Refusal,
> {
    match storage::stored_object(files, git, id, size) {
        Err(refusal) => Err(refusal),
        Ok((kind, data)) => if kind != ObjectKind::Commit {
            Err(Refusal::Said(Error::InvalidCommit("object is not a commit")))
        } else {
            match commit::commit_from(data) {
                Err(error) => Err(Refusal::Said(error)),
                Ok(model) => Ok(model),
            }
        },
    }
}

/// The tree of a commit or of a tree.
pub open spec fn input_tree(files: memory::Tree, git: Seq<u8>, id: Seq<u8>, size: nat) -> core::result::Result<
    Seq<u8>,
    Refusal,
> {
    match storage::stored_object(files, git, id, size) {
        Err(refusal) => Err(refusal),
        Ok((kind, data)) => match kind {
            ObjectKind::Commit => match commit::commit_from(data) {
                Err(error) => Err(Refusal::Said(error)),
                Ok(model) => Ok(model.tree),
            },
            ObjectKind::Tree => Ok(id),
            _ => Err(
                Refusal::Said(
                    Error::InvalidObject("merge-tree input is neither a commit nor a tree"),
                ),
            ),
        },
    }
}

/// The flat map of the first `n` listed entries.
pub open spec fn flat_of(list: Seq<ls_tree::Listed>, n: int) -> flat_tree::FlatMap
    decreases n,
{
    if n <= 0 {
        Map::empty()
    } else {
        flat_of(list, n - 1).insert(
            list[n - 1].path,
            MergeEntry {
                mode: crate::tree::mode_value(list[n - 1].mode),
                id: object::id_with(list[n - 1].id),
            },
        )
    }
}

/// A stored tree as a flat map.
pub open spec fn flattened(
    files: memory::Tree,
    git: Seq<u8>,
    id: Seq<u8>,
    size: usize,
) -> core::result::Result<flat_tree::FlatMap, Refusal> {
    match ls_tree::tree_listing(files, git, id, ls_tree::all_files(size)) {
        Err(refusal) => Err(refusal),
        Ok(list) => Ok(flat_of(list, list.len() as int)),
    }
}

impl Repository {
    /// Reads a commit.
    pub fn read_commit(&self, id: ObjectId, max_size: usize) -> (r: Result<Commit>)
        ensures
            match stored_commit(self.tree(), self.git(), id@, max_size as nat) {
                Ok(model) => r is Ok && r->Ok_0@ == model,
                Err(refusal) => fs::declined(r, refusal),
            },
    {
        let object = self.read_object_raw(id, max_size)?;
        if object.kind() != ObjectKind::Commit {
            return Err(Error::InvalidCommit("object is not a commit"));
        }
        Commit::parse(object.data())
    }

    /// Reads a tree and the trees below it as a flat map.
    pub fn flattened_tree(&self, id: ObjectId, max_object_size: usize) -> (r: Result<FlatTree>)
        ensures
            match flattened(self.tree(), self.git(), id@, max_object_size) {
                Ok(map) => r is Ok && r->Ok_0@ == map,
                Err(refusal) => fs::declined(r, refusal),
            },
    {
        let entries = self.list_tree(id, &ls_tree::whole_tree(max_object_size))?;
        let ghost list = ls_tree::models(entries@);
        let mut out = FlatTree::new();
        let mut i: usize = 0;
        while i < entries.len()
            invariant
                i <= entries@.len(),
                list == ls_tree::models(entries@),
                out@ == flat_of(list, i as int),
            decreases entries@.len() - i,
        {
            let entry = &entries[i];
            assert(list[i as int] == entry@);
            let id = entry.id();
            proof {
                object::lemma_id_with(id);
            }
            let _ = out.insert(
                bytes::to_vec(entry.path()),
                MergeEntry { mode: entry.mode_number(), id },
            );
            i += 1;
        }
        Ok(out)
    }

    /// Finds the tree of a commit or of a tree.
    fn merge_input_tree(&self, id: ObjectId, max_size: usize) -> (r: Result<ObjectId>)
        ensures
            match input_tree(self.tree(), self.git(), id@, max_size as nat) {
                Ok(tree) => r is Ok && r->Ok_0@ == tree,
                Err(refusal) => fs::declined(r, refusal),
            },
    {
        let object = self.read_object_raw(id, max_size)?;
        match object.kind() {
            ObjectKind::Commit => Ok(Commit::parse(object.data())?.tree()),
            ObjectKind::Tree => Ok(id),
            _ => Err(Error::InvalidObject("merge-tree input is neither a commit nor a tree")),
        }
    }
}

// ---------------------------------------------------------------------------
// Merging trees

/// A map with the first `n` entries of a list.
pub open spec fn with_working(
    map: flat_tree::FlatMap,
    list: Seq<(Seq<u8>, MergeEntry)>,
    n: int,
) -> flat_tree::FlatMap
    decreases n,
{
    if n <= 0 {
        map
    } else {
        with_working(map, list, n - 1).insert(list[n - 1].0, list[n - 1].1)
    }
}

/// A map with what the first `n` conflicts show.
pub open spec fn with_conflicts(
    map: flat_tree::FlatMap,
    list: Seq<flat_tree::ConflictModel>,
    n: int,
) -> flat_tree::FlatMap
    decreases n,
{
    if n <= 0 {
        map
    } else {
        with_working(
            with_conflicts(map, list, n - 1),
            list[n - 1].working,
            list[n - 1].working.len() as int,
        )
    }
}

/// The tree that a merge makes: what is settled and what the conflicts show.
pub open spec fn material(m: flat_tree::MergedModel) -> flat_tree::FlatMap {
    with_conflicts(m.resolved, m.conflicts, m.conflicts.len() as int)
}

fn materialize(merged: TreeMerge) -> (r: (FlatTree, Vec<Conflict>))
    ensures
        r.0@ == material(merged@),
        flat_tree::conflict_models(r.1@) == merged@.conflicts,
{
    let ghost all = merged@;
    let mut map = merged.resolved;
    let conflicts = merged.conflicts;
    let ghost list = flat_tree::conflict_models(conflicts@);
    let mut i: usize = 0;
    while i < conflicts.len()
        invariant
            i <= conflicts@.len(),
            list == flat_tree::conflict_models(conflicts@),
            map@ == with_conflicts(all.resolved, list, i as int),
        decreases conflicts@.len() - i,
    {
        let working = &conflicts[i].working;
        let ghost shows = flat_tree::working_models(working@);
        let ghost before = map@;
        assert(list[i as int].working == shows);
        let mut j: usize = 0;
        while j < working.len()
            invariant
                j <= working@.len(),
                shows == flat_tree::working_models(working@),
                map@ == with_working(before, shows, j as int),
            decreases working@.len() - j,
        {
            assert(shows[j as int] == (working@[j as int].0@, working@[j as int].1));
            let _ = map.insert(bytes::to_vec(working[j].0.as_slice()), working[j].1);
            j += 1;
        }
        i += 1;
    }
    (map, conflicts)
}

/// The tree of a commit.
pub open spec fn commit_tree(files: memory::Tree, git: Seq<u8>, id: Seq<u8>, size: nat) -> core::result::Result<
    Seq<u8>,
    Refusal,
> {
    match stored_commit(files, git, id, size) {
        Err(refusal) => Err(refusal),
        Ok(model) => Ok(model.tree),
    }
}

/// Three stored trees as flat maps, or why one of them cannot be read.
pub open spec fn flat_three(
    files: memory::Tree,
    git: Seq<u8>,
    base: Seq<u8>,
    ours: Seq<u8>,
    theirs: Seq<u8>,
    size: usize,
) -> core::result::Result<
    (flat_tree::FlatMap, flat_tree::FlatMap, flat_tree::FlatMap),
    Refusal,
> {
    match flattened(files, git, base, size) {
        Err(refusal) => Err(refusal),
        Ok(a) => match flattened(files, git, ours, size) {
            Err(refusal) => Err(refusal),
            Ok(b) => match flattened(files, git, theirs, size) {
                Err(refusal) => Err(refusal),
                Ok(c) => Ok((a, b, c)),
            },
        },
    }
}

/// What merging two trees from a base makes of the files, and what it gives:
/// the merged tree and the conflicts.
#[verifier::opaque]
pub open spec fn three_merged(
    files: memory::Tree,
    git: Seq<u8>,
    base: Seq<u8>,
    ours: Seq<u8>,
    theirs: Seq<u8>,
    contents: Seq<ContentMerge>,
    options: MergeTreeOptions,
) -> (memory::Tree, core::result::Result<(Seq<u8>, Seq<flat_tree::ConflictModel>), Refusal>) {
    match flat_three(files, git, base, ours, theirs, options.max_object_size) {
        Err(refusal) => (files, Err(refusal)),
        Ok((a, b, c)) => match flat_tree::merged(
            a,
            b,
            c,
            contents,
            options.max_rename_comparisons,
        ) {
            Err(error) => (files, Err(Refusal::Said(error))),
            Ok(m) => {
                let (after, outcome) = write_tree::flat_written(files, git, material(m));
                match outcome {
                    Err(refusal) => (after, Err(refusal)),
                    Ok(id) => (after, Ok((id, m.conflicts))),
                }
            },
        },
    }
}

/// What writing the empty tree makes of the files, with the tree.
pub open spec fn empty_written(files: memory::Tree, git: Seq<u8>) -> (
    memory::Tree,
    core::result::Result<Seq<u8>, Refusal>,
) {
    write_tree::flat_written(files, git, Map::empty())
}

/// The contents that were merged for a step.
pub open spec fn contents_of(steps: Seq<Vec<ContentMerge>>, k: int) -> Seq<ContentMerge> {
    if 0 <= k < steps.len() {
        steps[k]@
    } else {
        Seq::empty()
    }
}

/// The tree that two common ancestors are merged from: that of their own
/// common ancestor for the first two, and else the empty tree. The empty tree
/// is written in any case.
pub open spec fn step_base(
    files: memory::Tree,
    git: Seq<u8>,
    ancestor: Option<ObjectId>,
    size: nat,
    n: int,
) -> (memory::Tree, core::result::Result<Seq<u8>, Refusal>) {
    if n == 2 && ancestor is Some {
        match commit_tree(files, git, ancestor->0@, size) {
            Err(refusal) => (files, Err(refusal)),
            Ok(tree) => {
                let (after, outcome) = empty_written(files, git);
                match outcome {
                    Err(refusal) => (after, Err(refusal)),
                    Ok(_) => (after, Ok(tree)),
                }
            },
        }
    } else {
        empty_written(files, git)
    }
}

/// What merging one more common ancestor, the `n`th, makes of the files, with
/// the tree that stands for all so far.
#[verifier::opaque]
pub open spec fn step_combined(
    files: memory::Tree,
    git: Seq<u8>,
    tree: Seq<u8>,
    base: Seq<u8>,
    ancestor: Option<ObjectId>,
    contents: Seq<ContentMerge>,
    options: MergeTreeOptions,
    n: int,
) -> (memory::Tree, core::result::Result<Seq<u8>, Refusal>) {
    let size = options.max_object_size as nat;
    match commit_tree(files, git, base, size) {
        Err(refusal) => (files, Err(refusal)),
        Ok(other) => {
            let (ready, from) = step_base(files, git, ancestor, size, n);
            match from {
                Err(refusal) => (ready, Err(refusal)),
                Ok(from) => {
                    let (after, outcome) = three_merged(
                        ready,
                        git,
                        from,
                        tree,
                        other,
                        contents,
                        options,
                    );
                    match outcome {
                        Err(refusal) => (after, Err(refusal)),
                        Ok((id, _)) => (after, Ok(id)),
                    }
                },
            }
        },
    }
}

/// What merging the first `n` common ancestors one after the other makes of
/// the files, with the tree that stands for them.
pub open spec fn combined(
    files: memory::Tree,
    git: Seq<u8>,
    bases: Seq<ObjectId>,
    ancestor: Option<ObjectId>,
    steps: Seq<Vec<ContentMerge>>,
    options: MergeTreeOptions,
    n: int,
) -> (memory::Tree, core::result::Result<Seq<u8>, Refusal>)
    decreases n,
{
    if n <= 1 {
        (files, commit_tree(files, git, bases[0]@, options.max_object_size as nat))
    } else {
        let (next, before) = combined(files, git, bases, ancestor, steps, options, n - 1);
        match before {
            Err(refusal) => (next, Err(refusal)),
            Ok(tree) => step_combined(
                next,
                git,
                tree,
                bases[n - 1]@,
                ancestor,
                contents_of(steps, n - 2),
                options,
                n,
            ),
        }
    }
}

/// What finding the three trees that a merge starts from makes of the files,
/// with the trees: the base, ours and theirs.
pub open spec fn merge_inputs(
    files: memory::Tree,
    git: Seq<u8>,
    ours: Seq<u8>,
    theirs: Seq<u8>,
    bases: Seq<ObjectId>,
    ancestor: Option<ObjectId>,
    steps: Seq<Vec<ContentMerge>>,
    options: MergeTreeOptions,
) -> (memory::Tree, core::result::Result<(Seq<u8>, Seq<u8>, Seq<u8>), Refusal>) {
    let size = options.max_object_size as nat;
    match options.merge_base {
        Some(base) => (
            files,
            match input_tree(files, git, base@, size) {
                Err(refusal) => Err(refusal),
                Ok(a) => match input_tree(files, git, ours, size) {
                    Err(refusal) => Err(refusal),
                    Ok(b) => match input_tree(files, git, theirs, size) {
                        Err(refusal) => Err(refusal),
                        Ok(c) => Ok((a, b, c)),
                    },
                },
            },
        ),
        None => match commit_tree(files, git, ours, size) {
            Err(refusal) => (files, Err(refusal)),
            Ok(b) => match commit_tree(files, git, theirs, size) {
                Err(refusal) => (files, Err(refusal)),
                Ok(c) => if bases.len() == 0 && !options.allow_unrelated_histories {
                    (
                        files,
                        Err(
                            Refusal::Said(
                                Error::InvalidRepository("refusing to merge unrelated histories"),
                            ),
                        ),
                    )
                } else {
                    let (after, outcome) = if bases.len() == 0 {
                        empty_written(files, git)
                    } else {
                        combined(
                            files,
                            git,
                            bases,
                            ancestor,
                            steps,
                            options,
                            bases.len() as int,
                        )
                    };
                    match outcome {
                        Err(refusal) => (after, Err(refusal)),
                        Ok(a) => (after, Ok((a, b, c))),
                    }
                },
            },
        },
    }
}

proof fn lemma_combined_persists(
    files: memory::Tree,
    git: Seq<u8>,
    bases: Seq<ObjectId>,
    ancestor: Option<ObjectId>,
    steps: Seq<Vec<ContentMerge>>,
    options: MergeTreeOptions,
    n: int,
    m: int,
)
    requires
        1 <= n <= m,
        combined(files, git, bases, ancestor, steps, options, n).1 is Err,
    ensures
        combined(files, git, bases, ancestor, steps, options, m) == combined(
            files,
            git,
            bases,
            ancestor,
            steps,
            options,
            n,
        ),
    decreases m - n,
{
    if n < m {
        lemma_combined_persists(files, git, bases, ancestor, steps, options, n, m - 1);
    }
}

/// What merging two commits makes of the files, and what it gives: the merged
/// tree and the conflicts.
pub open spec fn trees_merged(
    files: memory::Tree,
    git: Seq<u8>,
    ours: Seq<u8>,
    theirs: Seq<u8>,
    bases: Seq<ObjectId>,
    ancestor: Option<ObjectId>,
    steps: Seq<Vec<ContentMerge>>,
    contents: Seq<ContentMerge>,
    options: MergeTreeOptions,
) -> (memory::Tree, core::result::Result<(Seq<u8>, Seq<flat_tree::ConflictModel>), Refusal>) {
    let (ready, inputs) = merge_inputs(
        files,
        git,
        ours,
        theirs,
        bases,
        ancestor,
        steps,
        options,
    );
    match inputs {
        Err(refusal) => (ready, Err(refusal)),
        Ok((a, b, c)) => three_merged(ready, git, a, b, c, contents, options),
    }
}

fn report_stages(stages: &Vec<flat_tree::ConflictStage>) -> (r: Vec<MergeTreeStage>)
    ensures
        stage_views(r@) == flat_tree::stage_models(stages@),
{
    let mut out: Vec<MergeTreeStage> = Vec::new();
    let mut i: usize = 0;
    while i < stages.len()
        invariant
            i <= stages@.len(),
            out@.len() == i,
            forall|j: int| 0 <= j < i ==> (#[trigger] out@[j])@ == stages@[j]@,
        decreases stages@.len() - i,
    {
        let stage = &stages[i];
        out.push(
            MergeTreeStage {
                path: bytes::to_vec(stage.path.as_slice()),
                stage: stage.stage,
                mode: stage.entry.mode,
                id: stage.entry.id,
            },
        );
        i += 1;
    }
    assert(stage_views(out@) =~= flat_tree::stage_models(stages@));
    out
}

fn report_conflicts(conflicts: &Vec<Conflict>) -> (r: Vec<MergeTreeConflict>)
    ensures
        reports(r@, flat_tree::conflict_models(conflicts@)),
{
    let ghost all = flat_tree::conflict_models(conflicts@);
    let mut out: Vec<MergeTreeConflict> = Vec::new();
    let mut i: usize = 0;
    while i < conflicts.len()
        invariant
            i <= conflicts@.len(),
            out@.len() == i,
            all == flat_tree::conflict_models(conflicts@),
            forall|j: int|
                0 <= j < i ==> (#[trigger] out@[j]).path@ == all[j].path && stage_views(
                    out@[j].stages@,
                ) == all[j].stages,
        decreases conflicts@.len() - i,
    {
        let conflict = &conflicts[i];
        assert(all[i as int] == conflict@);
        out.push(
            MergeTreeConflict {
                path: bytes::to_vec(conflict.path.as_slice()),
                stages: report_stages(&conflict.stages),
            },
        );
        i += 1;
    }
    out
}

impl Repository {
    fn flatten_three(&self, base: ObjectId, ours: ObjectId, theirs: ObjectId, size: usize) -> (r: Result<
        (FlatTree, FlatTree, FlatTree),
    >)
        ensures
            match flat_three(self.tree(), self.git(), base@, ours@, theirs@, size) {
                Ok((a, b, c)) => r is Ok && r->Ok_0.0@ == a && r->Ok_0.1@ == b && r->Ok_0.2@ == c,
                Err(refusal) => fs::declined(r, refusal),
            },
    {
        let a = self.flattened_tree(base, size)?;
        let b = self.flattened_tree(ours, size)?;
        let c = self.flattened_tree(theirs, size)?;
        Ok((a, b, c))
    }

    /// Merges two trees from a base and writes the merged tree: the tree, and
    /// the conflicts with what they show. The caller gives the outcome of
    /// merging the texts that both changed.
    pub fn merge_three(
        &mut self,
        base: ObjectId,
        ours: ObjectId,
        theirs: ObjectId,
        contents: &[ContentMerge],
        options: &MergeTreeOptions,
    ) -> (r: Result<(ObjectId, Vec<Conflict>)>)
        ensures
            final(self).git() == old(self).git(),
            final(self).work() == old(self).work(),
            ({
                let (after, outcome) = three_merged(
                    old(self).tree(),
                    old(self).git(),
                    base@,
                    ours@,
                    theirs@,
                    contents@,
                    *options,
                );
                &&& final(self).tree() == after
                &&& match outcome {
                    Err(refusal) => fs::declined(r, refusal),
                    Ok((id, conflicts)) => r is Ok && r->Ok_0.0@ == id
                        && flat_tree::conflict_models(r->Ok_0.1@) == conflicts,
                }
            }),
    {
        reveal(three_merged);
        let (a, b, c) = self.flatten_three(base, ours, theirs, options.max_object_size)?;
        let merged = flat_tree::merge_flat(a, b, c, contents, options.max_rename_comparisons)?;
        let (map, conflicts) = materialize(merged);
        let tree = self.write_flat_tree(&map)?;
        Ok((tree, conflicts))
    }

    fn empty_tree(&mut self) -> (r: Result<ObjectId>)
        ensures
            final(self).git() == old(self).git(),
            final(self).work() == old(self).work(),
            final(self).tree() == empty_written(old(self).tree(), old(self).git()).0,
            match empty_written(old(self).tree(), old(self).git()).1 {
                Ok(id) => r is Ok && r->Ok_0@ == id,
                Err(refusal) => fs::declined(r, refusal),
            },
    {
        self.write_flat_tree(&FlatTree::new())
    }

    fn base_for_step(&mut self, ancestor: Option<ObjectId>, size: usize, n: usize) -> (r: Result<
        ObjectId,
    >)
        ensures
            final(self).git() == old(self).git(),
            final(self).work() == old(self).work(),
            ({
                let (after, outcome) = step_base(
                    old(self).tree(),
                    old(self).git(),
                    ancestor,
                    size as nat,
                    n as int,
                );
                &&& final(self).tree() == after
                &&& match outcome {
                    Ok(id) => r is Ok && r->Ok_0@ == id,
                    Err(refusal) => fs::declined(r, refusal),
                }
            }),
    {
        match ancestor {
            Some(id) if n == 2 => {
                let tree = self.read_commit(id, size)?.tree();
                let _ = self.empty_tree()?;
                Ok(tree)
            },
            _ => self.empty_tree(),
        }
    }

    fn combine_step(
        &mut self,
        tree: ObjectId,
        base: ObjectId,
        ancestor: Option<ObjectId>,
        contents: &[ContentMerge],
        options: &MergeTreeOptions,
        n: usize,
    ) -> (r: Result<ObjectId>)
        ensures
            final(self).git() == old(self).git(),
            final(self).work() == old(self).work(),
            ({
                let (after, outcome) = step_combined(
                    old(self).tree(),
                    old(self).git(),
                    tree@,
                    base@,
                    ancestor,
                    contents@,
                    *options,
                    n as int,
                );
                &&& final(self).tree() == after
                &&& match outcome {
                    Ok(id) => r is Ok && r->Ok_0@ == id,
                    Err(refusal) => fs::declined(r, refusal),
                }
            }),
    {
        reveal(step_combined);
        let other = self.read_commit(base, options.max_object_size)?.tree();
        let from = self.base_for_step(ancestor, options.max_object_size, n)?;
        let (next, _) = self.merge_three(from, tree, other, contents, options)?;
        Ok(next)
    }

    /// Merges several common ancestors into one tree.
    fn combined_merge_base_tree(
        &mut self,
        bases: &[ObjectId],
        ancestor: Option<ObjectId>,
        steps: &[Vec<ContentMerge>],
        options: &MergeTreeOptions,
    ) -> (r: Result<ObjectId>)
        requires
            bases@.len() > 0,
        ensures
            final(self).git() == old(self).git(),
            final(self).work() == old(self).work(),
            ({
                let (after, outcome) = combined(
                    old(self).tree(),
                    old(self).git(),
                    bases@,
                    ancestor,
                    steps@,
                    *options,
                    bases@.len() as int,
                );
                &&& final(self).tree() == after
                &&& match outcome {
                    Ok(id) => r is Ok && r->Ok_0@ == id,
                    Err(refusal) => fs::declined(r, refusal),
                }
            }),
    {
        let ghost files = self.tree();
        let ghost git = self.git();
        let ghost count = bases@.len() as int;
        proof {
            if combined(files, git, bases@, ancestor, steps@, *options, 1).1 is Err {
                lemma_combined_persists(files, git, bases@, ancestor, steps@, *options, 1, count);
            }
        }
        let mut tree = self.read_commit(bases[0], options.max_object_size)?.tree();
        let mut n: usize = 1;
        while n < bases.len()
            invariant
                1 <= n <= bases@.len(),
                count == bases@.len(),
                files == old(self).tree(),
                git == old(self).git(),
                self.git() == git,
                self.work() == old(self).work(),
                combined(files, git, bases@, ancestor, steps@, *options, n as int).0 == self.tree(),
                combined(files, git, bases@, ancestor, steps@, *options, n as int).1 == Ok::<
                    Seq<u8>,
                    Refusal,
                >(tree@),
            decreases bases@.len() - n,
        {
            proof {
                if combined(files, git, bases@, ancestor, steps@, *options, n + 1).1 is Err {
                    lemma_combined_persists(
                        files,
                        git,
                        bases@,
                        ancestor,
                        steps@,
                        *options,
                        n + 1,
                        count,
                    );
                }
            }
            let none: Vec<ContentMerge> = Vec::new();
            let contents: &[ContentMerge] = if n - 1 < steps.len() {
                steps[n - 1].as_slice()
            } else {
                none.as_slice()
            };
            assert(contents@ =~= contents_of(steps@, n - 1));
            tree = self.combine_step(tree, bases[n], ancestor, contents, options, n + 1)?;
            n += 1;
        }
        Ok(tree)
    }

    fn find_merge_inputs(
        &mut self,
        ours: ObjectId,
        theirs: ObjectId,
        bases: &[ObjectId],
        ancestor: Option<ObjectId>,
        steps: &[Vec<ContentMerge>],
        options: &MergeTreeOptions,
    ) -> (r: Result<(ObjectId, ObjectId, ObjectId)>)
        ensures
            final(self).git() == old(self).git(),
            final(self).work() == old(self).work(),
            ({
                let (after, outcome) = merge_inputs(
                    old(self).tree(),
                    old(self).git(),
                    ours@,
                    theirs@,
                    bases@,
                    ancestor,
                    steps@,
                    *options,
                );
                &&& final(self).tree() == after
                &&& match outcome {
                    Ok((a, b, c)) => r is Ok && r->Ok_0.0@ == a && r->Ok_0.1@ == b && r->Ok_0.2@
                        == c,
                    Err(refusal) => fs::declined(r, refusal),
                }
            }),
    {
        let size: usize = options.max_object_size;
        match options.merge_base {
            Some(base) => {
                let a = self.merge_input_tree(base, size)?;
                let b = self.merge_input_tree(ours, size)?;
                let c = self.merge_input_tree(theirs, size)?;
                Ok((a, b, c))
            },
            None => {
                let b = self.read_commit(ours, size)?.tree();
                let c = self.read_commit(theirs, size)?.tree();
                if bases.len() == 0 && !options.allow_unrelated_histories {
                    return Err(Error::InvalidRepository("refusing to merge unrelated histories"));
                }
                let a = if bases.len() == 0 {
                    self.empty_tree()?
                } else {
                    self.combined_merge_base_tree(bases, ancestor, steps, options)?
                };
                Ok((a, b, c))
            },
        }
    }

    /// Merges two commits and writes the merged tree, without touching
    /// references, the index or the working tree: the tree, and the conflicts
    /// with what they show. The caller names their common ancestors and the
    /// outcome of merging the texts that both changed.
    pub fn merge_trees(
        &mut self,
        ours: ObjectId,
        theirs: ObjectId,
        bases: &[ObjectId],
        ancestor: Option<ObjectId>,
        steps: &[Vec<ContentMerge>],
        contents: &[ContentMerge],
        options: &MergeTreeOptions,
    ) -> (r: Result<(ObjectId, Vec<Conflict>)>)
        ensures
            final(self).git() == old(self).git(),
            final(self).work() == old(self).work(),
            ({
                let (after, outcome) = trees_merged(
                    old(self).tree(),
                    old(self).git(),
                    ours@,
                    theirs@,
                    bases@,
                    ancestor,
                    steps@,
                    contents@,
                    *options,
                );
                &&& final(self).tree() == after
                &&& match outcome {
                    Err(refusal) => fs::declined(r, refusal),
                    Ok((id, conflicts)) => r is Ok && r->Ok_0.0@ == id
                        && flat_tree::conflict_models(r->Ok_0.1@) == conflicts,
                }
            }),
    {
        let (a, b, c) = self.find_merge_inputs(ours, theirs, bases, ancestor, steps, options)?;
        self.merge_three(a, b, c, contents, options)
    }

    /// Merges two commits and writes the merged tree, without touching
    /// references, the index or the working tree. The caller names their
    /// common ancestors and the outcome of merging the texts that both changed.
    pub fn merge_tree(
        &mut self,
        ours: ObjectId,
        theirs: ObjectId,
        bases: &[ObjectId],
        ancestor: Option<ObjectId>,
        steps: &[Vec<ContentMerge>],
        contents: &[ContentMerge],
        options: &MergeTreeOptions,
    ) -> (r: Result<MergeTreeResult>)
        ensures
            final(self).git() == old(self).git(),
            final(self).work() == old(self).work(),
            ({
                let (after, outcome) = trees_merged(
                    old(self).tree(),
                    old(self).git(),
                    ours@,
                    theirs@,
                    bases@,
                    ancestor,
                    steps@,
                    contents@,
                    *options,
                );
                &&& final(self).tree() == after
                &&& match outcome {
                    Err(refusal) => fs::declined(r, refusal),
                    Ok((id, conflicts)) => r is Ok && r->Ok_0.tree@ == id && reports(
                        r->Ok_0.conflicts@,
                        conflicts,
                    ),
                }
            }),
    {
        let (tree, conflicts) = self.merge_trees(
            ours,
            theirs,
            bases,
            ancestor,
            steps,
            contents,
            options,
        )?;
        Ok(MergeTreeResult { tree, conflicts: report_conflicts(&conflicts) })
    }

    /// Lists the contents that have to be merged before two trees can be.
    pub fn content_questions(
        &self,
        base: ObjectId,
        ours: ObjectId,
        theirs: ObjectId,
        options: &MergeTreeOptions,
    ) -> (r: Result<Vec<flat_tree::ContentQuestion>>)
        ensures
            asked(
                self.tree(),
                self.git(),
                base@,
                ours@,
                theirs@,
                *options,
                r,
            ),
    {
        let (a, b, c) = self.flatten_three(base, ours, theirs, options.max_object_size)?;
        flat_tree::content_questions(a, b, c, options.max_rename_comparisons)
    }

    /// Lists the contents that have to be merged before two commits can be.
    pub fn merge_tree_questions(
        &mut self,
        ours: ObjectId,
        theirs: ObjectId,
        bases: &[ObjectId],
        ancestor: Option<ObjectId>,
        steps: &[Vec<ContentMerge>],
        options: &MergeTreeOptions,
    ) -> (r: Result<Vec<flat_tree::ContentQuestion>>)
        ensures
            final(self).git() == old(self).git(),
            final(self).work() == old(self).work(),
            ({
                let (after, inputs) = merge_inputs(
                    old(self).tree(),
                    old(self).git(),
                    ours@,
                    theirs@,
                    bases@,
                    ancestor,
                    steps@,
                    *options,
                );
                &&& final(self).tree() == after
                &&& match inputs {
                    Err(refusal) => fs::declined(r, refusal),
                    Ok((a, b, c)) => asked(after, old(self).git(), a, b, c, *options, r),
                }
            }),
    {
        let (a, b, c) = self.find_merge_inputs(ours, theirs, bases, ancestor, steps, options)?;
        self.content_questions(a, b, c, options)
    }
}

/// Whether a result lists the contents that have to be merged before two trees
/// can be.
pub open spec fn asked(
    files: memory::Tree,
    git: Seq<u8>,
    base: Seq<u8>,
    ours: Seq<u8>,
    theirs: Seq<u8>,
    options: MergeTreeOptions,
    r: Result<Vec<flat_tree::ContentQuestion>>,
) -> bool {
    match flat_three(files, git, base, ours, theirs, options.max_object_size) {
        Err(refusal) => fs::declined(r, refusal),
        Ok((a, b, c)) => match flat_tree::aligned_sides(a, b, c, options.max_rename_comparisons) {
            Err(error) => r is Err && r->Err_0 == error,
            Ok(sides) => {
                let paths = id_set::sorted(
                    sides.base.dom().union(sides.ours.dom()).union(sides.theirs.dom()),
                );
                r is Ok && flat_tree::question_models(r->Ok_0@) == flat_tree::questions(
                    sides,
                    paths,
                    paths.len() as int,
                )
            },
        },
    }
}

// ---------------------------------------------------------------------------
// Merging contents

/// How the contents of a path are merged.
#[derive(Debug, PartialEq, Eq)]
pub enum TextQuestion {
    /// As texts, with the labels of the two sides.
    Text {
        base: Vec<u8>,
        ours: Vec<u8>,
        theirs: Vec<u8>,
        ours_label: Vec<u8>,
        theirs_label: Vec<u8>,
    },
    /// Not at all, since a side is no text.
    Binary,
}

/// What a question about contents says.
#[verifier::ext_equal]
pub enum TextModel {
    Text {
        base: Seq<u8>,
        ours: Seq<u8>,
        theirs: Seq<u8>,
        ours_label: Seq<u8>,
        theirs_label: Seq<u8>,
    },
    Binary,
}

impl View for TextQuestion {
    type V = TextModel;

    open spec fn view(&self) -> TextModel {
        match self {
            TextQuestion::Text { base, ours, theirs, ours_label, theirs_label } => TextModel::Text {
                base: base@,
                ours: ours@,
                theirs: theirs@,
                ours_label: ours_label@,
                theirs_label: theirs_label@,
            },
            TextQuestion::Binary => TextModel::Binary,
        }
    }
}

/// The contents of a blob.
pub open spec fn blob_data(files: memory::Tree, git: Seq<u8>, id: Seq<u8>, size: nat) -> core::result::Result<
    Seq<u8>,
    Refusal,
> {
    match storage::stored_object(files, git, id, size) {
        Err(refusal) => Err(refusal),
        Ok((kind, data)) => if kind != ObjectKind::Blob {
            Err(Refusal::Said(Error::InvalidObject("tree entry is not a blob")))
        } else {
            Ok(data)
        },
    }
}

/// How the label of our side reads: the commit where one is named, or the
/// head.
pub open spec fn our_label(label: Option<ObjectId>) -> Seq<u8> {
    match label {
        Some(id) => object::hex_of(id@),
        None => bytes::utf8("HEAD"@),
    }
}

/// How the contents of three blobs are merged: as texts where none of them
/// holds a zero byte.
pub open spec fn text_question(
    files: memory::Tree,
    git: Seq<u8>,
    base: Seq<u8>,
    ours: Seq<u8>,
    theirs: Seq<u8>,
    label: Option<ObjectId>,
    target: Seq<u8>,
    size: nat,
) -> core::result::Result<TextModel, Refusal> {
    match blob_data(files, git, base, size) {
        Err(refusal) => Err(refusal),
        Ok(a) => match blob_data(files, git, ours, size) {
            Err(refusal) => Err(refusal),
            Ok(b) => match blob_data(files, git, theirs, size) {
                Err(refusal) => Err(refusal),
                Ok(c) => if a.contains(0) || b.contains(0) || c.contains(0) {
                    Ok(TextModel::Binary)
                } else {
                    Ok(
                        TextModel::Text {
                            base: a,
                            ours: b,
                            theirs: c,
                            ours_label: our_label(label),
                            theirs_label: object::hex_of(target),
                        },
                    )
                },
            },
        },
    }
}

impl Repository {
    fn read_blob(&self, id: ObjectId, max_size: usize) -> (r: Result<Vec<u8>>)
        ensures
            match blob_data(self.tree(), self.git(), id@, max_size as nat) {
                Ok(data) => r is Ok && r->Ok_0@ == data,
                Err(refusal) => fs::declined(r, refusal),
            },
    {
        let object = self.read_object_raw(id, max_size)?;
        if object.kind() != ObjectKind::Blob {
            return Err(Error::InvalidObject("tree entry is not a blob"));
        }
        Ok(bytes::to_vec(object.data()))
    }

    /// Decides how the contents of a path are merged. `label` names our side
    /// where it is not the head, and `target` their side.
    pub fn text_to_merge(
        &self,
        question: &flat_tree::ContentQuestion,
        label: Option<ObjectId>,
        target: ObjectId,
        max_object_size: usize,
    ) -> (r: Result<TextQuestion>)
        ensures
            match text_question(
                self.tree(),
                self.git(),
                question.base@,
                question.ours@,
                question.theirs@,
                label,
                target@,
                max_object_size as nat,
            ) {
                Ok(text) => r is Ok && r->Ok_0@ == text,
                Err(refusal) => fs::declined(r, refusal),
            },
    {
        let base = self.read_blob(question.base, max_object_size)?;
        let ours = self.read_blob(question.ours, max_object_size)?;
        let theirs = self.read_blob(question.theirs, max_object_size)?;
        if bytes::contains_byte(base.as_slice(), 0) || bytes::contains_byte(ours.as_slice(), 0)
            || bytes::contains_byte(theirs.as_slice(), 0) {
            return Ok(TextQuestion::Binary);
        }
        let ours_label = match label {
            Some(id) => bytes::to_vec(&id.to_hex()),
            None => bytes::to_vec("HEAD".as_bytes()),
        };
        let theirs_label = bytes::to_vec(&target.to_hex());
        Ok(TextQuestion::Text { base, ours, theirs, ours_label, theirs_label })
    }

    /// Stores the merged text of a path, as the merge of the trees takes it.
    pub fn store_merged_text(&mut self, path: &[u8], text: &[u8], conflicted: bool) -> (r: Result<
        ContentMerge,
    >)
        ensures
            final(self).git() == old(self).git(),
            final(self).work() == old(self).work(),
            ({
                let (after, refusal) = storage::put_object(
                    old(self).tree(),
                    old(self).git(),
                    ObjectKind::Blob,
                    text@,
                );
                &&& final(self).tree() == after
                &&& match refusal {
                    Some(refusal) => fs::declined(r, refusal),
                    None => r is Ok && r->Ok_0.path@ == path@ && r->Ok_0.conflicted == conflicted
                        && r->Ok_0.id@ == object::object_id(ObjectKind::Blob, text@),
                }
            }),
    {
        let id = self.write_object(ObjectKind::Blob, text)?;
        Ok(ContentMerge { path: bytes::to_vec(path), id, conflicted })
    }
}

// ---------------------------------------------------------------------------
// The files that note an operation in progress

/// What replacing the first `n` of some of the repository's own files makes of
/// a tree.
pub open spec fn noted(
    files: memory::Tree,
    git: Seq<u8>,
    list: Seq<(Seq<u8>, Seq<u8>)>,
    n: int,
) -> (memory::Tree, Option<Refusal>)
    decreases n,
{
    if n <= 0 {
        (files, None)
    } else {
        let (next, bad) = noted(files, git, list, n - 1);
        if bad is Some {
            (next, bad)
        } else {
            repository::replaced(
                next,
                repository::joined(git, list[n - 1].0),
                list[n - 1].1,
            )
        }
    }
}

/// What removing the first `n` of some of the repository's own files, where
/// they stand, makes of a tree.
pub open spec fn unnoted(files: memory::Tree, git: Seq<u8>, names: Seq<Seq<u8>>, n: int) -> (
    memory::Tree,
    Option<Refusal>,
)
    decreases n,
{
    if n <= 0 {
        (files, None)
    } else {
        let (next, bad) = unnoted(files, git, names, n - 1);
        let p = repository::joined(git, names[n - 1]);
        if bad is Some {
            (next, bad)
        } else if !next.contains_key(p) {
            (next, None)
        } else if next[p] is Directory {
            (next, Some(Refusal::At(Fault::IsDirectory, p)))
        } else {
            (next.remove(p), None)
        }
    }
}

/// The identifier of a commit on a line of its own.
pub open spec fn id_line(id: Seq<u8>) -> Seq<u8> {
    object::hex_of(id).push(10)
}

/// The commit that a note names.
pub open spec fn noted_id(
    files: memory::Tree,
    git: Seq<u8>,
    name: Seq<u8>,
    not_text: Error,
    invalid: Error,
) -> core::result::Result<Seq<u8>, Refusal> {
    match storage::read_at(files, repository::joined(git, name)) {
        Err(refusal) => Err(refusal),
        Ok(data) => {
            let value = worktree_path::line_of(data);
            if !vstd::utf8::valid_utf8(value) {
                Err(Refusal::Said(not_text))
            } else {
                match object::id_of_hex(value) {
                    Some(id) => Ok(id),
                    None => Err(Refusal::Said(invalid)),
                }
            }
        },
    }
}

pub open spec fn orig_head(files: memory::Tree, git: Seq<u8>) -> core::result::Result<
    Seq<u8>,
    Refusal,
> {
    noted_id(
        files,
        git,
        bytes::utf8("ORIG_HEAD"@),
        Error::InvalidRepository("ORIG_HEAD is not ASCII"),
        Error::InvalidRepository("ORIG_HEAD is invalid"),
    )
}

pub open spec fn merge_head(files: memory::Tree, git: Seq<u8>) -> core::result::Result<
    Seq<u8>,
    Refusal,
> {
    noted_id(
        files,
        git,
        bytes::utf8("MERGE_HEAD"@),
        Error::InvalidRepository("MERGE_HEAD is not ASCII"),
        Error::InvalidRepository("MERGE_HEAD is invalid"),
    )
}

/// The replay in progress.
pub open spec fn replay_head(files: memory::Tree, git: Seq<u8>) -> core::result::Result<
    (ReplayKind, Seq<u8>),
    Refusal,
> {
    let not_text = Error::InvalidRepository("replay HEAD is not ASCII");
    let invalid = Error::InvalidRepository("replay HEAD is invalid");
    match noted_id(files, git, bytes::utf8("CHERRY_PICK_HEAD"@), not_text, invalid) {
        Ok(id) => Ok((ReplayKind::CherryPick, id)),
        Err(refusal) => if !crate::ignore::is_absent(refusal) {
            Err(refusal)
        } else {
            match noted_id(files, git, bytes::utf8("REVERT_HEAD"@), not_text, invalid) {
                Ok(id) => Ok((ReplayKind::Revert, id)),
                Err(refusal) => if !crate::ignore::is_absent(refusal) {
                    Err(refusal)
                } else {
                    Err(
                        Refusal::Said(
                            Error::InvalidRepository("no cherry-pick or revert is in progress"),
                        ),
                    )
                },
            }
        },
    }
}

proof fn lemma_note_names()
    ensures
        path::plain(bytes::utf8("ORIG_HEAD"@)) && bytes::utf8("ORIG_HEAD"@).len() > 0,
        path::plain(bytes::utf8("MERGE_HEAD"@)) && bytes::utf8("MERGE_HEAD"@).len() > 0,
        path::plain(bytes::utf8("MERGE_MSG"@)) && bytes::utf8("MERGE_MSG"@).len() > 0,
        path::plain(bytes::utf8("CHERRY_PICK_HEAD"@)) && bytes::utf8("CHERRY_PICK_HEAD"@).len()
            > 0,
        path::plain(bytes::utf8("REVERT_HEAD"@)) && bytes::utf8("REVERT_HEAD"@).len() > 0,
{
    reveal_strlit("ORIG_HEAD");
    reveal_strlit("MERGE_HEAD");
    reveal_strlit("MERGE_MSG");
    reveal_strlit("CHERRY_PICK_HEAD");
    reveal_strlit("REVERT_HEAD");
    bytes::lemma_ascii("ORIG_HEAD"@);
    bytes::lemma_ascii("MERGE_HEAD"@);
    bytes::lemma_ascii("MERGE_MSG"@);
    bytes::lemma_ascii("CHERRY_PICK_HEAD"@);
    bytes::lemma_ascii("REVERT_HEAD"@);
    path::lemma_plain_name(bytes::utf8("ORIG_HEAD"@));
    path::lemma_plain_name(bytes::utf8("MERGE_HEAD"@));
    path::lemma_plain_name(bytes::utf8("MERGE_MSG"@));
    path::lemma_plain_name(bytes::utf8("CHERRY_PICK_HEAD"@));
    path::lemma_plain_name(bytes::utf8("REVERT_HEAD"@));
}

fn line_of_id(id: ObjectId) -> (r: Vec<u8>)
    ensures
        r@ == id_line(id@),
{
    let hex = id.to_hex();
    let mut out = bytes::to_vec(hex.as_slice());
    out.push(10);
    assert(out@ =~= id_line(id@));
    out
}

impl Repository {
    fn read_noted_id(&self, name: &str, not_text: &'static str, invalid: &'static str) -> (r: Result<
        ObjectId,
    >)
        requires
            path::plain(bytes::utf8(name@)),
            bytes::utf8(name@).len() > 0,
        ensures
            match noted_id(
                self.tree(),
                self.git(),
                bytes::utf8(name@),
                Error::InvalidRepository(not_text),
                Error::InvalidRepository(invalid),
            ) {
                Ok(id) => r is Ok && r->Ok_0@ == id,
                Err(refusal) => fs::declined(r, refusal),
            },
    {
        let data = self.read_git_file(name.as_bytes())?;
        let value = worktree_path::cut_newline(data.as_slice());
        if bytes::text_of(value).is_none() {
            return Err(Error::InvalidRepository(not_text));
        }
        match ObjectId::from_hex(value) {
            Ok(id) => Ok(id),
            Err(_) => Err(Error::InvalidRepository(invalid)),
        }
    }

    fn read_orig_head(&self) -> (r: Result<ObjectId>)
        ensures
            match orig_head(self.tree(), self.git()) {
                Ok(id) => r is Ok && r->Ok_0@ == id,
                Err(refusal) => fs::declined(r, refusal),
            },
    {
        proof {
            lemma_note_names();
        }
        self.read_noted_id("ORIG_HEAD", "ORIG_HEAD is not ASCII", "ORIG_HEAD is invalid")
    }

    fn read_merge_head(&self) -> (r: Result<ObjectId>)
        ensures
            match merge_head(self.tree(), self.git()) {
                Ok(id) => r is Ok && r->Ok_0@ == id,
                Err(refusal) => fs::declined(r, refusal),
            },
    {
        proof {
            lemma_note_names();
        }
        self.read_noted_id("MERGE_HEAD", "MERGE_HEAD is not ASCII", "MERGE_HEAD is invalid")
    }

    fn read_replay_head(&self) -> (r: Result<(ReplayKind, ObjectId)>)
        ensures
            match replay_head(self.tree(), self.git()) {
                Ok((kind, id)) => r is Ok && r->Ok_0.0 == kind && r->Ok_0.1@ == id,
                Err(refusal) => fs::declined(r, refusal),
            },
    {
        proof {
            lemma_note_names();
        }
        match self.read_noted_id(
            "CHERRY_PICK_HEAD",
            "replay HEAD is not ASCII",
            "replay HEAD is invalid",
        ) {
            Ok(id) => return Ok((ReplayKind::CherryPick, id)),
            Err(Error::NotFound(_)) => {},
            Err(error) => return Err(error),
        }
        match self.read_noted_id(
            "REVERT_HEAD",
            "replay HEAD is not ASCII",
            "replay HEAD is invalid",
        ) {
            Ok(id) => return Ok((ReplayKind::Revert, id)),
            Err(Error::NotFound(_)) => {},
            Err(error) => return Err(error),
        }
        Err(Error::InvalidRepository("no cherry-pick or revert is in progress"))
    }

    /// Removes one of the repository's own files where it stands.
    fn drop_state_file(&mut self, name: &str) -> (r: Result<()>)
        requires
            path::plain(bytes::utf8(name@)),
            bytes::utf8(name@).len() > 0,
        ensures
            final(self).git() == old(self).git(),
            final(self).work() == old(self).work(),
            ({
                let (tree, refusal) = unnoted(
                    old(self).tree(),
                    old(self).git(),
                    seq![bytes::utf8(name@)],
                    1,
                );
                &&& final(self).tree() == tree
                &&& match refusal {
                    Some(refusal) => fs::declined(r, refusal),
                    None => r is Ok,
                }
            }),
    {
        reveal_with_fuel(unnoted, 2);
        let at = self.git_path(name.as_bytes());
        let mut files = self.swap_files(MemoryFileSystem::new());
        let r = files.remove_file(at.as_slice());
        let _ = self.swap_files(files);
        match r {
            Ok(()) => Ok(()),
            Err(Error::NotFound(_)) => Ok(()),
            Err(error) => Err(error),
        }
    }
}

/// The notes of a merge, and the notes of a replay.
pub open spec fn merge_notes() -> Seq<Seq<u8>> {
    seq![bytes::utf8("MERGE_HEAD"@), bytes::utf8("MERGE_MSG"@)]
}

pub open spec fn replay_notes() -> Seq<Seq<u8>> {
    seq![bytes::utf8("CHERRY_PICK_HEAD"@), bytes::utf8("REVERT_HEAD"@), bytes::utf8("MERGE_MSG"@)]
}

impl Repository {
    /// Forgets a merge in progress.
    pub fn clear_merge_state(&mut self) -> (r: Result<()>)
        ensures
            final(self).git() == old(self).git(),
            final(self).work() == old(self).work(),
            ({
                let (tree, refusal) = unnoted(old(self).tree(), old(self).git(), merge_notes(), 2);
                &&& final(self).tree() == tree
                &&& match refusal {
                    Some(refusal) => fs::declined(r, refusal),
                    None => r is Ok,
                }
            }),
    {
        reveal_with_fuel(unnoted, 3);
        proof {
            lemma_note_names();
        }
        self.drop_state_file("MERGE_HEAD")?;
        self.drop_state_file("MERGE_MSG")
    }

    /// Forgets a replay in progress.
    pub fn clear_replay_state(&mut self) -> (r: Result<()>)
        ensures
            final(self).git() == old(self).git(),
            final(self).work() == old(self).work(),
            ({
                let (tree, refusal) = unnoted(old(self).tree(), old(self).git(), replay_notes(), 3);
                &&& final(self).tree() == tree
                &&& match refusal {
                    Some(refusal) => fs::declined(r, refusal),
                    None => r is Ok,
                }
            }),
    {
        reveal_with_fuel(unnoted, 4);
        proof {
            lemma_note_names();
        }
        self.drop_state_file("CHERRY_PICK_HEAD")?;
        self.drop_state_file("REVERT_HEAD")?;
        self.drop_state_file("MERGE_MSG")
    }
}

// ---------------------------------------------------------------------------
// Deciding on a merge

/// What a merge has to know of the repository: the current commit, how it and
/// the target are related, and whether the working tree is clean.
pub struct MergeFacts {
    pub ours: ObjectId,
    pub target_is_ancestor: bool,
    pub ours_is_ancestor: bool,
    pub clean: bool,
    pub bases: Vec<ObjectId>,
}

/// What a merge does next.
#[derive(Clone, Copy, Debug, PartialEq, Eq)]
pub enum MergeStep {
    /// There is nothing to merge.
    UpToDate { head: ObjectId },
    /// The tree of the target is checked out and the head moves to it.
    FastForward { old: ObjectId, new: ObjectId, tree: ObjectId },
    /// The trees are merged.
    ThreeWay,
}

/// What a step says.
pub enum StepModel {
    UpToDate(Seq<u8>),
    FastForward(Seq<u8>, Seq<u8>, Seq<u8>),
    ThreeWay,
}

impl View for MergeStep {
    type V = StepModel;

    open spec fn view(&self) -> StepModel {
        match self {
            MergeStep::UpToDate { head } => StepModel::UpToDate(head@),
            MergeStep::FastForward { old: a, new: b, tree: c } => StepModel::FastForward(a@, b@, c@),
            MergeStep::ThreeWay => StepModel::ThreeWay,
        }
    }
}

/// What a merge does next, or why it is refused.
pub open spec fn merge_step(
    files: memory::Tree,
    git: Seq<u8>,
    has_work_tree: bool,
    facts: MergeFacts,
    target: Seq<u8>,
    options: MergeOptions,
) -> core::result::Result<StepModel, Refusal> {
    let size = options.max_object_size as nat;
    if !has_work_tree {
        Err(Refusal::Said(Error::InvalidRepository("merge requires a working tree")))
    } else if files.contains_key(repository::joined(git, bytes::utf8("MERGE_HEAD"@))) {
        Err(Refusal::Said(Error::InvalidRepository("a merge is already in progress")))
    } else if options.message@.contains(0) {
        Err(Refusal::Said(Error::InvalidCommit("merge message contains NUL")))
    } else {
        match stored_commit(files, git, facts.ours@, size) {
            Err(refusal) => Err(refusal),
            Ok(_) => match stored_commit(files, git, target, size) {
                Err(refusal) => Err(refusal),
                Ok(model) => if facts.target_is_ancestor {
                    Ok(StepModel::UpToDate(facts.ours@))
                } else if facts.ours_is_ancestor && options.fast_forward
                    != FastForwardMode::Never {
                    Ok(StepModel::FastForward(facts.ours@, target, model.tree))
                } else if options.fast_forward == FastForwardMode::Only {
                    Err(Refusal::Said(Error::ReferenceConflict("merge is not a fast-forward")))
                } else if !facts.clean {
                    Err(
                        Refusal::Said(
                            Error::InvalidRepository("cannot merge with staged or unstaged changes"),
                        ),
                    )
                } else if facts.bases@.len() == 0 {
                    Err(
                        Refusal::Said(
                            Error::InvalidRepository("refusing to merge unrelated histories"),
                        ),
                    )
                } else {
                    Ok(StepModel::ThreeWay)
                },
            },
        }
    }
}

/// The commit that a merge makes.
pub open spec fn merge_commit(
    ours: Seq<u8>,
    target: Seq<u8>,
    tree: Seq<u8>,
    message: Seq<u8>,
    committer: SignatureModel,
) -> CommitModel {
    CommitModel {
        tree,
        parents: seq![ours, target],
        author: committer,
        committer,
        message,
    }
}

/// What writing a commit makes of a tree.
pub open spec fn committed(files: memory::Tree, git: Seq<u8>, model: CommitModel) -> (
    memory::Tree,
    Option<Refusal>,
) {
    storage::put_object(files, git, ObjectKind::Commit, commit::commit_text(model))
}

/// How the head moves to a commit that was made from it.
pub open spec fn head_move(old_id: Seq<u8>, new_id: Seq<u8>, message: Seq<u8>) -> HeadLogModel {
    HeadLogModel { before: old_id, after: new_id, message }
}

fn make_move(before: ObjectId, after: ObjectId, message: &str) -> (r: HeadLog)
    ensures
        r@ == head_move(before@, after@, bytes::utf8(message@)),
{
    HeadLog { before, after, message: bytes::to_vec(message.as_bytes()) }
}

/// The identifier of a commit.
pub open spec fn commit_id(model: CommitModel) -> Seq<u8> {
    object::object_id(ObjectKind::Commit, commit::commit_text(model))
}

/// What a finished merge of trees leads to.
pub open spec fn conclusion(
    files: memory::Tree,
    git: Seq<u8>,
    ours: Seq<u8>,
    target: Seq<u8>,
    tree: Seq<u8>,
    conflicted: bool,
    options: MergeOptions,
    committer: SignatureModel,
) -> (memory::Tree, Option<Refusal>) {
    let notes = seq![
        (bytes::utf8("ORIG_HEAD"@), id_line(ours)),
        (bytes::utf8("MERGE_HEAD"@), id_line(target)),
        (bytes::utf8("MERGE_MSG"@), options.message@),
    ];
    let (next, bad) = noted(files, git, notes, 3);
    if bad is Some || conflicted || options.no_commit {
        (next, bad)
    } else {
        committed(next, git, merge_commit(ours, target, tree, options.message@, committer))
    }
}

/// The paths of some conflicts in ascending order.
pub open spec fn conflicted_paths(list: Seq<flat_tree::ConflictModel>) -> Seq<Seq<u8>> {
    id_set::sorted(staging::conflict_paths(list))
}

/// Whether a merge ended as it must once its conflicts were put in the index.
pub open spec fn merge_ends(
    before: memory::Tree,
    after: memory::Tree,
    git: Seq<u8>,
    ours: Seq<u8>,
    target: Seq<u8>,
    tree: ObjectId,
    conflicts: Seq<flat_tree::ConflictModel>,
    options: MergeOptions,
    committer: SignatureModel,
    r: Result<(MergeResult, Option<HeadLog>)>,
) -> bool {
    let paths = conflicted_paths(conflicts);
    let (done, refusal) = conclusion(
        before,
        git,
        ours,
        target,
        tree@,
        paths.len() > 0,
        options,
        committer,
    );
    &&& after == done
    &&& match refusal {
        Some(refusal) => fs::declined(r, refusal),
        None => r is Ok && if paths.len() > 0 {
            &&& r->Ok_0.0 is Conflicted && bytes::deep((r->Ok_0.0->paths)@) == paths
            &&& r->Ok_0.1 is None
        } else if options.no_commit {
            r->Ok_0.0 == (MergeResult::Prepared { tree }) && r->Ok_0.1 is None
        } else {
            let id = commit_id(merge_commit(ours, target, tree@, options.message@, committer));
            &&& r->Ok_0.0 is Merged && (r->Ok_0.0->commit)@ == id
            &&& r->Ok_0.1 is Some && r->Ok_0.1->0@ == head_move(
                ours,
                id,
                bytes::utf8("merge: made merge commit"@),
            )
        },
    }
}

fn two_parents(a: ObjectId, b: ObjectId) -> (r: Vec<ObjectId>)
    ensures
        commit::raw_ids(r@) == seq![a@, b@],
{
    let mut out: Vec<ObjectId> = Vec::new();
    out.push(a);
    out.push(b);
    assert(commit::raw_ids(out@) =~= seq![a@, b@]);
    out
}

impl Repository {
    /// Decides what a merge does next.
    pub fn merge(&self, target: ObjectId, facts: &MergeFacts, options: &MergeOptions) -> (r: Result<
        MergeStep,
    >)
        ensures
            match merge_step(
                self.tree(),
                self.git(),
                self.work() is Some,
                *facts,
                target@,
                *options,
            ) {
                Ok(step) => r is Ok && r->Ok_0@ == step,
                Err(refusal) => fs::declined(r, refusal),
            },
    {
        proof {
            lemma_note_names();
        }
        if self.work_tree().is_none() {
            return Err(Error::InvalidRepository("merge requires a working tree"));
        }
        let note = self.git_path("MERGE_HEAD".as_bytes());
        if self.filesystem().is_present(note.as_slice())? {
            return Err(Error::InvalidRepository("a merge is already in progress"));
        }
        if bytes::contains_byte(options.message.as_slice(), 0) {
            return Err(Error::InvalidCommit("merge message contains NUL"));
        }
        let _ = self.read_commit(facts.ours, options.max_object_size)?;
        let parsed = self.read_commit(target, options.max_object_size)?;
        if facts.target_is_ancestor {
            return Ok(MergeStep::UpToDate { head: facts.ours });
        }
        if facts.ours_is_ancestor && options.fast_forward != FastForwardMode::Never {
            return Ok(
                MergeStep::FastForward { old: facts.ours, new: target, tree: parsed.tree() },
            );
        }
        if options.fast_forward == FastForwardMode::Only {
            return Err(Error::ReferenceConflict("merge is not a fast-forward"));
        }
        if !facts.clean {
            return Err(Error::InvalidRepository("cannot merge with staged or unstaged changes"));
        }
        if facts.bases.len() == 0 {
            return Err(Error::InvalidRepository("refusing to merge unrelated histories"));
        }
        Ok(MergeStep::ThreeWay)
    }

    /// Writes a commit and gives its identifier.
    pub fn write_commit(&mut self, commit: &Commit) -> (r: Result<ObjectId>)
        ensures
            final(self).git() == old(self).git(),
            final(self).work() == old(self).work(),
            ({
                let (tree, refusal) = storage::put_object(
                    old(self).tree(),
                    old(self).git(),
                    ObjectKind::Commit,
                    commit::commit_text(commit@),
                );
                &&& final(self).tree() == tree
                &&& match refusal {
                    Some(refusal) => fs::declined(r, refusal),
                    None => r is Ok && r->Ok_0@ == commit_id(commit@),
                }
            }),
    {
        let data = commit.encode();
        self.write_object(ObjectKind::Commit, data.as_slice())
    }

    fn finish_merge_commit(
        &mut self,
        ours: ObjectId,
        target: ObjectId,
        tree: ObjectId,
        message: &[u8],
        committer: &Signature,
    ) -> (r: Result<ObjectId>)
        ensures
            final(self).git() == old(self).git(),
            final(self).work() == old(self).work(),
            ({
                let model = merge_commit(ours@, target@, tree@, message@, committer@);
                let (after, refusal) = committed(old(self).tree(), old(self).git(), model);
                &&& final(self).tree() == after
                &&& match refusal {
                    Some(refusal) => fs::declined(r, refusal),
                    None => r is Ok && r->Ok_0@ == commit_id(model),
                }
            }),
    {
        let made = Commit::new(
            tree,
            two_parents(ours, target),
            committer.copy(),
            committer.copy(),
            bytes::to_vec(message),
        );
        self.write_commit(&made)
    }

    /// Ends a fast-forward, once the tree of the target is checked out: notes
    /// where the head stood, and says how it moves.
    pub fn conclude_fast_forward(&mut self, ours: ObjectId, target: ObjectId) -> (r: Result<HeadLog>)
        ensures
            final(self).git() == old(self).git(),
            final(self).work() == old(self).work(),
            ({
                let (after, refusal) = repository::replaced(
                    old(self).tree(),
                    repository::joined(old(self).git(), bytes::utf8("ORIG_HEAD"@)),
                    id_line(ours@),
                );
                &&& final(self).tree() == after
                &&& match refusal {
                    Some(refusal) => fs::declined(r, refusal),
                    None => r is Ok && r->Ok_0@ == head_move(
                        ours@,
                        target@,
                        bytes::utf8("merge: Fast-forward"@),
                    ),
                }
            }),
    {
        proof {
            lemma_note_names();
        }
        self.write_atomic("ORIG_HEAD".as_bytes(), line_of_id(ours).as_slice())?;
        Ok(make_move(ours, target, "merge: Fast-forward"))
    }

    fn end_merge(
        &mut self,
        ours: ObjectId,
        target: ObjectId,
        tree: ObjectId,
        paths: Vec<Vec<u8>>,
        Ghost(conflicts): Ghost<Seq<flat_tree::ConflictModel>>,
        options: &MergeOptions,
        committer: &Signature,
    ) -> (r: Result<(MergeResult, Option<HeadLog>)>)
        requires
            bytes::deep(paths@) == conflicted_paths(conflicts),
        ensures
            final(self).git() == old(self).git(),
            final(self).work() == old(self).work(),
            merge_ends(
                old(self).tree(),
                final(self).tree(),
                old(self).git(),
                ours@,
                target@,
                tree,
                conflicts,
                *options,
                committer@,
                r,
            ),
    {
        reveal_with_fuel(noted, 4);
        proof {
            lemma_note_names();
        }
        self.write_atomic("ORIG_HEAD".as_bytes(), line_of_id(ours).as_slice())?;
        self.write_atomic("MERGE_HEAD".as_bytes(), line_of_id(target).as_slice())?;
        self.write_atomic("MERGE_MSG".as_bytes(), options.message.as_slice())?;
        if paths.len() > 0 {
            return Ok((MergeResult::Conflicted { paths }, None));
        }
        if options.no_commit {
            return Ok((MergeResult::Prepared { tree }, None));
        }
        let id = self.finish_merge_commit(
            ours,
            target,
            tree,
            options.message.as_slice(),
            committer,
        )?;
        let log = make_move(ours, id, "merge: made merge commit");
        Ok((MergeResult::Merged { commit: id }, Some(log)))
    }

    /// Ends a merge of trees: puts its conflicts in the index, notes it, and
    /// commits a clean result unless asked not to. The caller then moves the
    /// head as told and forgets the merge.
    pub fn conclude_merge(
        &mut self,
        ours: ObjectId,
        target: ObjectId,
        tree: ObjectId,
        conflicts: &Vec<Conflict>,
        options: &MergeOptions,
        committer: &Signature,
    ) -> (r: Result<(MergeResult, Option<HeadLog>)>)
        ensures
            final(self).git() == old(self).git(),
            final(self).work() == old(self).work(),
            if options.message@.contains(0) {
                &&& r is Err && r->Err_0 == Error::InvalidCommit("merge message contains NUL")
                &&& final(self).tree() == old(self).tree()
            } else {
                exists|middle: memory::Tree, bad: Option<Refusal>| #[trigger]
                    staging::conflicts_staged(
                        old(self).tree(),
                        middle,
                        old(self).git(),
                        flat_tree::conflict_models(conflicts@),
                        bad,
                    ) && (match bad {
                        Some(bad) => fs::declined(r, bad) && final(self).tree() == middle,
                        None => merge_ends(
                            middle,
                            final(self).tree(),
                            old(self).git(),
                            ours@,
                            target@,
                            tree,
                            flat_tree::conflict_models(conflicts@),
                            *options,
                            committer@,
                            r,
                        ),
                    })
            },
    {
        if bytes::contains_byte(options.message.as_slice(), 0) {
            return Err(Error::InvalidCommit("merge message contains NUL"));
        }
        let paths = self.stage_conflicts(conflicts)?;
        self.end_merge(
            ours,
            target,
            tree,
            paths,
            Ghost(flat_tree::conflict_models(conflicts@)),
            options,
            committer,
        )
    }
}

// ---------------------------------------------------------------------------
// Going on with a merge, or giving it up

/// Whether an index holds sides of a conflict.
pub open spec fn unresolved(list: Seq<index::EntryModel>) -> bool {
    exists|i: int| 0 <= i < list.len() && (#[trigger] list[i]).stage != 0
}

/// Why an operation cannot go on.
pub open spec fn blocked(
    files: memory::Tree,
    git: Seq<u8>,
    head: Seq<u8>,
    moved: Error,
    conflicts: Error,
) -> Option<Refusal> {
    match orig_head(files, git) {
        Err(refusal) => Some(refusal),
        Ok(id) => if id != head {
            Some(Refusal::Said(moved))
        } else {
            match fsck::index_of(files, git) {
                Err(refusal) => Some(refusal),
                Ok(model) => if unresolved(model.entries) {
                    Some(Refusal::Said(conflicts))
                } else {
                    None
                },
            }
        },
    }
}

/// The message of a merge in progress.
pub open spec fn merge_message(files: memory::Tree, git: Seq<u8>, message: Option<Seq<u8>>) -> core::result::Result<
    Seq<u8>,
    Refusal,
> {
    match message {
        Some(message) => Ok(message),
        None => storage::read_at(files, repository::joined(git, bytes::utf8("MERGE_MSG"@))),
    }
}

/// What writing the index of an operation in progress as a tree makes of the
/// files, with the tree.
pub open spec fn settled(files: memory::Tree, git: Seq<u8>) -> (
    memory::Tree,
    core::result::Result<Seq<u8>, Refusal>,
) {
    match fsck::index_of(files, git) {
        Err(refusal) => (files, Err(refusal)),
        Ok(model) => staging::index_written(files, git, model.entries),
    }
}

/// What going on with a merge makes of the files, and the commit that it
/// makes: the index becomes its tree.
pub open spec fn continued_merge(
    files: memory::Tree,
    git: Seq<u8>,
    head: Seq<u8>,
    message: Option<Seq<u8>>,
    committer: SignatureModel,
) -> (memory::Tree, core::result::Result<Seq<u8>, Refusal>) {
    match merge_head(files, git) {
        Err(refusal) => (files, Err(refusal)),
        Ok(target) => match blocked(
            files,
            git,
            head,
            Error::ReferenceConflict("HEAD changed during the merge"),
            Error::InvalidRepository("cannot continue with unresolved merge entries"),
        ) {
            Some(refusal) => (files, Err(refusal)),
            None => {
                let (next, outcome) = settled(files, git);
                match outcome {
                    Err(refusal) => (next, Err(refusal)),
                    Ok(tree) => match merge_message(next, git, message) {
                        Err(refusal) => (next, Err(refusal)),
                        Ok(text) => {
                            let model = merge_commit(head, target, tree, text, committer);
                            let (after, refusal) = committed(next, git, model);
                            match refusal {
                                Some(refusal) => (after, Err(refusal)),
                                None => (after, Ok(commit_id(model))),
                            }
                        },
                    },
                }
            },
        },
    }
}

/// The commit that was current before an operation, and its tree.
pub open spec fn head_before(files: memory::Tree, git: Seq<u8>, size: nat) -> core::result::Result<
    (Seq<u8>, Seq<u8>),
    Refusal,
> {
    match orig_head(files, git) {
        Err(refusal) => Err(refusal),
        Ok(id) => match stored_commit(files, git, id, size) {
            Err(refusal) => Err(refusal),
            Ok(model) => Ok((id, model.tree)),
        },
    }
}

/// What giving up an operation goes back to: the tree to check out by force,
/// and how the head moves where it moved meanwhile.
#[derive(Debug, PartialEq, Eq)]
pub struct AbortPlan {
    pub commit: ObjectId,
    pub tree: ObjectId,
    pub moved: Option<HeadLog>,
}

/// What a plan to give up says.
#[verifier::ext_equal]
pub struct AbortModel {
    pub commit: Seq<u8>,
    pub tree: Seq<u8>,
    pub moved: Option<HeadLogModel>,
}

impl View for AbortPlan {
    type V = AbortModel;

    open spec fn view(&self) -> AbortModel {
        AbortModel {
            commit: self.commit@,
            tree: self.tree@,
            moved: match self.moved {
                Some(log) => Some(log@),
                None => None,
            },
        }
    }
}

/// The plan to go back to a commit from the current one.
pub open spec fn abort_plan(current: Seq<u8>, id: Seq<u8>, tree: Seq<u8>) -> AbortModel {
    AbortModel {
        commit: id,
        tree,
        moved: if current == id {
            None
        } else {
            Some(head_move(current, id, bytes::utf8("reset: moving to ORIG_HEAD"@)))
        },
    }
}

impl Repository {
    fn plan_abort(&self, current: ObjectId, max_object_size: usize) -> (r: Result<AbortPlan>)
        ensures
            match head_before(self.tree(), self.git(), max_object_size as nat) {
                Err(refusal) => fs::declined(r, refusal),
                Ok((id, tree)) => r is Ok && r->Ok_0@ == abort_plan(current@, id, tree),
            },
    {
        let id = self.read_orig_head()?;
        let parsed = self.read_commit(id, max_object_size)?;
        let moved = if current.same(&id) {
            None
        } else {
            Some(make_move(current, id, "reset: moving to ORIG_HEAD"))
        };
        Ok(AbortPlan { commit: id, tree: parsed.tree(), moved })
    }

    fn check_unblocked(&self, head: ObjectId, moved: &'static str, conflicts: &'static str) -> (r: Result<
        Index,
    >)
        ensures
            match blocked(
                self.tree(),
                self.git(),
                head@,
                Error::ReferenceConflict(moved),
                Error::InvalidRepository(conflicts),
            ) {
                Some(refusal) => fs::declined(r, refusal),
                None => r is Ok && fsck::index_of(self.tree(), self.git()) == Ok::<
                    index::IndexModel,
                    Refusal,
                >(r->Ok_0@),
            },
    {
        let before = self.read_orig_head()?;
        if !before.same(&head) {
            return Err(Error::ReferenceConflict(moved));
        }
        let parsed = self.read_index()?;
        assert(fsck::index_of(self.tree(), self.git()) == Ok::<index::IndexModel, Refusal>(
            parsed@,
        ));
        let entries = parsed.entries();
        let ghost list = index::models(entries@);
        let mut i: usize = 0;
        while i < entries.len()
            invariant
                i <= entries@.len(),
                list == index::models(entries@),
                list == parsed@.entries,
                orig_head(self.tree(), self.git()) == Ok::<Seq<u8>, Refusal>(head@),
                fsck::index_of(self.tree(), self.git()) == Ok::<index::IndexModel, Refusal>(
                    parsed@,
                ),
                forall|j: int| 0 <= j < i ==> (#[trigger] list[j]).stage == 0,
            decreases entries@.len() - i,
        {
            assert(list[i as int] == entries@[i as int]@);
            if entries[i].stage() != 0 {
                assert(list[i as int].stage != 0);
                return Err(Error::InvalidRepository(conflicts));
            }
            i += 1;
        }
        Ok(parsed)
    }

    /// Commits the resolved index of a merge in progress, and says how the head
    /// moves. The caller gives the current commit, moves the head, and then
    /// forgets the merge.
    pub fn continue_merge(
        &mut self,
        head: ObjectId,
        message: Option<&[u8]>,
        committer: &Signature,
    ) -> (r: Result<HeadLog>)
        ensures
            final(self).git() == old(self).git(),
            final(self).work() == old(self).work(),
            ({
                let (after, outcome) = continued_merge(
                    old(self).tree(),
                    old(self).git(),
                    head@,
                    match message {
                        Some(text) => Some(text@),
                        None => None,
                    },
                    committer@,
                );
                &&& final(self).tree() == after
                &&& match outcome {
                    Err(refusal) => fs::declined(r, refusal),
                    Ok(id) => r is Ok && r->Ok_0@ == head_move(
                        head@,
                        id,
                        bytes::utf8("merge: made merge commit"@),
                    ),
                }
            }),
    {
        proof {
            lemma_note_names();
        }
        let target = self.read_merge_head()?;
        let parsed = self.check_unblocked(
            head,
            "HEAD changed during the merge",
            "cannot continue with unresolved merge entries",
        )?;
        let tree = self.write_index_tree(&parsed)?;
        let text = match message {
            Some(text) => bytes::to_vec(text),
            None => self.read_git_file("MERGE_MSG".as_bytes())?,
        };
        let id = self.finish_merge_commit(head, target, tree, text.as_slice(), committer)?;
        Ok(make_move(head, id, "merge: made merge commit"))
    }

    /// Finds what giving up a merge goes back to. The caller checks the tree
    /// out, moves the head where told, and then forgets the merge.
    pub fn abort_merge(&self, current: ObjectId, max_object_size: usize) -> (r: Result<AbortPlan>)
        ensures
            match merge_head(self.tree(), self.git()) {
                Err(refusal) => fs::declined(r, refusal),
                Ok(_) => match head_before(self.tree(), self.git(), max_object_size as nat) {
                    Err(refusal) => fs::declined(r, refusal),
                    Ok((id, tree)) => r is Ok && r->Ok_0@ == abort_plan(current@, id, tree),
                },
            },
    {
        let _ = self.read_merge_head()?;
        self.plan_abort(current, max_object_size)
    }
}

// ---------------------------------------------------------------------------
// Replaying a commit

/// The parent that a commit is replayed against.
pub open spec fn replay_parent(parents: Seq<Seq<u8>>, mainline: Option<usize>) -> core::result::Result<
    Option<Seq<u8>>,
    Error,
> {
    if parents.len() == 0 {
        if mainline is Some {
            Err(Error::InvalidCommit("mainline parent specified for a root commit"))
        } else {
            Ok(None)
        }
    } else if parents.len() == 1 {
        if mainline is Some {
            Err(Error::InvalidCommit("mainline parent specified for a non-merge commit"))
        } else {
            Ok(Some(parents[0]))
        }
    } else {
        match mainline {
            Some(number) => if 1 <= number <= parents.len() {
                Ok(Some(parents[number - 1]))
            } else {
                Err(Error::InvalidCommit("merge commit requires a valid mainline"))
            },
            None => Err(Error::InvalidCommit("merge commit requires a valid mainline")),
        }
    }
}

/// The first line of a message.
pub open spec fn subject(message: Seq<u8>) -> Seq<u8> {
    bytes::split(message, 10)[0]
}

/// The message of a replayed commit.
pub open spec fn replay_message(
    kind: ReplayKind,
    target: Seq<u8>,
    message: Seq<u8>,
    mainline: Option<usize>,
) -> Seq<u8> {
    match kind {
        ReplayKind::CherryPick => message,
        ReplayKind::Revert => bytes::utf8("Revert \""@) + subject(message) + bytes::utf8(
            "\"\n\nThis reverts commit "@,
        ) + object::hex_of(target) + (match mainline {
            Some(number) => bytes::utf8(", reversing changes made to its parent "@)
                + bytes::decimal(number as nat),
            None => Seq::empty(),
        }) + bytes::utf8(".\n"@),
    }
}

/// What a replay merges: the trees of the base, of the current commit and of
/// the other side, and the message.
pub struct ReplayPlan {
    pub base: ObjectId,
    pub ours: ObjectId,
    pub theirs: ObjectId,
    pub message: Vec<u8>,
    pub author: Signature,
}

/// What a plan says.
#[verifier::ext_equal]
pub struct PlanModel {
    pub base: Seq<u8>,
    pub ours: Seq<u8>,
    pub theirs: Seq<u8>,
    pub message: Seq<u8>,
    pub author: SignatureModel,
}

pub open spec fn raw_id(id: Option<ObjectId>) -> Option<Seq<u8>> {
    match id {
        Some(id) => Some(id@),
        None => None,
    }
}

impl View for ReplayPlan {
    type V = PlanModel;

    open spec fn view(&self) -> PlanModel {
        PlanModel {
            base: self.base@,
            ours: self.ours@,
            theirs: self.theirs@,
            message: self.message@,
            author: self.author@,
        }
    }
}

/// Whether a merge or a replay is in progress.
pub open spec fn busy(files: memory::Tree, git: Seq<u8>) -> bool {
    ||| files.contains_key(repository::joined(git, bytes::utf8("CHERRY_PICK_HEAD"@)))
    ||| files.contains_key(repository::joined(git, bytes::utf8("REVERT_HEAD"@)))
    ||| files.contains_key(repository::joined(git, bytes::utf8("MERGE_HEAD"@)))
}

/// What finding the tree that a commit is replayed against makes of the files,
/// with the tree; for a commit without parents the empty tree is written.
pub open spec fn parent_tree(
    files: memory::Tree,
    git: Seq<u8>,
    picked: CommitModel,
    options: ReplayOptions,
) -> (memory::Tree, core::result::Result<Seq<u8>, Refusal>) {
    match replay_parent(picked.parents, options.mainline) {
        Err(error) => (files, Err(Refusal::Said(error))),
        Ok(None) => empty_written(files, git),
        Ok(Some(parent)) => (
            files,
            commit_tree(files, git, parent, options.max_object_size as nat),
        ),
    }
}

/// Why a replay cannot start, or the current and the picked commit.
pub open spec fn replay_start(
    files: memory::Tree,
    git: Seq<u8>,
    has_work_tree: bool,
    head: Seq<u8>,
    clean: bool,
    target: Seq<u8>,
    size: nat,
) -> core::result::Result<(CommitModel, CommitModel), Refusal> {
    if !has_work_tree {
        Err(Refusal::Said(Error::InvalidRepository("commit replay requires a working tree")))
    } else if busy(files, git) {
        Err(
            Refusal::Said(
                Error::InvalidRepository("another merge or replay is already in progress"),
            ),
        )
    } else if !clean {
        Err(
            Refusal::Said(
                Error::InvalidRepository("cannot replay with staged or unstaged changes"),
            ),
        )
    } else {
        match stored_commit(files, git, head, size) {
            Err(refusal) => Err(refusal),
            Ok(current) => match stored_commit(files, git, target, size) {
                Err(refusal) => Err(refusal),
                Ok(picked) => Ok((current, picked)),
            },
        }
    }
}

/// What a replay merges, and what finding it makes of the files.
pub open spec fn replay_plan(
    files: memory::Tree,
    git: Seq<u8>,
    has_work_tree: bool,
    head: Seq<u8>,
    clean: bool,
    target: Seq<u8>,
    kind: ReplayKind,
    options: ReplayOptions,
    committer: SignatureModel,
) -> (memory::Tree, core::result::Result<PlanModel, Refusal>) {
    let size = options.max_object_size as nat;
    match replay_start(files, git, has_work_tree, head, clean, target, size) {
        Err(refusal) => (files, Err(refusal)),
        Ok((current, picked)) => {
            let (after, parent) = parent_tree(files, git, picked, options);
            let message = replay_message(kind, target, picked.message, options.mainline);
            match parent {
                Err(refusal) => (after, Err(refusal)),
                Ok(parent) => (
                    after,
                    Ok(
                        if kind == ReplayKind::CherryPick {
                            PlanModel {
                                base: parent,
                                ours: current.tree,
                                theirs: picked.tree,
                                message,
                                author: picked.author,
                            }
                        } else {
                            PlanModel {
                                base: picked.tree,
                                ours: current.tree,
                                theirs: parent,
                                message,
                                author: committer,
                            }
                        },
                    ),
                ),
            }
        },
    }
}

/// How the log of the head calls a replay.
pub open spec fn replay_action(kind: ReplayKind) -> Seq<u8> {
    match kind {
        ReplayKind::CherryPick => bytes::utf8("cherry-pick: applied commit"@),
        ReplayKind::Revert => bytes::utf8("revert: reverted commit"@),
    }
}

/// The note that a replay leaves.
pub open spec fn replay_note(kind: ReplayKind) -> Seq<u8> {
    match kind {
        ReplayKind::CherryPick => bytes::utf8("CHERRY_PICK_HEAD"@),
        ReplayKind::Revert => bytes::utf8("REVERT_HEAD"@),
    }
}

/// The commit that a replay makes.
pub open spec fn replayed_commit(
    head: Seq<u8>,
    tree: Seq<u8>,
    message: Seq<u8>,
    author: SignatureModel,
    committer: SignatureModel,
) -> CommitModel {
    CommitModel { tree, parents: seq![head], author, committer, message }
}

/// The files that note a replay with conflicts.
pub open spec fn replay_files(
    head: Seq<u8>,
    target: Seq<u8>,
    kind: ReplayKind,
    message: Seq<u8>,
) -> Seq<(Seq<u8>, Seq<u8>)> {
    seq![
        (bytes::utf8("ORIG_HEAD"@), id_line(head)),
        (replay_note(kind), id_line(target)),
        (bytes::utf8("MERGE_MSG"@), message),
    ]
}

/// Whether a replay ended as it must once its conflicts were put in the index.
pub open spec fn replay_ends(
    before: memory::Tree,
    after: memory::Tree,
    git: Seq<u8>,
    head: Seq<u8>,
    target: Seq<u8>,
    kind: ReplayKind,
    plan: ReplayPlan,
    tree: ObjectId,
    conflicts: Seq<flat_tree::ConflictModel>,
    options: ReplayOptions,
    committer: SignatureModel,
    r: Result<(ReplayResult, Option<HeadLog>)>,
) -> bool {
    let paths = conflicted_paths(conflicts);
    if paths.len() > 0 {
        let (done, refusal) = noted(
            before,
            git,
            replay_files(head, target, kind, plan.message@),
            3,
        );
        &&& after == done
        &&& match refusal {
            Some(refusal) => fs::declined(r, refusal),
            None => r is Ok && r->Ok_0.0 is Conflicted && bytes::deep((r->Ok_0.0->paths)@) == paths
                && r->Ok_0.1 is None,
        }
    } else if tree@ == plan.ours@ && !options.allow_empty {
        r is Err && r->Err_0 == Error::EmptyReplay && after == before
    } else if options.no_commit {
        &&& r is Ok && r->Ok_0.0 == (ReplayResult::Prepared { tree }) && r->Ok_0.1 is None
        &&& after == before
    } else {
        let model = replayed_commit(head, tree@, plan.message@, plan.author@, committer);
        let (done, refusal) = committed(before, git, model);
        &&& after == done
        &&& match refusal {
            Some(refusal) => fs::declined(r, refusal),
            None => {
                &&& r is Ok && r->Ok_0.0 is Committed && (r->Ok_0.0->commit)@ == commit_id(model)
                &&& r->Ok_0.1 is Some && r->Ok_0.1->0@ == head_move(
                    head,
                    commit_id(model),
                    replay_action(kind),
                )
            },
        }
    }
}

fn make_replay_message(kind: ReplayKind, target: ObjectId, message: &[u8], mainline: Option<usize>) -> (r: Vec<
    u8,
>)
    ensures
        r@ == replay_message(kind, target@, message@, mainline),
{
    match kind {
        ReplayKind::CherryPick => bytes::to_vec(message),
        ReplayKind::Revert => {
            let lines = bytes::split_on(message, 10);
            proof {
                bytes::lemma_split_nonempty(message@, 10);
                assert(bytes::deep(lines@)[0] == lines@[0]@);
            }
            let mut out = bytes::to_vec("Revert \"".as_bytes());
            bytes::append(&mut out, lines[0].as_slice());
            bytes::append(&mut out, "\"\n\nThis reverts commit ".as_bytes());
            let hex = target.to_hex();
            bytes::append(&mut out, hex.as_slice());
            match mainline {
                Some(number) => {
                    bytes::append(
                        &mut out,
                        ", reversing changes made to its parent ".as_bytes(),
                    );
                    bytes::push_decimal(&mut out, number as u64);
                },
                None => {},
            }
            bytes::append(&mut out, ".\n".as_bytes());
            assert(out@ =~= replay_message(kind, target@, message@, mainline));
            out
        },
    }
}

fn choose_parent(parents: &[ObjectId], mainline: Option<usize>) -> (r: Result<Option<ObjectId>>)
    ensures
        match replay_parent(commit::raw_ids(parents@), mainline) {
            Ok(parent) => r is Ok && raw_id(r->Ok_0) == parent,
            Err(error) => r is Err && r->Err_0 == error,
        },
{
    let ghost all = commit::raw_ids(parents@);
    if parents.len() == 0 {
        if mainline.is_some() {
            return Err(Error::InvalidCommit("mainline parent specified for a root commit"));
        }
        return Ok(None);
    }
    if parents.len() == 1 {
        if mainline.is_some() {
            return Err(Error::InvalidCommit("mainline parent specified for a non-merge commit"));
        }
        assert(all[0] == parents@[0]@);
        return Ok(Some(parents[0]));
    }
    match mainline {
        Some(number) => {
            if number >= 1 && number <= parents.len() {
                assert(all[number - 1] == parents@[number - 1]@);
                Ok(Some(parents[number - 1]))
            } else {
                Err(Error::InvalidCommit("merge commit requires a valid mainline"))
            }
        },
        None => Err(Error::InvalidCommit("merge commit requires a valid mainline")),
    }
}

impl Repository {
    fn is_noted(&self, name: &str) -> (r: Result<bool>)
        requires
            path::plain(bytes::utf8(name@)),
            bytes::utf8(name@).len() > 0,
        ensures
            r == Ok::<bool, Error>(
                self.tree().contains_key(repository::joined(self.git(), bytes::utf8(name@))),
            ),
    {
        let at = self.git_path(name.as_bytes());
        self.filesystem().is_present(at.as_slice())
    }

    /// Decides what replaying a commit, or its reverse, merges.
    pub fn replay_commit(
        &mut self,
        head: ObjectId,
        clean: bool,
        target: ObjectId,
        kind: ReplayKind,
        options: &ReplayOptions,
        committer: &Signature,
    ) -> (r: Result<ReplayPlan>)
        ensures
            final(self).git() == old(self).git(),
            final(self).work() == old(self).work(),
            ({
                let (after, outcome) = replay_plan(
                    old(self).tree(),
                    old(self).git(),
                    old(self).work() is Some,
                    head@,
                    clean,
                    target@,
                    kind,
                    *options,
                    committer@,
                );
                &&& final(self).tree() == after
                &&& match outcome {
                    Ok(plan) => r is Ok && r->Ok_0@ == plan,
                    Err(refusal) => fs::declined(r, refusal),
                }
            }),
    {
        proof {
            lemma_note_names();
        }
        if self.work_tree().is_none() {
            return Err(Error::InvalidRepository("commit replay requires a working tree"));
        }
        if self.is_noted("CHERRY_PICK_HEAD")? || self.is_noted("REVERT_HEAD")? || self.is_noted(
            "MERGE_HEAD",
        )? {
            return Err(Error::InvalidRepository("another merge or replay is already in progress"));
        }
        if !clean {
            return Err(Error::InvalidRepository("cannot replay with staged or unstaged changes"));
        }
        let current = self.read_commit(head, options.max_object_size)?;
        let picked = self.read_commit(target, options.max_object_size)?;
        let parent = match choose_parent(picked.parents(), options.mainline)? {
            None => self.empty_tree()?,
            Some(id) => self.read_commit(id, options.max_object_size)?.tree(),
        };
        let message = make_replay_message(kind, target, picked.message(), options.mainline);
        match kind {
            ReplayKind::CherryPick => Ok(
                ReplayPlan {
                    base: parent,
                    ours: current.tree(),
                    theirs: picked.tree(),
                    message,
                    author: picked.author().copy(),
                },
            ),
            ReplayKind::Revert => Ok(
                ReplayPlan {
                    base: picked.tree(),
                    ours: current.tree(),
                    theirs: parent,
                    message,
                    author: committer.copy(),
                },
            ),
        }
    }

    fn commit_replay(
        &mut self,
        head: ObjectId,
        tree: ObjectId,
        message: &[u8],
        author: &Signature,
        committer: &Signature,
        kind: ReplayKind,
    ) -> (r: Result<HeadLog>)
        ensures
            final(self).git() == old(self).git(),
            final(self).work() == old(self).work(),
            ({
                let model = replayed_commit(head@, tree@, message@, author@, committer@);
                let (after, refusal) = committed(old(self).tree(), old(self).git(), model);
                &&& final(self).tree() == after
                &&& match refusal {
                    Some(refusal) => fs::declined(r, refusal),
                    None => r is Ok && r->Ok_0@ == head_move(
                        head@,
                        commit_id(model),
                        replay_action(kind),
                    ),
                }
            }),
    {
        let mut parents: Vec<ObjectId> = Vec::new();
        parents.push(head);
        assert(commit::raw_ids(parents@) =~= seq![head@]);
        let made = Commit::new(
            tree,
            parents,
            author.copy(),
            committer.copy(),
            bytes::to_vec(message),
        );
        let id = self.write_commit(&made)?;
        match kind {
            ReplayKind::CherryPick => Ok(make_move(head, id, "cherry-pick: applied commit")),
            ReplayKind::Revert => Ok(make_move(head, id, "revert: reverted commit")),
        }
    }

    fn note_replay(&mut self, head: ObjectId, target: ObjectId, kind: ReplayKind, message: &[u8]) -> (r:
        Result<()>)
        ensures
            final(self).git() == old(self).git(),
            final(self).work() == old(self).work(),
            ({
                let (after, refusal) = noted(
                    old(self).tree(),
                    old(self).git(),
                    replay_files(head@, target@, kind, message@),
                    3,
                );
                &&& final(self).tree() == after
                &&& match refusal {
                    Some(refusal) => fs::declined(r, refusal),
                    None => r is Ok,
                }
            }),
    {
        reveal_with_fuel(noted, 4);
        proof {
            lemma_note_names();
        }
        self.write_atomic("ORIG_HEAD".as_bytes(), line_of_id(head).as_slice())?;
        let line = line_of_id(target);
        match kind {
            ReplayKind::CherryPick => self.write_atomic(
                "CHERRY_PICK_HEAD".as_bytes(),
                line.as_slice(),
            )?,
            ReplayKind::Revert => self.write_atomic("REVERT_HEAD".as_bytes(), line.as_slice())?,
        }
        self.write_atomic("MERGE_MSG".as_bytes(), message)
    }

    fn end_replay(
        &mut self,
        head: ObjectId,
        target: ObjectId,
        kind: ReplayKind,
        plan: &ReplayPlan,
        tree: ObjectId,
        paths: Vec<Vec<u8>>,
        Ghost(conflicts): Ghost<Seq<flat_tree::ConflictModel>>,
        options: &ReplayOptions,
        committer: &Signature,
    ) -> (r: Result<(ReplayResult, Option<HeadLog>)>)
        requires
            bytes::deep(paths@) == conflicted_paths(conflicts),
        ensures
            final(self).git() == old(self).git(),
            final(self).work() == old(self).work(),
            replay_ends(
                old(self).tree(),
                final(self).tree(),
                old(self).git(),
                head@,
                target@,
                kind,
                *plan,
                tree,
                conflicts,
                *options,
                committer@,
                r,
            ),
    {
        if paths.len() > 0 {
            self.note_replay(head, target, kind, plan.message.as_slice())?;
            return Ok((ReplayResult::Conflicted { paths }, None));
        }
        if tree.same(&plan.ours) && !options.allow_empty {
            return Err(Error::EmptyReplay);
        }
        if options.no_commit {
            return Ok((ReplayResult::Prepared { tree }, None));
        }
        let log = self.commit_replay(
            head,
            tree,
            plan.message.as_slice(),
            &plan.author,
            committer,
            kind,
        )?;
        Ok((ReplayResult::Committed { commit: log.after }, Some(log)))
    }

    /// Ends a replay: puts its conflicts in the index and notes them, or
    /// commits a clean result unless asked not to. A replay that changes
    /// nothing is refused unless allowed. The caller then moves the head as
    /// told and forgets the replay.
    pub fn conclude_replay(
        &mut self,
        head: ObjectId,
        target: ObjectId,
        kind: ReplayKind,
        plan: &ReplayPlan,
        tree: ObjectId,
        conflicts: &Vec<Conflict>,
        options: &ReplayOptions,
        committer: &Signature,
    ) -> (r: Result<(ReplayResult, Option<HeadLog>)>)
        ensures
            final(self).git() == old(self).git(),
            final(self).work() == old(self).work(),
            exists|middle: memory::Tree, bad: Option<Refusal>| #[trigger]
                staging::conflicts_staged(
                    old(self).tree(),
                    middle,
                    old(self).git(),
                    flat_tree::conflict_models(conflicts@),
                    bad,
                ) && (match bad {
                    Some(bad) => fs::declined(r, bad) && final(self).tree() == middle,
                    None => replay_ends(
                        middle,
                        final(self).tree(),
                        old(self).git(),
                        head@,
                        target@,
                        kind,
                        *plan,
                        tree,
                        flat_tree::conflict_models(conflicts@),
                        *options,
                        committer@,
                        r,
                    ),
                }),
    {
        let paths = self.stage_conflicts(conflicts)?;
        self.end_replay(
            head,
            target,
            kind,
            plan,
            tree,
            paths,
            Ghost(flat_tree::conflict_models(conflicts@)),
            options,
            committer,
        )
    }
}

/// What going on with a replay makes of the files, and how the head moves to
/// the commit that it makes: the index becomes its tree.
pub open spec fn continued_replay(
    files: memory::Tree,
    git: Seq<u8>,
    head: Seq<u8>,
    size: nat,
    committer: SignatureModel,
) -> (memory::Tree, core::result::Result<HeadLogModel, Refusal>) {
    match replay_head(files, git) {
        Err(refusal) => (files, Err(refusal)),
        Ok((kind, target)) => match blocked(
            files,
            git,
            head,
            Error::ReferenceConflict("HEAD changed during commit replay"),
            Error::InvalidRepository("cannot continue with unresolved replay entries"),
        ) {
            Some(refusal) => (files, Err(refusal)),
            None => {
                let (next, outcome) = settled(files, git);
                match outcome {
                    Err(refusal) => (next, Err(refusal)),
                    Ok(tree) => match stored_commit(next, git, target, size) {
                        Err(refusal) => (next, Err(refusal)),
                        Ok(picked) => match merge_message(next, git, None) {
                            Err(refusal) => (next, Err(refusal)),
                            Ok(text) => {
                                let author = if kind == ReplayKind::CherryPick {
                                    picked.author
                                } else {
                                    committer
                                };
                                let model = replayed_commit(head, tree, text, author, committer);
                                let (after, refusal) = committed(next, git, model);
                                match refusal {
                                    Some(refusal) => (after, Err(refusal)),
                                    None => (
                                        after,
                                        Ok(
                                            head_move(
                                                head,
                                                commit_id(model),
                                                replay_action(kind),
                                            ),
                                        ),
                                    ),
                                }
                            },
                        },
                    },
                }
            },
        },
    }
}

impl Repository {
    /// Commits the resolved index of a replay in progress, and says how the
    /// head moves. The caller gives the current commit, moves the head, and
    /// then forgets the replay.
    pub fn continue_replay(
        &mut self,
        head: ObjectId,
        max_object_size: usize,
        committer: &Signature,
    ) -> (r: Result<HeadLog>)
        ensures
            final(self).git() == old(self).git(),
            final(self).work() == old(self).work(),
            ({
                let (after, outcome) = continued_replay(
                    old(self).tree(),
                    old(self).git(),
                    head@,
                    max_object_size as nat,
                    committer@,
                );
                &&& final(self).tree() == after
                &&& match outcome {
                    Err(refusal) => fs::declined(r, refusal),
                    Ok(log) => r is Ok && r->Ok_0@ == log,
                }
            }),
    {
        proof {
            lemma_note_names();
        }
        let (kind, target) = self.read_replay_head()?;
        let parsed = self.check_unblocked(
            head,
            "HEAD changed during commit replay",
            "cannot continue with unresolved replay entries",
        )?;
        let tree = self.write_index_tree(&parsed)?;
        let picked = self.read_commit(target, max_object_size)?;
        let text = self.read_git_file("MERGE_MSG".as_bytes())?;
        match kind {
            ReplayKind::CherryPick => self.commit_replay(
                head,
                tree,
                text.as_slice(),
                picked.author(),
                committer,
                kind,
            ),
            ReplayKind::Revert => self.commit_replay(
                head,
                tree,
                text.as_slice(),
                committer,
                committer,
                kind,
            ),
        }
    }

    /// Finds what giving up a replay goes back to. The caller checks the tree
    /// out, moves the head where told, and then forgets the replay.
    pub fn abort_replay(&self, current: ObjectId, max_object_size: usize) -> (r: Result<AbortPlan>)
        ensures
            match replay_head(self.tree(), self.git()) {
                Err(refusal) => fs::declined(r, refusal),
                Ok(_) => match head_before(self.tree(), self.git(), max_object_size as nat) {
                    Err(refusal) => fs::declined(r, refusal),
                    Ok((id, tree)) => r is Ok && r->Ok_0@ == abort_plan(current@, id, tree),
                },
            },
    {
        let _ = self.read_replay_head()?;
        self.plan_abort(current, max_object_size)
    }
}

} // verus!
