//! Garbage collection of a repository in stages.

use vstd::prelude::*;

use crate::bytes;
use crate::fs;
use crate::fs::memory;
use crate::fs::memory::MemoryFileSystem;
use crate::fs::path;
use crate::fs::{Fault, FileSystem, Refusal};
use crate::linked_worktree;
use crate::linked_worktree::{Doomed, WorktreePruneEntry, WorktreePruneOptions};
use crate::pack_refs;
use crate::pack_refs::PackRefsOptions;
use crate::repository;
use crate::repository::Repository;
use crate::{Error, Result};

verus! {

/// The stages of a collection, in their order.
#[derive(Clone, Copy, Debug, PartialEq, Eq, Structural)]
pub enum GcStage {
    PackRefs,
    ExpireReflogs,
    PruneWorktrees,
    Repack,
    PruneLooseObjects,
}

/// Which stages a collection has, and their limits.
pub struct GcOptions {
    pub dry_run: bool,
    /// Needed for a run that changes anything.
    pub force: bool,
    pub pack_refs: bool,
    pub repack: bool,
    /// Log entries older than this are removed.
    pub reflog_expire_before: Option<i64>,
    /// Log entries older than this that nothing leads to are removed.
    pub reflog_expire_unreachable_before: Option<i64>,
    /// Registrations of missing worktrees no newer than this are removed.
    pub worktree_expire_before: Option<u64>,
    /// Loose objects no newer than this that nothing leads to are removed.
    pub prune_expire_before: Option<u64>,
    /// Objects in cruft packs no newer than this are removed by a repack.
    pub cruft_expire_before: Option<u64>,
    pub pack_refs_options: PackRefsOptions,
    pub worktree_options: WorktreePruneOptions,
    pub max_reflogs: usize,
    pub max_reflog_depth: usize,
}

/// Whether options are the ones to begin with.
pub open spec fn by_default(r: GcOptions) -> bool {
    &&& r.dry_run && !r.force && r.pack_refs && r.repack
    &&& r.reflog_expire_before is None && r.reflog_expire_unreachable_before is None
    &&& r.worktree_expire_before is None && r.prune_expire_before is None
    &&& r.cruft_expire_before is None
    &&& pack_refs::by_default(r.pack_refs_options)
    &&& linked_worktree::prunes_by_default(r.worktree_options)
    &&& r.max_reflogs == 10_000_000
    &&& r.max_reflog_depth == 4096
}

impl Default for GcOptions {
    fn default() -> (r: Self)
        ensures
            by_default(r),
    {
        GcOptions {
            dry_run: true,
            force: false,
            pack_refs: true,
            repack: true,
            reflog_expire_before: None,
            reflog_expire_unreachable_before: None,
            worktree_expire_before: None,
            prune_expire_before: None,
            cruft_expire_before: None,
            pack_refs_options: PackRefsOptions::default(),
            worktree_options: WorktreePruneOptions::default(),
            max_reflogs: 10_000_000,
            max_reflog_depth: 4096,
        }
    }
}

/// What a collection did so far: the references and registrations that it
/// took, and the stages that are still to be run, in their order. The first
/// of them works on history: whoever runs it then resumes the collection.
pub struct GcReport {
    pub refs_selected: usize,
    pub refs_pruned: usize,
    pub worktrees: Vec<WorktreePruneEntry>,
    pub pending: Vec<GcStage>,
}

/// What a report says.
#[verifier::ext_equal]
pub struct GcModel {
    pub refs_selected: nat,
    pub refs_pruned: nat,
    pub worktrees: Seq<Doomed>,
    pub pending: Seq<GcStage>,
}

impl View for GcReport {
    type V = GcModel;

    open spec fn view(&self) -> GcModel {
        GcModel {
            refs_selected: self.refs_selected as nat,
            refs_pruned: self.refs_pruned as nat,
            worktrees: linked_worktree::dooms(self.worktrees@),
            pending: self.pending@,
        }
    }
}

/// Why options are refused.
pub open spec fn options_fault(options: GcOptions) -> Option<Error> {
    if !options.dry_run && !options.force {
        Some(Error::InvalidRepository("gc mutation requires force=true"))
    } else if options.cruft_expire_before is Some && !options.repack {
        Some(Error::InvalidRepository("cruft expiration requires the repack stage"))
    } else {
        None
    }
}

/// Whether log entries are removed.
pub open spec fn expires_reflogs(options: GcOptions) -> bool {
    options.reflog_expire_before is Some || options.reflog_expire_unreachable_before is Some
}

/// The stages of a collection, in their order.
pub open spec fn stages_of(options: GcOptions) -> Seq<GcStage> {
    let none = Seq::<GcStage>::empty();
    (if options.pack_refs {
        none.push(GcStage::PackRefs)
    } else {
        none
    }) + (if expires_reflogs(options) {
        none.push(GcStage::ExpireReflogs)
    } else {
        none
    }) + (if options.worktree_expire_before is Some {
        none.push(GcStage::PruneWorktrees)
    } else {
        none
    }) + (if options.repack {
        none.push(GcStage::Repack)
    } else {
        none
    }) + (if options.prune_expire_before is Some {
        none.push(GcStage::PruneLooseObjects)
    } else {
        none
    })
}

/// How a collection packs references: all of them, removing the loose ones.
pub open spec fn packing_options(options: GcOptions) -> PackRefsOptions {
    PackRefsOptions {
        all: true,
        prune: true,
        dry_run: options.dry_run,
        ..options.pack_refs_options
    }
}

/// How a collection removes registrations of worktrees.
pub open spec fn worktree_options(options: GcOptions, expiry: u64) -> WorktreePruneOptions {
    WorktreePruneOptions {
        expire_before: expiry,
        dry_run: options.dry_run,
        ..options.worktree_options
    }
}

/// What removing registrations makes of the files, and the ones removed.
pub open spec fn worktrees_pruned(
    files: memory::Tree,
    git: Seq<u8>,
    options: WorktreePruneOptions,
) -> (memory::Tree, core::result::Result<Seq<Doomed>, Refusal>) {
    match linked_worktree::selected(files, git, options) {
        Err(refusal) => (files, Err(refusal)),
        Ok(list) => if options.dry_run || !files.contains_key(linked_worktree::registry(git)) {
            (files, Ok(list))
        } else {
            let (after, refusal) = linked_worktree::cleared(files, git, list);
            match refusal {
                Some(refusal) => (after, Err(refusal)),
                None => (after, Ok(list)),
            }
        },
    }
}

/// What running the pending stages, up to the first that works on history,
/// makes of the files and of a report.
pub open spec fn advanced(files: memory::Tree, git: Seq<u8>, options: GcOptions, report: GcModel) -> (
    memory::Tree,
    core::result::Result<GcModel, Refusal>,
)
    decreases report.pending.len(),
{
    if report.pending.len() == 0 {
        (files, Ok(report))
    } else {
        let left = report.pending.drop_first();
        match report.pending[0] {
            GcStage::PackRefs => {
                let (after, outcome) = pack_refs::packing(files, git, packing_options(options));
                match outcome {
                    Err(refusal) => (after, Err(refusal)),
                    Ok(list) => advanced(
                        after,
                        git,
                        options,
                        GcModel {
                            refs_selected: list.len(),
                            refs_pruned: if options.dry_run {
                                0
                            } else {
                                list.len()
                            },
                            pending: left,
                            ..report
                        },
                    ),
                }
            },
            GcStage::PruneWorktrees => match options.worktree_expire_before {
                None => advanced(files, git, options, GcModel { pending: left, ..report }),
                Some(expiry) => {
                    let (after, outcome) = worktrees_pruned(
                        files,
                        git,
                        worktree_options(options, expiry),
                    );
                    match outcome {
                        Err(refusal) => (after, Err(refusal)),
                        Ok(worktrees) => advanced(
                            after,
                            git,
                            options,
                            GcModel { worktrees, pending: left, ..report },
                        ),
                    }
                },
            },
            _ => (files, Ok(report)),
        }
    }
}

// ---------------------------------------------------------------------------
// Locks

/// What taking a lock makes of the files, and why it is refused.
pub open spec fn lock_taken(files: memory::Tree, p: Seq<u8>, data: Seq<u8>) -> (
    memory::Tree,
    Option<Refusal>,
) {
    match memory::parent_fault(files, p) {
        Some(fault) => (files, Some(Refusal::At(fault, memory::parent_of(p)))),
        None => if files.contains_key(p) {
            (files, Some(Refusal::At(Fault::AlreadyExists, p)))
        } else {
            (files.insert(p, memory::file(data, false)), None)
        },
    }
}

/// What giving a lock up makes of the files, and why it is refused.
pub open spec fn lock_dropped(files: memory::Tree, p: Seq<u8>) -> (memory::Tree, Option<Refusal>) {
    if !files.contains_key(p) {
        (files, Some(Refusal::At(Fault::NotFound, p)))
    } else if files[p] is Directory {
        (files, Some(Refusal::At(Fault::IsDirectory, p)))
    } else {
        (files.remove(p), None)
    }
}

/// A lock that was taken can be given up, and leaves the files as they were.
pub proof fn lemma_lock_leaves_no_trace(files: memory::Tree, p: Seq<u8>, data: Seq<u8>)
    requires
        lock_taken(files, p, data).1 is None,
    ensures
        lock_dropped(lock_taken(files, p, data).0, p) == (files, None::<Refusal>),
{
    assert(files.insert(p, memory::file(data, false)).remove(p) =~= files);
}

impl Repository {
    /// Takes a lock below the repository's own directory.
    pub fn take_lock(&mut self, relative: &[u8], data: &[u8]) -> (r: Result<()>)
        requires
            path::plain(relative@),
            relative@.len() > 0,
        ensures
            final(self).git() == old(self).git(),
            final(self).work() == old(self).work(),
            ({
                let p = repository::joined(old(self).git(), relative@);
                let (after, refusal) = lock_taken(old(self).tree(), p, data@);
                &&& final(self).tree() == after
                &&& match refusal {
                    Some(refusal) => fs::declined(r, refusal),
                    None => r is Ok,
                }
            }),
    {
        let at = self.git_path(relative);
        let mut files = self.swap_files(MemoryFileSystem::new());
        let r = files.write_new(at.as_slice(), data);
        let _ = self.swap_files(files);
        r
    }

    /// Gives a lock below the repository's own directory up.
    pub fn drop_lock(&mut self, relative: &[u8]) -> (r: Result<()>)
        requires
            path::plain(relative@),
            relative@.len() > 0,
        ensures
            final(self).git() == old(self).git(),
            final(self).work() == old(self).work(),
            ({
                let p = repository::joined(old(self).git(), relative@);
                let (after, refusal) = lock_dropped(old(self).tree(), p);
                &&& final(self).tree() == after
                &&& match refusal {
                    Some(refusal) => fs::declined(r, refusal),
                    None => r is Ok,
                }
            }),
    {
        let at = self.git_path(relative);
        let mut files = self.swap_files(MemoryFileSystem::new());
        let r = files.remove_file(at.as_slice());
        let _ = self.swap_files(files);
        r
    }
}

pub open spec fn gc_lock(git: Seq<u8>) -> Seq<u8> {
    repository::joined(git, bytes::utf8("gc.pid"@))
}

/// What letting a lock go makes of the files and of an outcome, unless the
/// lock is still to be held.
pub open spec fn released<T>(
    files: memory::Tree,
    p: Seq<u8>,
    outcome: core::result::Result<T, Refusal>,
    held: bool,
) -> (memory::Tree, core::result::Result<T, Refusal>) {
    if held {
        (files, outcome)
    } else {
        let (after, stuck) = lock_dropped(files, p);
        match (outcome, stuck) {
            (Err(refusal), _) => (after, Err(refusal)),
            (Ok(_), Some(refusal)) => (after, Err(refusal)),
            (Ok(value), None) => (after, Ok(value)),
        }
    }
}

/// Whether stages of a collection are left.
pub open spec fn unfinished(outcome: core::result::Result<GcModel, Refusal>) -> bool {
    outcome is Ok && (outcome->Ok_0).pending.len() > 0
}

/// What running stages makes of the files and of a report. A run that changes
/// anything lets its lock go once no stage is left, or one fails.
pub open spec fn gc_advanced(
    files: memory::Tree,
    git: Seq<u8>,
    options: GcOptions,
    report: GcModel,
) -> (memory::Tree, core::result::Result<GcModel, Refusal>) {
    let (done, outcome) = advanced(files, git, options, report);
    if options.dry_run {
        (done, outcome)
    } else {
        released(done, gc_lock(git), outcome, unfinished(outcome))
    }
}

/// What a collection makes of the files, and what it reports. A run that
/// changes anything holds a lock until its last stage is done.
#[verifier::opaque]
pub open spec fn gc_run(files: memory::Tree, git: Seq<u8>, options: GcOptions) -> (
    memory::Tree,
    core::result::Result<GcModel, Refusal>,
) {
    let start = GcModel {
        refs_selected: 0,
        refs_pruned: 0,
        worktrees: Seq::empty(),
        pending: stages_of(options),
    };
    match options_fault(options) {
        Some(error) => (files, Err(Refusal::Said(error))),
        None => if options.dry_run {
            gc_advanced(files, git, options, start)
        } else {
            let (locked, refusal) = lock_taken(
                files,
                gc_lock(git),
                bytes::utf8("git-rs gc\n"@),
            );
            match refusal {
                Some(refusal) => (locked, Err(refusal)),
                None => gc_advanced(locked, git, options, start),
            }
        },
    }
}

/// What resuming a collection makes of the files, and what it reports. The
/// first stage that was left is done.
#[verifier::opaque]
pub open spec fn gc_resumed(files: memory::Tree, git: Seq<u8>, options: GcOptions, report: GcModel) -> (
    memory::Tree,
    core::result::Result<GcModel, Refusal>,
) {
    if report.pending.len() == 0 {
        (files, Ok(report))
    } else {
        gc_advanced(
            files,
            git,
            options,
            GcModel { pending: report.pending.drop_first(), ..report },
        )
    }
}

/// Lists the stages of a collection.
pub fn gc_stages(options: &GcOptions) -> (r: Vec<GcStage>)
    ensures
        r@ == stages_of(*options),
{
    let mut out: Vec<GcStage> = Vec::new();
    if options.pack_refs {
        out.push(GcStage::PackRefs);
    }
    if options.reflog_expire_before.is_some() || options.reflog_expire_unreachable_before.is_some() {
        out.push(GcStage::ExpireReflogs);
    }
    if options.worktree_expire_before.is_some() {
        out.push(GcStage::PruneWorktrees);
    }
    if options.repack {
        out.push(GcStage::Repack);
    }
    if options.prune_expire_before.is_some() {
        out.push(GcStage::PruneLooseObjects);
    }
    assert(out@ =~= stages_of(*options));
    out
}

fn stages_from(stages: &Vec<GcStage>, from: usize) -> (r: Vec<GcStage>)
    requires
        from <= stages@.len(),
    ensures
        r@ == stages@.skip(from as int),
{
    let mut out: Vec<GcStage> = Vec::new();
    let mut i: usize = from;
    while i < stages.len()
        invariant
            from <= i <= stages@.len(),
            out@ == stages@.subrange(from as int, i as int),
        decreases stages@.len() - i,
    {
        out.push(stages[i]);
        assert(out@ =~= stages@.subrange(from as int, i + 1));
        i += 1;
    }
    assert(out@ =~= stages@.skip(from as int));
    out
}

fn validate_gc_options(options: &GcOptions) -> (r: Result<()>)
    ensures
        match options_fault(*options) {
            None => r is Ok,
            Some(error) => r is Err && r->Err_0 == error,
        },
{
    if !options.dry_run && !options.force {
        return Err(Error::InvalidRepository("gc mutation requires force=true"));
    }
    if options.cruft_expire_before.is_some() && !options.repack {
        return Err(Error::InvalidRepository("cruft expiration requires the repack stage"));
    }
    Ok(())
}

/// Options as the stages use them.
pub open spec fn prepared(options: GcOptions) -> GcOptions {
    GcOptions {
        pack_refs_options: packing_options(options),
        worktree_options: match options.worktree_expire_before {
            Some(expiry) => worktree_options(options, expiry),
            None => options.worktree_options,
        },
        ..options
    }
}

/// Prepares options for the stages.
pub fn prepare(options: GcOptions) -> (r: GcOptions)
    ensures
        r == prepared(options),
{
    let mut ready = options;
    ready.pack_refs_options.all = true;
    ready.pack_refs_options.prune = true;
    ready.pack_refs_options.dry_run = ready.dry_run;
    if let Some(expiry) = ready.worktree_expire_before {
        ready.worktree_options.expire_before = expiry;
        ready.worktree_options.dry_run = ready.dry_run;
    }
    ready
}

impl Repository {
    fn advance_gc(&mut self, options: &GcOptions, report: GcReport, from: usize) -> (r: Result<
        GcReport,
    >)
        requires
            *options == prepared(*options),
            from <= report.pending@.len(),
        ensures
            final(self).git() == old(self).git(),
            final(self).work() == old(self).work(),
            ({
                let (after, outcome) = advanced(
                    old(self).tree(),
                    old(self).git(),
                    *options,
                    GcModel { pending: report.pending@.skip(from as int), ..report@ },
                );
                &&& final(self).tree() == after
                &&& match outcome {
                    Ok(report) => r is Ok && r->Ok_0@ == report,
                    Err(refusal) => fs::declined(r, refusal),
                }
            }),
    {
        assert(options.pack_refs_options == packing_options(*options));
        let ghost git = self.git();
        let ghost goal = advanced(
            self.tree(),
            git,
            *options,
            GcModel { pending: report.pending@.skip(from as int), ..report@ },
        );
        let stages = report.pending;
        let mut refs_selected: usize = report.refs_selected;
        let mut refs_pruned: usize = report.refs_pruned;
        let mut worktrees = report.worktrees;
        let mut i: usize = from;
        while i < stages.len()
            invariant
                i <= stages@.len(),
                *options == prepared(*options),
                options.pack_refs_options == packing_options(*options),
                self.git() == git,
                git == old(self).git(),
                self.work() == old(self).work(),
                goal == advanced(
                    old(self).tree(),
                    git,
                    *options,
                    GcModel { pending: report.pending@.skip(from as int), ..report@ },
                ),
                goal == advanced(
                    self.tree(),
                    git,
                    *options,
                    GcModel {
                        refs_selected: refs_selected as nat,
                        refs_pruned: refs_pruned as nat,
                        worktrees: linked_worktree::dooms(worktrees@),
                        pending: stages@.skip(i as int),
                    },
                ),
            decreases stages@.len() - i,
        {
            assert(stages@.skip(i as int).drop_first() =~= stages@.skip(i + 1));
            assert(stages@.skip(i as int)[0] == stages@[i as int]);
            match stages[i] {
                GcStage::PackRefs => {
                    let packed = self.pack_refs(&options.pack_refs_options)?;
                    assert(bytes::deep(packed.packed@).len() == packed.packed@.len());
                    refs_selected = packed.packed.len();
                    refs_pruned = packed.pruned;
                },
                GcStage::PruneWorktrees => {
                    if options.worktree_expire_before.is_some() {
                        worktrees = self.prune_worktrees(&options.worktree_options)?;
                    }
                },
                _ => {
                    let pending = stages_from(&stages, i);
                    return Ok(GcReport { refs_selected, refs_pruned, worktrees, pending });
                },
            }
            i += 1;
        }
        let pending = stages_from(&stages, i);
        Ok(GcReport { refs_selected, refs_pruned, worktrees, pending })
    }

    fn run_gc_stages(&mut self, options: &GcOptions, report: GcReport, from: usize) -> (r: Result<
        GcReport,
    >)
        requires
            *options == prepared(*options),
            from <= report.pending@.len(),
        ensures
            final(self).git() == old(self).git(),
            final(self).work() == old(self).work(),
            ({
                let (after, outcome) = gc_advanced(
                    old(self).tree(),
                    old(self).git(),
                    *options,
                    GcModel { pending: report.pending@.skip(from as int), ..report@ },
                );
                &&& final(self).tree() == after
                &&& match outcome {
                    Ok(report) => r is Ok && r->Ok_0@ == report,
                    Err(refusal) => fs::declined(r, refusal),
                }
            }),
    {
        proof {
            lemma_gc_name();
        }
        let result = self.advance_gc(options, report, from);
        if options.dry_run {
            return result;
        }
        let held = match &result {
            Ok(report) => report.pending.len() > 0,
            Err(_) => false,
        };
        if held {
            return result;
        }
        let cleanup = self.drop_lock("gc.pid".as_bytes());
        match (result, cleanup) {
            (Err(error), _) => Err(error),
            (Ok(_), Err(error)) => Err(error),
            (Ok(report), Ok(())) => Ok(report),
        }
    }

    /// Run a collection with options that are prepared for its stages.
    pub fn run_gc(&mut self, options: &GcOptions) -> (r: Result<GcReport>)
        requires
            *options == prepared(*options),
        ensures
            final(self).git() == old(self).git(),
            final(self).work() == old(self).work(),
            ({
                let (after, outcome) = gc_run(old(self).tree(), old(self).git(), *options);
                &&& final(self).tree() == after
                &&& match outcome {
                    Ok(report) => r is Ok && r->Ok_0@ == report,
                    Err(refusal) => fs::declined(r, refusal),
                }
            }),
    {
        reveal(gc_run);
        validate_gc_options(options)?;
        let report = GcReport {
            refs_selected: 0,
            refs_pruned: 0,
            worktrees: Vec::new(),
            pending: gc_stages(options),
        };
        assert(linked_worktree::dooms(report.worktrees@) =~= Seq::empty());
        assert(report.pending@.skip(0) =~= report.pending@);
        if !options.dry_run {
            proof {
                lemma_gc_name();
            }
            self.take_lock("gc.pid".as_bytes(), "git-rs gc\n".as_bytes())?;
        }
        self.run_gc_stages(options, report, 0)
    }

    /// Resumes a collection once the first stage that was left is done, with
    /// options that are prepared for its stages.
    pub fn resume_gc(&mut self, options: &GcOptions, report: GcReport) -> (r: Result<GcReport>)
        requires
            *options == prepared(*options),
        ensures
            final(self).git() == old(self).git(),
            final(self).work() == old(self).work(),
            ({
                let (after, outcome) = gc_resumed(
                    old(self).tree(),
                    old(self).git(),
                    *options,
                    report@,
                );
                &&& final(self).tree() == after
                &&& match outcome {
                    Ok(report) => r is Ok && r->Ok_0@ == report,
                    Err(refusal) => fs::declined(r, refusal),
                }
            }),
    {
        reveal(gc_resumed);
        if report.pending.len() == 0 {
            return Ok(report);
        }
        assert(report.pending@.skip(1) =~= report.pending@.drop_first());
        self.run_gc_stages(options, report, 1)
    }

    /// Gives a collection up whose pending stage failed: lets its lock go.
    pub fn abandon_gc(&mut self) -> (r: Result<()>)
        ensures
            final(self).git() == old(self).git(),
            final(self).work() == old(self).work(),
            ({
                let (after, refusal) = lock_dropped(old(self).tree(), gc_lock(old(self).git()));
                &&& final(self).tree() == after
                &&& match refusal {
                    Some(refusal) => fs::declined(r, refusal),
                    None => r is Ok,
                }
            }),
    {
        proof {
            lemma_gc_name();
        }
        self.drop_lock("gc.pid".as_bytes())
    }

    /// Run a collection, stage by stage in their order, up to the first stage
    /// that works on history. A run that changes anything holds a lock until
    /// its last stage is done; the report lists the stages that are left.
    pub fn gc(&mut self, options: GcOptions) -> (r: Result<GcReport>)
        ensures
            final(self).git() == old(self).git(),
            final(self).work() == old(self).work(),
            ({
                let (after, outcome) = gc_run(
                    old(self).tree(),
                    old(self).git(),
                    prepared(options),
                );
                &&& final(self).tree() == after
                &&& match outcome {
                    Ok(report) => r is Ok && r->Ok_0@ == report,
                    Err(refusal) => fs::declined(r, refusal),
                }
            }),
    {
        let ready = prepare(options);
        self.run_gc(&ready)
    }
}

proof fn lemma_gc_name()
    ensures
        path::plain(bytes::utf8("gc.pid"@)),
        bytes::utf8("gc.pid"@).len() > 0,
{
    reveal_strlit("gc.pid");
    bytes::lemma_ascii("gc.pid"@);
    path::lemma_plain_name(bytes::utf8("gc.pid"@));
}

proof fn lemma_dry_stages(files: memory::Tree, git: Seq<u8>, options: GcOptions, report: GcModel)
    requires
        options.dry_run,
    ensures
        advanced(files, git, options, report).0 == files,
    decreases report.pending.len(),
{
    if report.pending.len() > 0 {
        let left = report.pending.drop_first();
        assert(packing_options(options).dry_run);
        assert(pack_refs::packing(files, git, packing_options(options)).0 == files);
        match report.pending[0] {
            GcStage::PackRefs => {
                let outcome = pack_refs::packing(files, git, packing_options(options)).1;
                if outcome is Ok {
                    lemma_dry_stages(
                        files,
                        git,
                        options,
                        GcModel {
                            refs_selected: (outcome->Ok_0).len(),
                            refs_pruned: 0,
                            pending: left,
                            ..report
                        },
                    );
                }
            },
            GcStage::PruneWorktrees => match options.worktree_expire_before {
                None => {
                    lemma_dry_stages(files, git, options, GcModel { pending: left, ..report });
                },
                Some(expiry) => {
                    let outcome = worktrees_pruned(
                        files,
                        git,
                        worktree_options(options, expiry),
                    ).1;
                    if outcome is Ok {
                        lemma_dry_stages(
                            files,
                            git,
                            options,
                            GcModel { worktrees: outcome->Ok_0, pending: left, ..report },
                        );
                    }
                },
            },
            _ => {},
        }
    }
}

/// A dry run leaves the files as they are.
pub proof fn lemma_dry_run_changes_nothing(files: memory::Tree, git: Seq<u8>, options: GcOptions)
    requires
        options.dry_run,
    ensures
        gc_run(files, git, prepared(options)).0 == files,
{
    reveal(gc_run);
    let ready = prepared(options);
    lemma_dry_stages(
        files,
        git,
        ready,
        GcModel {
            refs_selected: 0,
            refs_pruned: 0,
            worktrees: Seq::empty(),
            pending: stages_of(ready),
        },
    );
}

/// Resuming a dry run leaves the files as they are.
pub proof fn lemma_dry_resumption_changes_nothing(
    files: memory::Tree,
    git: Seq<u8>,
    options: GcOptions,
    report: GcModel,
)
    requires
        options.dry_run,
    ensures
        gc_resumed(files, git, options, report).0 == files,
{
    reveal(gc_resumed);
    lemma_dry_stages(
        files,
        git,
        options,
        GcModel { pending: report.pending.drop_first(), ..report },
    );
}

proof fn lemma_left_in_order(files: memory::Tree, git: Seq<u8>, options: GcOptions, report: GcModel)
    ensures
        advanced(files, git, options, report).1 matches Ok(next) ==> {
            let done = report.pending.len() - next.pending.len();
            &&& 0 <= done
            &&& next.pending == report.pending.skip(done)
            &&& next.pending.len() > 0 ==> !(next.pending[0] is PackRefs) && !(
            next.pending[0] is PruneWorktrees)
        },
    decreases report.pending.len(),
{
    let left = report.pending.drop_first();
    assert(report.pending.skip(0) =~= report.pending);
    if report.pending.len() > 0 {
        let next = match report.pending[0] {
            GcStage::PackRefs => {
                let (after, outcome) = pack_refs::packing(files, git, packing_options(options));
                (
                    after,
                    GcModel {
                        refs_selected: (outcome->Ok_0).len(),
                        refs_pruned: if options.dry_run {
                            0
                        } else {
                            (outcome->Ok_0).len()
                        },
                        pending: left,
                        ..report
                    },
                )
            },
            GcStage::PruneWorktrees => match options.worktree_expire_before {
                None => (files, GcModel { pending: left, ..report }),
                Some(expiry) => {
                    let (after, outcome) = worktrees_pruned(
                        files,
                        git,
                        worktree_options(options, expiry),
                    );
                    (after, GcModel { worktrees: outcome->Ok_0, pending: left, ..report })
                },
            },
            _ => (files, report),
        };
        if report.pending[0] is PackRefs || report.pending[0] is PruneWorktrees {
            lemma_left_in_order(next.0, git, options, next.1);
            let end = advanced(next.0, git, options, next.1).1;
            if end is Ok {
                let done = left.len() - (end->Ok_0).pending.len();
                assert(left.skip(done) =~= report.pending.skip(done + 1));
            }
        }
    }
}

/// The stages that a collection leaves are the last ones of its order, and
/// the first of them works on history.
pub proof fn lemma_stages_keep_their_order(files: memory::Tree, git: Seq<u8>, options: GcOptions)
    ensures
        gc_run(files, git, options).1 matches Ok(report) ==> {
            let done = stages_of(options).len() - report.pending.len();
            &&& 0 <= done
            &&& report.pending == stages_of(options).skip(done)
            &&& report.pending.len() > 0 ==> !(report.pending[0] is PackRefs) && !(
            report.pending[0] is PruneWorktrees)
        },
{
    reveal(gc_run);
    let start = GcModel {
        refs_selected: 0,
        refs_pruned: 0,
        worktrees: Seq::empty(),
        pending: stages_of(options),
    };
    let locked = if options.dry_run {
        files
    } else {
        lock_taken(files, gc_lock(git), bytes::utf8("git-rs gc\n"@)).0
    };
    lemma_left_in_order(locked, git, options, start);
}

} // verus!
