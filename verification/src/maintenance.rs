//! Maintenance tasks run one after another.

use vstd::prelude::*;

use crate::bytes;
use crate::fs;
use crate::fs::memory;
use crate::fs::path;
use crate::fs::Refusal;
use crate::gc;
use crate::gc::{GcModel, GcOptions, GcReport};
use crate::linked_worktree;
use crate::linked_worktree::{Doomed, WorktreePruneEntry, WorktreePruneOptions};
use crate::multi_pack_write;
use crate::multi_pack_write::{MultiPackIndexOptions, MultiPackIndexReport};
use crate::pack_refs;
use crate::pack_refs::{PackRefsOptions, PackRefsResult};
use crate::repository;
use crate::repository::Repository;
use crate::storage;
use crate::{Error, Result};

verus! {

/// A task of maintenance.
#[derive(Clone, Copy, Debug, PartialEq, Eq, Structural)]
pub enum MaintenanceTask {
    Gc,
    CommitGraph,
    MultiPackIndex,
    PackRefs,
    ReflogExpire,
    WorktreePrune,
}

/// What became of a task.
pub enum MaintenanceOutcome {
    Gc(GcReport),
    MultiPackIndex(MultiPackIndexReport),
    PackRefs(PackRefsResult),
    WorktreePrune(Vec<WorktreePruneEntry>),
    /// There was nothing for the task to work on.
    Skipped(MaintenanceTask),
    /// The task works on history and is still to be run.
    Pending(MaintenanceTask),
}

/// What an outcome says.
#[verifier::ext_equal]
pub enum OutcomeModel {
    Gc(GcModel),
    MultiPackIndex(MultiPackIndexReport),
    PackRefs(Seq<Seq<u8>>, nat),
    WorktreePrune(Seq<Doomed>),
    Skipped(MaintenanceTask),
    Pending(MaintenanceTask),
}

impl View for MaintenanceOutcome {
    type V = OutcomeModel;

    open spec fn view(&self) -> OutcomeModel {
        match self {
            MaintenanceOutcome::Gc(report) => OutcomeModel::Gc(report@),
            MaintenanceOutcome::MultiPackIndex(report) => OutcomeModel::MultiPackIndex(*report),
            MaintenanceOutcome::PackRefs(result) => OutcomeModel::PackRefs(
                bytes::deep(result.packed@),
                result.pruned as nat,
            ),
            MaintenanceOutcome::WorktreePrune(list) => OutcomeModel::WorktreePrune(
                linked_worktree::dooms(list@),
            ),
            MaintenanceOutcome::Skipped(task) => OutcomeModel::Skipped(*task),
            MaintenanceOutcome::Pending(task) => OutcomeModel::Pending(*task),
        }
    }
}

pub open spec fn models(list: Seq<MaintenanceOutcome>) -> Seq<OutcomeModel> {
    Seq::new(list.len(), |i: int| list[i]@)
}

/// What became of the tasks so far, in their order, and the tasks that follow.
/// The last outcome may be of a task that is left to others: whoever runs it
/// then resumes the maintenance.
pub struct MaintenanceReport {
    pub dry_run: bool,
    pub outcomes: Vec<MaintenanceOutcome>,
    pub pending: Vec<MaintenanceTask>,
}

/// What a report says.
#[verifier::ext_equal]
pub struct RunModel {
    pub outcomes: Seq<OutcomeModel>,
    pub pending: Seq<MaintenanceTask>,
}

impl View for MaintenanceReport {
    type V = RunModel;

    open spec fn view(&self) -> RunModel {
        RunModel { outcomes: models(self.outcomes@), pending: self.pending@ }
    }
}

/// Whether a task is left to others, in whole or in part.
pub open spec fn is_open(outcome: OutcomeModel) -> bool {
    match outcome {
        OutcomeModel::Pending(_) => true,
        OutcomeModel::Gc(report) => report.pending.len() > 0,
        _ => false,
    }
}

/// Whether something is left to be done.
pub open spec fn unfinished(outcome: core::result::Result<RunModel, Refusal>) -> bool {
    match outcome {
        Err(_) => false,
        Ok(run) => run.pending.len() > 0 || (run.outcomes.len() > 0 && is_open(
            run.outcomes.last(),
        )),
    }
}

impl MaintenanceReport {
    pub fn outcomes(&self) -> (r: &[MaintenanceOutcome])
        ensures
            r@ == self.outcomes@,
    {
        self.outcomes.as_slice()
    }
}

/// The tasks to run, in their order, and how.
pub struct MaintenanceOptions {
    pub tasks: Vec<MaintenanceTask>,
    pub dry_run: bool,
    /// Needed for a run that changes anything.
    pub force: bool,
    pub gc: GcOptions,
    pub multi_pack_index: MultiPackIndexOptions,
    pub pack_refs: PackRefsOptions,
    pub reflog_expire_before: Option<i64>,
    pub reflog_expire_unreachable_before: Option<i64>,
    pub max_reflogs: usize,
    pub max_reflog_depth: usize,
    pub worktree_prune: WorktreePruneOptions,
}

/// Whether the options of the single tasks are the ones to begin with.
pub open spec fn nested_defaults(r: MaintenanceOptions) -> bool {
    &&& gc::by_default(r.gc)
    &&& multi_pack_write::by_default(r.multi_pack_index)
    &&& pack_refs::by_default(r.pack_refs)
    &&& linked_worktree::prunes_by_default(r.worktree_prune)
}

impl Default for MaintenanceOptions {
    fn default() -> (r: Self)
        ensures
            r.tasks@ == seq![MaintenanceTask::Gc],
            r.dry_run && !r.force,
            r.reflog_expire_before is None && r.reflog_expire_unreachable_before is None,
            nested_defaults(r),
            r.max_reflogs == 10_000_000,
            r.max_reflog_depth == 4096,
    {
        let mut tasks: Vec<MaintenanceTask> = Vec::new();
        tasks.push(MaintenanceTask::Gc);
        assert(tasks@ =~= seq![MaintenanceTask::Gc]);
        MaintenanceOptions {
            tasks,
            dry_run: true,
            force: false,
            gc: GcOptions::default(),
            multi_pack_index: MultiPackIndexOptions::default(),
            pack_refs: PackRefsOptions::default(),
            reflog_expire_before: None,
            reflog_expire_unreachable_before: None,
            max_reflogs: 10_000_000,
            max_reflog_depth: 4096,
            worktree_prune: WorktreePruneOptions::default(),
        }
    }
}

impl MaintenanceOptions {
    /// A collection, then the files that speed reading up.
    pub fn full() -> (r: Self)
        ensures
            r.tasks@ == seq![
                MaintenanceTask::Gc,
                MaintenanceTask::CommitGraph,
                MaintenanceTask::MultiPackIndex,
            ],
            r.dry_run && !r.force,
            r.reflog_expire_before is None && r.reflog_expire_unreachable_before is None,
            nested_defaults(r),
            r.max_reflogs == 10_000_000,
            r.max_reflog_depth == 4096,
    {
        let mut options = MaintenanceOptions::default();
        options.tasks.push(MaintenanceTask::CommitGraph);
        options.tasks.push(MaintenanceTask::MultiPackIndex);
        assert(options.tasks@ =~= seq![
            MaintenanceTask::Gc,
            MaintenanceTask::CommitGraph,
            MaintenanceTask::MultiPackIndex,
        ]);
        options
    }
}

/// Why options are refused.
pub open spec fn options_fault(options: MaintenanceOptions) -> Option<Error> {
    if options.tasks@.len() == 0 {
        Some(Error::InvalidRepository("maintenance requires at least one task"))
    } else if !options.dry_run && !options.force {
        Some(Error::InvalidRepository("maintenance mutation requires force=true"))
    } else if options.tasks@.contains(MaintenanceTask::ReflogExpire)
        && options.reflog_expire_before is None && options.reflog_expire_unreachable_before
        is None {
        Some(Error::InvalidRepository("reflog-expire maintenance requires an expiry policy"))
    } else {
        None
    }
}

/// Options as the tasks use them.
pub open spec fn prepared(options: MaintenanceOptions) -> MaintenanceOptions {
    MaintenanceOptions {
        gc: gc::prepared(
            GcOptions { dry_run: options.dry_run, force: !options.dry_run, ..options.gc },
        ),
        multi_pack_index: MultiPackIndexOptions {
            dry_run: options.dry_run,
            ..options.multi_pack_index
        },
        pack_refs: PackRefsOptions {
            all: true,
            prune: true,
            dry_run: options.dry_run,
            ..options.pack_refs
        },
        worktree_prune: WorktreePruneOptions {
            dry_run: options.dry_run,
            ..options.worktree_prune
        },
        ..options
    }
}

fn prepare(options: MaintenanceOptions) -> (r: MaintenanceOptions)
    ensures
        r == prepared(options),
{
    let mut collection = options.gc;
    collection.dry_run = options.dry_run;
    collection.force = !options.dry_run;
    let mut multi_pack_index = options.multi_pack_index;
    multi_pack_index.dry_run = options.dry_run;
    let mut packing = options.pack_refs;
    packing.all = true;
    packing.prune = true;
    packing.dry_run = options.dry_run;
    let mut worktree_prune = options.worktree_prune;
    worktree_prune.dry_run = options.dry_run;
    MaintenanceOptions {
        tasks: options.tasks,
        dry_run: options.dry_run,
        force: options.force,
        gc: gc::prepare(collection),
        multi_pack_index,
        pack_refs: packing,
        reflog_expire_before: options.reflog_expire_before,
        reflog_expire_unreachable_before: options.reflog_expire_unreachable_before,
        max_reflogs: options.max_reflogs,
        max_reflog_depth: options.max_reflog_depth,
        worktree_prune,
    }
}

fn holds_task(tasks: &Vec<MaintenanceTask>, task: MaintenanceTask) -> (r: bool)
    ensures
        r == tasks@.contains(task),
{
    let mut i: usize = 0;
    while i < tasks.len()
        invariant
            i <= tasks@.len(),
            forall|k: int| 0 <= k < i ==> #[trigger] tasks@[k] != task,
        decreases tasks@.len() - i,
    {
        if tasks[i] == task {
            return true;
        }
        i += 1;
    }
    false
}

fn validate_options(options: &MaintenanceOptions) -> (r: Result<()>)
    ensures
        match options_fault(*options) {
            None => r is Ok,
            Some(error) => r is Err && r->Err_0 == error,
        },
{
    if options.tasks.len() == 0 {
        return Err(Error::InvalidRepository("maintenance requires at least one task"));
    }
    if !options.dry_run && !options.force {
        return Err(Error::InvalidRepository("maintenance mutation requires force=true"));
    }
    if holds_task(&options.tasks, MaintenanceTask::ReflogExpire)
        && options.reflog_expire_before.is_none()
        && options.reflog_expire_unreachable_before.is_none() {
        return Err(
            Error::InvalidRepository("reflog-expire maintenance requires an expiry policy"),
        );
    }
    Ok(())
}

// ---------------------------------------------------------------------------
// The tasks

/// Whether there is a pack to index.
pub open spec fn has_indexes(files: memory::Tree, git: Seq<u8>) -> core::result::Result<
    bool,
    Refusal,
> {
    match storage::listed(files, repository::joined(git, bytes::utf8("objects/pack"@))) {
        Ok(names) => Ok(any_index(names)),
        Err(refusal) => if crate::ignore::is_absent(refusal) {
            Ok(false)
        } else {
            Err(refusal)
        },
    }
}

pub open spec fn any_index(names: Seq<Seq<u8>>) -> bool {
    exists|k: int|
        0 <= k < names.len() && storage::has_extension(#[trigger] names[k], bytes::utf8("idx"@))
}

/// What a task makes of the files, and what becomes of it.
#[verifier::opaque]
pub open spec fn task_run(
    files: memory::Tree,
    git: Seq<u8>,
    task: MaintenanceTask,
    options: MaintenanceOptions,
) -> (memory::Tree, core::result::Result<OutcomeModel, Refusal>) {
    match task {
        MaintenanceTask::Gc => {
            let (after, outcome) = gc::gc_run(files, git, options.gc);
            (
                after,
                match outcome {
                    Err(refusal) => Err(refusal),
                    Ok(report) => Ok(OutcomeModel::Gc(report)),
                },
            )
        },
        MaintenanceTask::MultiPackIndex => match has_indexes(files, git) {
            Err(refusal) => (files, Err(refusal)),
            Ok(false) => (files, Ok(OutcomeModel::Skipped(task))),
            Ok(true) => {
                let (after, outcome) = multi_pack_write::index_run(
                    files,
                    git,
                    options.multi_pack_index,
                );
                (
                    after,
                    match outcome {
                        Err(refusal) => Err(refusal),
                        Ok(report) => Ok(OutcomeModel::MultiPackIndex(report)),
                    },
                )
            },
        },
        MaintenanceTask::PackRefs => {
            let (after, outcome) = pack_refs::packing(files, git, options.pack_refs);
            (
                after,
                match outcome {
                    Err(refusal) => Err(refusal),
                    Ok(list) => Ok(
                        OutcomeModel::PackRefs(
                            Seq::new(list.len(), |i: int| list[i].name),
                            if options.pack_refs.prune && !options.pack_refs.dry_run {
                                list.len()
                            } else {
                                0
                            },
                        ),
                    ),
                },
            )
        },
        MaintenanceTask::WorktreePrune => {
            let (after, outcome) = gc::worktrees_pruned(files, git, options.worktree_prune);
            (
                after,
                match outcome {
                    Err(refusal) => Err(refusal),
                    Ok(list) => Ok(OutcomeModel::WorktreePrune(list)),
                },
            )
        },
        _ => (files, Ok(OutcomeModel::Pending(task))),
    }
}

/// What running tasks after some others, up to the first that is left to
/// others, makes of the files, and what becomes of them.
pub open spec fn tasks_run(
    files: memory::Tree,
    git: Seq<u8>,
    options: MaintenanceOptions,
    run: RunModel,
) -> (memory::Tree, core::result::Result<RunModel, Refusal>)
    decreases run.pending.len(),
{
    if run.pending.len() == 0 {
        (files, Ok(run))
    } else {
        let (after, outcome) = task_run(files, git, run.pending[0], options);
        match outcome {
            Err(refusal) => (after, Err(refusal)),
            Ok(model) => {
                let next = RunModel {
                    outcomes: run.outcomes.push(model),
                    pending: run.pending.drop_first(),
                };
                if is_open(model) {
                    (after, Ok(next))
                } else {
                    tasks_run(after, git, options, next)
                }
            },
        }
    }
}

/// What going on makes of the files, once others did what was left to them,
/// and what becomes of the tasks.
pub open spec fn run_resumed(
    files: memory::Tree,
    git: Seq<u8>,
    options: MaintenanceOptions,
    run: RunModel,
) -> (memory::Tree, core::result::Result<RunModel, Refusal>) {
    if run.outcomes.len() == 0 {
        tasks_run(files, git, options, run)
    } else {
        match run.outcomes.last() {
            OutcomeModel::Gc(report) => {
                let (after, outcome) = gc::gc_resumed(files, git, options.gc, report);
                match outcome {
                    Err(refusal) => (after, Err(refusal)),
                    Ok(done) => {
                        let next = RunModel {
                            outcomes: run.outcomes.drop_last().push(OutcomeModel::Gc(done)),
                            pending: run.pending,
                        };
                        if done.pending.len() > 0 {
                            (after, Ok(next))
                        } else {
                            tasks_run(after, git, options, next)
                        }
                    },
                }
            },
            _ => tasks_run(files, git, options, run),
        }
    }
}

pub open spec fn maintenance_lock(git: Seq<u8>) -> Seq<u8> {
    repository::joined(git, bytes::utf8("objects/maintenance.lock"@))
}

/// What maintenance makes of the files, and what becomes of its tasks. A run
/// that changes anything holds a lock until its last task is done.
pub open spec fn maintained(files: memory::Tree, git: Seq<u8>, options: MaintenanceOptions) -> (
    memory::Tree,
    core::result::Result<RunModel, Refusal>,
) {
    let start = RunModel { outcomes: Seq::empty(), pending: options.tasks@ };
    match options_fault(options) {
        Some(error) => (files, Err(Refusal::Said(error))),
        None => if options.dry_run {
            tasks_run(files, git, prepared(options), start)
        } else {
            let (locked, refusal) = gc::lock_taken(
                files,
                maintenance_lock(git),
                bytes::utf8("git-rs maintenance\n"@),
            );
            match refusal {
                Some(refusal) => (locked, Err(refusal)),
                None => {
                    let (done, outcome) = tasks_run(locked, git, prepared(options), start);
                    gc::released(done, maintenance_lock(git), outcome, unfinished(outcome))
                },
            }
        },
    }
}

/// What resuming maintenance makes of the files, and what becomes of its
/// tasks.
pub open spec fn maintenance_resumed(
    files: memory::Tree,
    git: Seq<u8>,
    options: MaintenanceOptions,
    run: RunModel,
) -> (memory::Tree, core::result::Result<RunModel, Refusal>) {
    let (done, outcome) = run_resumed(files, git, prepared(options), run);
    if options.dry_run {
        (done, outcome)
    } else {
        gc::released(done, maintenance_lock(git), outcome, unfinished(outcome))
    }
}

proof fn lemma_names()
    ensures
        path::plain(bytes::utf8("objects/maintenance.lock"@)),
        bytes::utf8("objects/maintenance.lock"@).len() > 0,
        path::plain(bytes::utf8("objects/pack"@)),
        bytes::utf8("objects/pack"@).len() > 0,
{
    reveal_strlit("objects/maintenance.lock");
    reveal_strlit("objects/pack");
    bytes::lemma_ascii("objects/maintenance.lock"@);
    bytes::lemma_ascii("objects/pack"@);
    let whole = bytes::utf8("objects/maintenance.lock"@);
    let top = whole.take(7);
    let name = whole.skip(8);
    let packs = bytes::utf8("objects/pack"@);
    let pack = packs.skip(8);
    assert(name[0] == 109);
    assert(pack[0] == 112);
    assert(top[0] == 111);
    path::lemma_plain_name(top);
    path::lemma_plain_name(name);
    path::lemma_plain_name(pack);
    path::lemma_plain_concat(top, name);
    path::lemma_plain_concat(top, pack);
    assert(whole =~= top.push(47) + name);
    assert(packs =~= top.push(47) + pack);
}

impl Repository {
    fn has_pack_indexes(&self) -> (r: Result<bool>)
        ensures
            match has_indexes(self.tree(), self.git()) {
                Ok(yes) => r == Ok::<bool, Error>(yes),
                Err(refusal) => fs::declined(r, refusal),
            },
    {
        proof {
            lemma_names();
        }
        let names = match self.list_directory("objects/pack".as_bytes()) {
            Ok(names) => names,
            Err(Error::NotFound(_)) => return Ok(false),
            Err(error) => return Err(error),
        };
        let ghost all = bytes::deep(names@);
        let mut i: usize = 0;
        while i < names.len()
            invariant
                i <= names@.len(),
                all == bytes::deep(names@),
                has_indexes(self.tree(), self.git()) == Ok::<bool, Refusal>(any_index(all)),
                forall|k: int|
                    0 <= k < i ==> !storage::has_extension(
                        #[trigger] all[k],
                        bytes::utf8("idx"@),
                    ),
            decreases names@.len() - i,
        {
            assert(all[i as int] == names@[i as int]@);
            if storage::ends_in(names[i].as_slice(), "idx".as_bytes()) {
                return Ok(true);
            }
            i += 1;
        }
        Ok(false)
    }

    fn run_task(&mut self, task: MaintenanceTask, options: &MaintenanceOptions) -> (r: Result<
        MaintenanceOutcome,
    >)
        requires
            options.gc == gc::prepared(options.gc),
        ensures
            final(self).git() == old(self).git(),
            final(self).work() == old(self).work(),
            ({
                let (after, outcome) = task_run(
                    old(self).tree(),
                    old(self).git(),
                    task,
                    *options,
                );
                &&& final(self).tree() == after
                &&& match outcome {
                    Ok(model) => r is Ok && r->Ok_0@ == model,
                    Err(refusal) => fs::declined(r, refusal),
                }
            }),
    {
        reveal(task_run);
        match task {
            MaintenanceTask::Gc => Ok(MaintenanceOutcome::Gc(self.run_gc(&options.gc)?)),
            MaintenanceTask::MultiPackIndex => {
                if self.has_pack_indexes()? {
                    Ok(
                        MaintenanceOutcome::MultiPackIndex(
                            self.write_multi_pack_index(&options.multi_pack_index)?,
                        ),
                    )
                } else {
                    Ok(MaintenanceOutcome::Skipped(task))
                }
            },
            MaintenanceTask::PackRefs => Ok(
                MaintenanceOutcome::PackRefs(self.pack_refs(&options.pack_refs)?),
            ),
            MaintenanceTask::WorktreePrune => Ok(
                MaintenanceOutcome::WorktreePrune(self.prune_worktrees(&options.worktree_prune)?),
            ),
            _ => Ok(MaintenanceOutcome::Pending(task)),
        }
    }

    fn run_maintenance_tasks(
        &mut self,
        options: &MaintenanceOptions,
        outcomes: Vec<MaintenanceOutcome>,
        tasks: &Vec<MaintenanceTask>,
    ) -> (r: Result<MaintenanceReport>)
        requires
            options.gc == gc::prepared(options.gc),
        ensures
            final(self).git() == old(self).git(),
            final(self).work() == old(self).work(),
            ({
                let (after, outcome) = tasks_run(
                    old(self).tree(),
                    old(self).git(),
                    *options,
                    RunModel { outcomes: models(outcomes@), pending: tasks@ },
                );
                &&& final(self).tree() == after
                &&& match outcome {
                    Ok(run) => r is Ok && r->Ok_0@ == run && r->Ok_0.dry_run == options.dry_run,
                    Err(refusal) => fs::declined(r, refusal),
                }
            }),
    {
        let ghost git = self.git();
        let ghost goal = tasks_run(
            self.tree(),
            git,
            *options,
            RunModel { outcomes: models(outcomes@), pending: tasks@ },
        );
        let ghost first = models(outcomes@);
        let mut done = outcomes;
        let mut i: usize = 0;
        assert(tasks@.skip(0) =~= tasks@);
        while i < tasks.len()
            invariant
                i <= tasks@.len(),
                options.gc == gc::prepared(options.gc),
                git == old(self).git(),
                self.git() == git,
                self.work() == old(self).work(),
                first == models(outcomes@),
                goal == tasks_run(
                    old(self).tree(),
                    git,
                    *options,
                    RunModel { outcomes: first, pending: tasks@ },
                ),
                goal == tasks_run(
                    self.tree(),
                    git,
                    *options,
                    RunModel { outcomes: models(done@), pending: tasks@.skip(i as int) },
                ),
            decreases tasks@.len() - i,
        {
            assert(tasks@.skip(i as int).drop_first() =~= tasks@.skip(i + 1));
            assert(tasks@.skip(i as int)[0] == tasks@[i as int]);
            let outcome = self.run_task(tasks[i], options)?;
            let open = match &outcome {
                MaintenanceOutcome::Pending(_) => true,
                MaintenanceOutcome::Gc(report) => report.pending.len() > 0,
                _ => false,
            };
            let ghost before = done@;
            let ghost model = outcome@;
            done.push(outcome);
            assert(models(done@) =~= models(before).push(model));
            i += 1;
            if open {
                let pending = tasks_from(tasks, i);
                return Ok(MaintenanceReport { dry_run: options.dry_run, outcomes: done, pending });
            }
        }
        let pending = tasks_from(tasks, i);
        Ok(MaintenanceReport { dry_run: options.dry_run, outcomes: done, pending })
    }

    fn release_maintenance(&mut self, result: Result<MaintenanceReport>) -> (r: Result<
        MaintenanceReport,
    >)
        ensures
            final(self).git() == old(self).git(),
            final(self).work() == old(self).work(),
            ({
                let held = result is Ok && unfinished(Ok(result->Ok_0@));
                let (after, refusal) = gc::lock_dropped(
                    old(self).tree(),
                    maintenance_lock(old(self).git()),
                );
                if held {
                    final(self).tree() == old(self).tree() && r == result
                } else {
                    &&& final(self).tree() == after
                    &&& match (result, refusal) {
                        (Err(_), _) => r == result,
                        (Ok(_), Some(refusal)) => fs::declined(r, refusal),
                        (Ok(_), None) => r == result,
                    }
                }
            }),
    {
        proof {
            lemma_names();
        }
        let held = match &result {
            Ok(report) => report.is_unfinished(),
            Err(_) => false,
        };
        if held {
            return result;
        }
        let cleanup = self.drop_lock("objects/maintenance.lock".as_bytes());
        match (result, cleanup) {
            (Err(error), _) => Err(error),
            (Ok(_), Err(error)) => Err(error),
            (Ok(report), Ok(())) => Ok(report),
        }
    }

    /// Runs tasks in the order in which they are given, up to the first that
    /// is left to others. A run that changes anything holds one lock until its
    /// last task is done; a dry run takes no lock and changes nothing. Tasks
    /// that are done are not undone where a later one fails.
    pub fn run_maintenance(&mut self, options: MaintenanceOptions) -> (r: Result<MaintenanceReport>)
        ensures
            final(self).git() == old(self).git(),
            final(self).work() == old(self).work(),
            ({
                let (after, outcome) = maintained(old(self).tree(), old(self).git(), options);
                &&& final(self).tree() == after
                &&& match outcome {
                    Ok(run) => r is Ok && r->Ok_0@ == run && r->Ok_0.dry_run == options.dry_run,
                    Err(refusal) => fs::declined(r, refusal),
                }
            }),
    {
        validate_options(&options)?;
        let dry_run = options.dry_run;
        let ready = prepare(options);
        let none: Vec<MaintenanceOutcome> = Vec::new();
        assert(models(none@) =~= Seq::empty());
        if dry_run {
            return self.run_maintenance_tasks(&ready, none, &ready.tasks);
        }
        proof {
            lemma_names();
        }
        self.take_lock(
            "objects/maintenance.lock".as_bytes(),
            "git-rs maintenance\n".as_bytes(),
        )?;
        let result = self.run_maintenance_tasks(&ready, none, &ready.tasks);
        self.release_maintenance(result)
    }

    fn resume_tasks(&mut self, options: &MaintenanceOptions, report: MaintenanceReport) -> (r: Result<
        MaintenanceReport,
    >)
        requires
            options.gc == gc::prepared(options.gc),
        ensures
            final(self).git() == old(self).git(),
            final(self).work() == old(self).work(),
            ({
                let (after, outcome) = run_resumed(
                    old(self).tree(),
                    old(self).git(),
                    *options,
                    report@,
                );
                &&& final(self).tree() == after
                &&& match outcome {
                    Ok(run) => r is Ok && r->Ok_0@ == run && r->Ok_0.dry_run == options.dry_run,
                    Err(refusal) => fs::declined(r, refusal),
                }
            }),
    {
        let ghost all = report@;
        let tasks = report.pending;
        let mut outcomes = report.outcomes;
        let ghost whole = outcomes@;
        match outcomes.pop() {
            None => self.run_maintenance_tasks(options, outcomes, &tasks),
            Some(MaintenanceOutcome::Gc(unfinished)) => {
                assert(models(whole).last() == OutcomeModel::Gc(unfinished@));
                assert(models(outcomes@) =~= models(whole).drop_last());
                let done = self.resume_gc(&options.gc, unfinished)?;
                let open = done.pending.len() > 0;
                let ghost before = outcomes@;
                let outcome = MaintenanceOutcome::Gc(done);
                let ghost model = outcome@;
                outcomes.push(outcome);
                assert(models(outcomes@) =~= models(before).push(model));
                if open {
                    return Ok(
                        MaintenanceReport { dry_run: options.dry_run, outcomes, pending: tasks },
                    );
                }
                self.run_maintenance_tasks(options, outcomes, &tasks)
            },
            Some(other) => {
                assert(models(whole).last() == other@);
                outcomes.push(other);
                assert(outcomes@ =~= whole);
                self.run_maintenance_tasks(options, outcomes, &tasks)
            },
        }
    }

    /// Resumes maintenance once others did what was left to them: a task that
    /// is pending, or the first pending stage of a collection.
    pub fn resume_maintenance(&mut self, options: MaintenanceOptions, report: MaintenanceReport) -> (r:
        Result<MaintenanceReport>)
        ensures
            final(self).git() == old(self).git(),
            final(self).work() == old(self).work(),
            ({
                let (after, outcome) = maintenance_resumed(
                    old(self).tree(),
                    old(self).git(),
                    options,
                    report@,
                );
                &&& final(self).tree() == after
                &&& match outcome {
                    Ok(run) => r is Ok && r->Ok_0@ == run && r->Ok_0.dry_run == options.dry_run,
                    Err(refusal) => fs::declined(r, refusal),
                }
            }),
    {
        let dry_run = options.dry_run;
        let ready = prepare(options);
        let result = self.resume_tasks(&ready, report);
        if dry_run {
            return result;
        }
        self.release_maintenance(result)
    }

    /// Gives maintenance up where what was left to others failed: lets its
    /// lock go.
    pub fn abandon_maintenance(&mut self) -> (r: Result<()>)
        ensures
            final(self).git() == old(self).git(),
            final(self).work() == old(self).work(),
            ({
                let (after, refusal) = gc::lock_dropped(
                    old(self).tree(),
                    maintenance_lock(old(self).git()),
                );
                &&& final(self).tree() == after
                &&& match refusal {
                    Some(refusal) => fs::declined(r, refusal),
                    None => r is Ok,
                }
            }),
    {
        proof {
            lemma_names();
        }
        self.drop_lock("objects/maintenance.lock".as_bytes())
    }
}

impl MaintenanceReport {
    /// Whether something is left to be done.
    pub fn is_unfinished(&self) -> (r: bool)
        ensures
            r == unfinished(Ok(self@)),
    {
        if self.pending.len() > 0 {
            return true;
        }
        let n: usize = self.outcomes.len();
        if n == 0 {
            return false;
        }
        assert(self@.outcomes.last() == self.outcomes@[n - 1]@);
        match &self.outcomes[n - 1] {
            MaintenanceOutcome::Pending(_) => true,
            MaintenanceOutcome::Gc(report) => report.pending.len() > 0,
            _ => false,
        }
    }
}

fn tasks_from(tasks: &Vec<MaintenanceTask>, from: usize) -> (r: Vec<MaintenanceTask>)
    requires
        from <= tasks@.len(),
    ensures
        r@ == tasks@.skip(from as int),
{
    let mut out: Vec<MaintenanceTask> = Vec::new();
    let mut i: usize = from;
    while i < tasks.len()
        invariant
            from <= i <= tasks@.len(),
            out@ == tasks@.subrange(from as int, i as int),
        decreases tasks@.len() - i,
    {
        out.push(tasks[i]);
        assert(out@ =~= tasks@.subrange(from as int, i + 1));
        i += 1;
    }
    assert(out@ =~= tasks@.skip(from as int));
    out
}

// ---------------------------------------------------------------------------
// Laws

/// A dry run leaves the files as they are.
pub proof fn lemma_dry_run_changes_nothing(
    files: memory::Tree,
    git: Seq<u8>,
    options: MaintenanceOptions,
)
    requires
        options.dry_run,
    ensures
        maintained(files, git, options).0 == files,
{
    if options_fault(options) is None {
        lemma_dry_tasks(
            files,
            git,
            options,
            RunModel { outcomes: Seq::empty(), pending: options.tasks@ },
        );
    }
}

/// Resuming a dry run leaves the files as they are.
pub proof fn lemma_dry_resumption_changes_nothing(
    files: memory::Tree,
    git: Seq<u8>,
    options: MaintenanceOptions,
    run: RunModel,
)
    requires
        options.dry_run,
    ensures
        maintenance_resumed(files, git, options, run).0 == files,
{
    let ready = prepared(options);
    if run.outcomes.len() > 0 && run.outcomes.last() is Gc {
        let report = run.outcomes.last()->Gc_0;
        gc::lemma_dry_resumption_changes_nothing(files, git, ready.gc, report);
        let outcome = gc::gc_resumed(files, git, ready.gc, report).1;
        if outcome is Ok {
            lemma_dry_tasks(
                files,
                git,
                options,
                RunModel {
                    outcomes: run.outcomes.drop_last().push(OutcomeModel::Gc(outcome->Ok_0)),
                    pending: run.pending,
                },
            );
        }
    } else {
        lemma_dry_tasks(files, git, options, run);
    }
}

proof fn lemma_dry_tasks(
    files: memory::Tree,
    git: Seq<u8>,
    options: MaintenanceOptions,
    run: RunModel,
)
    requires
        options.dry_run,
    ensures
        tasks_run(files, git, prepared(options), run).0 == files,
    decreases run.pending.len(),
{
    if run.pending.len() > 0 {
        let ready = prepared(options);
        lemma_dry_task(files, git, options, run.pending[0]);
        let outcome = task_run(files, git, run.pending[0], ready).1;
        if outcome is Ok {
            lemma_dry_tasks(
                files,
                git,
                options,
                RunModel {
                    outcomes: run.outcomes.push(outcome->Ok_0),
                    pending: run.pending.drop_first(),
                },
            );
        }
    }
}

proof fn lemma_dry_task(
    files: memory::Tree,
    git: Seq<u8>,
    options: MaintenanceOptions,
    task: MaintenanceTask,
)
    requires
        options.dry_run,
    ensures
        task_run(files, git, task, prepared(options)).0 == files,
{
    reveal(task_run);
    reveal(multi_pack_write::index_run);
    let ready = prepared(options);
    gc::lemma_dry_run_changes_nothing(
        files,
        git,
        GcOptions { dry_run: true, force: false, ..options.gc },
    );
    assert(pack_refs::packing(files, git, ready.pack_refs).0 == files);
}

/// Where the lock is held by another, nothing changes.
pub proof fn lemma_lock_is_respected(files: memory::Tree, git: Seq<u8>, options: MaintenanceOptions)
    requires
        !options.dry_run,
        files.contains_key(maintenance_lock(git)),
    ensures
        maintained(files, git, options).0 == files,
        maintained(files, git, options).1 is Err,
{
}

} // verus!
