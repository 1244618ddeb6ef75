use git_rs::gc::{gc_stages, prepare};
use git_rs::{
    Commit, FileSystem, GcOptions, GcStage, MaintenanceOptions, MaintenanceOutcome,
    MaintenanceTask, MemoryFileSystem, MultiPackIndexOptions, ObjectId, ObjectKind, PackOptions, Repository, Signature,
};

fn fixture() -> (Repository, ObjectId) {
    let mut files = MemoryFileSystem::new();
    files.create_dir_all(b"repo/.git/objects/pack").unwrap();
    files.create_dir_all(b"repo/.git/refs/heads").unwrap();
    files
        .create_dir_all(b"repo/.git/worktrees/stale")
        .unwrap();
    files
        .write(
            b"repo/.git/worktrees/stale/gitdir",
            b"../../../../missing/.git\n",
        )
        .unwrap();
    let mut repository = Repository::open(files, b"repo/.git", Some(b"repo")).unwrap();
    let tree = repository.write_object(ObjectKind::Tree, b"").unwrap();
    let who = || Signature::new(b"GC", b"gc@example.com", 100, 0).unwrap();
    let commit = repository
        .write_commit(&Commit::new(
            tree,
            Vec::new(),
            who(),
            who(),
            b"base".to_vec(),
        ))
        .unwrap();
    write(
        &mut repository,
        b"repo/.git/refs/heads/main",
        format!("{}\n", commit.to_string()).as_bytes(),
    );
    (repository, commit)
}

fn write(repository: &mut Repository, path: &[u8], data: &[u8]) {
    let mut files = repository.swap_files(MemoryFileSystem::new());
    files.write(path, data).unwrap();
    repository.swap_files(files);
}

fn stands(repository: &Repository, path: &[u8]) -> bool {
    repository.filesystem().is_present(path).unwrap()
}

fn options(dry_run: bool) -> GcOptions {
    GcOptions {
        dry_run,
        force: !dry_run,
        reflog_expire_before: Some(1_000),
        worktree_expire_before: Some(0),
        prune_expire_before: Some(0),
        ..GcOptions::default()
    }
}

#[test]
fn a_dry_collection_previews_and_changes_nothing() {
    let (mut repository, _) = fixture();
    let ready = prepare(options(true));
    let report = repository.run_gc(&ready).unwrap();
    assert_eq!(report.refs_selected, 1);
    assert_eq!(report.refs_pruned, 0);
    let report = repository.resume_gc(&ready, report).unwrap();
    assert_eq!(report.worktrees.len(), 1);
    assert!(stands(&repository, b"repo/.git/refs/heads/main"));
    assert!(stands(&repository, b"repo/.git/worktrees/stale"));
    assert!(!stands(&repository, b"repo/.git/packed-refs"));
    assert!(!stands(&repository, b"repo/.git/gc.pid"));
}

#[test]
fn a_collection_holds_its_lock_until_the_last_stage() {
    let (mut repository, commit) = fixture();
    let ready = prepare(options(false));
    let report = repository.run_gc(&ready).unwrap();
    assert_eq!(report.refs_pruned, 1);
    assert_eq!(
        report.pending,
        vec![
            GcStage::ExpireReflogs,
            GcStage::PruneWorktrees,
            GcStage::Repack,
            GcStage::PruneLooseObjects,
        ]
    );
    assert!(!stands(&repository, b"repo/.git/refs/heads/main"));
    assert!(stands(&repository, b"repo/.git/worktrees/stale"));
    assert!(stands(&repository, b"repo/.git/gc.pid"));
    assert!(repository.gc(options(false)).is_err());

    let report = repository.resume_gc(&ready, report).unwrap();
    assert_eq!(report.worktrees.len(), 1);
    assert_eq!(
        report.pending,
        vec![GcStage::Repack, GcStage::PruneLooseObjects]
    );
    assert!(!stands(&repository, b"repo/.git/worktrees/stale"));
    assert!(stands(&repository, b"repo/.git/gc.pid"));
    let report = repository.resume_gc(&ready, report).unwrap();
    assert!(stands(&repository, b"repo/.git/gc.pid"));
    let report = repository.resume_gc(&ready, report).unwrap();
    assert!(report.pending.is_empty());
    assert!(!stands(&repository, b"repo/.git/gc.pid"));
    assert!(repository.read_object(commit, None, 1024).is_ok());

    repository.gc(options(false)).unwrap();
    repository.abandon_gc().unwrap();
    assert!(!stands(&repository, b"repo/.git/gc.pid"));

    write(&mut repository, b"repo/.git/gc.pid", b"busy\n");
    assert!(repository.gc(options(false)).is_err());
    assert_eq!(repository.read_git_file(b"gc.pid").unwrap(), b"busy\n");
}

#[test]
fn collections_that_change_need_force() {
    let (mut repository, _) = fixture();
    assert!(repository
        .gc(GcOptions {
            dry_run: false,
            force: false,
            ..GcOptions::default()
        })
        .is_err());
}

#[test]
fn stages_come_in_their_order() {
    assert_eq!(
        gc_stages(&options(true)),
        vec![
            GcStage::PackRefs,
            GcStage::ExpireReflogs,
            GcStage::PruneWorktrees,
            GcStage::Repack,
            GcStage::PruneLooseObjects,
        ]
    );
}

#[test]
fn full_maintenance_collects_before_it_indexes_packs() {
    let (mut repository, commit) = fixture();
    repository
        .write_pack(&[commit], &PackOptions::default())
        .unwrap();
    let asked = || MaintenanceOptions {
        dry_run: false,
        force: true,
        ..MaintenanceOptions::full()
    };
    let report = repository.run_maintenance(asked()).unwrap();
    assert!(matches!(report.outcomes(), [MaintenanceOutcome::Gc(gc)] if gc.pending.len() == 1));
    assert_eq!(
        report.pending,
        vec![MaintenanceTask::CommitGraph, MaintenanceTask::MultiPackIndex]
    );
    assert!(report.is_unfinished());
    assert!(stands(&repository, b"repo/.git/objects/maintenance.lock"));
    let report = repository.resume_maintenance(asked(), report).unwrap();
    assert!(matches!(
        report.outcomes(),
        [
            MaintenanceOutcome::Gc(_),
            MaintenanceOutcome::Pending(MaintenanceTask::CommitGraph)
        ]
    ));
    assert!(!stands(&repository, b"repo/.git/gc.pid"));
    assert!(stands(&repository, b"repo/.git/objects/maintenance.lock"));
    assert!(!stands(
        &repository,
        b"repo/.git/objects/pack/multi-pack-index"
    ));
    let report = repository.resume_maintenance(asked(), report).unwrap();
    assert!(matches!(
        report.outcomes(),
        [
            MaintenanceOutcome::Gc(_),
            MaintenanceOutcome::Pending(MaintenanceTask::CommitGraph),
            MaintenanceOutcome::MultiPackIndex(_)
        ]
    ));
    assert!(!report.is_unfinished());
    assert!(stands(
        &repository,
        b"repo/.git/objects/pack/multi-pack-index"
    ));
    assert!(!stands(&repository, b"repo/.git/objects/maintenance.lock"));

    let again = repository
        .write_multi_pack_index(&MultiPackIndexOptions::default())
        .unwrap();
    assert!(!again.changed);
    let report = repository.run_maintenance(asked()).unwrap();
    assert!(report.is_unfinished());
    repository.abandon_gc().unwrap();
    repository.abandon_maintenance().unwrap();
    assert!(!stands(&repository, b"repo/.git/objects/maintenance.lock"));
}

#[test]
fn dry_run_preserves_storage_and_reports_skipped_midx() {
    let (mut repository, _) = fixture();
    let report = repository
        .run_maintenance(MaintenanceOptions {
            tasks: vec![MaintenanceTask::MultiPackIndex],
            ..MaintenanceOptions::default()
        })
        .unwrap();
    assert!(matches!(
        report.outcomes(),
        [MaintenanceOutcome::Skipped(MaintenanceTask::MultiPackIndex)]
    ));
    assert!(!stands(&repository, b"repo/.git/objects/maintenance.lock"));
    assert!(!stands(
        &repository,
        b"repo/.git/objects/pack/multi-pack-index"
    ));
}

#[test]
fn mutation_requires_authority_and_respects_maintenance_lock() {
    let (mut repository, _) = fixture();
    assert!(repository
        .run_maintenance(MaintenanceOptions {
            dry_run: false,
            ..MaintenanceOptions::default()
        })
        .is_err());
    write(
        &mut repository,
        b"repo/.git/objects/maintenance.lock",
        b"other\n",
    );
    assert!(repository
        .run_maintenance(MaintenanceOptions {
            dry_run: false,
            force: true,
            ..MaintenanceOptions::default()
        })
        .is_err());
    assert_eq!(
        repository
            .read_git_file(b"objects/maintenance.lock")
            .unwrap(),
        b"other\n"
    );
}

#[test]
fn maintenance_refuses_empty_and_unbounded_requests() {
    let (mut repository, _) = fixture();
    assert!(repository
        .run_maintenance(MaintenanceOptions {
            tasks: Vec::new(),
            ..MaintenanceOptions::default()
        })
        .is_err());
    assert!(repository
        .run_maintenance(MaintenanceOptions {
            tasks: vec![MaintenanceTask::ReflogExpire],
            ..MaintenanceOptions::default()
        })
        .is_err());
    let report = repository
        .run_maintenance(MaintenanceOptions {
            tasks: vec![MaintenanceTask::PackRefs, MaintenanceTask::WorktreePrune],
            ..MaintenanceOptions::default()
        })
        .unwrap();
    assert!(matches!(
        report.outcomes(),
        [
            MaintenanceOutcome::PackRefs(packed),
            MaintenanceOutcome::WorktreePrune(_)
        ] if packed.packed().len() == 1
    ));
}
