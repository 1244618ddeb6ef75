use git_rs::linked_worktree::{enable_relative_worktrees, parse_head};
use git_rs::{
    AddWorktreeOptions, AddedWorktree, Commit, Error, FileStat, FileSystem, MemoryFileSystem,
    MoveWorktreeOptions, ObjectId, ObjectKind, RemoveWorktreeOptions, Repository, Signature,
    WorktreeFormat, WorktreePruneOptions, WorktreePruneReason, WorktreeTarget,
};

const PLAIN: WorktreeFormat = WorktreeFormat {
    relative: None,
    version: 0,
};

const UNKNOWN: WorktreeFormat = WorktreeFormat {
    relative: None,
    version: 1,
};

fn settings() -> Vec<(Vec<u8>, Vec<u8>)> {
    vec![
        (b"core.repositoryformatversion".to_vec(), b"1".to_vec()),
        (b"extensions.relativeworktrees".to_vec(), b"true".to_vec()),
    ]
}

fn repository() -> Repository {
    let mut files = MemoryFileSystem::new();
    files.create_dir_all(b"main/.git/objects/pack").unwrap();
    files.create_dir_all(b"main/.git/refs/heads").unwrap();
    files
        .write(b"main/.git/HEAD", b"ref: refs/heads/main\n")
        .unwrap();
    Repository::open(files, b"main/.git", Some(b"main")).unwrap()
}

fn commit(repository: &mut Repository) -> ObjectId {
    let tree = repository.write_object(ObjectKind::Tree, b"").unwrap();
    let who = || Signature::new(b"Worktree", b"worktree@example.com", 1, 0).unwrap();
    repository
        .write_commit(&Commit::new(
            tree,
            Vec::new(),
            who(),
            who(),
            b"worktree\n".to_vec(),
        ))
        .unwrap()
}

fn add(
    repository: &mut Repository,
    path: &[u8],
    name: &[u8],
    target: &WorktreeTarget,
    tip: Option<ObjectId>,
) -> Result<AddedWorktree, Error> {
    repository.add_worktree(
        path,
        name,
        target,
        tip,
        PLAIN,
        &AddWorktreeOptions::default(),
    )
}

fn with_files<T>(
    repository: &mut Repository,
    action: impl FnOnce(&mut MemoryFileSystem) -> T,
) -> T {
    let mut files = repository.swap_files(MemoryFileSystem::new());
    let result = action(&mut files);
    repository.swap_files(files);
    result
}

fn stands(repository: &Repository, path: &[u8]) -> bool {
    repository.filesystem().is_present(path).unwrap()
}

fn read(repository: &Repository, path: &[u8]) -> Vec<u8> {
    repository.filesystem().read(path).unwrap()
}

#[test]
fn registers_and_lists_linked_worktrees() {
    let mut repository = repository();
    let tip = commit(&mut repository);
    let topic = WorktreeTarget::Branch(b"topic".to_vec());
    let unborn = add(&mut repository, b"topic-work", b"topic-work", &topic, None);
    assert!(matches!(unborn, Err(Error::NotFound(name)) if name == b"refs/heads/topic"));
    let blob = repository.write_object(ObjectKind::Blob, b"blob").unwrap();
    let wrong = add(&mut repository, b"topic-work", b"topic-work", &topic, Some(blob));
    assert!(matches!(wrong, Err(Error::InvalidCommit(_))));
    let size = repository.read_object(tip, None, 4096).unwrap().data().len();
    let small = repository.add_worktree(
        b"topic-work",
        b"topic-work",
        &topic,
        Some(tip),
        PLAIN,
        &AddWorktreeOptions {
            max_object_size: size - 1,
            ..AddWorktreeOptions::default()
        },
    );
    assert!(matches!(small, Err(Error::ObjectTooLarge { .. })));
    let misnamed = WorktreeTarget::Branch(b"a..b".to_vec());
    let misnamed = add(&mut repository, b"topic-work", b"topic-work", &misnamed, Some(tip));
    assert!(matches!(misnamed, Err(Error::InvalidReferenceName(name)) if name == b"refs/heads/a..b"));
    let absent = WorktreeTarget::Detached(ObjectId::null());
    assert!(add(&mut repository, b"topic-work", b"topic-work", &absent, None).is_err());
    assert!(!stands(&repository, b"topic-work"));
    assert!(!stands(&repository, b"main/.git/worktrees"));

    let unknown = repository.add_worktree(
        b"topic-work",
        b"topic-work",
        &topic,
        Some(tip),
        UNKNOWN,
        &AddWorktreeOptions::default(),
    );
    assert!(matches!(unknown, Err(Error::InvalidRepository(_))));
    assert!(!stands(&repository, b"main/.git/worktrees"));
    let added = add(&mut repository, b"topic-work", b"topic-work", &topic, Some(tip)).unwrap();
    assert_eq!(added.git_dir, b"main/.git/worktrees/topic-work");
    assert_eq!(added.settings, settings());
    assert_eq!(
        added.checkout,
        Some(repository.read_commit(tip, 4096).unwrap().tree())
    );
    assert_eq!(
        read(&repository, b"topic-work/.git"),
        b"gitdir: ../main/.git/worktrees/topic-work\n"
    );
    assert_eq!(
        read(&repository, b"main/.git/worktrees/topic-work/HEAD"),
        b"ref: refs/heads/topic\n"
    );
    let listed = repository.linked_worktrees().unwrap();
    assert_eq!(listed.len(), 1);
    assert_eq!(listed[0].path, b"topic-work");
    assert!(matches!(&listed[0].target, WorktreeTarget::Branch(name) if name == b"topic"));
    let taken = add(&mut repository, b"duplicate", b"duplicate", &topic, Some(tip));
    assert!(matches!(taken, Err(Error::ReferenceConflict(_))));
    let main = WorktreeTarget::Branch(b"main".to_vec());
    assert!(add(&mut repository, b"main-duplicate", b"main-duplicate", &main, Some(tip)).is_err());

    let detached = WorktreeTarget::Detached(tip);
    let same_name = add(&mut repository, b"elsewhere", b"topic-work", &detached, None);
    assert!(matches!(same_name, Err(Error::AlreadyExists(_))));
    let same_path = add(&mut repository, b"topic-work", b"elsewhere", &detached, None);
    assert!(matches!(same_path, Err(Error::AlreadyExists(_))));
    let added = repository
        .add_worktree(
            b"./detached-work",
            b"detached-work",
            &detached,
            None,
            WorktreeFormat {
                relative: Some(true),
                version: 1,
            },
            &AddWorktreeOptions {
                checkout: false,
                ..AddWorktreeOptions::default()
            },
        )
        .unwrap();
    assert!(added.settings.is_empty());
    assert_eq!(added.checkout, None);
    let listed = repository.linked_worktrees().unwrap();
    let names: Vec<&[u8]> = listed.iter().map(|info| info.name.as_slice()).collect();
    assert_eq!(names, [&b"detached-work"[..], b"topic-work"]);
    assert_eq!(listed[0].path, b"detached-work");
    assert_eq!(
        read(&repository, b"main/.git/worktrees/detached-work/HEAD"),
        format!("{}\n", tip.to_string()).as_bytes()
    );
    repository
        .remove_worktree(b"detached-work", false, &[])
        .unwrap();
    assert!(repository
        .remove_worktree(b"topic-work", false, &[b"file".to_vec()])
        .is_err());
    repository
        .remove_worktree(b"topic-work", true, &[b"file".to_vec()])
        .unwrap();
    assert!(!stands(&repository, b"topic-work"));
    assert!(repository.linked_worktrees().unwrap().is_empty());
}

#[test]
fn locks_unlocks_and_requires_separate_lock_override_for_removal() {
    let mut repository = repository();
    let tip = commit(&mut repository);
    add(&mut repository, b"detached-work", b"detached-work", &WorktreeTarget::Detached(tip), None).unwrap();

    repository
        .lock_worktree(b"detached-work", Some(b"  portable device  "))
        .unwrap();
    assert_eq!(
        read(&repository, b"main/.git/worktrees/detached-work/locked"),
        b"  portable device  \n"
    );
    assert_eq!(
        repository.worktree_lock_reason(b"detached-work").unwrap(),
        Some(b"portable device".to_vec())
    );
    assert!(repository.lock_worktree(b"detached-work", None).is_err());
    assert!(repository
        .remove_worktree(b"detached-work", true, &[])
        .is_err());
    repository.unlock_worktree(b"detached-work").unwrap();
    assert_eq!(
        repository.worktree_lock_reason(b"detached-work").unwrap(),
        None
    );
    assert!(repository.unlock_worktree(b"detached-work").is_err());
    repository.lock_worktree(b"detached-work", None).unwrap();
    repository
        .remove_worktree_with_options(
            b"detached-work",
            &RemoveWorktreeOptions {
                force: false,
                override_lock: true,
            },
            &[],
        )
        .unwrap();
    assert!(!stands(&repository, b"detached-work"));
}

#[test]
fn repairs_both_links_after_an_external_worktree_move() {
    let mut repository = repository();
    let tip = commit(&mut repository);
    add(&mut repository, b"old-place", b"moved", &WorktreeTarget::Detached(tip), None).unwrap();
    let old_dot_git = read(&repository, b"old-place/.git");
    with_files(&mut repository, |files| {
        files.create_dir_all(b"new-place").unwrap();
        files.write(b"new-place/.git", &old_dot_git).unwrap();
        files.remove_tree(b"old-place").unwrap();
    });

    let old_admin = read(&repository, b"main/.git/worktrees/moved/gitdir");
    with_files(&mut repository, |files| {
        files.write_new(b"new-place/.git.lock", b"busy").unwrap();
    });
    assert!(repository
        .repair_worktree(b"moved", b"new-place", PLAIN)
        .is_err());
    assert_eq!(
        read(&repository, b"main/.git/worktrees/moved/gitdir"),
        old_admin
    );
    assert_eq!(read(&repository, b"new-place/.git"), old_dot_git);
    assert!(!stands(
        &repository,
        b"main/.git/worktrees/moved/gitdir.lock"
    ));
    with_files(&mut repository, |files| {
        files.remove_file(b"new-place/.git.lock").unwrap();
    });

    let unknown = repository.repair_worktree(b"moved", b"new-place", UNKNOWN);
    assert!(matches!(unknown, Err(Error::InvalidRepository(_))));
    let repair = repository
        .repair_worktree(b"moved", b"new-place", PLAIN)
        .unwrap();
    assert!(repair.changed);
    assert_eq!(repair.settings, settings());
    assert_eq!(
        read(&repository, b"new-place/.git"),
        b"gitdir: ../main/.git/worktrees/moved\n"
    );
    assert_eq!(
        read(&repository, b"main/.git/worktrees/moved/gitdir"),
        b"../../../../new-place/.git\n"
    );
    let second = repository
        .repair_worktree(b"moved", b"new-place", UNKNOWN)
        .unwrap();
    assert!(!second.changed);
    assert!(second.settings.is_empty());
}

#[test]
fn moves_locked_worktree_into_container_with_explicit_authority() {
    let mut repository = repository();
    let tip = commit(&mut repository);
    add(&mut repository, b"old-place", b"moving", &WorktreeTarget::Detached(tip), None).unwrap();
    with_files(&mut repository, |files| {
        files.write(b"old-place/file", b"move\n").unwrap();
        files.create_dir_all(b"container").unwrap();
    });
    repository
        .lock_worktree(b"moving", Some(b"mounted"))
        .unwrap();

    assert!(repository
        .move_worktree(
            b"moving",
            b"container",
            PLAIN,
            &MoveWorktreeOptions::default()
        )
        .is_err());
    let destination = repository
        .move_worktree(
            b"moving",
            b"container",
            PLAIN,
            &MoveWorktreeOptions {
                override_locks: true,
                ..Default::default()
            },
        )
        .unwrap();
    assert_eq!(destination.path, b"container/old-place");
    assert_eq!(destination.settings, settings());
    assert!(!stands(&repository, b"old-place"));
    assert_eq!(read(&repository, b"container/old-place/file"), b"move\n");
    assert_eq!(
        repository.linked_worktrees().unwrap()[0].path,
        b"container/old-place"
    );
}

#[test]
fn move_requires_force_to_replace_a_missing_registration() {
    let mut repository = repository();
    let tip = commit(&mut repository);
    for (path, name) in [
        (&b"source"[..], &b"source"[..]),
        (b"destination", b"stale"),
    ] {
        add(&mut repository, path, name, &WorktreeTarget::Detached(tip), None).unwrap();
    }
    with_files(&mut repository, |files| {
        files.remove_tree(b"destination").unwrap();
    });
    assert!(repository
        .move_worktree(
            b"source",
            b"destination",
            PLAIN,
            &MoveWorktreeOptions::default()
        )
        .is_err());
    repository
        .move_worktree(
            b"source",
            b"destination",
            PLAIN,
            &MoveWorktreeOptions {
                force_registered_destination: true,
                override_locks: false,
            },
        )
        .unwrap();
    assert!(!stands(&repository, b"main/.git/worktrees/stale"));
    assert!(stands(&repository, b"destination/.git"));
}

#[test]
fn prunes_only_eligible_unlocked_administrative_entries() {
    let mut repository = repository();
    with_files(&mut repository, |files| {
        files.create_dir_all(b"main/.git/worktrees/live").unwrap();
        files
            .write(
                b"main/.git/worktrees/live/gitdir",
                b"../../../../live/.git\n",
            )
            .unwrap();
        files.create_dir_all(b"live").unwrap();
        files.write(b"live/.git", b"gitdir: elsewhere\n").unwrap();

        files
            .create_dir_all(b"main/.git/worktrees/missing")
            .unwrap();
        files
            .write(
                b"main/.git/worktrees/missing/gitdir",
                b"../../../../gone/.git\n",
            )
            .unwrap();
        files
            .write(b"main/.git/worktrees/missing/index", b"index")
            .unwrap();

        files.create_dir_all(b"main/.git/worktrees/locked").unwrap();
        files
            .write(b"main/.git/worktrees/locked/locked", b"portable device\n")
            .unwrap();

        files
            .create_dir_all(b"main/.git/worktrees/malformed")
            .unwrap();
        files
            .write(b"main/.git/worktrees/stray", b"not a directory")
            .unwrap();
        files
            .create_dir_all(b"main/.git/worktrees/live-copy")
            .unwrap();
        files
            .write(
                b"main/.git/worktrees/live-copy/gitdir",
                b"../../../../live/.git\n",
            )
            .unwrap();
    });

    let options = WorktreePruneOptions {
        expire_before: 0,
        ..Default::default()
    };
    let entries = repository.prune_worktrees(&options).unwrap();
    assert_eq!(entries.len(), 4);
    assert_eq!(entries[0].name(), b"live-copy");
    assert_eq!(entries[0].reason(), WorktreePruneReason::Duplicate);
    assert_eq!(entries[1].name(), b"malformed");
    assert_eq!(entries[1].reason(), WorktreePruneReason::MissingGitdir);
    assert_eq!(entries[2].name(), b"missing");
    assert_eq!(entries[2].reason(), WorktreePruneReason::MissingWorktree);
    assert_eq!(entries[3].reason(), WorktreePruneReason::NotDirectory);
    assert!(stands(&repository, b"main/.git/worktrees/missing"));

    let removed = repository
        .prune_worktrees(&WorktreePruneOptions {
            dry_run: false,
            ..options
        })
        .unwrap();
    assert_eq!(removed, entries);
    assert!(stands(&repository, b"main/.git/worktrees/live"));
    assert!(!stands(&repository, b"main/.git/worktrees/live-copy"));
    assert!(stands(&repository, b"main/.git/worktrees/locked"));
    assert!(!stands(&repository, b"main/.git/worktrees/missing"));
    assert!(!stands(&repository, b"main/.git/worktrees/malformed"));
    assert!(!stands(&repository, b"main/.git/worktrees/stray"));
}

#[test]
fn bounds_worktree_prune_scans() {
    let mut repository = repository();
    with_files(&mut repository, |files| {
        files.create_dir_all(b"main/.git/worktrees/one").unwrap();
    });
    let error = repository
        .prune_worktrees(&WorktreePruneOptions {
            max_worktrees: 0,
            ..Default::default()
        })
        .unwrap_err();
    assert!(matches!(error, Error::InvalidRepository(text) if text.contains("exceeds limit")));
}

#[test]
fn relative_links_are_enabled_once() {
    assert!(enable_relative_worktrees(WorktreeFormat {
        relative: Some(true),
        version: 1
    })
    .unwrap()
    .is_empty());
    assert_eq!(enable_relative_worktrees(PLAIN).unwrap(), settings());
    assert!(enable_relative_worktrees(WorktreeFormat {
        relative: Some(false),
        version: 1
    })
    .is_err());
}

#[test]
fn a_head_with_an_unsound_branch_name_is_refused() {
    use_head(b"ref: refs/heads/topic\n", true);
    use_head(b"ref: refs/heads/to..pic\n", false);
    use_head(b"ref: refs/heads/\n", false);
    use_head(b"ref: refs/tags/topic\n", false);
}

fn use_head(text: &[u8], sound: bool) {
    let parsed = parse_head(text);
    if sound {
        assert!(matches!(parsed, Ok(WorktreeTarget::Branch(name)) if name == b"topic"));
    } else {
        assert!(parsed.is_err());
    }
}

#[test]
fn a_dry_pruning_run_foretells_the_real_one() {
    let mut repository = repository();
    with_files(&mut repository, |files| {
        for name in [&b"b"[..], b"a", b"kept"] {
            let admin = [b"main/.git/worktrees/", name].concat();
            files.create_dir_all(&admin).unwrap();
            files
                .write(&[&admin[..], b"/gitdir"].concat(), b"../../../../gone/.git\n")
                .unwrap();
        }
        files
            .write(b"main/.git/worktrees/kept/locked", b"\n")
            .unwrap();
    });
    let dry = repository
        .prune_worktrees(&WorktreePruneOptions::default())
        .unwrap();
    let names: Vec<&[u8]> = dry.iter().map(|entry| entry.name()).collect();
    assert_eq!(names, [&b"a"[..], b"b"]);
    assert!(stands(&repository, b"main/.git/worktrees/a"));
    let done = repository
        .prune_worktrees(&WorktreePruneOptions {
            dry_run: false,
            ..WorktreePruneOptions::default()
        })
        .unwrap();
    assert_eq!(dry, done);
    assert!(!stands(&repository, b"main/.git/worktrees/a"));
    assert!(stands(&repository, b"main/.git/worktrees/kept"));
}

#[test]
fn registrations_newer_than_the_expiry_are_kept() {
    let mut repository = repository();
    with_files(&mut repository, |files| {
        for (name, seconds) in [(&b"new"[..], 101), (b"edge", 100), (b"old", 99)] {
            let admin = [b"main/.git/worktrees/", name].concat();
            let index = [&admin[..], b"/index"].concat();
            files.create_dir_all(&admin).unwrap();
            files
                .write(&[&admin[..], b"/gitdir"].concat(), b"../../../../gone/.git\n")
                .unwrap();
            files.write(&index, b"index").unwrap();
            files
                .set_stat(
                    &index,
                    FileStat {
                        mtime_seconds: seconds,
                        ..FileStat::default()
                    },
                )
                .unwrap();
        }
        files.create_dir_all(b"main/.git/worktrees/bare").unwrap();
        files
            .write(
                b"main/.git/worktrees/bare/gitdir",
                b"../../../../gone/.git\n",
            )
            .unwrap();
    });
    let pruned = repository
        .prune_worktrees(&WorktreePruneOptions {
            expire_before: 100,
            dry_run: false,
            ..WorktreePruneOptions::default()
        })
        .unwrap();
    let names: Vec<&[u8]> = pruned.iter().map(|entry| entry.name()).collect();
    assert_eq!(names, [&b"bare"[..], b"edge", b"old"]);
    assert!(stands(&repository, b"main/.git/worktrees/new/index"));
    assert!(!stands(&repository, b"main/.git/worktrees/edge"));
    assert!(!stands(&repository, b"main/.git/worktrees/old"));
    let rest = repository
        .prune_worktrees(&WorktreePruneOptions {
            dry_run: false,
            ..WorktreePruneOptions::default()
        })
        .unwrap();
    assert_eq!(rest.len(), 1);
    assert_eq!(rest[0].name(), b"new");
    assert!(!stands(&repository, b"main/.git/worktrees"));
}
