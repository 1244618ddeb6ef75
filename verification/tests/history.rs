use std::str::FromStr;

use git_rs::flat_tree::{Conflict, ContentMerge, ContentQuestion, FlatTree, MergeEntry};
use git_rs::operations::move_along;
use git_rs::{
    Commit, DiffChange, EntryMode, Error, FastForwardMode, FileSystem, FormatPatchNumbering,
    FormatPatchOptions, Head, HeadLog, Index, IndexEntry, IndexVersion, LogEntry, LogOptions, LogSource, MemoryFileSystem,
    MergeFacts, MergeOptions, MergeResult, MergeStep, MergeTreeOptions, MergeTreeResult, NotesOptions, ObjectId,
    ObjectKind, ParentChanges, PatchSource, ReplayKind, ReplayOptions, ReplayResult, Repository,
    ResetMode, ResetOptions, Signature, StatData, SwitchOptions, TextQuestion, Tree, TreeEntry, DEFAULT_NOTES_REF,
};

fn repository() -> Repository {
    let mut files = MemoryFileSystem::new();
    files.create_dir_all(b"repo/.git/objects/pack").unwrap();
    files
        .write(b"repo/.git/HEAD", b"ref: refs/heads/main\n")
        .unwrap();
    Repository::open(files, b"repo/.git", Some(b"repo")).unwrap()
}

fn who() -> Signature {
    Signature::new(b"A U Thor", b"author@example.com", 1, 0).unwrap()
}

fn write_tree(repository: &mut Repository, files: &[(&[u8], &[u8])]) -> ObjectId {
    let mut entries = Vec::new();
    for (name, contents) in files {
        let blob = repository.write_object(ObjectKind::Blob, contents).unwrap();
        entries.push(TreeEntry::new(EntryMode::Blob, name.to_vec(), blob).unwrap());
    }
    repository
        .write_object(ObjectKind::Tree, &Tree::from_entries(entries).encode())
        .unwrap()
}

fn commit(
    repository: &mut Repository,
    parents: &[ObjectId],
    files: &[(&[u8], &[u8])],
    time: i64,
) -> ObjectId {
    let tree = write_tree(repository, files);
    let signature = || Signature::new(b"Merge", b"merge@example.com", time, 0).unwrap();
    repository
        .write_commit(&Commit::new(
            tree,
            parents.to_vec(),
            signature(),
            signature(),
            format!("commit {time}\n").into_bytes(),
        ))
        .unwrap()
}

fn flat(repository: &Repository, tree: ObjectId) -> FlatTree {
    repository.flattened_tree(tree, 1 << 20).unwrap()
}

fn facts(ours: ObjectId, bases: Vec<ObjectId>) -> MergeFacts {
    MergeFacts {
        ours,
        target_is_ancestor: false,
        ours_is_ancestor: false,
        clean: true,
        bases,
    }
}

#[test]
fn merge_tree_takes_what_either_side_changed() {
    let mut repository = repository();
    let base = commit(
        &mut repository,
        &[],
        &[(b"a", b"base a\n"), (b"b", b"base b\n")],
        1,
    );
    let ours = commit(
        &mut repository,
        &[base],
        &[(b"a", b"ours a\n"), (b"b", b"base b\n")],
        2,
    );
    let theirs = commit(
        &mut repository,
        &[base],
        &[(b"a", b"base a\n"), (b"b", b"theirs b\n")],
        3,
    );
    let clean = repository
        .merge_tree(
            ours,
            theirs,
            &[base],
            None,
            &[],
            &[],
            &MergeTreeOptions::default(),
        )
        .unwrap();
    assert!(clean.is_clean());
    let entries = flat(&repository, clean.tree);
    assert_eq!(entries.len(), 2);
    let first = entries.get(b"a").unwrap();
    let second = entries.get(b"b").unwrap();
    assert_eq!(
        repository.read_object(first.id, None, 4096).unwrap().data(),
        b"ours a\n"
    );
    assert_eq!(
        repository.read_object(second.id, None, 4096).unwrap().data(),
        b"theirs b\n"
    );

    let conflicting = commit(
        &mut repository,
        &[base],
        &[(b"a", b"theirs a\n"), (b"b", b"base b\n")],
        4,
    );
    let questions = repository
        .merge_tree_questions(
            ours,
            conflicting,
            &[base],
            None,
            &[],
            &MergeTreeOptions::default(),
        )
        .unwrap();
    assert_eq!(questions.len(), 1);
    assert_eq!(questions[0].path, b"a");
    let marked = repository
        .write_object(ObjectKind::Blob, b"<<<<<<< ours\n")
        .unwrap();
    let result = repository
        .merge_tree(
            ours,
            conflicting,
            &[base],
            None,
            &[],
            &[ContentMerge {
                path: b"a".to_vec(),
                id: marked,
                conflicted: true,
            }],
            &MergeTreeOptions::default(),
        )
        .unwrap();
    assert!(!result.is_clean());
    assert_eq!(result.conflicts.len(), 1);
    assert_eq!(result.conflicts[0].path, b"a");
    assert_eq!(
        result.conflicts[0]
            .stages
            .iter()
            .map(|stage| stage.stage)
            .collect::<Vec<_>>(),
        [1, 2, 3]
    );
    assert_eq!(
        flat(&repository, result.tree).get(b"a").unwrap().id,
        marked
    );
}

#[test]
fn merge_tree_runs_in_a_bare_repository_and_accepts_an_explicit_tree_base() {
    let mut files = MemoryFileSystem::new();
    files.create_dir_all(b"repo.git/objects/pack").unwrap();
    let mut repository = Repository::open(files, b"repo.git", None).unwrap();
    let base = commit(&mut repository, &[], &[(b"file", b"base\n")], 1);
    let ours = commit(&mut repository, &[base], &[(b"file", b"ours\n")], 2);
    let base_tree = repository.read_commit(base, 4096).unwrap().tree();
    let theirs = commit(
        &mut repository,
        &[base],
        &[(b"file", b"base\n"), (b"other", b"new\n")],
        3,
    );
    let theirs_tree = repository.read_commit(theirs, 4096).unwrap().tree();
    let result = repository
        .merge_tree(
            ours,
            theirs_tree,
            &[],
            None,
            &[],
            &[],
            &MergeTreeOptions {
                merge_base: Some(base_tree),
                ..MergeTreeOptions::default()
            },
        )
        .unwrap();
    assert!(result.is_clean());
    assert_eq!(flat(&repository, result.tree).len(), 2);
}

fn merged(
    repository: &mut Repository,
    ours: ObjectId,
    theirs: ObjectId,
    base: ObjectId,
) -> MergeTreeResult {
    repository
        .merge_tree(
            ours,
            theirs,
            &[base],
            None,
            &[],
            &[],
            &MergeTreeOptions::default(),
        )
        .unwrap()
}

fn stages(result: &MergeTreeResult) -> Vec<(u8, &[u8])> {
    result.conflicts[0]
        .stages
        .iter()
        .map(|stage| (stage.stage, stage.path.as_slice()))
        .collect()
}

#[test]
fn aligns_exact_renames_and_preserves_path_specific_conflict_stages() {
    let mut repository = repository();
    let text: &[u8] = b"line one\nline two\n";
    let base = commit(&mut repository, &[], &[(b"old", text)], 1);
    let ours_rename = commit(&mut repository, &[base], &[(b"new", text)], 2);
    let theirs_edit = commit(
        &mut repository,
        &[base],
        &[(b"old", b"LINE ONE\nline two\n")],
        3,
    );
    let result = merged(&mut repository, ours_rename, theirs_edit, base);
    assert!(result.is_clean());
    let entries = flat(&repository, result.tree);
    assert_eq!(entries.len(), 1);
    assert_eq!(entries.path_at(0), b"new");
    assert_eq!(
        repository
            .read_object(entries.get(b"new").unwrap().id, None, 4096)
            .unwrap()
            .data(),
        b"LINE ONE\nline two\n"
    );

    let ours = commit(&mut repository, &[base], &[(b"ours-name", text)], 4);
    let theirs = commit(&mut repository, &[base], &[(b"theirs-name", text)], 5);
    let result = merged(&mut repository, ours, theirs, base);
    assert!(!result.is_clean());
    assert_eq!(result.conflicts.len(), 1);
    assert_eq!(result.conflicts[0].path, b"old");
    assert_eq!(
        stages(&result),
        [
            (1, &b"old"[..]),
            (2, &b"ours-name"[..]),
            (3, &b"theirs-name"[..])
        ]
    );
    let entries = flat(&repository, result.tree);
    assert_eq!(entries.len(), 2);
    assert_eq!(entries.path_at(0), b"ours-name");
    assert_eq!(entries.path_at(1), b"theirs-name");

    let deleted = commit(&mut repository, &[base], &[], 6);
    let result = merged(&mut repository, ours_rename, deleted, base);
    assert!(!result.is_clean());
    assert_eq!(result.conflicts[0].path, b"new");
    assert_eq!(stages(&result), [(1, &b"new"[..]), (2, &b"new"[..])]);
}

#[test]
fn bounds_exact_rename_candidate_comparisons() {
    let mut repository = repository();
    let base = commit(
        &mut repository,
        &[],
        &[(b"a", b"same\n"), (b"b", b"same\n")],
        1,
    );
    let renamed = commit(
        &mut repository,
        &[base],
        &[(b"c", b"same\n"), (b"d", b"same\n")],
        2,
    );
    assert!(repository
        .merge_tree(
            renamed,
            base,
            &[base],
            None,
            &[],
            &[],
            &MergeTreeOptions {
                max_rename_comparisons: 0,
                ..MergeTreeOptions::default()
            },
        )
        .is_err());
}

#[test]
fn modify_delete_conflict_is_detected() {
    let mut repository = repository();
    let base = commit(&mut repository, &[], &[(b"shared", b"base\n")], 1);
    let ours = commit(&mut repository, &[base], &[(b"shared", b"ours\n")], 2);
    // theirs deletes "shared"
    let theirs = commit(&mut repository, &[base], &[], 3);

    let result = repository.merge_tree(
        ours,
        theirs,
        &[],
        None,
        &[],
        &[],
        &MergeTreeOptions {
            merge_base: Some(base),
            ..MergeTreeOptions::default()
        },
    );
    assert!(result.is_ok(), "modify/delete merge should produce conflicts");
    assert!(!result.unwrap().is_clean());
}

#[test]
fn file_directory_conflict_is_detected() {
    let mut repository = repository();
    let base = commit(&mut repository, &[], &[], 1);
    // ours creates a file "path"
    let ours = commit(
        &mut repository,
        &[base],
        &[(b"path", b"file content\n")],
        2,
    );
    // theirs creates a directory with "path/file"
    let sub_tree = write_tree(&mut repository, &[(b"file", b"nested\n")]);
    let identity = || Signature::new(b"Merge", b"merge@example.com", 3, 0).unwrap();
    let theirs_tree = repository
        .write_object(
            ObjectKind::Tree,
            &Tree::from_entries(vec![
                TreeEntry::new(EntryMode::Tree, b"path".to_vec(), sub_tree).unwrap()
            ])
            .encode(),
        )
        .unwrap();
    let theirs = repository
        .write_commit(&Commit::new(
            theirs_tree,
            vec![base],
            identity(),
            identity(),
            b"theirs\n".to_vec(),
        ))
        .unwrap();

    let result = repository.merge_tree(
        ours,
        theirs,
        &[],
        None,
        &[],
        &[],
        &MergeTreeOptions {
            merge_base: Some(base),
            ..MergeTreeOptions::default()
        },
    );
    assert!(
        result.is_err(),
        "file/directory merge should be detected as error"
    );
}

#[test]
fn unrelated_histories_need_permission() {
    let mut repository = repository();
    let ours = commit(&mut repository, &[], &[(b"a", b"a\n")], 1);
    let theirs = commit(&mut repository, &[], &[(b"b", b"b\n")], 2);
    assert!(repository
        .merge_tree(
            ours,
            theirs,
            &[],
            None,
            &[],
            &[],
            &MergeTreeOptions::default()
        )
        .is_err());
    let allowed = repository
        .merge_tree(
            ours,
            theirs,
            &[],
            None,
            &[],
            &[],
            &MergeTreeOptions {
                allow_unrelated_histories: true,
                ..MergeTreeOptions::default()
            },
        )
        .unwrap();
    assert_eq!(flat(&repository, allowed.tree).len(), 2);
}

#[test]
fn modified_and_removed_files_conflict() {
    let mut repository = repository();
    let base = commit(
        &mut repository,
        &[],
        &[(b"file", b"base\n"), (b"keep", b"k\n")],
        1,
    );
    let ours = commit(
        &mut repository,
        &[base],
        &[(b"file", b"ours\n"), (b"keep", b"k\n")],
        2,
    );
    let theirs = commit(&mut repository, &[base], &[(b"keep", b"k\n")], 3);
    let result = repository
        .merge_tree(
            ours,
            theirs,
            &[base],
            None,
            &[],
            &[],
            &MergeTreeOptions::default(),
        )
        .unwrap();
    assert_eq!(result.conflicts.len(), 1);
    assert_eq!(
        result.conflicts[0]
            .stages
            .iter()
            .map(|stage| stage.stage)
            .collect::<Vec<_>>(),
        [1, 2]
    );
}

#[test]
fn merges_choose_the_least_step() {
    let mut repository = repository();
    let base = commit(&mut repository, &[], &[(b"file", b"base\n")], 1);
    let tip = commit(&mut repository, &[base], &[(b"file", b"tip\n")], 2);
    let tree = repository.read_commit(tip, 4096).unwrap().tree();
    let ahead = MergeFacts {
        ours_is_ancestor: true,
        ..facts(base, vec![base])
    };
    assert_eq!(
        repository
            .merge(tip, &ahead, &MergeOptions::default())
            .unwrap(),
        MergeStep::FastForward {
            old: base,
            new: tip,
            tree
        }
    );
    let behind = MergeFacts {
        target_is_ancestor: true,
        ..facts(tip, vec![base])
    };
    assert_eq!(
        repository
            .merge(base, &behind, &MergeOptions::default())
            .unwrap(),
        MergeStep::UpToDate { head: tip }
    );
    assert_eq!(
        repository
            .merge(
                tip,
                &MergeFacts {
                    ours_is_ancestor: true,
                    ..facts(base, vec![base])
                },
                &MergeOptions {
                    fast_forward: FastForwardMode::Never,
                    ..MergeOptions::default()
                }
            )
            .unwrap(),
        MergeStep::ThreeWay
    );
}

#[test]
fn ff_only_rejects_divergent_history() {
    let mut repository = repository();
    let base = commit(&mut repository, &[], &[(b"file", b"base\n")], 1);
    let ours = commit(&mut repository, &[base], &[(b"file", b"ours\n")], 2);
    let theirs = commit(&mut repository, &[base], &[(b"file", b"theirs\n")], 3);
    assert!(matches!(
        repository.merge(
            theirs,
            &facts(ours, vec![base]),
            &MergeOptions {
                fast_forward: FastForwardMode::Only,
                ..MergeOptions::default()
            }
        ),
        Err(Error::ReferenceConflict(_))
    ));
    assert!(repository
        .merge(
            theirs,
            &MergeFacts {
                clean: false,
                ..facts(ours, vec![base])
            },
            &MergeOptions::default()
        )
        .is_err());
}

#[test]
fn concluded_merges_have_two_parents_or_wait() {
    let mut repository = repository();
    let base = commit(&mut repository, &[], &[(b"file", b"base\n")], 1);
    let ours = commit(&mut repository, &[base], &[(b"file", b"ours\n")], 2);
    let theirs = commit(&mut repository, &[base], &[(b"other", b"theirs\n")], 3);
    let tree = write_tree(&mut repository, &[(b"file", b"ours\n")]);
    let merged = repository
        .conclude_merge(
            ours,
            theirs,
            tree,
            &Vec::new(),
            &MergeOptions::default(),
            &who(),
        )
        .unwrap();
    let (MergeResult::Merged { commit }, Some(log)) = merged else {
        panic!("expected a commit");
    };
    assert_eq!((log.before, log.after), (ours, commit));
    assert_eq!(log.message, b"merge: made merge commit");
    let written = repository.read_commit(commit, 4096).unwrap();
    assert_eq!(written.parents(), &[ours, theirs]);
    assert_eq!(written.tree(), tree);
    assert!(repository.read_git_file(b"MERGE_HEAD").is_ok());
    repository.clear_merge_state().unwrap();
    let spoiled = MergeOptions {
        message: b"a\0b".to_vec(),
        ..MergeOptions::default()
    };
    assert!(matches!(
        repository.conclude_merge(ours, theirs, tree, &Vec::new(), &spoiled, &who()),
        Err(Error::InvalidCommit("merge message contains NUL"))
    ));
    assert!(repository.read_git_file(b"MERGE_HEAD").is_err());

    let moved = repository.conclude_fast_forward(ours, theirs).unwrap();
    assert_eq!((moved.before, moved.after), (ours, theirs));
    assert_eq!(moved.message, b"merge: Fast-forward");
    assert_eq!(
        repository.read_git_file(b"ORIG_HEAD").unwrap(),
        format!("{}\n", ours.to_string()).as_bytes()
    );
}

fn merge_with(
    repository: &mut Repository,
    base: ObjectId,
    ours: ObjectId,
    theirs: ObjectId,
    contents: &[ContentMerge],
) -> (ObjectId, Vec<Conflict>) {
    repository
        .merge_trees(
            ours,
            theirs,
            &[base],
            None,
            &[],
            contents,
            &MergeTreeOptions::default(),
        )
        .unwrap()
}

fn staged(repository: &Repository) -> Vec<(u8, Vec<u8>)> {
    repository
        .read_index()
        .unwrap()
        .entries()
        .iter()
        .map(|entry| (entry.stage(), entry.path().to_vec()))
        .collect()
}

fn fill_index(repository: &mut Repository, commit: ObjectId) {
    repository
        .reset(
            commit,
            &Head {
                branch: Some(b"refs/heads/main".to_vec()),
                id: Some(commit),
            },
            &ResetOptions::default(),
        )
        .unwrap();
}

#[test]
fn materializes_divergent_rename_stages_at_their_git_paths() {
    let mut repository = repository();
    let base = commit(&mut repository, &[], &[(b"old", b"content\n")], 1);
    let ours = commit(&mut repository, &[base], &[(b"ours-name", b"content\n")], 2);
    let theirs = commit(&mut repository, &[base], &[(b"theirs-name", b"content\n")], 3);
    fill_index(&mut repository, ours);
    let (tree, conflicts) = merge_with(&mut repository, base, ours, theirs, &[]);
    let result = repository
        .conclude_merge(
            ours,
            theirs,
            tree,
            &conflicts,
            &MergeOptions::default(),
            &who(),
        )
        .unwrap();
    assert_eq!(result.1, None);
    assert_eq!(
        result.0,
        MergeResult::Conflicted {
            paths: vec![b"old".to_vec(), b"ours-name".to_vec(), b"theirs-name".to_vec()]
        }
    );
    assert_eq!(
        staged(&repository),
        [
            (1, b"old".to_vec()),
            (2, b"ours-name".to_vec()),
            (3, b"theirs-name".to_vec())
        ]
    );
    let shown = flat(&repository, tree);
    assert!(shown.get(b"ours-name").is_some());
    assert!(shown.get(b"theirs-name").is_some());
    assert!(shown.get(b"old").is_none());
}

#[test]
fn writes_conflict_stages_continues_after_resolution_and_aborts() {
    let mut repository = repository();
    let base = commit(&mut repository, &[], &[(b"file", b"base\n")], 1);
    let ours = commit(&mut repository, &[base], &[(b"file", b"ours\n")], 2);
    let theirs = commit(&mut repository, &[base], &[(b"file", b"theirs\n")], 3);
    fill_index(&mut repository, ours);
    let marked = repository
        .write_object(
            ObjectKind::Blob,
            b"<<<<<<< HEAD\nours\n=======\ntheirs\n>>>>>>> theirs\n",
        )
        .unwrap();
    let outcome = ContentMerge {
        path: b"file".to_vec(),
        id: marked,
        conflicted: true,
    };
    let (tree, conflicts) = merge_with(&mut repository, base, ours, theirs, &[outcome]);
    assert_eq!(flat(&repository, tree).get(b"file").unwrap().id, marked);
    let result = repository
        .conclude_merge(
            ours,
            theirs,
            tree,
            &conflicts,
            &MergeOptions::default(),
            &who(),
        )
        .unwrap();
    assert_eq!(
        result.0,
        MergeResult::Conflicted {
            paths: vec![b"file".to_vec()]
        }
    );
    let found: Vec<u8> = staged(&repository).iter().map(|entry| entry.0).collect();
    assert_eq!(found, [1, 2, 3]);
    assert_eq!(
        repository.read_git_file(b"MERGE_HEAD").unwrap(),
        format!("{}\n", theirs.to_string()).as_bytes()
    );
    assert!(repository.continue_merge(ours, None, &who()).is_err());

    let plan = repository.abort_merge(ours, 4096).unwrap();
    assert_eq!(plan.commit, ours);
    assert_eq!(plan.moved, None);
    assert_eq!(
        plan.tree,
        repository.read_commit(ours, 4096).unwrap().tree()
    );
    let moved = repository.abort_merge(theirs, 4096).unwrap().moved.unwrap();
    assert_eq!((moved.before, moved.after), (theirs, ours));
    assert_eq!(moved.message, b"reset: moving to ORIG_HEAD");

    let blob = repository
        .write_object(ObjectKind::Blob, b"resolved\n")
        .unwrap();
    let entry =
        IndexEntry::new(b"file".to_vec(), 0o100_644, blob, StatData::default()).unwrap();
    let resolved = Index::new(IndexVersion::V2, vec![entry]).unwrap();
    repository.write_index(&resolved).unwrap();
    let merged = repository
        .continue_merge(ours, Some(b"resolved merge\n"), &who())
        .unwrap();
    assert_eq!(merged.before, ours);
    assert_eq!(merged.message, b"merge: made merge commit");
    let written = repository.read_commit(merged.after, 4096).unwrap();
    assert_eq!(written.parents(), &[ours, theirs]);
    assert_eq!(written.message(), b"resolved merge\n");
    assert_eq!(
        written.tree(),
        write_tree(&mut repository, &[(b"file", b"resolved\n")])
    );
    assert!(repository.read_git_file(b"MERGE_HEAD").is_ok());
    repository.clear_merge_state().unwrap();
    assert!(repository.read_git_file(b"MERGE_HEAD").is_err());
    assert!(repository.read_git_file(b"MERGE_MSG").is_err());
}

#[test]
fn conflicts_take_the_place_of_what_stood_at_their_paths() {
    let mut repository = repository();
    let base = commit(&mut repository, &[], &[(b"a", b"base\n"), (b"z", b"kept\n")], 1);
    let ours = commit(&mut repository, &[base], &[(b"a", b"ours\n"), (b"z", b"kept\n")], 2);
    let theirs = commit(&mut repository, &[base], &[(b"z", b"kept\n")], 3);
    fill_index(&mut repository, ours);
    let (_, conflicts) = merge_with(&mut repository, base, ours, theirs, &[]);
    assert_eq!(repository.stage_conflicts(&conflicts).unwrap(), [b"a".to_vec()]);
    assert_eq!(
        staged(&repository),
        [(1, b"a".to_vec()), (2, b"a".to_vec()), (0, b"z".to_vec())]
    );
    assert!(repository.stage_conflicts(&Vec::new()).unwrap().is_empty());
    assert_eq!(staged(&repository).len(), 3);
}

#[test]
fn an_unchanged_side_yields_whatever_the_other_renamed() {
    let mut repository = repository();
    let base = commit(&mut repository, &[], &[(b"a", b"one\n"), (b"b", b"two\n")], 1);
    let side = commit(&mut repository, &[base], &[(b"b", b"2\n"), (b"c", b"one\n")], 2);
    let wanted = repository.read_commit(side, 4096).unwrap().tree();
    for (ours, theirs) in [(base, side), (side, base), (side, side)] {
        let (tree, conflicts) = merge_with(&mut repository, base, ours, theirs, &[]);
        assert!(conflicts.is_empty());
        assert_eq!(tree, wanted);
    }
}

#[test]
fn conflicted_replays_continue_from_the_index() {
    let mut repository = repository();
    let base = commit(&mut repository, &[], &[(b"file", b"base\n")], 1);
    let change = commit(&mut repository, &[base], &[(b"file", b"changed\n")], 2);
    let head = commit(&mut repository, &[base], &[(b"other", b"unlike\n")], 3);
    fill_index(&mut repository, head);
    let plan = repository
        .replay_commit(
            head,
            true,
            change,
            ReplayKind::CherryPick,
            &ReplayOptions::default(),
            &who(),
        )
        .unwrap();
    let (tree, conflicts) = merge_with(&mut repository, base, head, change, &[]);
    let result = repository
        .conclude_replay(
            head,
            change,
            ReplayKind::CherryPick,
            &plan,
            tree,
            &conflicts,
            &ReplayOptions::default(),
            &who(),
        )
        .unwrap();
    let (ReplayResult::Conflicted { paths }, None) = result else {
        panic!("expected conflicts");
    };
    assert!(!paths.is_empty());
    assert!(repository.continue_replay(head, 4096, &who()).is_err());
    fill_index(&mut repository, change);
    let done = repository.continue_replay(head, 4096, &who()).unwrap();
    assert_eq!(done.before, head);
    assert_eq!(done.message, b"cherry-pick: applied commit");
    let written = repository.read_commit(done.after, 4096).unwrap();
    assert_eq!(written.parents(), &[head]);
    assert_eq!(
        written.tree(),
        repository.read_commit(change, 4096).unwrap().tree()
    );
    assert_eq!(written.author().name(), b"Merge");
    assert!(repository.read_git_file(b"CHERRY_PICK_HEAD").is_ok());
    repository.clear_replay_state().unwrap();
    assert!(repository.read_git_file(b"CHERRY_PICK_HEAD").is_err());
}

#[test]
fn replays_keep_the_author_and_name_the_source() {
    let mut repository = repository();
    let base = commit(&mut repository, &[], &[(b"file", b"base\n")], 1);
    let change = commit(&mut repository, &[base], &[(b"file", b"changed\n")], 2);
    let head = commit(&mut repository, &[base], &[(b"file", b"base\n")], 3);
    let plan = repository
        .replay_commit(
            head,
            true,
            change,
            ReplayKind::CherryPick,
            &ReplayOptions::default(),
            &who(),
        )
        .unwrap();
    assert_eq!(plan.author.name(), b"Merge");
    assert_eq!(plan.message, b"commit 2\n");
    let tree = write_tree(&mut repository, &[(b"file", b"changed\n")]);
    let done = repository
        .conclude_replay(
            head,
            change,
            ReplayKind::CherryPick,
            &plan,
            tree,
            &Vec::new(),
            &ReplayOptions::default(),
            &who(),
        )
        .unwrap();
    let (ReplayResult::Committed { commit }, Some(moved)) = done else {
        panic!("expected a commit");
    };
    assert_eq!((moved.before, moved.after), (head, commit));
    let written = repository.read_commit(commit, 4096).unwrap();
    assert_eq!(written.parents(), &[head]);
    assert_eq!(written.author().name(), b"Merge");
    assert_eq!(written.committer().name(), b"A U Thor");
    let revert = repository
        .replay_commit(
            head,
            true,
            change,
            ReplayKind::Revert,
            &ReplayOptions::default(),
            &who(),
        )
        .unwrap();
    assert_eq!(revert.author.name(), b"A U Thor");
    let text = String::from_utf8(revert.message).unwrap();
    assert!(text.starts_with("Revert \"commit 2\""));
    assert!(text.contains(&change.to_string()));
    assert!(repository
        .replay_commit(
            head,
            false,
            change,
            ReplayKind::Revert,
            &ReplayOptions::default(),
            &who()
        )
        .is_err());
}

#[test]
fn adds_replaces_copies_and_removes_notes() {
    let mut repository = repository();
    let first = repository.write_object(ObjectKind::Blob, b"first").unwrap();
    let second = repository
        .write_object(ObjectKind::Blob, b"second")
        .unwrap();
    let options = NotesOptions::default();
    let signature = who();
    let (edit, _) = repository
        .add_note(
            None, first, b"hello\n", false, &signature, &signature, &options,
        )
        .unwrap();
    assert_eq!(edit.message, b"Notes added by git-rs");
    let edit = edit.edit;
    assert_eq!(edit.name(), DEFAULT_NOTES_REF.as_bytes());
    let head = Some(edit.id());
    assert_eq!(
        repository
            .note(head, first, &options)
            .unwrap()
            .unwrap()
            .message(),
        b"hello\n"
    );
    assert!(repository
        .add_note(head, first, b"no", false, &signature, &signature, &options)
        .is_err());
    let (edit, _) = repository
        .add_note(
            head,
            first,
            b"replaced",
            true,
            &signature,
            &signature,
            &options,
        )
        .unwrap();
    let (edit, _) = repository
        .copy_note(
            Some(edit.edit.id()),
            first,
            second,
            false,
            &signature,
            &signature,
            &options,
        )
        .unwrap();
    assert_eq!(
        repository
            .list_notes(Some(edit.edit.id()), &options)
            .unwrap()
            .len(),
        2
    );
    let edit = repository
        .remove_note(Some(edit.edit.id()), first, &signature, &signature, &options)
        .unwrap();
    assert_eq!(edit.message, b"Notes removed by git-rs");
    let head = Some(edit.edit.id());
    assert!(repository.note(head, first, &options).unwrap().is_none());
    assert_eq!(
        repository
            .note(head, second, &options)
            .unwrap()
            .unwrap()
            .message(),
        b"replaced"
    );
}

#[test]
fn reads_fanout_and_preserves_unrelated_entries() {
    let mut repository = repository();
    let first = repository.write_object(ObjectKind::Blob, b"first").unwrap();
    let second = repository
        .write_object(ObjectKind::Blob, b"second")
        .unwrap();
    let hex = first.to_string();
    let subtree = write_tree(&mut repository, &[(&hex.as_bytes()[2..], b"fanout")]);
    let unrelated = repository.write_object(ObjectKind::Blob, b"keep").unwrap();
    let tree = repository
        .write_object(
            ObjectKind::Tree,
            &Tree::from_entries(vec![
                TreeEntry::new(EntryMode::Tree, hex.as_bytes()[..2].to_vec(), subtree).unwrap(),
                TreeEntry::new(EntryMode::Blob, b"README".to_vec(), unrelated).unwrap(),
            ])
            .encode(),
        )
        .unwrap();
    let commit = repository
        .write_commit(&Commit::new(
            tree,
            Vec::new(),
            who(),
            who(),
            b"seed\n".to_vec(),
        ))
        .unwrap();
    let options = NotesOptions::default();
    assert_eq!(
        repository
            .note(Some(commit), first, &options)
            .unwrap()
            .unwrap()
            .message(),
        b"fanout"
    );
    let (edit, _) = repository
        .add_note(
            Some(commit),
            second,
            b"new",
            false,
            &who(),
            &who(),
            &options,
        )
        .unwrap();
    let new_tree = repository
        .read_commit(edit.edit.id(), options.max_object_size)
        .unwrap()
        .tree();
    let new_tree = repository
        .read_tree(new_tree, options.max_object_size)
        .unwrap();
    assert!(new_tree
        .entries()
        .iter()
        .any(|entry| entry.name() == b"README"));
    assert_eq!(
        repository
            .list_notes(Some(edit.edit.id()), &options)
            .unwrap()
            .len(),
        2
    );
}

fn parsed(parents: Vec<ObjectId>, message: &[u8], time: i64) -> Commit {
    let author = Signature::new(b"Patch Author", b"author@example.com", time, 0).unwrap();
    let committer = Signature::new(b"Patch Committer", b"committer@example.com", time, 0).unwrap();
    Commit::new(
        ObjectId::from_bytes([7; 20]),
        parents,
        author,
        committer,
        message.to_vec(),
    )
}

fn change(path: &[u8], patch: &[u8]) -> DiffChange {
    DiffChange {
        old_path: Some(path.to_vec()),
        new_path: Some(path.to_vec()),
        patch: patch.to_vec(),
    }
}

#[test]
fn logs_select_paths_before_they_count() {
    let repository = repository();
    let root = ObjectId::from_bytes([1; 20]);
    let unrelated = ObjectId::from_bytes([2; 20]);
    let selected = ObjectId::from_bytes([3; 20]);
    let source = |id: ObjectId, parent: Option<ObjectId>, changes: Vec<DiffChange>| LogSource {
        id,
        commit: parsed(parent.into_iter().collect(), b"m\n", 1),
        diffs: vec![ParentChanges { parent, changes }],
    };
    let sources = [
        source(
            selected,
            Some(unrelated),
            vec![change(b"file", b"-one\n+two\n")],
        ),
        source(
            unrelated,
            Some(root),
            vec![change(b"other", b"-other\n+changed\n")],
        ),
        source(
            root,
            None,
            vec![
                DiffChange {
                    old_path: None,
                    ..change(b"file", b"+one\n")
                },
                DiffChange {
                    old_path: None,
                    ..change(b"other", b"+other\n")
                },
            ],
        ),
    ];
    let options = LogOptions {
        paths: vec![b"file".to_vec()],
        show_patch: true,
        max_count: Some(2),
        ..LogOptions::default()
    };
    let entries = repository.log(&sources, &options).unwrap();
    assert_eq!(
        entries.iter().map(LogEntry::id).collect::<Vec<_>>(),
        [selected, root]
    );
    assert_eq!(entries[0].parent_diffs().len(), 1);
    let patch = String::from_utf8_lossy(entries[0].parent_diffs()[0].patch());
    assert!(patch.contains("-one"));
    assert!(patch.contains("+two"));
    assert_eq!(entries[0].parent_diffs()[0].changes().len(), 1);
    assert!(repository
        .log(
            &sources,
            &LogOptions {
                max_patch_bytes: 1,
                ..options
            }
        )
        .is_err());
}

#[test]
fn patches_come_oldest_first_and_numbered() {
    let repository = repository();
    let root = ObjectId::from_bytes([1; 20]);
    let tip = ObjectId::from_bytes([2; 20]);
    let sources = [
        PatchSource {
            id: tip,
            commit: parsed(vec![root], b"Change file\n", 60),
            changes: vec![b"diff two\n".to_vec()],
        },
        PatchSource {
            id: root,
            commit: parsed(Vec::new(), b"Add file\n\nFirst body.\n", 0),
            changes: vec![b"diff one\n".to_vec()],
        },
    ];
    let patches = repository
        .format_patches(&sources, &FormatPatchOptions::default())
        .unwrap();
    assert_eq!(patches.len(), 2);
    assert_eq!(patches[0].id(), root);
    assert_eq!(patches[1].id(), tip);
    assert_eq!(patches[0].filename(), b"0001-Add-file.patch");
    assert!(patches[0]
        .data()
        .starts_with(format!("From {} ", root.to_string()).as_bytes()));
    let first = String::from_utf8_lossy(patches[0].data());
    assert!(first.contains("Date: Thu, 01 Jan 1970 00:00:00 +0000\n"));
    assert!(first.contains("Subject: [PATCH 1/2] Add file\n"));
    assert!(first.contains("\nFirst body.\n\n---\n"));
}

#[test]
fn patch_series_skip_merges_and_honor_rerolls() {
    let repository = repository();
    let root = ObjectId::from_bytes([1; 20]);
    let first = ObjectId::from_bytes([2; 20]);
    let side = ObjectId::from_bytes([3; 20]);
    let merge = ObjectId::from_bytes([4; 20]);
    let sources = [
        PatchSource {
            id: merge,
            commit: parsed(vec![first, side], b"Merge\n", 4),
            changes: Vec::new(),
        },
        PatchSource {
            id: side,
            commit: parsed(vec![root], b"Side\n", 3),
            changes: Vec::new(),
        },
        PatchSource {
            id: first,
            commit: parsed(vec![root], b"First\n", 2),
            changes: Vec::new(),
        },
    ];
    let patches = repository
        .format_patches(
            &sources,
            &FormatPatchOptions {
                numbering: FormatPatchNumbering::Always,
                reroll_count: Some(3),
                max_count: Some(1),
                ..FormatPatchOptions::default()
            },
        )
        .unwrap();
    assert_eq!(patches.len(), 1);
    assert_ne!(patches[0].id(), merge);
    assert!(patches[0].filename().starts_with(b"v3-0001-"));
    assert!(String::from_utf8_lossy(patches[0].data()).contains("Subject: [PATCH v3 1/1]"));
}

#[test]
fn subjects_that_are_not_ascii_are_encoded() {
    let repository = repository();
    let root = ObjectId::from_bytes([1; 20]);
    let source = || {
        [PatchSource {
            id: root,
            commit: parsed(Vec::new(), "Résumé ✓\n".as_bytes(), 0),
            changes: Vec::new(),
        }]
    };
    let patch = repository
        .format_patches(
            &source(),
            &FormatPatchOptions {
                signature: None,
                ..FormatPatchOptions::default()
            },
        )
        .unwrap()
        .pop()
        .unwrap();
    assert!(String::from_utf8_lossy(patch.data()).contains("Subject: [PATCH] =?UTF-8?B?"));
    assert!(!patch.data().ends_with(b"git-rs\n"));
    assert!(repository
        .format_patches(
            &source(),
            &FormatPatchOptions {
                max_total_bytes: 1,
                ..FormatPatchOptions::default()
            }
        )
        .is_err());
}

#[test]
fn resets_move_the_expected_layers() {
    let mut repository = repository();
    let first = commit(&mut repository, &[], &[(b"file", b"one")], 1);
    let second = commit(&mut repository, &[first], &[(b"file", b"two")], 2);
    let head = || Head {
        branch: Some(b"refs/heads/main".to_vec()),
        id: Some(second),
    };
    let soft = repository
        .reset(
            first,
            &head(),
            &ResetOptions {
                mode: ResetMode::Soft,
                ..ResetOptions::default()
            },
        )
        .unwrap();
    assert!(!soft.checkout);
    assert_eq!(soft.edit.as_ref().unwrap().id(), first);
    assert_eq!(soft.log.before, second);
    assert_eq!(soft.log.after, first);
    assert!(repository.read_index().unwrap().entries().is_empty());
    let mixed = repository
        .reset(
            first,
            &head(),
            &ResetOptions {
                mode: ResetMode::Mixed,
                ..ResetOptions::default()
            },
        )
        .unwrap();
    assert!(!mixed.checkout);
    assert_eq!(
        repository.read_index().unwrap().entries()[0].path(),
        b"file"
    );
    let hard = repository
        .reset(
            first,
            &head(),
            &ResetOptions {
                mode: ResetMode::Hard,
                ..ResetOptions::default()
            },
        )
        .unwrap();
    assert!(hard.checkout);
    assert_eq!(
        repository.read_git_file(b"HEAD").unwrap(),
        b"ref: refs/heads/main\n"
    );
    let detached = Head {
        branch: None,
        id: Some(second),
    };
    let plan = repository
        .reset(first, &detached, &ResetOptions::default())
        .unwrap();
    assert!(plan.edit.is_none());
    assert!(plan.head.is_none());
    assert_eq!(
        repository.read_git_file(b"HEAD").unwrap(),
        format!("{}\n", first.to_string()).as_bytes()
    );
    let hard = repository
        .reset(
            second,
            &Head {
                branch: None,
                id: Some(first),
            },
            &ResetOptions {
                mode: ResetMode::Hard,
                ..ResetOptions::default()
            },
        )
        .unwrap();
    assert!(hard.checkout);
    assert_eq!(
        repository.read_git_file(b"HEAD").unwrap(),
        format!("{}\n", first.to_string()).as_bytes()
    );
    repository.conclude_head(&hard.head).unwrap();
    assert_eq!(
        repository.read_git_file(b"HEAD").unwrap(),
        format!("{}\n", second.to_string()).as_bytes()
    );
    repository.conclude_head(&None).unwrap();
}

#[test]
fn the_head_moves_along_a_logged_line() {
    let before = ObjectId::from_bytes([1; 20]);
    let after = ObjectId::from_bytes([2; 20]);
    let log = || HeadLog {
        before,
        after,
        message: b"merge: Fast-forward".to_vec(),
    };
    let branch = move_along(Some(b"refs/heads/main"), log());
    let edit = branch.edit.unwrap();
    assert_eq!(edit.name(), b"refs/heads/main");
    assert_eq!(edit.id(), after);
    assert_eq!(branch.head, None);
    assert_eq!(branch.log, log());
    let detached = move_along(None, log());
    assert_eq!(detached.edit, None);
    assert_eq!(
        detached.head.unwrap(),
        format!("{}\n", after.to_string()).as_bytes()
    );
}

#[test]
fn contents_are_merged_as_texts_unless_one_is_binary() {
    let mut repository = repository();
    let mut blob = |data: &[u8]| repository.write_object(ObjectKind::Blob, data).unwrap();
    let base = blob(b"base\n");
    let ours = blob(b"ours\n");
    let theirs = blob(b"theirs\n");
    let binary = blob(b"a\0b");
    let tree = repository.write_object(ObjectKind::Tree, b"").unwrap();
    let target = ObjectId::from_bytes([9; 20]);
    let ask = |theirs| ContentQuestion {
        path: b"file".to_vec(),
        base,
        ours,
        theirs,
    };
    assert_eq!(
        repository
            .text_to_merge(&ask(theirs), None, target, 4096)
            .unwrap(),
        TextQuestion::Text {
            base: b"base\n".to_vec(),
            ours: b"ours\n".to_vec(),
            theirs: b"theirs\n".to_vec(),
            ours_label: b"HEAD".to_vec(),
            theirs_label: target.to_string().into_bytes(),
        }
    );
    let TextQuestion::Text { ours_label, .. } = repository
        .text_to_merge(&ask(theirs), Some(ours), target, 4096)
        .unwrap()
    else {
        panic!("expected texts");
    };
    assert_eq!(ours_label, ours.to_string().into_bytes());
    assert_eq!(
        repository
            .text_to_merge(&ask(binary), None, target, 4096)
            .unwrap(),
        TextQuestion::Binary
    );
    assert!(matches!(
        repository.text_to_merge(&ask(tree), None, target, 4096),
        Err(Error::InvalidObject("tree entry is not a blob"))
    ));
    assert!(repository
        .text_to_merge(&ask(theirs), None, target, 5)
        .is_err());
    let stored = repository
        .store_merged_text(b"file", b"merged\n", true)
        .unwrap();
    assert_eq!(stored.path, b"file");
    assert!(stored.conflicted);
    assert_eq!(
        repository.read_object(stored.id, None, 4096).unwrap().data(),
        b"merged\n"
    );
}

#[test]
fn common_ancestors_are_merged_into_a_stored_tree() {
    let mut repository = repository();
    let root = commit(&mut repository, &[], &[(b"a", b"0"), (b"b", b"0")], 1);
    let left = commit(&mut repository, &[root], &[(b"a", b"1"), (b"b", b"0")], 2);
    let right = commit(&mut repository, &[root], &[(b"a", b"0"), (b"b", b"1")], 3);
    let ours = commit(&mut repository, &[left, right], &[(b"a", b"1"), (b"b", b"2")], 4);
    let theirs = commit(&mut repository, &[right, left], &[(b"a", b"2"), (b"b", b"1")], 5);
    let empty = ObjectId::from_str("4b825dc642cb6eb9a060e54bf8d69288fbee4904").unwrap();
    let virtual_base = {
        let one = ObjectId::compute(ObjectKind::Blob, b"1");
        let entry = |name: &[u8]| TreeEntry::new(EntryMode::Blob, name.to_vec(), one).unwrap();
        let tree = Tree::from_entries(vec![entry(b"a"), entry(b"b")]);
        ObjectId::compute(ObjectKind::Tree, &tree.encode())
    };
    assert!(!repository.contains_loose_object(virtual_base).unwrap());
    assert!(!repository.contains_loose_object(empty).unwrap());
    let options = MergeTreeOptions::default();
    let merged = repository
        .merge_tree(ours, theirs, &[left, right], Some(root), &[], &[], &options)
        .unwrap();
    assert!(merged.is_clean());
    assert!(repository.contains_loose_object(virtual_base).unwrap());
    assert!(repository.contains_loose_object(empty).unwrap());
    let wanted = write_tree(&mut repository, &[(b"a", b"2"), (b"b", b"2")]);
    assert_eq!(merged.tree, wanted);

    let alien = commit(&mut repository, &[], &[(b"c", b"3")], 6);
    assert!(matches!(
        repository.merge_tree(ours, alien, &[], None, &[], &[], &options),
        Err(Error::InvalidRepository("refusing to merge unrelated histories"))
    ));
    let joined = repository
        .merge_tree(
            ours,
            alien,
            &[],
            None,
            &[],
            &[],
            &MergeTreeOptions {
                allow_unrelated_histories: true,
                ..options
            },
        )
        .unwrap();
    assert_eq!(flat(&repository, joined.tree).len(), 3);
}

#[test]
fn root_commits_replay_against_the_empty_tree() {
    let mut repository = repository();
    let picked = commit(&mut repository, &[], &[(b"new", b"new\n")], 1);
    let head = commit(&mut repository, &[], &[(b"old", b"old\n")], 2);
    let plan = repository
        .replay_commit(
            head,
            true,
            picked,
            ReplayKind::CherryPick,
            &ReplayOptions::default(),
            &who(),
        )
        .unwrap();
    assert!(flat(&repository, plan.base).len() == 0);
    let (tree, conflicts) = repository
        .merge_three(
            plan.base,
            plan.ours,
            plan.theirs,
            &[],
            &MergeTreeOptions::default(),
        )
        .unwrap();
    assert!(conflicts.is_empty());
    assert_eq!(
        tree,
        write_tree(&mut repository, &[(b"new", b"new\n"), (b"old", b"old\n")])
    );
}

#[test]
fn switches_write_the_head() {
    let mut repository = repository();
    let first = commit(&mut repository, &[], &[(b"file", b"one")], 1);
    let second = commit(&mut repository, &[first], &[(b"file", b"two")], 2);
    let head = Head {
        branch: Some(b"refs/heads/main".to_vec()),
        id: Some(second),
    };
    let plan = repository
        .switch_branch(b"old", first, &head, &SwitchOptions::default())
        .unwrap();
    repository.conclude_switch(&plan).unwrap();
    assert_eq!(
        repository.read_git_file(b"HEAD").unwrap(),
        b"ref: refs/heads/old\n"
    );
    let plan = repository
        .switch_detached(second, &head, &SwitchOptions::default())
        .unwrap();
    repository.conclude_switch(&plan).unwrap();
    assert_eq!(
        repository.read_git_file(b"HEAD").unwrap(),
        format!("{}\n", second.to_string()).as_bytes()
    );
}

#[test]
fn flattened_trees_hold_every_file() {
    let mut repository = repository();
    let inner = write_tree(&mut repository, &[(b"x", b"1")]);
    let root = repository
        .write_object(
            ObjectKind::Tree,
            &Tree::from_entries(vec![
                TreeEntry::new(EntryMode::Tree, b"dir".to_vec(), inner).unwrap()
            ])
            .encode(),
        )
        .unwrap();
    let flat = repository
        .flattened_tree(root, 1 << 20)
        .unwrap();
    assert_eq!(flat.len(), 1);
    assert_eq!(flat.path_at(0), b"dir/x");
}

#[test]
fn written_trees_are_nested_and_in_order() {
    let mut repository = repository();
    let blob = repository.write_object(ObjectKind::Blob, b"x").unwrap();
    let mut map = FlatTree::new();
    for path in [&b"a/b/c"[..], b"a.txt", b"a/b/d", b"a0", b"z"] {
        map.insert(
            path.to_vec(),
            MergeEntry {
                mode: 0o100_644,
                id: blob,
            },
        );
    }
    let root = repository.write_flat_tree(&map).unwrap();
    let names: Vec<Vec<u8>> = repository
        .read_tree(root, 4096)
        .unwrap()
        .entries()
        .iter()
        .map(|entry| entry.name().to_vec())
        .collect();
    assert_eq!(
        names,
        vec![
            b"a.txt".to_vec(),
            b"a".to_vec(),
            b"a0".to_vec(),
            b"z".to_vec()
        ]
    );
    let back = flat(&repository, root);
    assert_eq!(back.len(), 5);
    assert_eq!(back.get(b"a/b/d").unwrap().id, blob);
    map.insert(
        b".git/config".to_vec(),
        MergeEntry {
            mode: 0o100_644,
            id: blob,
        },
    );
    assert!(repository.write_flat_tree(&map).is_err());
}

#[test]
fn commits_and_trees_are_read_as_they_were_written() {
    let author = Signature::new(b"A", b"a@x", -5, -90).unwrap();
    let committer = Signature::new(b"", b"", 1_700_000_000, 754).unwrap();
    let commit = Commit::new(
        ObjectId::from_bytes([1; 20]),
        vec![ObjectId::from_bytes([2; 20]), ObjectId::from_bytes([3; 20])],
        author,
        committer,
        b"subject\n\nbody\n".to_vec(),
    );
    assert_eq!(Commit::parse(&commit.encode()).unwrap(), commit);
    let tree = Tree::from_entries(vec![
        TreeEntry::new(
            EntryMode::Gitlink,
            b"sub".to_vec(),
            ObjectId::from_bytes([4; 20]),
        )
        .unwrap(),
        TreeEntry::new(
            EntryMode::Tree,
            vec![0xff, b' '],
            ObjectId::from_bytes([0; 20]),
        )
        .unwrap(),
    ]);
    assert_eq!(Tree::parse(&tree.encode()).unwrap(), tree);
    assert!(TreeEntry::new(EntryMode::Blob, b"a/b".to_vec(), ObjectId::null()).is_err());
    assert!(Signature::new(b"a<b", b"x", 0, 0).is_err());
}
