use git_rs::{
    Commit, EntryMode, Error, FileSystem, GrepOptions, GrepTarget, Index, IndexEntry, IndexVersion, LsFilesEntry, LsFilesKind,
    LsFilesOptions, LsTreeEntry, LsTreeOptions, MemoryFileSystem, MkTreeOptions, ObjectId,
    ObjectKind, Repository, Signature, StatData, Tree, TreeEntry,
};

fn repository() -> Repository {
    let mut files = MemoryFileSystem::new();
    files.create_dir_all(b"repo/.git/objects/pack").unwrap();
    Repository::open(files, b"repo/.git", Some(b"repo")).unwrap()
}

fn tree(repository: &mut Repository, entries: Vec<(EntryMode, &[u8], ObjectId)>) -> ObjectId {
    let entries = entries
        .into_iter()
        .map(|(mode, name, id)| TreeEntry::new(mode, name.to_vec(), id).unwrap())
        .collect();
    repository
        .write_object(ObjectKind::Tree, &Tree::from_entries(entries).encode())
        .unwrap()
}

fn staged(path: &[u8], id: ObjectId, stage: u8) -> IndexEntry {
    IndexEntry::with_stage(path.to_vec(), 0o100_644, id, StatData::default(), stage).unwrap()
}

#[test]
fn lists_cached_stages_deleted_modified_other_ignored_and_killed() {
    let mut repository = repository();
    let old = repository.write_object(ObjectKind::Blob, b"old").unwrap();
    let conflict = repository
        .write_object(ObjectKind::Blob, b"conflict")
        .unwrap();
    let index = Index::new(
        IndexVersion::V2,
        vec![
            staged(b"deleted", old, 0),
            staged(b"missing", old, 0),
            staged(b"dir/file", old, 0),
            staged(b"modified", old, 0),
            staged(b"unmerged", conflict, 1),
            staged(b"unmerged", old, 2),
        ],
    )
    .unwrap();
    repository.write_index(&index).unwrap();
    let mut files = repository.swap_files(MemoryFileSystem::new());
    files.create_dir_all(b"repo/dir").unwrap();
    files.write(b"repo/modified", b"new").unwrap();
    files.write(b"repo/other", b"other").unwrap();
    files.write(b"repo/.gitignore", b"ignored\n").unwrap();
    files.write(b"repo/ignored", b"ignored").unwrap();
    files.create_dir_all(b"repo/deleted").unwrap();
    files.write(b"repo/deleted/child", b"killed").unwrap();
    repository.swap_files(files);

    let result = repository
        .ls_files(&LsFilesOptions {
            cached: true,
            stage: true,
            deleted: true,
            modified: true,
            others: true,
            killed: true,
            ..LsFilesOptions::default()
        })
        .unwrap();
    let holds = |kind: LsFilesKind, path: &[u8]| {
        result
            .iter()
            .any(|entry| entry.kind() == kind && entry.path() == path)
    };
    assert!(holds(LsFilesKind::Other, b"other"));
    assert!(holds(LsFilesKind::Killed, b"deleted/child"));
    assert!(holds(LsFilesKind::Deleted, b"missing"));
    assert!(holds(LsFilesKind::Modified, b"deleted"));
    assert!(holds(LsFilesKind::Modified, b"modified"));
    assert_eq!(
        result
            .iter()
            .filter(|entry| entry.path() == b"unmerged" && entry.kind() == LsFilesKind::Unmerged)
            .count(),
        2
    );
    let ignored = repository
        .ls_files(&LsFilesOptions {
            others: true,
            ignored: true,
            exclude_standard: true,
            ..LsFilesOptions::default()
        })
        .unwrap();
    assert_eq!(ignored.len(), 1);
    assert_eq!(ignored[0].path(), b"ignored");

    let missing = result
        .iter()
        .filter(|entry| entry.path() == b"missing")
        .map(LsFilesEntry::kind)
        .collect::<Vec<_>>();
    assert!(missing.contains(&LsFilesKind::Deleted));
    assert!(missing.contains(&LsFilesKind::Modified));
}

#[test]
fn defaults_to_cached_and_preserves_conflict_stages() {
    let mut repository = repository();
    let blob = repository.write_object(ObjectKind::Blob, b"value").unwrap();
    repository
        .write_index(
            &Index::new(
                IndexVersion::V2,
                vec![
                    staged(b"conflict", blob, 1),
                    staged(b"conflict", blob, 2),
                    staged(b"normal", blob, 0),
                ],
            )
            .unwrap(),
        )
        .unwrap();

    let entries = repository.ls_files(&LsFilesOptions::default()).unwrap();
    assert_eq!(
        entries.iter().map(LsFilesEntry::path).collect::<Vec<_>>(),
        vec![
            b"conflict".as_slice(),
            b"conflict".as_slice(),
            b"normal".as_slice()
        ]
    );
    let unmerged = repository
        .ls_files(&LsFilesOptions {
            unmerged: true,
            ..LsFilesOptions::default()
        })
        .unwrap();
    assert_eq!(unmerged.len(), 2);
    assert!(unmerged.iter().all(|entry| entry.stage().unwrap() > 0));
}

#[test]
fn expands_sparse_directories_unless_requested() {
    let mut repository = repository();
    let blob = repository.write_object(ObjectKind::Blob, b"value").unwrap();
    let nested = tree(
        &mut repository,
        vec![
            (EntryMode::Blob, b"a", blob),
            (EntryMode::BlobExecutable, b"b", blob),
        ],
    );
    let sparse = IndexEntry::new(b"dir".to_vec(), 0o040_000, nested, StatData::default())
        .unwrap()
        .with_skip_worktree(true);
    repository
        .write_index(&Index::new(IndexVersion::V3, vec![sparse]).unwrap())
        .unwrap();

    let expanded = repository.ls_files(&LsFilesOptions::default()).unwrap();
    assert_eq!(
        expanded.iter().map(LsFilesEntry::path).collect::<Vec<_>>(),
        vec![b"dir/a".as_slice(), b"dir/b".as_slice()]
    );
    assert!(expanded.iter().all(LsFilesEntry::skip_worktree));
    let sparse = repository
        .ls_files(&LsFilesOptions {
            show_sparse_directories: true,
            ..LsFilesOptions::default()
        })
        .unwrap();
    assert_eq!(sparse[0].path(), b"dir");
    assert_eq!(sparse[0].mode(), Some(0o040_000));
}

fn fixture() -> (Repository, ObjectId) {
    let mut repository = repository();
    let blob = repository.write_object(ObjectKind::Blob, b"hello").unwrap();
    let executable = repository.write_object(ObjectKind::Blob, b"run").unwrap();
    let nested = tree(
        &mut repository,
        vec![
            (EntryMode::Blob, b"file", blob),
            (EntryMode::BlobExecutable, &[0xff], executable),
        ],
    );
    let root = tree(
        &mut repository,
        vec![
            (EntryMode::Tree, b"dir", nested),
            (EntryMode::Link, b"link", blob),
        ],
    );
    (repository, root)
}

#[test]
fn lists_default_recursive_tree_only_and_sizes_in_git_order() {
    let (repository, root) = fixture();
    let top = repository
        .ls_tree(root, &LsTreeOptions::default())
        .unwrap();
    assert_eq!(
        top.iter().map(LsTreeEntry::path).collect::<Vec<_>>(),
        vec![b"dir".as_slice(), b"link".as_slice()]
    );
    let recursive = repository
        .ls_tree(
            root,
            &LsTreeOptions {
                recursive: true,
                include_object_size: true,
                ..LsTreeOptions::default()
            },
        )
        .unwrap();
    assert_eq!(
        recursive.iter().map(LsTreeEntry::path).collect::<Vec<_>>(),
        vec![
            b"dir/file".as_slice(),
            b"dir/\xff".as_slice(),
            b"link".as_slice()
        ]
    );
    assert_eq!(recursive[0].object_size(), Some(5));
    let trees = repository
        .ls_tree(
            root,
            &LsTreeOptions {
                recursive: true,
                trees_only: true,
                ..LsTreeOptions::default()
            },
        )
        .unwrap();
    assert_eq!(trees.len(), 1);
    assert_eq!(trees[0].path(), b"dir");
}

#[test]
fn literal_nested_path_descends_without_global_recursion_and_limits_work() {
    let (repository, root) = fixture();
    let selected = repository
        .ls_tree(
            root,
            &LsTreeOptions {
                paths: vec![b"dir/file".to_vec()],
                ..LsTreeOptions::default()
            },
        )
        .unwrap();
    assert_eq!(selected.len(), 1);
    assert_eq!(selected[0].path(), b"dir/file");
    let with_ancestor = repository
        .ls_tree(
            root,
            &LsTreeOptions {
                show_trees: true,
                paths: vec![b"dir/file".to_vec()],
                ..LsTreeOptions::default()
            },
        )
        .unwrap();
    assert_eq!(
        with_ancestor
            .iter()
            .map(LsTreeEntry::path)
            .collect::<Vec<_>>(),
        vec![b"dir".as_slice(), b"dir/file".as_slice()]
    );
    assert!(repository
        .ls_tree(
            root,
            &LsTreeOptions {
                recursive: true,
                max_entries: 1,
                ..LsTreeOptions::default()
            }
        )
        .is_err());
}

#[test]
fn sorts_records_and_decodes_newline_quoted_names() {
    let mut repository = repository();
    let a = repository.write_object(ObjectKind::Blob, b"a").unwrap();
    let b = repository.write_object(ObjectKind::Blob, b"b").unwrap();
    let input = format!(
        "100644 blob {}\tzeta\n100644 blob {}\t\"a\\tname\"\n",
        b.to_string(),
        a.to_string()
    );
    let id = repository
        .mk_tree(input.as_bytes(), &MkTreeOptions::default())
        .unwrap()[0];
    let tree = repository.read_tree(id, 1024).unwrap();
    assert_eq!(tree.entries()[0].name(), b"a\tname");
    assert_eq!(tree.entries()[1].name(), b"zeta");
}

#[test]
fn accepts_literal_names_and_multiple_nul_delimited_batches() {
    let mut repository = repository();
    let blob = repository.write_object(ObjectKind::Blob, b"a").unwrap();
    let blob = blob.to_string();
    let input = format!("100644 blob {blob}\t\"literal\"\0\0100644 blob {blob}\tsecond\0");
    let ids = repository
        .mk_tree(
            input.as_bytes(),
            &MkTreeOptions {
                nul_terminated: true,
                batch: true,
                ..MkTreeOptions::default()
            },
        )
        .unwrap();
    assert_eq!(ids.len(), 2);
    assert_eq!(
        repository.read_tree(ids[0], 1024).unwrap().entries()[0].name(),
        b"\"literal\""
    );
    assert_eq!(
        repository.read_tree(ids[1], 1024).unwrap().entries()[0].name(),
        b"second"
    );
}

#[test]
fn enforces_object_types_missing_policy_and_limits() {
    let mut repository = repository();
    let blob = repository.write_object(ObjectKind::Blob, b"a").unwrap();
    let blob = blob.to_string();
    let missing = "1111111111111111111111111111111111111111";
    assert!(repository
        .mk_tree(
            format!("040000 tree {blob}\twrong\n").as_bytes(),
            &MkTreeOptions::default()
        )
        .is_err());
    assert!(repository
        .mk_tree(
            format!("100644 blob {missing}\tmissing\n").as_bytes(),
            &MkTreeOptions::default()
        )
        .is_err());
    assert!(repository
        .mk_tree(
            format!("100644 blob {missing}\tmissing\n").as_bytes(),
            &MkTreeOptions {
                missing: true,
                ..MkTreeOptions::default()
            }
        )
        .is_ok());
    assert!(repository
        .mk_tree(
            format!("160000 commit {missing}\tsub\n").as_bytes(),
            &MkTreeOptions::default()
        )
        .is_ok());
    assert!(repository
        .mk_tree(
            format!("100644 blob {blob}\ta\n").as_bytes(),
            &MkTreeOptions {
                max_entries_per_tree: 0,
                ..MkTreeOptions::default()
            }
        )
        .is_err());
}

#[test]
fn preserves_noncanonical_regular_permissions_like_native_git() {
    let mut repository = repository();
    let blob = repository.write_object(ObjectKind::Blob, b"x").unwrap();
    let id = repository
        .mk_tree(
            format!("100664 blob {}\ta\n", blob.to_string()).as_bytes(),
            &MkTreeOptions::default(),
        )
        .unwrap()[0];
    assert_eq!(id.to_string(), "42fb942a880903fd2450d0dff0572d7ff2165855");
    assert_eq!(
        repository.read_tree(id, 1024).unwrap().entries()[0].mode(),
        EntryMode::Blob
    );
}

#[test]
fn trees_do_not_depend_on_the_order_of_records() {
    let mut repository = repository();
    let blob = repository.write_object(ObjectKind::Blob, b"x").unwrap();
    let blob = blob.to_string();
    let forward = format!("100644 blob {blob}\ta\n100755 blob {blob}\tb\n");
    let backward = format!("100755 blob {blob}\tb\n100644 blob {blob}\ta\n");
    let one = repository
        .mk_tree(forward.as_bytes(), &MkTreeOptions::default())
        .unwrap();
    let two = repository
        .mk_tree(backward.as_bytes(), &MkTreeOptions::default())
        .unwrap();
    assert_eq!(one, two);
    let twice = format!("100644 blob {blob}\ta\n100755 blob {blob}\ta\n");
    assert!(repository
        .mk_tree(twice.as_bytes(), &MkTreeOptions::default())
        .is_err());
}

#[test]
fn deduplicated_listings_name_each_path_once() {
    let mut repository = repository();
    let blob = repository.write_object(ObjectKind::Blob, b"x").unwrap();
    repository
        .write_index(
            &Index::new(
                IndexVersion::V2,
                vec![
                    staged(b"conflict", blob, 1),
                    staged(b"conflict", blob, 2),
                    staged(b"normal", blob, 0),
                ],
            )
            .unwrap(),
        )
        .unwrap();
    let entries = repository
        .ls_files(&LsFilesOptions {
            deduplicate: true,
            ..LsFilesOptions::default()
        })
        .unwrap();
    assert_eq!(
        entries.iter().map(LsFilesEntry::path).collect::<Vec<_>>(),
        vec![b"conflict".as_slice(), b"normal".as_slice()]
    );
}

#[test]
fn commits_and_tags_stand_for_their_trees() {
    let (mut repository, root) = fixture();
    let plain = repository.ls_tree(root, &LsTreeOptions::default()).unwrap();
    let who = || Signature::new(b"Lister", b"lister@example.com", 1, 0).unwrap();
    let commit = repository
        .write_commit(&Commit::new(root, Vec::new(), who(), who(), b"all\n".to_vec()))
        .unwrap();
    let tag = format!(
        "object {}\ntype commit\ntag all\ntagger Lister <lister@example.com> 1 +0000\n\nall\n",
        commit.to_string()
    );
    let tag = repository
        .write_object(ObjectKind::Tag, tag.as_bytes())
        .unwrap();
    for id in [commit, tag] {
        assert_eq!(
            repository.ls_tree(id, &LsTreeOptions::default()).unwrap(),
            plain
        );
    }
    let blob = repository.write_object(ObjectKind::Blob, b"no tree").unwrap();
    assert!(matches!(
        repository.ls_tree(blob, &LsTreeOptions::default()),
        Err(Error::InvalidTree(_))
    ));
    let found = repository
        .grep_fixed(
            &[b"hello".to_vec()],
            &GrepOptions {
                target: GrepTarget::Treeish(commit),
                ..GrepOptions::default()
            },
        )
        .unwrap();
    let same = repository
        .grep_fixed(
            &[b"hello".to_vec()],
            &GrepOptions {
                target: GrepTarget::Treeish(root),
                ..GrepOptions::default()
            },
        )
        .unwrap();
    assert_eq!(found, same);
    assert!(repository
        .grep_fixed(
            &[b"hello".to_vec()],
            &GrepOptions {
                target: GrepTarget::Treeish(commit),
                max_files: 0,
                ..GrepOptions::default()
            },
        )
        .is_err());
}

#[test]
fn recursive_listings_of_trees_alone_hold_every_shown_tree() {
    let (repository, root) = fixture();
    let list = |trees_only, show_trees| {
        repository
            .ls_tree(
                root,
                &LsTreeOptions {
                    recursive: true,
                    trees_only,
                    show_trees,
                    ..LsTreeOptions::default()
                },
            )
            .unwrap()
    };
    let shown = list(false, true);
    let trees: Vec<_> = shown
        .iter()
        .filter(|entry| entry.mode() == EntryMode::Tree)
        .map(LsTreeEntry::path)
        .collect();
    assert!(!trees.is_empty());
    assert_eq!(
        list(true, false)
            .iter()
            .map(LsTreeEntry::path)
            .collect::<Vec<_>>(),
        trees
    );
    for (position, entry) in shown.iter().enumerate() {
        assert!(shown[..position]
            .iter()
            .all(|before| before.path() != entry.path()));
    }
}

#[test]
fn records_make_the_same_tree_in_any_order() {
    let mut repository = repository();
    let blob = repository.write_object(ObjectKind::Blob, b"a").unwrap();
    let folder = tree(&mut repository, vec![(EntryMode::Blob, b"x", blob)]);
    let records = [
        format!("100644 blob {}\ta.b\n", blob.to_string()),
        format!("040000 tree {}\ta\n", folder.to_string()),
        format!("100755 blob {}\tz\n", blob.to_string()),
    ];
    let mut made = Vec::new();
    for order in [[0, 1, 2], [2, 1, 0], [1, 0, 2], [1, 2, 0]] {
        let input: String = order.iter().map(|at| records[*at].as_str()).collect();
        made.push(
            repository
                .mk_tree(input.as_bytes(), &MkTreeOptions::default())
                .unwrap(),
        );
    }
    assert!(made.iter().all(|ids| *ids == made[0]));
    assert_eq!(made[0].len(), 1);
    let empty = repository
        .mk_tree(b"", &MkTreeOptions::default())
        .unwrap();
    assert_eq!(
        empty[0].to_string(),
        "4b825dc642cb6eb9a060e54bf8d69288fbee4904"
    );
}
