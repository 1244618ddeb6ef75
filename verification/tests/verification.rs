use git_rs::object::object_path;
use git_rs::{
    Commit, EntryMode, Error, FileSystem, FsckOptions, Index, IndexEntry, IndexVersion,
    MemoryFileSystem, ObjectId, ObjectKind, PackOptions, Repository, Retention, Signature,
    StatData, Tree, TreeEntry,
};

fn fixture() -> (Repository, ObjectId, ObjectId, ObjectId) {
    let mut files = MemoryFileSystem::new();
    files.create_dir_all(b"repo/.git/objects/pack").unwrap();
    files.write(b"repo/file", b"content").unwrap();
    let mut repository = Repository::open(files, b"repo/.git", Some(b"repo")).unwrap();
    let blob = repository
        .write_object(ObjectKind::Blob, b"content")
        .unwrap();
    let staged = IndexEntry::new(b"file".to_vec(), 0o100_644, blob, StatData::default()).unwrap();
    repository
        .write_index(&Index::new(IndexVersion::V2, vec![staged]).unwrap())
        .unwrap();
    let tree = Tree::from_entries(vec![TreeEntry::new(
        EntryMode::Blob,
        b"file".to_vec(),
        blob,
    )
    .unwrap()]);
    let tree = repository
        .write_object(ObjectKind::Tree, &tree.encode())
        .unwrap();
    let who = || Signature::new(b"Fsck", b"fsck@example.com", 100, 0).unwrap();
    let commit = repository
        .write_commit(&Commit::new(
            tree,
            Vec::new(),
            who(),
            who(),
            b"base".to_vec(),
        ))
        .unwrap();
    (repository, commit, tree, blob)
}

fn kept(commit: ObjectId) -> Retention {
    Retention {
        references: vec![commit],
        reflogs: Vec::new(),
        shallow: Vec::new(),
    }
}

fn change(repository: &mut Repository, path: &[u8], data: Option<&[u8]>) {
    let mut files = repository.swap_files(MemoryFileSystem::new());
    match data {
        Some(data) => files.write(path, data).unwrap(),
        None => files.remove_file(path).unwrap(),
    }
    repository.swap_files(files);
}

#[test]
fn reports_counts_unreachable_and_dangling_objects() {
    let (mut repository, commit, _, _) = fixture();
    let orphan = repository
        .write_object(ObjectKind::Blob, b"orphan")
        .unwrap();
    let report = repository
        .fsck(&FsckOptions::default(), &kept(commit))
        .unwrap();
    assert_eq!(report.objects, 4);
    assert_eq!(report.reachable, 3);
    assert_eq!(report.blobs, 2);
    assert_eq!(report.trees, 1);
    assert_eq!(report.commits, 1);
    assert_eq!(report.tags, 0);
    assert_eq!(report.unreachable(), &[orphan]);
    assert_eq!(report.dangling(), &[orphan]);
}

#[test]
fn validates_packed_only_objects_and_caller_roots() {
    let (mut repository, commit, tree, blob) = fixture();
    let orphan = repository.write_object(ObjectKind::Blob, b"held").unwrap();
    repository
        .write_pack(&[commit, tree, blob, orphan], &PackOptions::default())
        .unwrap();
    for id in [commit, tree, blob, orphan] {
        let path = repository.git_path(&object_path(id));
        change(&mut repository, &path, None);
    }
    let report = repository
        .fsck(
            &FsckOptions {
                additional_roots: vec![orphan],
                ..FsckOptions::default()
            },
            &kept(commit),
        )
        .unwrap();
    assert_eq!(report.objects, 4);
    assert_eq!(report.reachable, 4);
    assert!(report.unreachable().is_empty());
    assert_eq!(report.packed_objects().len(), 4);
}

#[test]
fn validates_each_pack_even_when_objects_have_valid_duplicates() {
    let (mut repository, commit, tree, blob) = fixture();
    let first = repository
        .write_pack(&[commit, tree, blob], &PackOptions::default())
        .unwrap();
    let extra = repository.write_object(ObjectKind::Blob, b"extra").unwrap();
    repository
        .write_pack(&[commit, tree, blob, extra], &PackOptions::default())
        .unwrap();
    change(&mut repository, &first.pack_path, Some(b"broken pack"));
    assert!(matches!(
        repository.fsck(&FsckOptions::default(), &kept(commit)),
        Err(Error::InvalidObject(_))
    ));
}

#[test]
fn rejects_corruption_and_missing_links() {
    let (mut repository, commit, tree, _) = fixture();
    let path = repository.git_path(&object_path(tree));
    change(&mut repository, &path, Some(b"not zlib"));
    assert!(matches!(
        repository.fsck(&FsckOptions::default(), &kept(commit)),
        Err(Error::Compression(_))
    ));

    let (mut repository, commit, tree, _) = fixture();
    let path = repository.git_path(&object_path(tree));
    change(&mut repository, &path, None);
    let error = repository
        .fsck(&FsckOptions::default(), &kept(commit))
        .unwrap_err();
    assert!(matches!(error, Error::InvalidObject(text) if text.contains("broken link")));
}

#[test]
fn rejects_wrong_typed_tree_links_and_enforces_object_limit() {
    let (mut repository, commit, _, blob) = fixture();
    let invalid = Tree::from_entries(vec![TreeEntry::new(
        EntryMode::Tree,
        b"dir".to_vec(),
        blob,
    )
    .unwrap()]);
    let invalid_id = repository
        .write_object(ObjectKind::Tree, &invalid.encode())
        .unwrap();
    let error = repository
        .fsck(
            &FsckOptions {
                additional_roots: vec![invalid_id],
                ..FsckOptions::default()
            },
            &kept(commit),
        )
        .unwrap_err();
    assert!(matches!(error, Error::InvalidObject(text) if text.contains("wrong object type")));
    assert!(repository
        .fsck(
            &FsckOptions {
                max_objects: 1,
                ..FsckOptions::default()
            },
            &kept(commit)
        )
        .is_err());
}
