use git_rs::{
    Error, FileSystem, HashObjectOptions, MemoryFileSystem, ObjectId, ObjectKind, Repository,
};

fn repository() -> Repository {
    let mut files = MemoryFileSystem::new();
    files.create_dir_all(b"repo/.git/objects/pack").unwrap();
    files.write(b"repo/a", b"a").unwrap();
    files.write(b"repo/b", b"b").unwrap();
    Repository::open(files, b"repo/.git", Some(b"repo")).unwrap()
}

#[test]
fn hashes_without_writing_and_writes_on_request() {
    let mut repository = repository();
    let options = HashObjectOptions::default();
    let id = repository.hash_object(b"hello\n", &options).unwrap();
    assert_eq!(id.to_string(), "ce013625030ba8dba906f756967f9e9ca394464a");
    assert!(!repository.contains_loose_object(id).unwrap());
    let written = repository
        .hash_object(
            b"hello\n",
            &HashObjectOptions {
                write: true,
                ..options
            },
        )
        .unwrap();
    assert_eq!(written, id);
    assert!(repository.contains_loose_object(id).unwrap());
    assert_eq!(
        repository
            .hash_object(
                b"",
                &HashObjectOptions {
                    kind: ObjectKind::Tree,
                    ..HashObjectOptions::default()
                }
            )
            .unwrap()
            .to_string(),
        "4b825dc642cb6eb9a060e54bf8d69288fbee4904"
    );
}

#[test]
fn hashes_adapter_paths_and_preserves_order() {
    let mut repository = repository();
    let ids = repository
        .hash_object_paths(
            &[b"a".to_vec(), b"b".to_vec()],
            &HashObjectOptions::default(),
            2,
        )
        .unwrap();
    assert_eq!(ids[0], ObjectId::compute(ObjectKind::Blob, b"a"));
    assert_eq!(ids[1], ObjectId::compute(ObjectKind::Blob, b"b"));
}

#[test]
fn enforces_byte_and_path_limits() {
    let mut repository = repository();
    let error = repository
        .hash_object(
            b"large",
            &HashObjectOptions {
                max_input_size: 4,
                ..HashObjectOptions::default()
            },
        )
        .unwrap_err();
    assert!(matches!(error, Error::ObjectTooLarge { .. }));
    assert!(repository
        .hash_object_paths(&[b"a".to_vec()], &HashObjectOptions::default(), 0)
        .is_err());
}

#[test]
fn literal_mode_hashes_and_stores_malformed_canonical_objects() {
    let mut repository = repository();
    let id = repository
        .hash_object(
            b"garbage",
            &HashObjectOptions {
                kind: ObjectKind::Commit,
                write: true,
                literally: true,
                ..HashObjectOptions::default()
            },
        )
        .unwrap();
    assert_eq!(id.to_string(), "4fa7f4e4a001931b2461ca12ef78ce3c5cac8e27");
    assert!(repository.contains_loose_object(id).unwrap());
    assert_eq!(
        repository.read_object(id, None, 1024).unwrap().kind(),
        ObjectKind::Commit
    );
    assert!(repository
        .hash_object(
            b"garbage",
            &HashObjectOptions {
                kind: ObjectKind::Commit,
                ..HashObjectOptions::default()
            }
        )
        .is_err());
}

#[test]
fn unsafe_and_absent_paths_are_refused() {
    let mut repository = repository();
    assert!(repository
        .hash_object_path(b"../a", &HashObjectOptions::default())
        .is_err());
    assert!(matches!(
        repository.hash_object_path(b"absent", &HashObjectOptions::default()),
        Err(Error::NotFound(_))
    ));
    assert_eq!(
        repository
            .hash_object_path(b"a", &HashObjectOptions::default())
            .unwrap(),
        ObjectId::compute(ObjectKind::Blob, b"a")
    );
}
