use git_rs::merge_file::{merge_file, validate_inputs};
use git_rs::{
    FileSystem, MemoryFileSystem, MergeFileOptions, ObjectKind, Repository,
};

const BASE: &[u8] = b"start\nbase\nend\n";
const CURRENT: &[u8] = b"start\ncommon\ncurrent\nend\n";
const OTHER: &[u8] = b"start\ncommon\nother\nend\n";

#[test]
fn merged_blobs_are_stored_on_request() {
    let mut files = MemoryFileSystem::new();
    files.create_dir_all(b"repo/.git/objects/pack").unwrap();
    let mut repository = Repository::open(files, b"repo/.git", Some(b"repo")).unwrap();
    let current = repository.write_object(ObjectKind::Blob, CURRENT).unwrap();
    let base = repository.write_object(ObjectKind::Blob, BASE).unwrap();
    let other = repository.write_object(ObjectKind::Blob, OTHER).unwrap();
    let options = MergeFileOptions {
        write_object: true,
        ..MergeFileOptions::default()
    };
    let (ours, ancestor, theirs) = repository
        .read_merge_blobs(current, base, other, &options)
        .unwrap();
    assert_eq!(
        (&ours[..], &ancestor[..], &theirs[..]),
        (CURRENT, BASE, OTHER)
    );
    let merged = merge_file(&ours, &ancestor, &theirs, CURRENT.to_vec(), 0, &options).unwrap();
    let result = repository.merge_blobs(merged, &options).unwrap();
    let stored = repository
        .read_object(result.object_id().unwrap(), None, 4096)
        .unwrap();
    assert_eq!(stored.data(), result.data());
    assert!(!result.has_conflicts());
}

#[test]
fn binary_and_oversized_inputs_are_refused() {
    let options = MergeFileOptions::default();
    assert!(validate_inputs(CURRENT, BASE, OTHER, &options).is_ok());
    assert!(merge_file(b"a\0", b"a", b"b", Vec::new(), 0, &options).is_err());
    let small = MergeFileOptions {
        max_input_size: 1,
        ..MergeFileOptions::default()
    };
    assert!(merge_file(b"a\n", b"a\n", b"b\n", Vec::new(), 0, &small).is_err());
    let tight = MergeFileOptions {
        max_output_size: 3,
        ..MergeFileOptions::default()
    };
    assert!(merge_file(CURRENT, BASE, OTHER, CURRENT.to_vec(), 0, &tight).is_err());
    assert_eq!(
        merge_file(CURRENT, BASE, OTHER, b"text".to_vec(), 2, &options)
            .unwrap()
            .conflicts(),
        2
    );
}
