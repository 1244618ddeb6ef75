use git_rs::grep::{find_pattern, search_file};
use git_rs::{
    EntryMode, Error, FileSystem, GrepBinaryMode, GrepMatch, GrepOptions, GrepTarget, Index,
    IndexEntry, IndexVersion, MemoryFileSystem, ObjectKind, Repository, StatData, Tree, TreeEntry,
};

fn repository() -> Repository {
    let mut files = MemoryFileSystem::new();
    files.create_dir_all(b"repo/.git/objects/pack").unwrap();
    Repository::open(files, b"repo/.git", Some(b"repo")).unwrap()
}

#[test]
fn searches_worktree_index_and_binary_content() {
    let mut repository = repository();
    let stored = repository
        .write_object(ObjectKind::Blob, b"Alpha old\nsecond\n")
        .unwrap();
    let binary = repository
        .write_object(ObjectKind::Blob, b"hit\0binary")
        .unwrap();
    repository
        .write_index(
            &Index::new(
                IndexVersion::V2,
                vec![
                    IndexEntry::new(b"file".to_vec(), 0o100_644, stored, StatData::default())
                        .unwrap(),
                    IndexEntry::new(b"binary".to_vec(), 0o100_644, binary, StatData::default())
                        .unwrap(),
                ],
            )
            .unwrap(),
        )
        .unwrap();
    let mut files = repository.swap_files(MemoryFileSystem::new());
    files.write(b"repo/file", b"Alpha new\nsecond\n").unwrap();
    files.write(b"repo/binary", b"hit\0binary").unwrap();
    repository.swap_files(files);

    let worktree = repository
        .grep_fixed(&[b"new".to_vec()], &GrepOptions::default())
        .unwrap();
    assert_eq!(worktree[0].line(), b"Alpha new");
    assert_eq!(worktree[0].line_number(), 1);
    assert_eq!(worktree[0].column(), 7);
    let cached = repository
        .grep_fixed(
            &[b"old".to_vec()],
            &GrepOptions {
                target: GrepTarget::Index,
                ..GrepOptions::default()
            },
        )
        .unwrap();
    assert_eq!(cached[0].path(), b"file");
    let binary = repository
        .grep_fixed(
            &[b"hit".to_vec()],
            &GrepOptions {
                target: GrepTarget::Index,
                ..GrepOptions::default()
            },
        )
        .unwrap();
    assert!(binary[0].is_binary());
}

#[test]
fn supports_case_word_line_inversion_and_limits() {
    let options = GrepOptions {
        ignore_case: true,
        word_regexp: true,
        ..GrepOptions::default()
    };
    assert_eq!(find_pattern(b"one FOO two", b"foo", &options), Some(4));
    assert_eq!(find_pattern(b"food", b"foo", &options), None);
    let mut output = Vec::new();
    search_file(
        b"file",
        b"hit\n\nmiss\n",
        &[b"hit".to_vec()],
        &GrepOptions {
            invert_match: true,
            ..GrepOptions::default()
        },
        &mut output,
    )
    .unwrap();
    assert_eq!(
        output
            .iter()
            .map(GrepMatch::line_number)
            .collect::<Vec<_>>(),
        vec![2, 3]
    );

    let error = search_file(
        b"file",
        b"hit\n",
        &[b"hit".to_vec()],
        &GrepOptions {
            max_matches: 0,
            ..GrepOptions::default()
        },
        &mut Vec::new(),
    )
    .unwrap_err();
    assert!(matches!(error, Error::InvalidRepository(_)));
}

#[test]
fn searches_treeish_recursively_with_path_selection() {
    let mut repository = repository();
    let selected = repository
        .write_object(ObjectKind::Blob, b"needle selected\n")
        .unwrap();
    let omitted = repository
        .write_object(ObjectKind::Blob, b"needle omitted\n")
        .unwrap();
    let nested = Tree::from_entries(vec![
        TreeEntry::new(EntryMode::Blob, b"omitted".to_vec(), omitted).unwrap(),
        TreeEntry::new(EntryMode::Blob, b"selected".to_vec(), selected).unwrap(),
    ]);
    let nested = repository
        .write_object(ObjectKind::Tree, &nested.encode())
        .unwrap();
    let root = Tree::from_entries(vec![TreeEntry::new(
        EntryMode::Tree,
        b"dir".to_vec(),
        nested,
    )
    .unwrap()]);
    let root = repository
        .write_object(ObjectKind::Tree, &root.encode())
        .unwrap();
    let matches = repository
        .grep_fixed(
            &[b"needle".to_vec()],
            &GrepOptions {
                target: GrepTarget::Treeish(root),
                paths: vec![b"dir/selected".to_vec()],
                ..GrepOptions::default()
            },
        )
        .unwrap();
    assert_eq!(matches.len(), 1);
    assert_eq!(matches[0].path(), b"dir/selected");
}

#[test]
fn binary_files_are_text_or_left_out_on_request() {
    let contents = b"hit\0one\nhit two\n";
    let mut as_text = Vec::new();
    search_file(
        b"f",
        contents,
        &[b"hit".to_vec()],
        &GrepOptions {
            binary: GrepBinaryMode::Text,
            ..GrepOptions::default()
        },
        &mut as_text,
    )
    .unwrap();
    assert_eq!(as_text.len(), 2);
    let mut left_out = Vec::new();
    search_file(
        b"f",
        contents,
        &[b"hit".to_vec()],
        &GrepOptions {
            binary: GrepBinaryMode::WithoutMatch,
            ..GrepOptions::default()
        },
        &mut left_out,
    )
    .unwrap();
    assert!(left_out.is_empty());
}

#[test]
fn a_line_matches_or_is_listed_by_the_inverted_search() {
    let contents = b"a needle\nhay\nneedles\n\nlast";
    let count = |invert_match: bool| {
        let mut output = Vec::new();
        search_file(
            b"f",
            contents,
            &[b"needle".to_vec()],
            &GrepOptions {
                invert_match,
                ..GrepOptions::default()
            },
            &mut output,
        )
        .unwrap();
        output
            .iter()
            .map(GrepMatch::line_number)
            .collect::<Vec<_>>()
    };
    assert_eq!(count(false), vec![1, 3]);
    assert_eq!(count(true), vec![2, 4, 5]);
}
