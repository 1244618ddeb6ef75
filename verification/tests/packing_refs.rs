use std::str::FromStr;

use git_rs::{
    Commit, Error, FileSystem, MemoryFileSystem, ObjectId, ObjectKind, PackRefsOptions, Repository,
    Signature,
};

fn fixture() -> (Repository, ObjectId, ObjectId) {
    let mut files = MemoryFileSystem::new();
    files.create_dir_all(b"repo/.git/objects/pack").unwrap();
    files
        .create_dir_all(b"repo/.git/refs/heads/topic")
        .unwrap();
    files.create_dir_all(b"repo/.git/refs/tags").unwrap();
    let mut repository = Repository::open(files, b"repo/.git", Some(b"repo")).unwrap();
    let tree = repository.write_object(ObjectKind::Tree, b"").unwrap();
    let signature = || Signature::new(b"Refs", b"refs@example.com", 100, 0).unwrap();
    let commit = repository
        .write_commit(&Commit::new(
            tree,
            Vec::new(),
            signature(),
            signature(),
            b"base".to_vec(),
        ))
        .unwrap();
    let tag_id = repository
        .write_object(
            ObjectKind::Tag,
            format!(
                "object {}\ntype commit\ntag annotated\ntagger Refs <refs@example.com> 100 +0000\n\ntag",
                commit.to_string()
            )
            .as_bytes(),
        )
        .unwrap();
    for (path, id) in [
        (&b"repo/.git/refs/heads/main"[..], commit),
        (b"repo/.git/refs/heads/topic/nested", commit),
        (b"repo/.git/refs/tags/light", commit),
        (b"repo/.git/refs/tags/annotated", tag_id),
    ] {
        write(&mut repository, path, format!("{}\n", id.to_string()).as_bytes());
    }
    (repository, commit, tag_id)
}

fn write(repository: &mut Repository, path: &[u8], data: &[u8]) {
    let mut files = repository.swap_files(MemoryFileSystem::new());
    files.write(path, data).unwrap();
    repository.swap_files(files);
}

fn stands(repository: &Repository, path: &[u8]) -> bool {
    repository.filesystem().is_present(path).unwrap()
}

fn packed(repository: &Repository) -> String {
    String::from_utf8(repository.read_git_file(b"packed-refs").unwrap()).unwrap()
}

#[test]
fn default_packs_tags_with_peeled_lines_and_prunes_only_tags() {
    let (mut repository, commit, tag_id) = fixture();
    let result = repository.pack_refs(&PackRefsOptions::default()).unwrap();
    assert_eq!(
        result.packed(),
        &[b"refs/tags/annotated".to_vec(), b"refs/tags/light".to_vec()]
    );
    assert_eq!(result.pruned, 2);
    let text = packed(&repository);
    let (commit, tag_id) = (commit.to_string(), tag_id.to_string());
    assert!(text.contains(&format!("{tag_id} refs/tags/annotated\n^{commit}\n")));
    assert!(text.contains(&format!("{commit} refs/tags/light\n")));
    assert!(!text.contains("refs/heads/main"));
    assert!(stands(&repository, b"repo/.git/refs/heads/main"));
    assert!(!stands(&repository, b"repo/.git/refs/tags"));
}

#[test]
fn include_star_crosses_slashes_and_exclusions_win() {
    let (mut repository, _, _) = fixture();
    let result = repository
        .pack_refs(&PackRefsOptions {
            included: vec![b"refs/heads/*".to_vec()],
            exclude: vec![b"refs/heads/main".to_vec()],
            ..PackRefsOptions::default()
        })
        .unwrap();
    assert_eq!(result.packed(), &[b"refs/heads/topic/nested".to_vec()]);
    assert!(!stands(&repository, b"repo/.git/refs/heads/topic/nested"));
    assert!(stands(&repository, b"repo/.git/refs/heads/main"));
}

#[test]
fn no_prune_keeps_loose_refs_and_symbolic_refs_are_skipped() {
    let (mut repository, commit, _) = fixture();
    write(
        &mut repository,
        b"repo/.git/refs/heads/symbolic",
        b"ref: refs/heads/main\n",
    );
    let mut files = repository.swap_files(MemoryFileSystem::new());
    files.create_dir_all(b"repo/.git/refs/bisect").unwrap();
    repository.swap_files(files);
    write(
        &mut repository,
        b"repo/.git/refs/bisect/local",
        format!("{}\n", commit.to_string()).as_bytes(),
    );
    write(
        &mut repository,
        b"repo/.git/refs/heads/broken",
        b"1111111111111111111111111111111111111111\n",
    );
    let result = repository
        .pack_refs(&PackRefsOptions {
            all: true,
            prune: false,
            ..PackRefsOptions::default()
        })
        .unwrap();
    let names: Vec<String> = result
        .packed()
        .iter()
        .map(|name| String::from_utf8(name.clone()).unwrap())
        .collect();
    assert!(!names.iter().any(|name| name.ends_with("symbolic")));
    assert!(!names.iter().any(|name| name.contains("bisect")));
    assert!(!names.iter().any(|name| name.ends_with("broken")));
    assert!(stands(&repository, b"repo/.git/refs/tags/light"));
    assert!(stands(&repository, b"repo/.git/refs/heads/main"));
    assert_eq!(result.pruned, 0);
}

#[test]
fn preserves_existing_packed_only_values_and_lock_contention_is_atomic() {
    let (mut repository, commit, _) = fixture();
    let missing = ObjectId::from_str("1111111111111111111111111111111111111111")
        .unwrap()
        .to_string();
    let commit = commit.to_string();
    write(
        &mut repository,
        b"repo/.git/packed-refs",
        format!("# pack-refs with: peeled\n{missing} refs/archive/missing\n^{commit}\n").as_bytes(),
    );
    write(
        &mut repository,
        b"repo/.git/refs/tags/light.lock",
        b"busy",
    );
    assert!(repository.pack_refs(&PackRefsOptions::default()).is_err());
    assert!(packed(&repository).contains("refs/archive/missing"));
    let mut files = repository.swap_files(MemoryFileSystem::new());
    files
        .remove_file(b"repo/.git/refs/tags/light.lock")
        .unwrap();
    repository.swap_files(files);
    repository.pack_refs(&PackRefsOptions::default()).unwrap();
    assert!(packed(&repository).contains(&format!("{missing} refs/archive/missing\n^{commit}\n")));
}

#[test]
fn a_dry_run_and_limits_leave_the_files() {
    let (mut repository, _, _) = fixture();
    let result = repository
        .pack_refs(&PackRefsOptions {
            all: true,
            dry_run: true,
            ..PackRefsOptions::default()
        })
        .unwrap();
    assert_eq!(result.packed().len(), 4);
    assert!(!stands(&repository, b"repo/.git/packed-refs"));
    assert!(matches!(
        repository.pack_refs(&PackRefsOptions {
            max_refs: 1,
            ..PackRefsOptions::default()
        }),
        Err(Error::InvalidRepository(_) | Error::InvalidReference(_))
    ));
}

#[test]
fn references_lead_where_they_led_before() {
    let (mut repository, commit, tag) = fixture();
    write(
        &mut repository,
        b"repo/.git/packed-refs",
        format!("{} refs/heads/main\n{} refs/heads/kept\n", tag.to_string(), tag.to_string()).as_bytes(),
    );
    let leads = |repository: &Repository, name: &str| -> String {
        match repository.read_git_file(name.as_bytes()) {
            Ok(loose) => String::from_utf8(loose).unwrap().trim_end().to_string(),
            Err(_) => packed(repository)
                .lines()
                .find(|line| line.ends_with(&format!(" {name}")))
                .unwrap()[..40]
                .to_string(),
        }
    };
    let names = [
        "refs/heads/main",
        "refs/heads/kept",
        "refs/heads/topic/nested",
        "refs/tags/light",
        "refs/tags/annotated",
    ];
    let before: Vec<_> = names.iter().map(|name| leads(&repository, name)).collect();
    assert_eq!(before[0], commit.to_string());
    repository
        .pack_refs(&PackRefsOptions {
            all: true,
            prune: true,
            ..PackRefsOptions::default()
        })
        .unwrap();
    assert!(!stands(&repository, b"repo/.git/refs/heads/main"));
    let after: Vec<_> = names.iter().map(|name| leads(&repository, name)).collect();
    assert_eq!(before, after);
}
