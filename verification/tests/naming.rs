use git_rs::name_rev::{better_name, parent_name, render_name, subpath_match, CommitName};
use git_rs::{
    Commit, FileSystem, MemoryFileSystem, NameRevOptions, ObjectId, ObjectKind, Repository,
    ResolvedReference, Signature,
};

fn resolved(name: &[u8], id: ObjectId) -> ResolvedReference {
    ResolvedReference {
        name: name.to_vec(),
        symbolic_target: None,
        id,
    }
}

#[test]
fn parent_notation_and_priority_helpers_follow_git_weights() {
    let main = CommitName {
        tip_name: b"main".to_vec(),
        tagger_date: 2,
        generation: 2,
        distance: 2,
        from_tag: false,
    };
    assert_eq!(render_name(&main), b"main~2");
    assert_eq!(parent_name(&main, 2), b"main~2^2");
    let tag = CommitName {
        tip_name: b"tags/v1^0".to_vec(),
        tagger_date: 3,
        generation: 1,
        distance: 1,
        from_tag: true,
    };
    assert_eq!(render_name(&tag), b"tags/v1~1");
    assert!(better_name(&main, &tag));
    assert!(!better_name(&tag, &main));
    assert_eq!(subpath_match(b"refs/tags/v1", b"v*"), Some(10));
}

#[test]
fn names_merge_parents_prefers_tags_and_handles_exact_objects() {
    let mut files = MemoryFileSystem::new();
    files.create_dir_all(b"repo/.git/objects/pack").unwrap();
    let mut repository = Repository::open(files, b"repo/.git", Some(b"repo")).unwrap();
    let tree = repository.write_object(ObjectKind::Tree, b"").unwrap();
    let mut commit = |parents: Vec<ObjectId>, timestamp: i64| {
        let identity = || Signature::new(b"N", b"n@example.com", timestamp, 0).unwrap();
        repository
            .write_commit(&Commit::new(
                tree,
                parents,
                identity(),
                identity(),
                b"m\n".to_vec(),
            ))
            .unwrap()
    };
    let base = commit(vec![], 1_000_000);
    let left = commit(vec![base], 1_000_001);
    let side = commit(vec![base], 1_000_002);
    let merge = commit(vec![left, side], 1_000_003);
    let tag_id = repository
        .write_object(
            ObjectKind::Tag,
            format!(
                "object {}\ntype commit\ntag v1\ntagger T <t@example.com> 1000004 +0000\n\n",
                left.to_string()
            )
            .as_bytes(),
        )
        .unwrap();
    let blob = repository.write_object(ObjectKind::Blob, b"blob").unwrap();
    let refs = [
        resolved(b"refs/archive/blob", blob),
        resolved(b"refs/heads/main", merge),
        resolved(b"refs/tags/v1", tag_id),
    ];
    let known = [base, left, side, merge, tag_id, blob, tree];

    let targets = [merge, left, side, base, tag_id, blob];
    let named = repository
        .name_revs(&targets, &refs, &known, &NameRevOptions::default())
        .unwrap();
    assert_eq!(named[0].name(), Some(b"main".as_slice()));
    assert_eq!(named[1].name(), Some(b"tags/v1^0".as_slice()));
    assert_eq!(named[2].name(), Some(b"main^2".as_slice()));
    assert_eq!(named[3].name(), Some(b"tags/v1~1".as_slice()));
    assert_eq!(named[4].name(), Some(b"tags/v1".as_slice()));
    assert_eq!(named[5].name(), Some(b"archive/blob".as_slice()));

    let tag_names = repository
        .name_revs(
            &[left, side],
            &refs,
            &known,
            &NameRevOptions {
                tags_only: true,
                shorten_tags: true,
                always: true,
                allow_undefined: false,
                ..NameRevOptions::default()
            },
        )
        .unwrap();
    assert_eq!(tag_names[0].name(), Some(b"v1^0".as_slice()));
    assert!(tag_names[1].is_fallback());
}
