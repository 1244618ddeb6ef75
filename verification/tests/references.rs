use git_rs::for_each_ref::path_pattern;
use git_rs::{
    Ancestry, Commit, FileSystem, ForEachRefEntry, ForEachRefOptions, MemoryFileSystem, ObjectId,
    ObjectKind, RefSortField, RefSortKey, Repository, ResolvedReference, Signature,
};

fn repository() -> Repository {
    let mut files = MemoryFileSystem::new();
    files.create_dir_all(b"repo/.git/objects/pack").unwrap();
    Repository::open(files, b"repo/.git", Some(b"repo")).unwrap()
}

fn identity(name: &[u8], time: i64) -> Signature {
    Signature::new(name, b"a@example.com", time, 0).unwrap()
}

fn resolved(name: &[u8], id: ObjectId) -> ResolvedReference {
    ResolvedReference {
        name: name.to_vec(),
        symbolic_target: None,
        id,
    }
}

#[test]
fn path_patterns_respect_components_and_wildcards() {
    assert!(path_pattern(b"refs/heads", b"refs/heads/main", false));
    assert!(!path_pattern(b"refs/head", b"refs/heads/main", false));
    assert!(path_pattern(b"refs/heads/m*", b"refs/heads/main", false));
    assert!(!path_pattern(b"refs/*", b"refs/heads/main", false));
    assert!(path_pattern(b"refs/**/m[ae]in", b"refs/heads/main", false));
    assert!(path_pattern(b"REFS/HEADS/MAIN", b"refs/heads/main", true));
}

#[test]
fn filters_graphs_nested_tags_and_sorts_metadata() {
    let mut repository = repository();
    let tree = repository.write_object(ObjectKind::Tree, b"").unwrap();
    let base = repository
        .write_commit(&Commit::new(
            tree,
            Vec::new(),
            identity(b"Base", 1),
            identity(b"Base", 1),
            b"base\n".to_vec(),
        ))
        .unwrap();
    let tip = repository
        .write_commit(&Commit::new(
            tree,
            vec![base],
            identity(b"Tip", 2),
            identity(b"Tip", 2),
            b"tip\n".to_vec(),
        ))
        .unwrap();
    let inner_id = repository
        .write_object(
            ObjectKind::Tag,
            format!(
                "object {}\ntype commit\ntag inner\ntagger Inner <a@example.com> 3 +0000\n\n",
                tip.to_string()
            )
            .as_bytes(),
        )
        .unwrap();
    let outer_id = repository
        .write_object(
            ObjectKind::Tag,
            format!(
                "object {}\ntype tag\ntag outer\ntagger Outer <a@example.com> 4 +0000\n\n",
                inner_id.to_string()
            )
            .as_bytes(),
        )
        .unwrap();
    let references = || {
        vec![
            resolved(b"refs/heads/main", tip),
            resolved(b"refs/heads/old", base),
            resolved(b"refs/tags/inner", inner_id),
            resolved(b"refs/tags/outer", outer_id),
        ]
    };
    let ancestry = Ancestry {
        pairs: vec![(base, tip)],
    };

    let entries = repository
        .for_each_ref(
            references(),
            None,
            &ancestry,
            &ForEachRefOptions {
                patterns: vec![b"refs/heads".to_vec(), b"refs/tags/outer".to_vec()],
                contains: vec![base],
                points_at: vec![inner_id],
                sort: vec![RefSortKey::descending(RefSortField::CreatorDate)],
                ..ForEachRefOptions::default()
            },
        )
        .unwrap();
    assert_eq!(entries.len(), 1);
    assert_eq!(entries[0].name(), b"refs/tags/outer");
    assert_eq!(entries[0].object_kind(), ObjectKind::Tag);
    assert_eq!(entries[0].peeled_id(), tip);
    assert_eq!(entries[0].tagger().unwrap().timestamp(), 4);

    let merged = repository
        .for_each_ref(
            references(),
            None,
            &ancestry,
            &ForEachRefOptions {
                patterns: vec![b"refs/heads".to_vec()],
                merged_into: vec![tip],
                sort: vec![RefSortKey::descending(RefSortField::CommitterDate)],
                ..ForEachRefOptions::default()
            },
        )
        .unwrap();
    assert_eq!(
        merged.iter().map(ForEachRefEntry::name).collect::<Vec<_>>(),
        [b"refs/heads/main".as_slice(), b"refs/heads/old"]
    );
}

#[test]
fn pagination_and_later_primary_sort_keys_match_git_rules() {
    let mut repository = repository();
    let blob = repository.write_object(ObjectKind::Blob, b"x").unwrap();
    let references = || {
        vec![
            resolved(b"refs/heads/a", blob),
            resolved(b"refs/heads/b", blob),
            resolved(b"refs/heads/c", blob),
        ]
    };
    let ancestry = Ancestry { pairs: Vec::new() };
    let entries = repository
        .for_each_ref(
            references(),
            None,
            &ancestry,
            &ForEachRefOptions {
                start_after: Some(b"refs/heads/a".to_vec()),
                count: Some(1),
                ..ForEachRefOptions::default()
            },
        )
        .unwrap();
    assert_eq!(entries[0].name(), b"refs/heads/b");
    assert!(repository
        .for_each_ref(
            references(),
            None,
            &ancestry,
            &ForEachRefOptions {
                patterns: vec![b"refs/heads".to_vec()],
                start_after: Some(b"refs/heads/a".to_vec()),
                ..ForEachRefOptions::default()
            }
        )
        .is_err());
}
