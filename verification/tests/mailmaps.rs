use git_rs::mailmap::{mailmap_blob, mailmap_revision, BlobRevision};
use git_rs::{
    Error, FileSystem, Mailmap, MailmapOptions, MemoryFileSystem, ObjectId, ObjectKind,
    Repository, Signature,
};

#[test]
fn maps_all_documented_forms_case_insensitively() {
    let map = Mailmap::parse(
        b"Proper One <one@old>\n\
          <proper@two> <two@old>\n\
          Proper Three <proper@three> <three@old>\n\
          Proper Four <proper@four> Commit Four <shared@old>\n",
        &MailmapOptions::default(),
    )
    .unwrap();
    assert_eq!(
        map.map_identity(b"Alias", b"ONE@OLD"),
        (&b"Proper One"[..], &b"ONE@OLD"[..])
    );
    assert_eq!(
        map.map_identity(b"Alias", b"two@old"),
        (&b"Alias"[..], &b"proper@two"[..])
    );
    assert_eq!(
        map.map_identity(b"Alias", b"three@old"),
        (&b"Proper Three"[..], &b"proper@three"[..])
    );
    assert_eq!(
        map.map_identity(b"commit four", b"SHARED@OLD"),
        (&b"Proper Four"[..], &b"proper@four"[..])
    );
    assert_eq!(
        map.map_identity(b"Other", b"shared@old"),
        (&b"Other"[..], &b"shared@old"[..])
    );
}

#[test]
fn rejects_malformed_and_limited_input() {
    assert!(Mailmap::parse(b"missing email\n", &MailmapOptions::default()).is_err());
    assert!(Mailmap::parse(
        b"A <a>\nB <b>\n",
        &MailmapOptions {
            max_entries: 1,
            ..MailmapOptions::default()
        }
    )
    .is_err());
}

#[test]
fn repository_sources_override_in_git_order() {
    let mut files = MemoryFileSystem::new();
    files.create_dir_all(b"repo/.git/objects/pack").unwrap();
    files
        .write(
            b"repo/.mailmap",
            b"Worktree <worktree@example.com> <old@example.com>\n",
        )
        .unwrap();
    files
        .write(
            b"repo/final.mailmap",
            b"Final <final@example.com> <old@example.com>\n",
        )
        .unwrap();
    let mut repository = Repository::open(files, b"repo/.git", Some(b"repo")).unwrap();
    let blob = repository
        .write_object(
            ObjectKind::Blob,
            b"Blob <blob@example.com> <old@example.com>\n",
        )
        .unwrap();
    let name = |blob, setting: Option<&[u8]>| {
        repository
            .load_mailmap(blob, setting, &MailmapOptions::default())
            .unwrap()
            .map_identity(b"Alias", b"old@example.com")
            .0
            .to_vec()
    };
    assert_eq!(name(Some(blob), Some(b"final.mailmap")), b"Final");
    assert_eq!(name(Some(blob), None), b"Blob");
    assert_eq!(name(None, None), b"Worktree");
}

#[test]
fn surrounding_blanks_and_comments_do_not_count() {
    let map = Mailmap::parse(
        b"# comment\n\n   Proper Name   <proper@x> <old@x>\n",
        &MailmapOptions::default(),
    )
    .unwrap();
    let before = Signature::new(b"Old", b"old@x", 5, 60).unwrap();
    let after = map.map_signature(&before).unwrap();
    assert_eq!(after.name(), b"Proper Name");
    assert_eq!(after.email(), b"proper@x");
    assert_eq!(after.timestamp(), 5);
    assert_eq!(after.offset_minutes(), 60);
}

#[test]
fn later_rules_replace_earlier_ones() {
    let map = Mailmap::parse(
        b"First <a@new> <a@old>\nSecond <b@new> <A@OLD>\n",
        &MailmapOptions::default(),
    )
    .unwrap();
    assert_eq!(
        map.map_identity(b"x", b"a@old"),
        (&b"Second"[..], &b"b@new"[..])
    );
}

#[test]
fn bytes_that_are_no_text_are_refused() {
    assert!(Mailmap::parse(b"\xff <a@b>\n", &MailmapOptions::default()).is_err());
}

#[test]
fn sources_load_as_one_text() {
    let first = b"Proper One <one@old>\n";
    let second = b"Proper Two <proper@two> <two@old>\n";
    let mut files = MemoryFileSystem::new();
    files.create_dir_all(b"repo/.git/objects/pack").unwrap();
    files.write(b"repo/.mailmap", first).unwrap();
    files.write(b"repo/more", second).unwrap();
    let repository = Repository::open(files, b"repo/.git", Some(b"repo")).unwrap();
    let loaded = repository
        .load_mailmap(None, Some(b"more"), &MailmapOptions::default())
        .unwrap();
    let whole = Mailmap::parse(
        &[&first[..], &second[..]].concat(),
        &MailmapOptions::default(),
    )
    .unwrap();
    for email in [&b"one@old"[..], b"two@old", b"other@old"] {
        assert_eq!(
            loaded.map_identity(b"Alias", email),
            whole.map_identity(b"Alias", email)
        );
    }
}

#[test]
fn three_sources_load_as_one_text() {
    let first = b"Proper One <one@old>\n<new@shared> <shared@old>";
    let second = b"Proper Two <proper@two> <two@old>\r\nShared Name <shared@old>";
    let third = b"Proper Three <proper@three> Commit Three <shared@old>\r";
    let mut files = MemoryFileSystem::new();
    files.create_dir_all(b"repo/.git/objects/pack").unwrap();
    files.write(b"repo/.mailmap", first).unwrap();
    files.write(b"repo/more", third).unwrap();
    let mut repository = Repository::open(files, b"repo/.git", Some(b"repo")).unwrap();
    let blob = repository.write_object(ObjectKind::Blob, second).unwrap();
    let loaded = repository
        .load_mailmap(Some(blob), Some(b"more"), &MailmapOptions::default())
        .unwrap();
    let whole = Mailmap::parse(
        &[&first[..], b"\n", second, b"\n", third].concat(),
        &MailmapOptions::default(),
    )
    .unwrap();
    for email in [&b"one@old"[..], b"two@old", b"shared@old", b"other@old"] {
        for name in [&b"Alias"[..], b"Commit Three"] {
            assert_eq!(
                loaded.map_identity(name, email),
                whole.map_identity(name, email)
            );
        }
    }
    assert_eq!(
        loaded.map_identity(b"Commit Three", b"shared@old"),
        (&b"Proper Three"[..], &b"proper@three"[..])
    );
}

#[test]
fn only_bare_repositories_read_a_blob_unasked() {
    assert_eq!(
        mailmap_revision(Some(b"main:map"), true),
        Some(b"main:map".to_vec())
    );
    assert_eq!(
        mailmap_revision(None, false),
        Some(b"HEAD:.mailmap".to_vec())
    );
    assert_eq!(mailmap_revision(None, true), None);
    let id = ObjectId::from_bytes([3; 20]);
    assert_eq!(
        mailmap_blob(BlobRevision::Found(id), false).unwrap(),
        Some(id)
    );
    let missing = || Error::NotFound(b"HEAD:.mailmap".to_vec());
    assert_eq!(
        mailmap_blob(BlobRevision::Missing(missing()), false).unwrap(),
        None
    );
    assert!(mailmap_blob(BlobRevision::Missing(missing()), true).is_err());
    assert_eq!(
        mailmap_blob(BlobRevision::Invalid(missing()), false).unwrap(),
        None
    );
    assert!(mailmap_blob(BlobRevision::Invalid(missing()), true).is_err());
    assert!(mailmap_blob(BlobRevision::Failed(missing()), false).is_err());
}
