use std::str::FromStr;

use git_rs::index::{decode_varint, encode_entry, encode_varint, parse_entry};
use git_rs::sha1;
use git_rs::{
    Error, FileSystem, Index, IndexEntry, IndexExtension, IndexVersion, MemoryFileSystem, ObjectId,
    Repository, StatData,
};

fn entry(path: &[u8], stage: u8) -> IndexEntry {
    IndexEntry::with_stage(
        path.to_vec(),
        0o100_644,
        ObjectId::from_str("1111111111111111111111111111111111111111").unwrap(),
        StatData {
            size: 42,
            ..StatData::default()
        },
        stage,
    )
    .unwrap()
}

fn crafted_v2_index(path: &[u8]) -> Vec<u8> {
    let mut body = Vec::new();
    body.extend_from_slice(b"DIRC");
    body.extend_from_slice(&2u32.to_be_bytes());
    body.extend_from_slice(&1u32.to_be_bytes());
    let mut entry = Vec::new();
    for value in [0u32, 0, 0, 0, 0, 0, 0o100_644, 0, 0, 19] {
        entry.extend_from_slice(&value.to_be_bytes());
    }
    entry.extend_from_slice(&[0x11; 20]);
    entry.extend_from_slice(
        &u16::try_from(path.len())
            .expect("test path fits in u16")
            .to_be_bytes(),
    );
    entry.extend_from_slice(path);
    entry.push(0);
    entry.resize(entry.len().div_ceil(8) * 8, 0);
    body.extend_from_slice(&entry);
    let mut data = body.clone();
    data.extend_from_slice(&sha1::digest(&body));
    data
}

#[test]
fn round_trips_versions_two_three_and_four() {
    for version in [IndexVersion::V2, IndexVersion::V3, IndexVersion::V4] {
        let index = Index::new(version, vec![entry(b"a", 0), entry(b"dir/file", 0)]).unwrap();
        assert_eq!(Index::parse(&index.encode().unwrap()).unwrap(), index);
    }
}

#[test]
fn round_trips_conflict_stages_long_paths_and_extended_flags() {
    let long = vec![b'x'; 5000];
    let entries = vec![
        entry(b"conflict", 1),
        entry(b"conflict", 2),
        entry(b"conflict", 3),
        entry(&long, 0)
            .with_assume_valid(true)
            .with_intent_to_add(true)
            .with_skip_worktree(true),
    ];
    let index = Index::new(IndexVersion::V4, entries).unwrap();
    assert_eq!(Index::parse(&index.encode().unwrap()).unwrap(), index);
}

#[test]
fn preserves_extensions_and_rejects_checksum_corruption() {
    let index = Index::new(IndexVersion::V2, vec![entry(b"file", 0)])
        .unwrap()
        .with_extension(IndexExtension::new(*b"TREE", b"cache".to_vec()).unwrap());
    let encoded = index.encode().unwrap();
    assert_eq!(Index::parse(&encoded).unwrap(), index);
    let mut corrupt = encoded;
    corrupt[20] ^= 1;
    assert!(Index::parse(&corrupt).is_err());
}

#[test]
fn repository_uses_atomic_index_storage() {
    let mut files = MemoryFileSystem::new();
    files.create_dir_all(b"repo/.git").unwrap();
    let mut repository = Repository::open(files, b"repo/.git", Some(b"repo")).unwrap();
    let index = Index::new(IndexVersion::V2, vec![entry(b"file", 0)]).unwrap();
    repository.write_index(&index).unwrap();
    assert_eq!(repository.read_index().unwrap(), index);
    assert!(!repository
        .filesystem()
        .is_present(b"repo/.git/index.lock")
        .unwrap());
}

#[test]
fn git_varint_vectors_round_trip() {
    for value in [0, 1, 127, 128, 255, 16_384, u64::from(u32::MAX), u64::MAX] {
        let mut encoded = Vec::new();
        encode_varint(value, &mut encoded);
        assert_eq!(decode_varint(&encoded).unwrap(), (value, encoded.len()));
    }
}

#[test]
fn rejects_win32_normalized_git_aliases() {
    let oid = ObjectId::from_str("1111111111111111111111111111111111111111").unwrap();
    let stat = StatData {
        size: 42,
        ..StatData::default()
    };
    for path in [
        b".git.".as_slice(),
        b".git ".as_slice(),
        b".Git.".as_slice(),
        b"git~1".as_slice(),
        b".git::$INDEX_ALLOCATION".as_slice(),
        b".git:$DATA".as_slice(),
        b".git:stream".as_slice(),
        b"dir/.git.".as_slice(),
        b"dir\\.git".as_slice(),
    ] {
        assert!(
            IndexEntry::with_stage(path.to_vec(), 0o100_644, oid, stat, 0).is_err(),
            "expected {path:?} to be rejected"
        );
    }
}

#[test]
fn accepts_unrelated_dotfiles_and_incomplete_short_names() {
    let oid = ObjectId::from_str("1111111111111111111111111111111111111111").unwrap();
    let stat = StatData {
        size: 42,
        ..StatData::default()
    };
    for path in [
        b".gitignore".as_slice(),
        b".gitmodules".as_slice(),
        b".gitattributes".as_slice(),
        b"foo.git".as_slice(),
        b"..git".as_slice(),
        b"git~1x".as_slice(),
        b"git~2".as_slice(),
        b"git~12".as_slice(),
        b"subdir/.git_config".as_slice(),
    ] {
        assert!(
            IndexEntry::with_stage(path.to_vec(), 0o100_644, oid, stat, 0).is_ok(),
            "expected {path:?} to be accepted"
        );
    }
}

#[test]
fn parse_rejects_crafted_v2_index_with_win32_git_aliases() {
    for path in [
        b".git./hooks/pre-commit".as_slice(),
        b".git /hooks/pre-commit".as_slice(),
        b"git~1/hooks/pre-commit".as_slice(),
        b".git::$INDEX_ALLOCATION".as_slice(),
    ] {
        assert!(
            Index::parse(&crafted_v2_index(path)).is_err(),
            "expected crafted index with {path:?} to be rejected"
        );
    }
}

#[test]
fn parse_accepts_crafted_v2_index_with_benign_dotfiles() {
    let index = Index::parse(&crafted_v2_index(b".gitignore")).unwrap();
    assert_eq!(index.entries()[0].path(), b".gitignore");
}

#[test]
fn entries_come_out_in_path_and_stage_order() {
    let index = Index::new(
        IndexVersion::V2,
        vec![entry(b"b", 0), entry(b"a", 3), entry(b"a", 1)],
    )
    .unwrap();
    let order: Vec<(&[u8], u8)> = index
        .entries()
        .iter()
        .map(|e| (e.path(), e.stage()))
        .collect();
    assert_eq!(order, vec![(&b"a"[..], 1), (b"a", 3), (b"b", 0)]);
}

#[test]
fn duplicate_entries_modes_and_stages_are_refused() {
    assert!(Index::new(IndexVersion::V2, vec![entry(b"a", 0), entry(b"a", 0)]).is_err());
    let id = ObjectId::from_bytes([1; 20]);
    assert!(IndexEntry::new(b"a".to_vec(), 0o7, id, StatData::default()).is_err());
    assert!(IndexEntry::with_stage(b"a".to_vec(), 0o100_644, id, StatData::default(), 4).is_err());
    assert!(matches!(
        IndexEntry::new(b"../a".to_vec(), 0o100_644, id, StatData::default()),
        Err(Error::InvalidRepository(_))
    ));
}

#[test]
fn varints_have_exact_bytes() {
    let mut out = Vec::new();
    encode_varint(127, &mut out);
    assert_eq!(out, [0x7f]);
    out.clear();
    encode_varint(128, &mut out);
    assert_eq!(out, [0x80, 0x00]);
    assert!(decode_varint(&[0x80]).is_err());
    assert!(decode_varint(&[]).is_err());
}

#[test]
fn absent_index_file_reads_as_an_empty_index() {
    let mut files = MemoryFileSystem::new();
    files.create_dir_all(b"repo/.git").unwrap();
    let repository = Repository::open(files, b"repo/.git", Some(b"repo")).unwrap();
    assert!(repository.read_index().unwrap().entries().is_empty());
}

#[test]
fn entries_are_read_back_whatever_follows() {
    for (version, previous) in [
        (IndexVersion::V2, &b""[..]),
        (IndexVersion::V3, b"zzz"),
        (IndexVersion::V4, b"src/li"),
        (IndexVersion::V4, b"other"),
    ] {
        for path in [&b"src/lib.rs"[..], b"a", b"src/li"] {
            let stored = entry(path, 2);
            let mut data = Vec::new();
            encode_entry(&mut data, &stored, version, previous).unwrap();
            let length = data.len();
            data.extend_from_slice(b"\0\0tail");
            let (read, taken) = parse_entry(&data, version, previous).unwrap();
            assert_eq!(read, stored);
            assert_eq!(taken, length);
            if version != IndexVersion::V4 {
                assert_eq!(taken % 8, 0);
            }
        }
    }
}
