use std::str::FromStr;

use git_rs::object::object_path;
use git_rs::sha1;
use git_rs::{Error, FileSystem, MemoryFileSystem, Object, ObjectId, ObjectKind, Repository};

fn repository() -> Repository {
    let mut files = MemoryFileSystem::new();
    files.create_dir_all(b"repo/.git/objects/pack").unwrap();
    Repository::open(files, b"repo/.git", Some(b"repo")).unwrap()
}

fn hex(bytes: [u8; 20]) -> String {
    ObjectId::from_bytes(bytes).to_string()
}

#[test]
fn parses_and_formats_git_hex_object_ids() {
    let text = "e69de29bb2d1d6434b8b29ae775ad8c2e48c5391";
    let id = ObjectId::from_str(text).unwrap();
    assert_eq!(id.to_string(), text);
    assert_eq!(id.as_bytes()[0..4], [0xe6, 0x9d, 0xe2, 0x9b]);
}

#[test]
fn accepts_uppercase_input_and_canonicalizes_to_lowercase() {
    let id = ObjectId::from_str("E69DE29BB2D1D6434B8B29AE775AD8C2E48C5391").unwrap();
    assert_eq!(id.to_string(), "e69de29bb2d1d6434b8b29ae775ad8c2e48c5391");
}

#[test]
fn rejects_wrong_length_and_non_hex_input() {
    assert!(ObjectId::from_str("abc").is_err());
    assert!(ObjectId::from_str("g69de29bb2d1d6434b8b29ae775ad8c2e48c5391").is_err());
}

#[test]
fn matches_fips_sha1_vectors() {
    assert_eq!(
        hex(sha1::digest(b"")),
        "da39a3ee5e6b4b0d3255bfef95601890afd80709"
    );
    assert_eq!(
        hex(sha1::digest(b"abc")),
        "a9993e364706816aba3e25717850c26c9cd0d89d"
    );
    assert_eq!(
        hex(sha1::digest(b"The quick brown fox jumps over the lazy dog")),
        "2fd4e1c67a2d28fced849ee1bb76e7391b93eb12"
    );
}

#[test]
fn digests_span_several_blocks() {
    assert_eq!(
        hex(sha1::digest(
            b"abcdbcdecdefdefgefghfghighijhijkijkljklmklmnlmnomnopnopq"
        )),
        "84983e441c3bd26ebaae4aa1f95129e5e54670f1"
    );
}

#[test]
fn writes_git_compatible_loose_blobs_and_reads_them_back() {
    let mut repository = repository();
    let empty = repository.write_object(ObjectKind::Blob, b"").unwrap();
    let hello = repository
        .write_object(ObjectKind::Blob, b"hello\n")
        .unwrap();
    assert_eq!(
        empty.to_string(),
        "e69de29bb2d1d6434b8b29ae775ad8c2e48c5391"
    );
    assert_eq!(
        hello.to_string(),
        "ce013625030ba8dba906f756967f9e9ca394464a"
    );
    assert_eq!(
        repository.read_object(hello, None, 1024).unwrap().data(),
        b"hello\n"
    );
    assert!(repository
        .filesystem()
        .is_present(b"repo/.git/objects/ce/013625030ba8dba906f756967f9e9ca394464a")
        .unwrap());
}

#[test]
fn rejects_reads_above_the_callers_size_limit() {
    let mut repository = repository();
    let id = repository
        .write_object(ObjectKind::Blob, &[7; 128])
        .unwrap();
    assert!(repository.read_object(id, None, 64).is_err());
}

#[test]
fn reads_at_exactly_the_size_limit() {
    let mut repository = repository();
    let id = repository
        .write_object(ObjectKind::Blob, &[7; 128])
        .unwrap();
    assert_eq!(repository.read_object(id, None, 128).unwrap().data(), &[7; 128]);
    assert!(repository.read_object(id, None, 127).is_err());
    let empty = repository.write_object(ObjectKind::Tree, b"").unwrap();
    assert_eq!(
        repository.read_object(empty, None, 0).unwrap().kind(),
        ObjectKind::Tree
    );
}

#[test]
fn detects_corrupt_loose_object_content() {
    let mut repository = repository();
    let id = repository
        .write_object(ObjectKind::Blob, b"original")
        .unwrap();
    let corrupt = miniz_oxide::deflate::compress_to_vec_zlib(b"blob 7\0changed", 6);
    let path = repository.git_path(&object_path(id));
    let mut files = repository.into_filesystem();
    files.write(&path, &corrupt).unwrap();
    let repository = Repository::open(files, b"repo/.git", Some(b"repo")).unwrap();
    assert!(matches!(
        repository.read_object(id, None, 1024),
        Err(Error::InvalidObject(_))
    ));
}

#[test]
fn loose_files_hold_a_zlib_stream_of_the_framed_object() {
    let mut repository = repository();
    let id = repository
        .write_object(ObjectKind::Blob, b"hello\n")
        .unwrap();
    let stored = repository.read_git_file(&object_path(id)).unwrap();
    assert_ne!(stored, b"blob 6\0hello\n");
    assert_eq!(
        miniz_oxide::inflate::decompress_to_vec_zlib(&stored).unwrap(),
        b"blob 6\0hello\n"
    );
}

#[test]
fn garbage_in_place_of_a_loose_object_is_a_compression_error() {
    let mut repository = repository();
    let id = repository.write_object(ObjectKind::Blob, b"x").unwrap();
    let path = repository.git_path(&object_path(id));
    let mut files = repository.into_filesystem();
    files.write(&path, b"not a zlib stream").unwrap();
    let repository = Repository::open(files, b"repo/.git", Some(b"repo")).unwrap();
    assert!(matches!(
        repository.read_object(id, None, 1024),
        Err(Error::Compression(_))
    ));
}

#[test]
fn absent_objects_are_not_found() {
    let repository = repository();
    let id = ObjectId::compute(ObjectKind::Blob, b"absent");
    assert!(matches!(
        repository.read_object(id, None, 16),
        Err(Error::NotFound(_))
    ));
    assert!(!repository.contains_loose_object(id).unwrap());
}

#[test]
fn object_path_uses_git_fanout() {
    let id = ObjectId::from_str("ce013625030ba8dba906f756967f9e9ca394464a").unwrap();
    assert_eq!(
        object_path(id),
        b"objects/ce/013625030ba8dba906f756967f9e9ca394464a"
    );
}

#[test]
fn kinds_have_their_names() {
    assert_eq!(ObjectKind::Commit.as_bytes(), b"commit");
    assert_eq!(ObjectKind::parse(b"tag").unwrap(), ObjectKind::Tag);
    assert!(ObjectKind::parse(b"Tag").is_err());
    let object = Object::from_parts(ObjectKind::Blob, b"data".to_vec());
    assert_eq!(object.kind(), ObjectKind::Blob);
    assert_eq!(object.into_data(), b"data");
}

#[test]
fn the_null_id_is_all_zero() {
    assert!(ObjectId::null().is_null());
    assert_eq!(ObjectId::null().to_hex(), [b'0'; 40]);
    assert!(!ObjectId::compute(ObjectKind::Blob, b"").is_null());
}

#[test]
fn a_second_write_changes_nothing() {
    let mut repository = repository();
    let first = repository.write_object(ObjectKind::Blob, b"twice").unwrap();
    let path = [&b"repo/.git/"[..], &object_path(first)].concat();
    let before = repository.filesystem().read(&path).unwrap();
    let second = repository.write_object(ObjectKind::Blob, b"twice").unwrap();
    assert_eq!(first, second);
    assert_eq!(repository.filesystem().read(&path).unwrap(), before);
    assert!(matches!(
        ObjectId::from_str("nothex"),
        Err(Error::InvalidObjectId(text)) if text == b"nothex"
    ));
}

#[test]
fn a_replacement_is_read_in_place_of_the_object() {
    let mut repository = repository();
    let first = repository.write_object(ObjectKind::Blob, b"first").unwrap();
    let second = repository
        .write_object(ObjectKind::Blob, b"second")
        .unwrap();
    let missing = ObjectId::from_bytes([9; 20]);
    let data = |id, replacement| repository.read_object(id, replacement, 64).unwrap().into_data();
    assert_eq!(data(first, None), b"first");
    assert_eq!(data(first, Some(second)), b"second");
    assert_eq!(data(missing, Some(second)), b"second");
    assert!(repository.read_object(first, Some(missing), 64).is_err());
    assert_eq!(repository.read_object_raw(first, 5).unwrap().data(), b"first");
}
