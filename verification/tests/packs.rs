use std::str::FromStr;

use git_rs::delta::{apply_delta, create_delta};
use git_rs::multi_pack_index::encode;
use git_rs::object::object_path;
use git_rs::pack::crc32;
use git_rs::sha1;
use git_rs::{
    Commit, Error, FileSystem, IndexPackOptions, MemoryFileSystem, MultiPackIndex,
    MultiPackIndexEntry, MultiPackIndexOptions, ObjectId, ObjectKind, PackIndex, PackOptions,
    Repository, Signature,
};

fn repository() -> Repository {
    let mut files = MemoryFileSystem::new();
    files.create_dir_all(b"repo/.git/objects/pack").unwrap();
    Repository::open(files, b"repo/.git", Some(b"repo")).unwrap()
}

fn write_files(repository: &mut Repository, list: &[(&[u8], &[u8])]) {
    let mut files = repository.swap_files(MemoryFileSystem::new());
    for (path, data) in list {
        files.write(path, data).unwrap();
    }
    repository.swap_files(files);
}

fn remove_loose(repository: &mut Repository, id: ObjectId) {
    let path = repository.git_path(&object_path(id));
    let mut files = repository.swap_files(MemoryFileSystem::new());
    files.remove_file(&path).unwrap();
    repository.swap_files(files);
}

fn one_object_index(id: ObjectId, crc: u32, offset: u32, pack_checksum: [u8; 20]) -> Vec<u8> {
    let mut index = Vec::new();
    index.extend_from_slice(&[0xff, b't', b'O', b'c']);
    index.extend_from_slice(&2_u32.to_be_bytes());
    for bucket in 0..256 {
        index.extend_from_slice(&u32::from(bucket >= usize::from(id.as_bytes()[0])).to_be_bytes());
    }
    index.extend_from_slice(id.as_bytes());
    index.extend_from_slice(&crc.to_be_bytes());
    index.extend_from_slice(&offset.to_be_bytes());
    index.extend_from_slice(&pack_checksum);
    let checksum = sha1::digest(&index);
    index.extend_from_slice(&checksum);
    index
}

#[test]
fn crc_matches_standard_vector() {
    assert_eq!(crc32(b"123456789"), 0xcbf4_3926);
}

#[test]
fn applies_copy_and_insert_delta() {
    let delta = [11, 10, 0x90, 6, 4, b'r', b'u', b's', b't'];
    assert_eq!(
        apply_delta(b"hello world", &delta, 10).unwrap(),
        b"hello rust"
    );
}

#[test]
fn rejects_delta_writes_past_declared_result() {
    assert!(apply_delta(b"abc", &[3, 1, 2, b'x', b'y'], 10).is_err());
}

#[test]
fn made_deltas_apply_to_their_base() {
    let base = b"the quick brown fox jumps over the lazy dog, again and again".to_vec();
    let mut target = base.clone();
    target.splice(10..15, b"red".iter().copied());
    let delta = create_delta(&base, &target).unwrap();
    assert_eq!(apply_delta(&base, &delta, 4096).unwrap(), target);
    assert!(apply_delta(&base, &delta, target.len() - 1).is_err());
    assert!(apply_delta(b"another base", &delta, 4096).is_err());
}

#[test]
fn reads_a_git_compatible_indexed_pack_from_abstract_storage() {
    let mut repository = repository();
    let contents = b"packed through an abstract filesystem";
    let id = ObjectId::compute(ObjectKind::Blob, contents);
    let size = u8::try_from(contents.len()).unwrap();
    let mut entry = vec![0xb0 | (size & 15), size >> 4];
    entry.extend(miniz_oxide::deflate::compress_to_vec_zlib(contents, 6));

    let mut pack = b"PACK\0\0\0\x02\0\0\0\x01".to_vec();
    pack.extend_from_slice(&entry);
    let pack_checksum = sha1::digest(&pack);
    pack.extend_from_slice(&pack_checksum);
    let index = one_object_index(id, crc32(&entry), 12, pack_checksum);
    write_files(
        &mut repository,
        &[
            (b"repo/.git/objects/pack/fixture.pack", &pack),
            (b"repo/.git/objects/pack/fixture.idx", &index),
        ],
    );

    let object = repository.read_object(id, None, 1024).unwrap();
    assert_eq!(object.kind(), ObjectKind::Blob);
    assert_eq!(object.data(), contents);
    assert_eq!(PackIndex::parse(&index).unwrap().entries().len(), 1);
}

#[test]
fn rejects_a_corrupt_pack_index_checksum() {
    let id = ObjectId::compute(ObjectKind::Blob, b"x");
    let mut index = one_object_index(id, 0, 12, [1; 20]);
    index[100] ^= 1;
    assert!(PackIndex::parse(&index).is_err());
}

#[test]
fn builds_publishes_and_reads_a_delta_pack_in_memory() {
    let mut repository = repository();
    let base_data = vec![b'a'; 4096];
    let mut target_data = base_data.clone();
    target_data[2048..2052].copy_from_slice(b"rust");
    let base = repository
        .write_object(ObjectKind::Blob, &base_data)
        .unwrap();
    let target = repository
        .write_object(ObjectKind::Blob, &target_data)
        .unwrap();

    let bundle = repository
        .build_pack(&[base, target, base], &PackOptions::default())
        .unwrap();
    assert_eq!(bundle.object_count(), 2);
    let index = PackIndex::parse(bundle.index()).unwrap();
    let target_offset = usize::try_from(index.find(target).unwrap().offset).unwrap();
    assert_eq!((bundle.pack()[target_offset] >> 4) & 7, 6);
    let written = repository
        .write_pack(&[base, target], &PackOptions::default())
        .unwrap();
    assert_eq!(written.object_count, 2);
    assert!(repository
        .filesystem()
        .is_present(&written.pack_path)
        .unwrap());
    assert!(repository
        .filesystem()
        .is_present(&written.index_path)
        .unwrap());

    remove_loose(&mut repository, base);
    remove_loose(&mut repository, target);
    let object = repository.read_object(target, None, 8192).unwrap();
    assert_eq!(object.kind(), ObjectKind::Blob);
    assert_eq!(object.data(), target_data);
}

#[test]
fn builds_a_valid_empty_pack_and_index() {
    let repository = repository();
    let bundle = repository.build_pack(&[], &PackOptions::default()).unwrap();
    assert_eq!(bundle.object_count(), 0);
    assert_eq!(PackIndex::parse(bundle.index()).unwrap().entries(), &[]);
}

#[test]
fn packs_without_deltas_read_back_too() {
    let mut repository = repository();
    let first = repository.write_object(ObjectKind::Blob, b"one").unwrap();
    let second = repository.write_object(ObjectKind::Blob, b"two").unwrap();
    repository
        .write_pack(
            &[first, second],
            &PackOptions {
                use_deltas: false,
                ..PackOptions::default()
            },
        )
        .unwrap();
    remove_loose(&mut repository, first);
    remove_loose(&mut repository, second);
    assert_eq!(repository.read_object(first, None, 16).unwrap().data(), b"one");
    assert_eq!(repository.read_object(second, None, 16).unwrap().data(), b"two");
}

#[test]
fn packing_an_absent_object_fails() {
    let repository = repository();
    let id = ObjectId::from_str("1111111111111111111111111111111111111111").unwrap();
    assert!(matches!(
        repository.build_pack(&[id], &PackOptions::default()),
        Err(Error::NotFound(_))
    ));
}

#[test]
fn round_trips_locations_and_large_offsets() {
    let names = vec![
        b"pack-1111111111111111111111111111111111111111.idx".to_vec(),
        b"pack-2222222222222222222222222222222222222222.idx".to_vec(),
    ];
    let entries = vec![
        MultiPackIndexEntry::new(ObjectId::from_bytes([1; 20]), 0, 12),
        MultiPackIndexEntry::new(ObjectId::from_bytes([2; 20]), 1, u64::from(u32::MAX) + 7),
    ];
    let bytes = encode(&names, &entries).unwrap();
    let parsed = MultiPackIndex::parse(&bytes, 2, 2).unwrap();
    assert_eq!(parsed.pack_names(), names);
    assert_eq!(parsed.entries(), entries);
    assert!(MultiPackIndex::parse(&bytes, 1, 2).is_err());
    let mut corrupt = bytes;
    corrupt[20] ^= 1;
    assert!(MultiPackIndex::parse(&corrupt, 2, 2).is_err());
}

#[test]
fn writes_deduplicated_pack_locations_and_accelerates_reads() {
    let mut repository = repository();
    let shared = repository
        .write_object(ObjectKind::Blob, b"shared")
        .unwrap();
    let first = repository.write_object(ObjectKind::Blob, b"first").unwrap();
    let second = repository
        .write_object(ObjectKind::Blob, b"second")
        .unwrap();
    let first_pack = repository
        .write_pack(&[shared, first], &PackOptions::default())
        .unwrap();
    let second_pack = repository
        .write_pack(&[shared, second], &PackOptions::default())
        .unwrap();
    let preferred = second_pack
        .index_path
        .rsplit(|byte| *byte == b'/')
        .next()
        .unwrap()
        .to_vec();
    let report = repository
        .write_multi_pack_index(&MultiPackIndexOptions {
            preferred_pack: Some(preferred.clone()),
            ..MultiPackIndexOptions::default()
        })
        .unwrap();
    assert_eq!(
        (report.packs, report.objects, report.duplicate_objects),
        (2, 3, 1)
    );
    let midx = repository.read_multi_pack_index(1 << 20, 2, 3).unwrap();
    assert_eq!(
        midx.pack_name(midx.find(shared).unwrap().pack_index()),
        Some(&preferred)
    );
    assert_eq!(
        repository.read_packed_object(second, 4096).unwrap().data(),
        b"second"
    );
    assert_ne!(first_pack.index_path, second_pack.index_path);
    assert!(
        !repository
            .write_multi_pack_index(&MultiPackIndexOptions {
                preferred_pack: Some(preferred),
                ..MultiPackIndexOptions::default()
            })
            .unwrap()
            .changed
    );
}

#[test]
fn refuses_to_write_without_nonempty_packs() {
    let mut repository = repository();
    assert!(repository
        .write_multi_pack_index(&MultiPackIndexOptions::default())
        .is_err());
}

#[test]
fn dry_run_builds_index_without_publication_and_markers_precede_visibility() {
    let mut source = repository();
    let first = source
        .write_object(ObjectKind::Blob, &[b'a'; 4096])
        .unwrap();
    let mut data = vec![b'a'; 4096];
    data[2000..2004].copy_from_slice(b"rust");
    let second = source.write_object(ObjectKind::Blob, &data).unwrap();
    let bundle = source
        .build_pack(&[first, second], &PackOptions::default())
        .unwrap();
    let mut files = MemoryFileSystem::new();
    files
        .create_dir_all(b"destination/.git/objects/pack")
        .unwrap();
    let mut destination =
        Repository::open(files, b"destination/.git", Some(b"destination")).unwrap();
    let dry = destination
        .index_pack(
            bundle.pack(),
            bundle.index(),
            &IndexPackOptions {
                dry_run: true,
                ..IndexPackOptions::default()
            },
        )
        .unwrap();
    assert!(dry.written.is_none());
    assert_eq!(dry.objects.len(), 2);
    assert!(destination
        .filesystem()
        .read_dir(b"destination/.git/objects/pack")
        .unwrap()
        .is_empty());

    let report = destination
        .index_pack(
            bundle.pack(),
            bundle.index(),
            &IndexPackOptions {
                keep_message: Some(b"fetch in progress".to_vec()),
                promisor_message: Some(Vec::new()),
                ..IndexPackOptions::default()
            },
        )
        .unwrap();
    let written = report.written.unwrap();
    let stem = &written.pack_path[..written.pack_path.len() - 4];
    assert_eq!(
        destination
            .filesystem()
            .read(&[stem, b"keep"].concat())
            .unwrap(),
        b"fetch in progress\n"
    );
    assert_eq!(
        destination
            .filesystem()
            .read(&[stem, b"promisor"].concat())
            .unwrap(),
        b""
    );
    assert_eq!(destination.read_object(second, None, 8192).unwrap().data(), data);
}

#[test]
fn promisor_contents_are_kept_byte_for_byte() {
    let mut files = MemoryFileSystem::new();
    files.create_dir_all(b"source/.git/objects/pack").unwrap();
    let mut source = Repository::open(files, b"source/.git", Some(b"source")).unwrap();
    let id = source.write_object(ObjectKind::Blob, b"data").unwrap();
    let bundle = source.build_pack(&[id], &PackOptions::default()).unwrap();
    let mut files = MemoryFileSystem::new();
    files.create_dir_all(b"sink/.git/objects/pack").unwrap();
    let mut sink = Repository::open(files, b"sink/.git", Some(b"sink")).unwrap();
    let report = sink
        .index_pack(
            bundle.pack(),
            bundle.index(),
            &IndexPackOptions {
                promisor_message: Some(b"p".to_vec()),
                ..IndexPackOptions::default()
            },
        )
        .unwrap();
    let written = report.written.unwrap();
    let stem = &written.pack_path[..written.pack_path.len() - 4];
    assert_eq!(
        sink.filesystem()
            .read(&[stem, b"promisor"].concat())
            .unwrap(),
        b"p"
    );
}

fn person(name: &[u8], email: &[u8]) -> Signature {
    Signature::new(name, email, 1, 0).unwrap()
}

#[test]
fn strict_failure_keeps_pack_and_index_quarantined() {
    let mut source = repository();
    let missing_tree = ObjectId::compute(ObjectKind::Tree, b"");
    let commit = Commit::new(
        missing_tree,
        Vec::new(),
        person(b"A", b"a@example.com"),
        person(b"C", b"c@example.com"),
        b"broken\n".to_vec(),
    );
    let id = source.write_commit(&commit).unwrap();
    let bundle = source.build_pack(&[id], &PackOptions::default()).unwrap();
    let mut files = MemoryFileSystem::new();
    files
        .create_dir_all(b"destination/.git/objects/pack")
        .unwrap();
    let mut destination =
        Repository::open(files, b"destination/.git", Some(b"destination")).unwrap();
    assert!(destination
        .index_pack(
            bundle.pack(),
            bundle.index(),
            &IndexPackOptions {
                strict: true,
                ..IndexPackOptions::default()
            }
        )
        .is_err());
    assert!(destination
        .filesystem()
        .read_dir(b"destination/.git/objects/pack")
        .unwrap()
        .is_empty());
}

#[test]
fn strict_indexing_accepts_links_within_the_pack() {
    let mut source = repository();
    let tree = source.write_object(ObjectKind::Tree, b"").unwrap();
    let commit = Commit::new(
        tree,
        Vec::new(),
        person(b"A", b"a@example.com"),
        person(b"C", b"c@example.com"),
        b"whole\n".to_vec(),
    );
    let id = source.write_commit(&commit).unwrap();
    let bundle = source
        .build_pack(&[id, tree], &PackOptions::default())
        .unwrap();
    let mut destination = repository();
    let report = destination
        .index_pack(
            bundle.pack(),
            bundle.index(),
            &IndexPackOptions {
                strict: true,
                ..IndexPackOptions::default()
            },
        )
        .unwrap();
    assert_eq!(report.pack_size, bundle.pack().len());
    assert_eq!(report.index_size, bundle.index().len());
    assert_eq!(
        destination.read_object(id, None, 4096).unwrap().kind(),
        ObjectKind::Commit
    );
}

#[test]
fn packed_objects_are_read_at_exactly_their_size() {
    let mut repository = repository();
    let three = repository.write_object(ObjectKind::Blob, b"one").unwrap();
    let empty = repository.write_object(ObjectKind::Blob, b"").unwrap();
    let large = repository
        .write_object(ObjectKind::Blob, &[9; 70_000])
        .unwrap();
    repository
        .write_pack(&[three, empty, large], &PackOptions::default())
        .unwrap();
    for id in [three, empty, large] {
        remove_loose(&mut repository, id);
    }
    assert_eq!(repository.read_object(three, None, 3).unwrap().data(), b"one");
    assert!(repository.read_object(three, None, 2).is_err());
    assert_eq!(repository.read_object(empty, None, 0).unwrap().data(), b"");
    assert_eq!(
        repository.read_object(large, None, 70_000).unwrap().data(),
        &[9; 70_000]
    );
    assert!(repository.read_object(large, None, 69_999).is_err());
}

#[test]
fn the_index_of_a_built_pack_names_its_objects() {
    let mut repository = repository();
    let mut ids: Vec<_> = [&b"one"[..], b"two", b"three", b"three!"]
        .iter()
        .map(|data| repository.write_object(ObjectKind::Blob, data).unwrap())
        .collect();
    let bundle = repository
        .build_pack(&ids, &PackOptions::default())
        .unwrap();
    let index = PackIndex::parse(bundle.index()).unwrap();
    ids.sort();
    assert_eq!(
        index.entries().iter().map(|entry| entry.id).collect::<Vec<_>>(),
        ids
    );
}
