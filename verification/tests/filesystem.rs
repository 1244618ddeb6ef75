use git_rs::fs::path::{is_ntfs_dotgit, is_safe, reject_backslash, validate, validate_path};
use git_rs::{Error, FileStat, FileSystem, MemoryFileSystem, OverlayFileSystem};

#[test]
fn rename_atomically_replaces_a_file() {
    let mut fs = MemoryFileSystem::new();
    fs.write(b"HEAD", b"old").unwrap();
    fs.write(b"HEAD.lock", b"new").unwrap();
    fs.rename(b"HEAD.lock", b"HEAD").unwrap();
    assert_eq!(fs.read(b"HEAD").unwrap(), b"new");
    assert!(!fs.is_present(b"HEAD.lock").unwrap());
}

#[test]
fn create_only_write_acquires_a_lock_once() {
    let mut fs = MemoryFileSystem::new();
    fs.write_new(b"HEAD.lock", b"first").unwrap();
    assert!(matches!(
        fs.write_new(b"HEAD.lock", b"second"),
        Err(Error::AlreadyExists(_))
    ));
    assert_eq!(fs.read(b"HEAD.lock").unwrap(), b"first");
}

#[test]
fn reads_lower_and_isolates_writes_in_upper() {
    let mut lower = MemoryFileSystem::new();
    lower.create_dir_all(b"objects/pack").unwrap();
    lower.write(b"HEAD", b"lower").unwrap();
    lower.write(b"objects/pack/base.idx", b"base").unwrap();
    let mut overlay = OverlayFileSystem::new(lower);

    assert_eq!(overlay.read(b"HEAD").unwrap(), b"lower");
    overlay.write(b"HEAD", b"upper").unwrap();
    overlay.write(b"objects/pack/new.idx", b"new").unwrap();

    assert_eq!(overlay.read(b"HEAD").unwrap(), b"upper");
    assert_eq!(overlay.backing().read(b"HEAD").unwrap(), b"lower");
    assert_eq!(
        overlay.read_dir(b"objects/pack").unwrap(),
        vec![b"base.idx".to_vec(), b"new.idx".to_vec()]
    );
    assert!(!overlay
        .backing()
        .is_present(b"objects/pack/new.idx")
        .unwrap());
}

#[test]
fn create_only_write_observes_lower_layer() {
    let mut lower = MemoryFileSystem::new();
    lower.write(b"HEAD", b"lower").unwrap();
    let mut overlay = OverlayFileSystem::new(lower);

    assert!(matches!(
        overlay.write_new(b"HEAD", b"upper"),
        Err(Error::AlreadyExists(_))
    ));
}

#[test]
fn rejects_paths_which_escape_storage_root() {
    assert!(validate(b"../outside").is_err());
    assert!(validate(b"/outside").is_err());
    assert_eq!(validate(b"objects/./pack").unwrap(), b"objects/pack");
}

#[test]
fn detects_win32_normalized_git_components() {
    for component in [
        b".git".as_slice(),
        b".git.".as_slice(),
        b".git ".as_slice(),
        b".Git.".as_slice(),
        b"git~1".as_slice(),
        b".git:$DATA".as_slice(),
        b".git::$INDEX_ALLOCATION".as_slice(),
        b".git:stream".as_slice(),
        b".git .:stream".as_slice(),
    ] {
        assert!(
            is_ntfs_dotgit(component),
            "expected {component:?} to be flagged as .git alias"
        );
    }
}

#[test]
fn accepts_benign_components() {
    for component in [
        b".gitignore".as_slice(),
        b".gitmodules".as_slice(),
        b".gitattributes".as_slice(),
        b"foo.git".as_slice(),
        b"..git".as_slice(),
        b"git~1x".as_slice(),
        b"git~2".as_slice(),
        b"git~12".as_slice(),
        b".git_config".as_slice(),
    ] {
        assert!(
            !is_ntfs_dotgit(component),
            "expected {component:?} not to be flagged"
        );
    }
}

#[test]
fn reject_backslash_rejects_windows_separators_on_all_platforms() {
    assert!(reject_backslash(b"..\\pwned").is_err());
    assert!(reject_backslash(b"foo\\bar").is_err());
    assert!(reject_backslash(b"a\\b\\c").is_err());
    assert!(reject_backslash(b"deps/lib").is_ok());
    assert!(reject_backslash(b"plain").is_ok());
}

#[test]
fn validate_path_rejects_unsafe_repository_paths() {
    for path in [
        &b""[..],
        b"/absolute",
        b"..",
        b"a/../b",
        b"./a",
        b"a//b",
        b"a/b/",
        b".git",
        b"a/.git/b",
        b".GIT",
        b"a\0b",
        b"..\\pwned",
        b"foo\\bar",
    ] {
        assert!(
            validate_path(path).is_err(),
            "expected {path:?} to be rejected"
        );
        assert!(!is_safe(path));
    }
    for path in [&b"a/b"[..], b"a", b"deps/lib"] {
        assert!(
            validate_path(path).is_ok(),
            "expected {path:?} to be accepted"
        );
        assert!(is_safe(path));
    }
}

#[test]
fn memory_storage_reports_each_kind_of_refusal() {
    let mut fs = MemoryFileSystem::new();
    assert!(matches!(fs.read(b"absent"), Err(Error::NotFound(_))));
    assert!(matches!(fs.write(b"a/b", b""), Err(Error::NotFound(_))));
    assert!(matches!(fs.read(b"../up"), Err(Error::InvalidPath(_))));
    fs.create_dir_all(b"dir/sub").unwrap();
    assert!(matches!(fs.read(b"dir"), Err(Error::IsDirectory(_))));
    assert!(matches!(
        fs.remove_dir(b"dir"),
        Err(Error::DirectoryNotEmpty(_))
    ));
    fs.write(b"file", b"data").unwrap();
    assert!(matches!(
        fs.create_dir_all(b"file/deep"),
        Err(Error::NotDirectory(_))
    ));
    assert!(matches!(fs.read_dir(b"file"), Err(Error::NotDirectory(_))));
}

#[test]
fn memory_storage_keeps_links_and_executable_bits() {
    let mut fs = MemoryFileSystem::new();
    fs.create_symlink(b"link", b"target").unwrap();
    assert_eq!(fs.read_link(b"link").unwrap(), b"target");
    let metadata = fs.metadata(b"link").unwrap();
    assert!(metadata.is_symlink());
    assert_eq!(metadata.len(), 6);
    fs.write(b"run", b"#!").unwrap();
    assert!(!fs.metadata(b"run").unwrap().is_executable());
    fs.set_executable(b"run", true).unwrap();
    assert!(fs.metadata(b"run").unwrap().is_executable());
    assert!(fs.metadata(b"run").unwrap().is_file());
    fs.remove_file(b"run").unwrap();
    assert!(!fs.is_present(b"run").unwrap());
}

#[test]
fn directories_are_listed_in_order_with_direct_children_only() {
    let mut fs = MemoryFileSystem::new();
    fs.create_dir_all(b"a/c").unwrap();
    fs.write(b"a/b", b"").unwrap();
    fs.write(b"a/c/d", b"").unwrap();
    assert_eq!(
        fs.read_dir(b"a").unwrap(),
        vec![b"b".to_vec(), b"c".to_vec()]
    );
}

#[test]
fn an_overlay_renames_only_what_it_holds_itself() {
    let mut lower = MemoryFileSystem::new();
    lower.create_dir_all(b"dir").unwrap();
    lower.write(b"base", b"lower").unwrap();
    let mut files = OverlayFileSystem::new(lower);
    assert!(matches!(
        files.rename(b"base", b"moved"),
        Err(Error::NotFound(path)) if path == b"base"
    ));
    files.write(b"own", b"upper").unwrap();
    assert!(matches!(
        files.rename(b"own", b"base/below"),
        Err(Error::NotDirectory(path)) if path == b"base"
    ));
    assert!(matches!(
        files.rename(b"own", b"../out"),
        Err(Error::InvalidPath(path)) if path == b"../out"
    ));
    assert_eq!(files.read(b"own").unwrap(), b"upper");
    files.rename(b"own", b"dir/own").unwrap();
    assert_eq!(files.read(b"dir/own").unwrap(), b"upper");
    assert!(!files.is_present(b"own").unwrap());
    files.create_dir_all(b"one/two").unwrap();
    assert!(matches!(
        files.rename(b"one", b"one/two/three"),
        Err(Error::InvalidPath(path)) if path == b"one/two/three"
    ));
    files.create_dir_all(b"other").unwrap();
    assert!(matches!(
        files.rename(b"one", b"other"),
        Err(Error::AlreadyExists(path)) if path == b"other"
    ));
}

#[test]
fn stat_values_stay_with_what_they_were_set_on() {
    let mut files = MemoryFileSystem::new();
    files.write(b"file", b"data").unwrap();
    files.create_dir_all(b"dir").unwrap();
    let stat = FileStat {
        mtime_seconds: 7,
        ..FileStat::default()
    };
    files.set_stat(b"file", stat).unwrap();
    assert_eq!(files.metadata(b"file").unwrap().stat().mtime_seconds, 7);
    assert_eq!(files.metadata(b"dir").unwrap().stat(), FileStat::default());
    assert_eq!(files.read(b"file").unwrap(), b"data");
    files.rename(b"file", b"dir/moved").unwrap();
    assert_eq!(files.metadata(b"dir/moved").unwrap().stat().mtime_seconds, 7);
    files.write(b"dir/moved", b"new").unwrap();
    assert_eq!(
        files.metadata(b"dir/moved").unwrap().stat(),
        FileStat::default()
    );
    assert!(matches!(
        files.set_stat(b"none", FileStat::default()),
        Err(Error::NotFound(_))
    ));
}
