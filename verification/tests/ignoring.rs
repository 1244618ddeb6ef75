use git_rs::ignore::{wildmatch, wildmatch_ref};
use git_rs::{FileSystem, IgnoreMatcher, MemoryFileSystem, Repository};

#[test]
fn parses_ordered_negated_directory_and_escaped_rules() {
    let mut matcher = IgnoreMatcher::default();
    matcher
        .add_patterns(
            b"",
            b"# comment\n*.log\n!important.log\nbuild/\n\\#literal\nspace\\ \n",
        )
        .unwrap();
    assert!(matcher.is_ignored(b"deep/error.log", false));
    assert!(!matcher.is_ignored(b"important.log", false));
    assert!(matcher.is_ignored(b"build", true));
    assert!(!matcher.is_ignored(b"build", false));
    assert!(matcher.is_ignored(b"#literal", false));
    assert!(matcher.is_ignored(b"space ", false));
}

#[test]
fn matches_anchored_slashes_starstar_classes_and_question_marks() {
    let mut matcher = IgnoreMatcher::default();
    matcher
        .add_patterns(b"", b"/root.txt\na/**/b?.[ch]\nfile[0-9]\n")
        .unwrap();
    assert!(matcher.is_ignored(b"root.txt", false));
    assert!(!matcher.is_ignored(b"deep/root.txt", false));
    assert!(matcher.is_ignored(b"a/b1.c", false));
    assert!(matcher.is_ignored(b"a/x/y/bz.h", false));
    assert!(matcher.is_ignored(b"deep/file7", false));
    assert!(!matcher.is_ignored(b"filex", false));
}

#[test]
fn lower_directory_rules_override_parent_rules() {
    let mut matcher = IgnoreMatcher::default();
    matcher.add_patterns(b"", b"*.tmp\n").unwrap();
    matcher.add_patterns(b"generated", b"!keep.tmp\n").unwrap();
    assert!(matcher.is_ignored(b"generated/drop.tmp", false));
    assert!(!matcher.is_ignored(b"generated/keep.tmp", false));
}

#[test]
fn directory_only_rules_apply_to_all_descendants() {
    let mut matcher = IgnoreMatcher::default();
    matcher.add_patterns(b"", b"build/\nfoo/bar/\n").unwrap();
    assert!(matcher.is_ignored(b"build", true));
    assert!(matcher.is_ignored(b"build/output.o", false));
    assert!(matcher.is_ignored(b"nested/build/output.o", false));
    assert!(matcher.is_ignored(b"foo/bar/result", false));
    assert!(!matcher.is_ignored(b"foo/other/result", false));
}

#[test]
fn wildcards_stop_at_slashes_only_where_paths_are_matched() {
    assert!(wildmatch(b"*.c", b"a.c"));
    assert!(!wildmatch(b"a*c", b"a/c"));
    assert!(wildmatch_ref(b"refs/*", b"refs/heads/main"));
    assert!(wildmatch(b"[!a]b", b"xb"));
    assert!(!wildmatch(b"[!a]b", b"ab"));
    assert!(wildmatch(b"\\*", b"*"));
    assert!(!wildmatch(b"\\*", b"x"));
}

#[test]
fn repository_reads_ignore_files_from_the_work_tree() {
    let mut files = MemoryFileSystem::new();
    files.create_dir_all(b"repo/.git/info").unwrap();
    files.create_dir_all(b"repo/sub").unwrap();
    files.write(b"repo/.git/info/exclude", b"*.bak\n").unwrap();
    files.write(b"repo/.gitignore", b"*.o\n").unwrap();
    files.write(b"repo/sub/.gitignore", b"!keep.o\n").unwrap();
    let repository = Repository::open(files, b"repo/.git", Some(b"repo")).unwrap();
    assert!(repository.is_ignored(b"a.bak", false).unwrap());
    assert!(repository.is_ignored(b"a.o", false).unwrap());
    assert!(!repository.is_ignored(b"sub/keep.o", false).unwrap());
    assert!(!repository.is_ignored(b"a.c", false).unwrap());
}
