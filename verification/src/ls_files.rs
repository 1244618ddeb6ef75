//! Index and worktree inventory.

use vstd::prelude::*;

use crate::bytes;
use crate::fs;
use crate::fs::memory;
use crate::fs::path;
use crate::fs::{Fault, FileSystem, Refusal};
use crate::ignore;
use crate::ignore::{IgnoreMatcher, RuleModel};
use crate::index;
use crate::index::{EntryModel, IndexEntry, StatData};
use crate::ls_tree;
use crate::ls_tree::{path_below, path_selected};
use crate::object;
use crate::object::{ObjectId, ObjectKind};
use crate::repository;
use crate::repository::Repository;
use crate::storage;
use crate::tree;
use crate::tree::{EntryMode, TreeItem};
use crate::{Error, Result};

verus! {

#[derive(Debug, PartialEq, Eq)]
pub struct LsFilesOptions {
    pub cached: bool,
    pub stage: bool,
    pub unmerged: bool,
    pub deleted: bool,
    pub modified: bool,
    pub others: bool,
    pub ignored: bool,
    pub exclude_standard: bool,
    pub killed: bool,
    pub deduplicate: bool,
    pub show_sparse_directories: bool,
    pub error_unmatch: bool,
    pub paths: Vec<Vec<u8>>,
    pub max_entries: usize,
    pub max_depth: usize,
    pub max_object_size: usize,
}

impl Default for LsFilesOptions {
    fn default() -> (r: Self)
        ensures
            !r.cached && !r.stage && !r.unmerged && !r.deleted && !r.modified && !r.others,
            !r.ignored && !r.exclude_standard && !r.killed && !r.deduplicate,
            !r.show_sparse_directories && !r.error_unmatch,
            r.paths@.len() == 0,
            r.max_entries == 10_000_000,
            r.max_depth == 4096,
            r.max_object_size == 1024 * 1024 * 1024,
    {
        LsFilesOptions {
            cached: false,
            stage: false,
            unmerged: false,
            deleted: false,
            modified: false,
            others: false,
            ignored: false,
            exclude_standard: false,
            killed: false,
            deduplicate: false,
            show_sparse_directories: false,
            error_unmatch: false,
            paths: Vec::new(),
            max_entries: 10_000_000,
            max_depth: 4096,
            max_object_size: 1024 * 1024 * 1024,
        }
    }
}

/// What some options ask for.
#[verifier::ext_equal]
pub struct SelectionModel {
    pub cached: bool,
    pub stage: bool,
    pub unmerged: bool,
    pub deleted: bool,
    pub modified: bool,
    pub others: bool,
    pub ignored: bool,
    pub exclude_standard: bool,
    pub killed: bool,
    pub deduplicate: bool,
    pub show_sparse_directories: bool,
    pub error_unmatch: bool,
    pub paths: Seq<Seq<u8>>,
    pub max_entries: usize,
    pub max_depth: usize,
    pub max_object_size: usize,
}

impl View for LsFilesOptions {
    type V = SelectionModel;

    open spec fn view(&self) -> SelectionModel {
        SelectionModel {
            cached: self.cached,
            stage: self.stage,
            unmerged: self.unmerged,
            deleted: self.deleted,
            modified: self.modified,
            others: self.others,
            ignored: self.ignored,
            exclude_standard: self.exclude_standard,
            killed: self.killed,
            deduplicate: self.deduplicate,
            show_sparse_directories: self.show_sparse_directories,
            error_unmatch: self.error_unmatch,
            paths: bytes::deep(self.paths@),
            max_entries: self.max_entries,
            max_depth: self.max_depth,
            max_object_size: self.max_object_size,
        }
    }
}

#[derive(Clone, Copy, Debug, PartialEq, Eq, Structural)]
pub enum LsFilesKind {
    Cached,
    Unmerged,
    Deleted,
    Modified,
    Other,
    Ignored,
    Killed,
}

#[derive(Debug, PartialEq, Eq)]
pub struct LsFilesEntry {
    path: Vec<u8>,
    kind: LsFilesKind,
    mode: Option<u32>,
    id: Option<ObjectId>,
    stage: Option<u8>,
    assume_valid: bool,
    intent_to_add: bool,
    skip_worktree: bool,
}

/// What a listed entry says.
#[verifier::ext_equal]
pub struct Listed {
    pub path: Seq<u8>,
    pub kind: LsFilesKind,
    pub mode: Option<u32>,
    pub id: Option<Seq<u8>>,
    pub stage: Option<u8>,
    pub assume_valid: bool,
    pub intent_to_add: bool,
    pub skip_worktree: bool,
}

impl View for LsFilesEntry {
    type V = Listed;

    closed spec fn view(&self) -> Listed {
        Listed {
            path: self.path@,
            kind: self.kind,
            mode: self.mode,
            id: match self.id {
                Some(id) => Some(id@),
                None => None,
            },
            stage: self.stage,
            assume_valid: self.assume_valid,
            intent_to_add: self.intent_to_add,
            skip_worktree: self.skip_worktree,
        }
    }
}

/// What a list of entries says.
pub open spec fn models(list: Seq<LsFilesEntry>) -> Seq<Listed> {
    Seq::new(list.len(), |i: int| list[i]@)
}

impl LsFilesEntry {
    pub fn path(&self) -> (r: &[u8])
        ensures
            r@ == self@.path,
    {
        self.path.as_slice()
    }

    pub fn kind(&self) -> (r: LsFilesKind)
        ensures
            r == self@.kind,
    {
        self.kind
    }

    pub fn mode(&self) -> (r: Option<u32>)
        ensures
            r == self@.mode,
    {
        self.mode
    }

    pub fn id(&self) -> (r: Option<ObjectId>)
        ensures
            match r {
                Some(id) => self@.id == Some(id@),
                None => self@.id is None,
            },
    {
        self.id
    }

    pub fn stage(&self) -> (r: Option<u8>)
        ensures
            r == self@.stage,
    {
        self.stage
    }

    pub fn assume_valid(&self) -> (r: bool)
        ensures
            r == self@.assume_valid,
    {
        self.assume_valid
    }

    pub fn intent_to_add(&self) -> (r: bool)
        ensures
            r == self@.intent_to_add,
    {
        self.intent_to_add
    }

    pub fn skip_worktree(&self) -> (r: bool)
        ensures
            r == self@.skip_worktree,
    {
        self.skip_worktree
    }
}

/// The listed entry for an entry of the index.
pub open spec fn index_entry(entry: EntryModel, kind: LsFilesKind) -> Listed {
    Listed {
        path: entry.path,
        kind,
        mode: Some(entry.mode),
        id: Some(entry.id),
        stage: Some(entry.stage),
        assume_valid: entry.assume_valid,
        intent_to_add: entry.intent_to_add,
        skip_worktree: entry.skip_worktree,
    }
}

/// The listed entry for a working file.
pub open spec fn worktree_entry(path: Seq<u8>, kind: LsFilesKind) -> Listed {
    Listed {
        path,
        kind,
        mode: None,
        id: None,
        stage: None,
        assume_valid: false,
        intent_to_add: false,
        skip_worktree: false,
    }
}

fn index_result(entry: &IndexEntry, kind: LsFilesKind) -> (r: LsFilesEntry)
    ensures
        r@ == index_entry(entry@, kind),
{
    LsFilesEntry {
        path: bytes::to_vec(entry.path()),
        kind,
        mode: Some(entry.mode()),
        id: Some(entry.id()),
        stage: Some(entry.stage()),
        assume_valid: entry.assume_valid(),
        intent_to_add: entry.intent_to_add(),
        skip_worktree: entry.skip_worktree(),
    }
}

fn worktree_result(path: &[u8], kind: LsFilesKind) -> (r: LsFilesEntry)
    ensures
        r@ == worktree_entry(path@, kind),
{
    LsFilesEntry {
        path: bytes::to_vec(path),
        kind,
        mode: None,
        id: None,
        stage: None,
        assume_valid: false,
        intent_to_add: false,
        skip_worktree: false,
    }
}

// ---------------------------------------------------------------------------
// Sparse directories

/// What expanding the tree of a sparse directory adds, or why it is refused.
pub open spec fn expand_tree(
    files: memory::Tree,
    git: Seq<u8>,
    path: Seq<u8>,
    id: Seq<u8>,
    depth: int,
    options: SelectionModel,
    out: Seq<EntryModel>,
) -> core::result::Result<Seq<EntryModel>, Refusal>
    decreases options.max_depth + 1 - depth, 1int, 0int,
{
    if depth > options.max_depth {
        Err(
            Refusal::Said(
                Error::InvalidRepository("sparse index expansion exceeds depth limit"),
            ),
        )
    } else {
        match tree::stored_tree(files, git, id, options.max_object_size as nat) {
            Err(refusal) => Err(refusal),
            Ok(list) => expand_items(files, git, path, list, 0, depth, options, out),
        }
    }
}

/// What expanding the entries of a tree from a position on adds.
pub open spec fn expand_items(
    files: memory::Tree,
    git: Seq<u8>,
    path: Seq<u8>,
    list: Seq<TreeItem>,
    i: int,
    depth: int,
    options: SelectionModel,
    out: Seq<EntryModel>,
) -> core::result::Result<Seq<EntryModel>, Refusal>
    decreases options.max_depth + 1 - depth, 0int, list.len() - i,
{
    if i < 0 || i >= list.len() || depth > options.max_depth {
        Ok(out)
    } else {
        let item = list[i];
        let below = path.push(47) + item.name;
        match index::staged(below, tree::mode_value(item.mode), item.id, index::no_stat(), 0) {
            Err(error) => Err(Refusal::Said(error)),
            Ok(entry) => {
                let skipped = EntryModel { skip_worktree: true, ..entry };
                let added = if item.mode is Tree {
                    expand_tree(files, git, below, item.id, depth + 1, options, out)
                } else {
                    Ok(out.push(skipped))
                };
                match added {
                    Err(refusal) => Err(refusal),
                    Ok(more) => if more.len() > options.max_entries {
                        Err(
                            Refusal::Said(
                                Error::InvalidRepository("ls-files exceeds entry limit"),
                            ),
                        )
                    } else {
                        expand_items(files, git, path, list, i + 1, depth, options, more)
                    },
                }
            },
        }
    }
}

/// The first `n` entries of an index, with sparse directories expanded.
pub open spec fn expanded(
    files: memory::Tree,
    git: Seq<u8>,
    entries: Seq<EntryModel>,
    options: SelectionModel,
    n: int,
) -> core::result::Result<Seq<EntryModel>, Refusal>
    decreases n,
{
    if n <= 0 {
        Ok(Seq::empty())
    } else {
        match expanded(files, git, entries, options, n - 1) {
            Err(refusal) => Err(refusal),
            Ok(out) => {
                let entry = entries[n - 1];
                let added = if entry.mode == 0o040_000 && !options.show_sparse_directories {
                    expand_tree(files, git, entry.path, entry.id, 0, options, out)
                } else {
                    Ok(out.push(entry))
                };
                match added {
                    Err(refusal) => Err(refusal),
                    Ok(more) => if more.len() > options.max_entries {
                        Err(
                            Refusal::Said(
                                Error::InvalidRepository("ls-files exceeds entry limit"),
                            ),
                        )
                    } else {
                        Ok(more)
                    },
                }
            },
        }
    }
}

proof fn lemma_expanded_persists(
    files: memory::Tree,
    git: Seq<u8>,
    entries: Seq<EntryModel>,
    options: SelectionModel,
    n: int,
    m: int,
)
    requires
        0 <= n <= m,
    ensures
        expanded(files, git, entries, options, n) is Err ==> expanded(
            files,
            git,
            entries,
            options,
            m,
        ) == expanded(files, git, entries, options, n),
    decreases m,
{
    if n < m {
        lemma_expanded_persists(files, git, entries, options, n, m - 1);
    }
}

impl Repository {
    fn expand_sparse_entry(
        &self,
        path: &[u8],
        id: ObjectId,
        depth: usize,
        options: &LsFilesOptions,
        output: &mut Vec<IndexEntry>,
    ) -> (r: Result<()>)
        requires
            depth <= options.max_depth + 1,
        ensures
            match expand_tree(
                self.tree(),
                self.git(),
                path@,
                id@,
                depth as int,
                options@,
                index::models(old(output)@),
            ) {
                Ok(list) => r is Ok && index::models(final(output)@) == list,
                Err(refusal) => fs::declined(r, refusal),
            },
        decreases options.max_depth + 1 - depth,
    {
        if depth > options.max_depth {
            return Err(Error::InvalidRepository("sparse index expansion exceeds depth limit"));
        }
        let directory = self.read_tree(id, options.max_object_size)?;
        let entries = directory.entries();
        let ghost list = tree::items(entries@);
        let ghost goal = expand_tree(
            self.tree(),
            self.git(),
            path@,
            id@,
            depth as int,
            options@,
            index::models(old(output)@),
        );
        let mut i: usize = 0;
        while i < entries.len()
            invariant
                i <= entries@.len(),
                depth <= options.max_depth,
                list == tree::items(entries@),
                goal == expand_tree(
                    self.tree(),
                    self.git(),
                    path@,
                    id@,
                    depth as int,
                    options@,
                    index::models(old(output)@),
                ),
                goal == expand_items(
                    self.tree(),
                    self.git(),
                    path@,
                    list,
                    i as int,
                    depth as int,
                    options@,
                    index::models(output@),
                ),
            decreases entries@.len() - i,
        {
            let child = &entries[i];
            assert(list[i as int] == child@);
            let mut below = bytes::to_vec(path);
            below.push(47);
            bytes::append(&mut below, child.name());
            assert(below@ =~= path@.push(47) + child@.name);
            let copy = bytes::to_vec(below.as_slice());
            let ghost before = index::models(output@);
            let entry = IndexEntry::new(
                copy,
                child.mode().number(),
                child.id(),
                StatData::default(),
            )?;
            if child.mode() == EntryMode::Tree {
                if depth == usize::MAX {
                    assert(expand_tree(
                        self.tree(),
                        self.git(),
                        below@,
                        child@.id,
                        depth + 1,
                        options@,
                        before,
                    ) == Err::<Seq<EntryModel>, Refusal>(
                        Refusal::Said(
                            Error::InvalidRepository("sparse index expansion exceeds depth limit"),
                        ),
                    ));
                    return Err(
                        Error::InvalidRepository("sparse index expansion exceeds depth limit"),
                    );
                }
                self.expand_sparse_entry(below.as_slice(), child.id(), depth + 1, options, output)?;
            } else {
                let skipped = entry.with_skip_worktree(true);
                let ghost model = skipped@;
                output.push(skipped);
                assert(index::models(output@) =~= before.push(model));
            }
            assert(output@.len() == index::models(output@).len());
            if output.len() > options.max_entries {
                return Err(Error::InvalidRepository("ls-files exceeds entry limit"));
            }
            i += 1;
        }
        Ok(())
    }

    fn expanded_ls_files_entries(&self, entries: &[IndexEntry], options: &LsFilesOptions) -> (r: Result<
        Vec<IndexEntry>,
    >)
        ensures
            match expanded(
                self.tree(),
                self.git(),
                index::models(entries@),
                options@,
                entries@.len() as int,
            ) {
                Ok(list) => r is Ok && index::models(r->Ok_0@) == list,
                Err(refusal) => fs::declined(r, refusal),
            },
    {
        let ghost all = index::models(entries@);
        let mut output: Vec<IndexEntry> = Vec::new();
        let mut n: usize = 0;
        assert(index::models(output@) =~= Seq::empty());
        while n < entries.len()
            invariant
                n <= entries@.len(),
                all == index::models(entries@),
                expanded(self.tree(), self.git(), all, options@, n as int) == Ok::<
                    Seq<EntryModel>,
                    Refusal,
                >(index::models(output@)),
            decreases entries@.len() - n,
        {
            proof {
                lemma_expanded_persists(
                    self.tree(),
                    self.git(),
                    all,
                    options@,
                    n + 1,
                    all.len() as int,
                );
            }
            let entry = &entries[n];
            assert(all[n as int] == entry@);
            let ghost before = index::models(output@);
            if entry.mode() == 0o040_000 && !options.show_sparse_directories {
                self.expand_sparse_entry(entry.path(), entry.id(), 0, options, &mut output)?;
            } else {
                let copy = entry.clone();
                output.push(copy);
                assert(index::models(output@) =~= before.push(entry@));
            }
            assert(output@.len() == index::models(output@).len());
            if output.len() > options.max_entries {
                return Err(Error::InvalidRepository("ls-files exceeds entry limit"));
            }
            n += 1;
        }
        Ok(output)
    }
}

// ---------------------------------------------------------------------------
// Working files

/// A working file and whether it is ignored.
pub struct Found {
    pub path: Seq<u8>,
    pub ignored: bool,
}

struct WorktreeItem {
    path: Vec<u8>,
    ignored: bool,
}

impl View for WorktreeItem {
    type V = Found;

    closed spec fn view(&self) -> Found {
        Found { path: self.path@, ignored: self.ignored }
    }
}

spec fn found(list: Seq<WorktreeItem>) -> Seq<Found> {
    Seq::new(list.len(), |i: int| list[i]@)
}

/// How far a scan has come.
#[verifier::ext_equal]
pub struct Scan {
    pub rules: Seq<RuleModel>,
    pub out: Seq<Found>,
}

/// What listing a path gives, once the path is in its plain form.
pub open spec fn listed_at(files: memory::Tree, p: Seq<u8>) -> core::result::Result<
    Seq<Seq<u8>>,
    Refusal,
> {
    match path::normalized(p) {
        None => Err(Refusal::At(Fault::InvalidPath, p)),
        Some(plain) => storage::listed(files, plain),
    }
}

/// What a path leads to, once the path is in its plain form.
pub open spec fn node_at(files: memory::Tree, p: Seq<u8>) -> core::result::Result<
    memory::Node,
    Refusal,
> {
    match path::normalized(p) {
        None => Err(Refusal::At(Fault::InvalidPath, p)),
        Some(plain) => if files.contains_key(plain) {
            Ok(files[plain])
        } else {
            Err(Refusal::At(Fault::NotFound, plain))
        },
    }
}

pub open spec fn over_limit() -> Refusal {
    Refusal::Said(Error::InvalidRepository("ls-files exceeds entry limit"))
}

/// What scanning a directory adds to a scan, or why it is refused.
pub open spec fn scan_directory(
    files: memory::Tree,
    git: Seq<u8>,
    root: Seq<u8>,
    relative: Seq<u8>,
    depth: int,
    options: SelectionModel,
    scan: Scan,
) -> core::result::Result<Scan, Refusal>
    decreases options.max_depth + 1 - depth, 1int, 0int,
{
    let rules = if options.exclude_standard {
        ignore::directory_rules(files, root, scan.rules, relative)
    } else {
        Ok(scan.rules)
    };
    if depth > options.max_depth {
        Err(
            Refusal::Said(
                Error::InvalidRepository("ls-files worktree scan exceeds depth limit"),
            ),
        )
    } else {
        match rules {
            Err(refusal) => Err(refusal),
            Ok(rules) => match listed_at(files, ignore::inside(root, relative)) {
                Err(refusal) => Err(refusal),
                Ok(names) => scan_children(
                    files,
                    git,
                    root,
                    relative,
                    names,
                    0,
                    depth,
                    options,
                    Scan { rules, out: scan.out },
                ),
            },
        }
    }
}

/// What scanning the children of a directory from a position on adds.
pub open spec fn scan_children(
    files: memory::Tree,
    git: Seq<u8>,
    root: Seq<u8>,
    relative: Seq<u8>,
    names: Seq<Seq<u8>>,
    i: int,
    depth: int,
    options: SelectionModel,
    scan: Scan,
) -> core::result::Result<Scan, Refusal>
    decreases options.max_depth + 1 - depth, 0int, names.len() - i,
{
    if i < 0 || i >= names.len() || depth > options.max_depth {
        Ok(scan)
    } else {
        let child = ls_tree::extended(relative, names[i]);
        let full = repository::joined(root, child);
        if child == bytes::utf8(".git"@) || full == git {
            scan_children(files, git, root, relative, names, i + 1, depth, options, scan)
        } else {
            match node_at(files, full) {
                Err(refusal) => Err(refusal),
                Ok(memory::Node::Directory { .. }) => match scan_directory(
                    files,
                    git,
                    root,
                    child,
                    depth + 1,
                    options,
                    scan,
                ) {
                    Err(refusal) => Err(refusal),
                    Ok(next) => scan_children(
                        files,
                        git,
                        root,
                        relative,
                        names,
                        i + 1,
                        depth,
                        options,
                        next,
                    ),
                },
                Ok(_) => if scan.out.len() + 1 > options.max_entries {
                    Err(over_limit())
                } else {
                    scan_children(
                        files,
                        git,
                        root,
                        relative,
                        names,
                        i + 1,
                        depth,
                        options,
                        Scan {
                            rules: scan.rules,
                            out: scan.out.push(
                                Found {
                                    path: child,
                                    ignored: ignore::ignored_by(
                                        scan.rules,
                                        scan.rules.len() as int,
                                        child,
                                        false,
                                    ),
                                },
                            ),
                        },
                    )
                },
            }
        }
    }
}

impl Repository {
    fn collect_ls_files_worktree(
        &self,
        root: &[u8],
        relative: &[u8],
        depth: usize,
        options: &LsFilesOptions,
        matcher: &mut IgnoreMatcher,
        output: &mut Vec<WorktreeItem>,
    ) -> (r: Result<()>)
        requires
            depth <= options.max_depth + 1,
        ensures
            match scan_directory(
                self.tree(),
                self.git(),
                root@,
                relative@,
                depth as int,
                options@,
                Scan { rules: old(matcher)@, out: found(old(output)@) },
            ) {
                Ok(scan) => r is Ok && final(matcher)@ == scan.rules && found(final(output)@)
                    == scan.out,
                Err(refusal) => fs::declined(r, refusal),
            },
        decreases options.max_depth + 1 - depth,
    {
        if depth > options.max_depth {
            return Err(Error::InvalidRepository("ls-files worktree scan exceeds depth limit"));
        }
        let ghost goal = scan_directory(
            self.tree(),
            self.git(),
            root@,
            relative@,
            depth as int,
            options@,
            Scan { rules: matcher@, out: found(output@) },
        );
        if options.exclude_standard {
            matcher.add_worktree_patterns(self, root, relative)?;
        }
        let directory = ignore::path_inside(root, relative);
        let names = self.filesystem().read_dir(directory.as_slice())?;
        let ghost all = bytes::deep(names@);
        proof {
            storage::lemma_children(self.tree(), path::normalized(directory@)->0, all);
        }
        let mut i: usize = 0;
        while i < names.len()
            invariant
                i <= names@.len(),
                depth <= options.max_depth,
                all == bytes::deep(names@),
                goal == scan_directory(
                    self.tree(),
                    self.git(),
                    root@,
                    relative@,
                    depth as int,
                    options@,
                    Scan { rules: old(matcher)@, out: found(old(output)@) },
                ),
                goal == scan_children(
                    self.tree(),
                    self.git(),
                    root@,
                    relative@,
                    all,
                    i as int,
                    depth as int,
                    options@,
                    Scan { rules: matcher@, out: found(output@) },
                ),
            decreases names@.len() - i,
        {
            assert(all[i as int] == names@[i as int]@);
            let mut child = bytes::to_vec(relative);
            if relative.len() > 0 {
                child.push(47);
            }
            bytes::append(&mut child, names[i].as_slice());
            assert(child@ =~= ls_tree::extended(relative@, all[i as int]));
            let full = repository::join_path(root, child.as_slice());
            i += 1;
            if bytes::bytes_eq(child.as_slice(), ".git".as_bytes()) || bytes::bytes_eq(
                full.as_slice(),
                self.git_dir(),
            ) {
                continue;
            }
            let metadata = self.filesystem().metadata(full.as_slice())?;
            let ghost before = found(output@);
            if metadata.is_dir() {
                if depth == usize::MAX {
                    assert(scan_directory(
                        self.tree(),
                        self.git(),
                        root@,
                        child@,
                        depth + 1,
                        options@,
                        Scan { rules: matcher@, out: before },
                    ) == Err::<Scan, Refusal>(
                        Refusal::Said(
                            Error::InvalidRepository("ls-files worktree scan exceeds depth limit"),
                        ),
                    ));
                    return Err(
                        Error::InvalidRepository("ls-files worktree scan exceeds depth limit"),
                    );
                }
                self.collect_ls_files_worktree(
                    root,
                    child.as_slice(),
                    depth + 1,
                    options,
                    matcher,
                    output,
                )?;
            } else {
                assert(output@.len() == found(output@).len());
                if output.len() >= options.max_entries {
                    return Err(Error::InvalidRepository("ls-files exceeds entry limit"));
                }
                let ignored: bool = matcher.is_ignored(child.as_slice(), false);
                let item = WorktreeItem { path: child, ignored };
                let ghost model = item@;
                output.push(item);
                assert(found(output@) =~= before.push(model));
            }
        }
        Ok(())
    }
}

// ---------------------------------------------------------------------------
// Selection

pub open spec fn has_path(entries: Seq<EntryModel>, path: Seq<u8>) -> bool {
    exists|i: int| 0 <= i < entries.len() && (#[trigger] entries[i]).path == path
}

pub open spec fn collides(entry: EntryModel, path: Seq<u8>) -> bool {
    entry.stage == 0 && (ls_tree::stands_below(path, entry.path) || ls_tree::stands_below(
        entry.path,
        path,
    ))
}

/// Whether a working file stands in the way of an entry of the index.
pub open spec fn in_the_way(entries: Seq<EntryModel>, path: Seq<u8>) -> bool {
    exists|i: int| 0 <= i < entries.len() && #[trigger] collides(entries[i], path)
}

/// The first `n` working files that are not tracked.
pub open spec fn others_of(
    items: Seq<Found>,
    entries: Seq<EntryModel>,
    options: SelectionModel,
    n: int,
) -> Seq<Listed>
    decreases n,
{
    if n <= 0 {
        Seq::empty()
    } else {
        let before = others_of(items, entries, options, n - 1);
        let item = items[n - 1];
        if has_path(entries, item.path) || !ls_tree::selected(
            item.path,
            options.paths,
        ) || item.ignored != options.ignored {
            before
        } else {
            before.push(
                worktree_entry(
                    item.path,
                    if item.ignored {
                        LsFilesKind::Ignored
                    } else {
                        LsFilesKind::Other
                    },
                ),
            )
        }
    }
}

/// The first `n` working files that a checkout would have to remove.
pub open spec fn killed_of(
    items: Seq<Found>,
    entries: Seq<EntryModel>,
    options: SelectionModel,
    n: int,
) -> Seq<Listed>
    decreases n,
{
    if n <= 0 {
        Seq::empty()
    } else {
        let before = killed_of(items, entries, options, n - 1);
        let item = items[n - 1];
        if has_path(entries, item.path) || !ls_tree::selected(
            item.path,
            options.paths,
        ) || !in_the_way(entries, item.path) {
            before
        } else {
            before.push(worktree_entry(item.path, LsFilesKind::Killed))
        }
    }
}

fn contains_path(entries: &Vec<IndexEntry>, path: &[u8]) -> (r: bool)
    ensures
        r == has_path(index::models(entries@), path@),
{
    let ghost list = index::models(entries@);
    let mut i: usize = 0;
    while i < entries.len()
        invariant
            i <= entries@.len(),
            list == index::models(entries@),
            forall|j: int| 0 <= j < i ==> (#[trigger] list[j]).path != path@,
        decreases entries@.len() - i,
    {
        assert(list[i as int] == entries@[i as int]@);
        if bytes::bytes_eq(entries[i].path(), path) {
            return true;
        }
        i += 1;
    }
    false
}

fn is_killed(entries: &Vec<IndexEntry>, path: &[u8]) -> (r: bool)
    ensures
        r == in_the_way(index::models(entries@), path@),
{
    let ghost list = index::models(entries@);
    let mut i: usize = 0;
    while i < entries.len()
        invariant
            i <= entries@.len(),
            list == index::models(entries@),
            forall|j: int| 0 <= j < i ==> !#[trigger] collides(list[j], path@),
        decreases entries@.len() - i,
    {
        let entry = &entries[i];
        assert(list[i as int] == entry@);
        if entry.stage() == 0 && (path_below(path, entry.path()) || path_below(
            entry.path(),
            path,
        )) {
            assert(collides(list[i as int], path@));
            return true;
        }
        i += 1;
    }
    false
}

fn push_others(
    items: &Vec<WorktreeItem>,
    entries: &Vec<IndexEntry>,
    options: &LsFilesOptions,
    output: &mut Vec<LsFilesEntry>,
)
    ensures
        models(final(output)@) == models(old(output)@) + others_of(
            found(items@),
            index::models(entries@),
            options@,
            items@.len() as int,
        ),
{
    let ghost all = found(items@);
    let ghost list = index::models(entries@);
    let ghost start = models(output@);
    let mut n: usize = 0;
    assert(models(output@) =~= start + others_of(all, list, options@, 0));
    while n < items.len()
        invariant
            n <= items@.len(),
            all == found(items@),
            list == index::models(entries@),
            models(output@) == start + others_of(all, list, options@, n as int),
        decreases items@.len() - n,
    {
        let item = &items[n];
        assert(all[n as int] == item@);
        let ghost before = models(output@);
        if !contains_path(entries, item.path.as_slice()) && path_selected(
            item.path.as_slice(),
            options.paths.as_slice(),
        ) && item.ignored == options.ignored {
            let kind = if item.ignored {
                LsFilesKind::Ignored
            } else {
                LsFilesKind::Other
            };
            output.push(worktree_result(item.path.as_slice(), kind));
            assert(models(output@) =~= before.push(worktree_entry(item@.path, kind)));
        }
        assert(models(output@) =~= start + others_of(all, list, options@, n + 1));
        n += 1;
    }
}

fn push_killed(
    items: &Vec<WorktreeItem>,
    entries: &Vec<IndexEntry>,
    options: &LsFilesOptions,
    output: &mut Vec<LsFilesEntry>,
)
    ensures
        models(final(output)@) == models(old(output)@) + killed_of(
            found(items@),
            index::models(entries@),
            options@,
            items@.len() as int,
        ),
{
    let ghost all = found(items@);
    let ghost list = index::models(entries@);
    let ghost start = models(output@);
    let mut n: usize = 0;
    assert(models(output@) =~= start + killed_of(all, list, options@, 0));
    while n < items.len()
        invariant
            n <= items@.len(),
            all == found(items@),
            list == index::models(entries@),
            models(output@) == start + killed_of(all, list, options@, n as int),
        decreases items@.len() - n,
    {
        let item = &items[n];
        assert(all[n as int] == item@);
        let ghost before = models(output@);
        if !contains_path(entries, item.path.as_slice()) && path_selected(
            item.path.as_slice(),
            options.paths.as_slice(),
        ) && is_killed(entries, item.path.as_slice()) {
            output.push(worktree_result(item.path.as_slice(), LsFilesKind::Killed));
            assert(models(output@) =~= before.push(
                worktree_entry(item@.path, LsFilesKind::Killed),
            ));
        }
        assert(models(output@) =~= start + killed_of(all, list, options@, n + 1));
        n += 1;
    }
}

// ---------------------------------------------------------------------------
// Entries of the index

/// Rules with those of the directories on the way to a path.
pub open spec fn rules_on_the_way(
    files: memory::Tree,
    root: Seq<u8>,
    rules: Seq<RuleModel>,
    path: Seq<u8>,
    from: int,
) -> core::result::Result<Seq<RuleModel>, Refusal>
    decreases path.len() - from,
{
    let at = bytes::index_from(path, 47, from);
    if from < 0 || from > path.len() || at >= path.len() {
        Ok(rules)
    } else {
        proof {
            bytes::lemma_index_from(path, 47, from);
        }
        match ignore::directory_rules(files, root, rules, path.take(at)) {
            Err(refusal) => Err(refusal),
            Ok(more) => rules_on_the_way(files, root, more, path, at + 1),
        }
    }
}

fn add_parent_ignore_patterns(
    repository: &Repository,
    matcher: &mut IgnoreMatcher,
    root: &[u8],
    path: &[u8],
) -> (r: Result<()>)
    ensures
        match rules_on_the_way(repository.tree(), root@, old(matcher)@, path@, 0) {
            Ok(rules) => r is Ok && final(matcher)@ == rules,
            Err(refusal) => fs::declined(r, refusal),
        },
{
    let mut from: usize = 0;
    while from <= path.len()
        invariant
            from <= path@.len(),
            rules_on_the_way(repository.tree(), root@, old(matcher)@, path@, 0)
                == rules_on_the_way(repository.tree(), root@, matcher@, path@, from as int),
        decreases path@.len() + 1 - from,
    {
        let at: usize = bytes::find_byte(path, 47, from);
        if at >= path.len() {
            return Ok(());
        }
        let base = &path[0..at];
        assert(base@ =~= path@.take(at as int));
        matcher.add_worktree_patterns(repository, root, base)?;
        from = at + 1;
    }
    Ok(())
}

/// Whether what stands at a path differs from an entry of the index: in what
/// it is, in its executable bit, or in its contents.
pub open spec fn differs(entry: EntryModel, node: memory::Node) -> bool {
    match node {
        memory::Node::File { data, executable, .. } => !((entry.mode == 0o100_644 || entry.mode
            == 0o100_755) && executable == (entry.mode == 0o100_755) && object::object_id(
            ObjectKind::Blob,
            data,
        ) == entry.id),
        memory::Node::Symlink { target, .. } => !(entry.mode == 0o120_000 && object::object_id(
            ObjectKind::Blob,
            target,
        ) == entry.id),
        memory::Node::Directory { .. } => !(entry.mode == 0o160_000 || entry.mode == 0o040_000),
    }
}

/// What the working file of an entry adds to the listing.
pub open spec fn change_listed(
    files: memory::Tree,
    root: Seq<u8>,
    entry: EntryModel,
    options: SelectionModel,
) -> core::result::Result<Seq<Listed>, Refusal> {
    let deleted = seq![index_entry(entry, LsFilesKind::Deleted)];
    let modified = seq![index_entry(entry, LsFilesKind::Modified)];
    match node_at(files, repository::joined(root, entry.path)) {
        Err(refusal) => if ignore::is_absent(refusal) {
            Ok(
                (if options.deleted {
                    deleted
                } else {
                    Seq::empty()
                }) + (if options.modified {
                    modified
                } else {
                    Seq::empty()
                }),
            )
        } else {
            Err(refusal)
        },
        Ok(node) => if differs(entry, node) && options.modified {
            Ok(modified)
        } else {
            Ok(Seq::empty())
        },
    }
}

/// What an entry that is not left out adds to the listing.
pub open spec fn entry_listed(
    files: memory::Tree,
    root: Seq<u8>,
    entry: EntryModel,
    options: SelectionModel,
    shown: bool,
) -> core::result::Result<Seq<Listed>, Refusal> {
    let first = if shown && (!options.unmerged || entry.stage != 0) {
        seq![
            index_entry(
                entry,
                if entry.stage == 0 {
                    LsFilesKind::Cached
                } else {
                    LsFilesKind::Unmerged
                },
            ),
        ]
    } else {
        Seq::empty()
    };
    if !(options.deleted || options.modified) || entry.skip_worktree {
        Ok(first)
    } else {
        match change_listed(files, root, entry, options) {
            Err(refusal) => Err(refusal),
            Ok(more) => Ok(first + more),
        }
    }
}

/// The first `n` entries of the index as they are listed, and the rules that
/// were met on the way.
pub open spec fn index_listed(
    files: memory::Tree,
    root: Seq<u8>,
    entries: Seq<EntryModel>,
    options: SelectionModel,
    shown: bool,
    rules: Seq<RuleModel>,
    n: int,
) -> core::result::Result<(Seq<Listed>, Seq<RuleModel>), Refusal>
    decreases n,
{
    if n <= 0 {
        Ok((Seq::empty(), rules))
    } else {
        match index_listed(files, root, entries, options, shown, rules, n - 1) {
            Err(refusal) => Err(refusal),
            Ok((out, met)) => {
                let entry = entries[n - 1];
                if !ls_tree::selected(entry.path, options.paths) {
                    Ok((out, met))
                } else {
                    let known = if options.ignored {
                        rules_on_the_way(files, root, met, entry.path, 0)
                    } else {
                        Ok(met)
                    };
                    match known {
                        Err(refusal) => Err(refusal),
                        Ok(known) => if options.ignored && !ignore::ignored_by(
                            known,
                            known.len() as int,
                            entry.path,
                            entry.mode == 0o040_000,
                        ) {
                            Ok((out, known))
                        } else {
                            match entry_listed(files, root, entry, options, shown) {
                                Err(refusal) => Err(refusal),
                                Ok(more) => Ok((out + more, known)),
                            }
                        },
                    }
                }
            },
        }
    }
}

proof fn lemma_index_listed_persists(
    files: memory::Tree,
    root: Seq<u8>,
    entries: Seq<EntryModel>,
    options: SelectionModel,
    shown: bool,
    rules: Seq<RuleModel>,
    n: int,
    m: int,
)
    requires
        0 <= n <= m,
    ensures
        index_listed(files, root, entries, options, shown, rules, n) is Err ==> index_listed(
            files,
            root,
            entries,
            options,
            shown,
            rules,
            m,
        ) == index_listed(files, root, entries, options, shown, rules, n),
    decreases m,
{
    if n < m {
        lemma_index_listed_persists(files, root, entries, options, shown, rules, n, m - 1);
    }
}

impl Repository {
    /// Whether a working file differs from an entry of the index.
    fn worktree_change(&self, entry: &IndexEntry, full: &[u8]) -> (r: Result<bool>)
        requires
            node_at(self.tree(), full@) is Ok,
        ensures
            r == Ok::<bool, Error>(differs(entry@, node_at(self.tree(), full@)->Ok_0)),
    {
        let metadata = self.filesystem().metadata(full)?;
        let mode: u32 = entry.mode();
        if metadata.is_dir() {
            return Ok(!(mode == 0o160_000 || mode == 0o040_000));
        }
        if metadata.is_symlink() {
            let target = self.filesystem().read_link(full)?;
            let id = ObjectId::compute(ObjectKind::Blob, target.as_slice());
            let entry_id = entry.id();
            return Ok(!(mode == 0o120_000 && id.same(&entry_id)));
        }
        let data = self.filesystem().read(full)?;
        let id = ObjectId::compute(ObjectKind::Blob, data.as_slice());
        let entry_id = entry.id();
        let regular: bool = mode == 0o100_644 || mode == 0o100_755;
        Ok(!(regular && metadata.is_executable() == (mode == 0o100_755) && id.same(&entry_id)))
    }

    fn push_change(
        &self,
        root: &[u8],
        entry: &IndexEntry,
        options: &LsFilesOptions,
        output: &mut Vec<LsFilesEntry>,
    ) -> (r: Result<()>)
        ensures
            match change_listed(self.tree(), root@, entry@, options@) {
                Ok(more) => r is Ok && models(final(output)@) == models(old(output)@) + more,
                Err(refusal) => fs::declined(r, refusal),
            },
    {
        let ghost start = models(output@);
        let full = repository::join_path(root, entry.path());
        match self.filesystem().metadata(full.as_slice()) {
            Err(Error::NotFound(_)) => {
                if options.deleted {
                    output.push(index_result(entry, LsFilesKind::Deleted));
                    assert(models(output@) =~= start + seq![
                        index_entry(entry@, LsFilesKind::Deleted),
                    ]);
                } else {
                    assert(models(output@) =~= start + Seq::empty());
                }
                let ghost middle = models(output@);
                if options.modified {
                    output.push(index_result(entry, LsFilesKind::Modified));
                    assert(models(output@) =~= middle + seq![
                        index_entry(entry@, LsFilesKind::Modified),
                    ]);
                } else {
                    assert(models(output@) =~= middle + Seq::empty());
                }
                assert(models(output@) =~= start + change_listed(
                    self.tree(),
                    root@,
                    entry@,
                    options@,
                )->Ok_0);
                Ok(())
            },
            Err(error) => Err(error),
            Ok(_) => {
                if self.worktree_change(entry, full.as_slice())? && options.modified {
                    output.push(index_result(entry, LsFilesKind::Modified));
                    assert(models(output@) =~= start + seq![
                        index_entry(entry@, LsFilesKind::Modified),
                    ]);
                } else {
                    assert(models(output@) =~= start + Seq::empty());
                }
                Ok(())
            },
        }
    }

    fn push_entry(
        &self,
        root: &[u8],
        entry: &IndexEntry,
        options: &LsFilesOptions,
        shown: bool,
        output: &mut Vec<LsFilesEntry>,
    ) -> (r: Result<()>)
        ensures
            match entry_listed(self.tree(), root@, entry@, options@, shown) {
                Ok(more) => r is Ok && models(final(output)@) == models(old(output)@) + more,
                Err(refusal) => fs::declined(r, refusal),
            },
    {
        let ghost start = models(output@);
        let stage: u8 = entry.stage();
        if shown && (!options.unmerged || stage != 0) {
            let kind = if stage == 0 {
                LsFilesKind::Cached
            } else {
                LsFilesKind::Unmerged
            };
            output.push(index_result(entry, kind));
            assert(models(output@) =~= start + seq![index_entry(entry@, kind)]);
        } else {
            assert(models(output@) =~= start + Seq::empty());
        }
        if !(options.deleted || options.modified) || entry.skip_worktree() {
            return Ok(());
        }
        let ghost middle = models(output@);
        self.push_change(root, entry, options, output)?;
        assert(models(output@) =~= start + entry_listed(
            self.tree(),
            root@,
            entry@,
            options@,
            shown,
        )->Ok_0);
        Ok(())
    }

    fn push_index(
        &self,
        root: &[u8],
        entries: &Vec<IndexEntry>,
        options: &LsFilesOptions,
        shown: bool,
        matcher: &mut IgnoreMatcher,
        output: &mut Vec<LsFilesEntry>,
    ) -> (r: Result<()>)
        ensures
            match index_listed(
                self.tree(),
                root@,
                index::models(entries@),
                options@,
                shown,
                old(matcher)@,
                entries@.len() as int,
            ) {
                Ok((out, _)) => r is Ok && models(final(output)@) == models(old(output)@) + out,
                Err(refusal) => fs::declined(r, refusal),
            },
    {
        let ghost all = index::models(entries@);
        let ghost start = models(output@);
        let ghost rules = matcher@;
        let mut n: usize = 0;
        assert(start + Seq::empty() =~= start);
        let ghost mut out: Seq<Listed> = Seq::empty();
        while n < entries.len()
            invariant
                n <= entries@.len(),
                all == index::models(entries@),
                rules == old(matcher)@,
                start == models(old(output)@),
                index_listed(
                    self.tree(),
                    root@,
                    all,
                    options@,
                    shown,
                    rules,
                    n as int,
                ) == Ok::<(Seq<Listed>, Seq<RuleModel>), Refusal>((out, matcher@)),
                models(output@) == start + out,
            decreases entries@.len() - n,
        {
            proof {
                lemma_index_listed_persists(
                    self.tree(),
                    root@,
                    all,
                    options@,
                    shown,
                    rules,
                    n + 1,
                    all.len() as int,
                );
            }
            let entry = &entries[n];
            assert(all[n as int] == entry@);
            n += 1;
            if !path_selected(entry.path(), options.paths.as_slice()) {
                continue;
            }
            if options.ignored {
                add_parent_ignore_patterns(self, matcher, root, entry.path())?;
                if !matcher.is_ignored(entry.path(), entry.mode() == 0o040_000) {
                    continue;
                }
            }
            self.push_entry(root, entry, options, shown, output)?;
            proof {
                let more = entry_listed(self.tree(), root@, entry@, options@, shown)->Ok_0;
                assert(start + out + more =~= start + (out + more));
                out = out + more;
            }
        }
        Ok(())
    }
}

// ---------------------------------------------------------------------------
// The listing

/// The first spec that cannot be asked for, among the first `n`.
pub open spec fn first_bad_spec(paths: Seq<Seq<u8>>, n: int) -> Option<Seq<u8>>
    decreases n,
{
    if n <= 0 {
        None
    } else {
        match first_bad_spec(paths, n - 1) {
            Some(path) => Some(path),
            None => {
                let path = paths[n - 1];
                if path.len() == 0 || path[0] == 47 || path.contains(0) {
                    Some(path)
                } else {
                    None
                }
            },
        }
    }
}

proof fn lemma_first_bad_spec(paths: Seq<Seq<u8>>, n: int, m: int)
    requires
        0 <= n <= m,
    ensures
        first_bad_spec(paths, n) is Some ==> first_bad_spec(paths, m) == first_bad_spec(paths, n),
    decreases m,
{
    if n < m {
        lemma_first_bad_spec(paths, n, m - 1);
    }
}

fn validate_specs(specs: &Vec<Vec<u8>>) -> (r: Result<()>)
    ensures
        match first_bad_spec(bytes::deep(specs@), specs@.len() as int) {
            Some(path) => fs::refused(r, Fault::InvalidPath, path),
            None => r is Ok,
        },
{
    let ghost all = bytes::deep(specs@);
    let mut n: usize = 0;
    while n < specs.len()
        invariant
            n <= specs@.len(),
            all == bytes::deep(specs@),
            first_bad_spec(all, n as int) is None,
        decreases specs@.len() - n,
    {
        let path = specs[n].as_slice();
        assert(all[n as int] == path@);
        proof {
            lemma_first_bad_spec(all, n + 1, all.len() as int);
        }
        if path.len() == 0 || path[0] == 47 || bytes::contains_byte(path, 0) {
            return Err(Error::InvalidPath(bytes::to_vec(path)));
        }
        n += 1;
    }
    Ok(())
}

pub open spec fn listed_path(list: Seq<Listed>, path: Seq<u8>) -> bool {
    exists|i: int| 0 <= i < list.len() && (#[trigger] list[i]).path == path
}

/// The first `n` listed entries, each path once.
pub open spec fn deduplicated(list: Seq<Listed>, n: int) -> Seq<Listed>
    decreases n,
{
    if n <= 0 {
        Seq::empty()
    } else {
        let before = deduplicated(list, n - 1);
        if listed_path(before, list[n - 1].path) {
            before
        } else {
            before.push(list[n - 1])
        }
    }
}

fn holds_path(list: &Vec<LsFilesEntry>, path: &[u8]) -> (r: bool)
    ensures
        r == listed_path(models(list@), path@),
{
    let ghost all = models(list@);
    let mut i: usize = 0;
    while i < list.len()
        invariant
            i <= list@.len(),
            all == models(list@),
            forall|j: int| 0 <= j < i ==> (#[trigger] all[j]).path != path@,
        decreases list@.len() - i,
    {
        assert(all[i as int] == list@[i as int]@);
        if bytes::bytes_eq(list[i].path(), path) {
            return true;
        }
        i += 1;
    }
    false
}

fn copy_entry(entry: &LsFilesEntry) -> (r: LsFilesEntry)
    ensures
        r@ == entry@,
{
    LsFilesEntry {
        path: bytes::to_vec(entry.path.as_slice()),
        kind: entry.kind,
        mode: entry.mode,
        id: entry.id,
        stage: entry.stage,
        assume_valid: entry.assume_valid,
        intent_to_add: entry.intent_to_add,
        skip_worktree: entry.skip_worktree,
    }
}

fn deduplicate(list: Vec<LsFilesEntry>) -> (r: Vec<LsFilesEntry>)
    ensures
        models(r@) == deduplicated(models(list@), list@.len() as int),
{
    let ghost all = models(list@);
    let mut out: Vec<LsFilesEntry> = Vec::new();
    let mut n: usize = 0;
    assert(models(out@) =~= Seq::empty());
    while n < list.len()
        invariant
            n <= list@.len(),
            all == models(list@),
            models(out@) == deduplicated(all, n as int),
        decreases list@.len() - n,
    {
        assert(all[n as int] == list@[n as int]@);
        let ghost before = models(out@);
        if !holds_path(&out, list[n].path()) {
            out.push(copy_entry(&list[n]));
            assert(models(out@) =~= before.push(all[n as int]));
        }
        n += 1;
    }
    out
}

pub open spec fn met_by(list: Seq<Listed>, spec_path: Seq<u8>) -> bool {
    exists|i: int| 0 <= i < list.len() && ls_tree::wanted((#[trigger] list[i]).path, spec_path)
}

/// The first spec that no listed entry meets, among the first `n`.
pub open spec fn first_unmet(list: Seq<Listed>, paths: Seq<Seq<u8>>, n: int) -> Option<Seq<u8>>
    decreases n,
{
    if n <= 0 {
        None
    } else {
        match first_unmet(list, paths, n - 1) {
            Some(path) => Some(path),
            None => if met_by(list, paths[n - 1]) {
                None
            } else {
                Some(paths[n - 1])
            },
        }
    }
}

proof fn lemma_first_unmet(list: Seq<Listed>, paths: Seq<Seq<u8>>, n: int, m: int)
    requires
        0 <= n <= m,
    ensures
        first_unmet(list, paths, n) is Some ==> first_unmet(list, paths, m) == first_unmet(
            list,
            paths,
            n,
        ),
    decreases m,
{
    if n < m {
        lemma_first_unmet(list, paths, n, m - 1);
    }
}

fn is_met(list: &Vec<LsFilesEntry>, spec_path: &[u8]) -> (r: bool)
    ensures
        r == met_by(models(list@), spec_path@),
{
    let ghost all = models(list@);
    let mut i: usize = 0;
    while i < list.len()
        invariant
            i <= list@.len(),
            all == models(list@),
            forall|j: int| 0 <= j < i ==> !ls_tree::wanted((#[trigger] all[j]).path, spec_path@),
        decreases list@.len() - i,
    {
        assert(all[i as int] == list@[i as int]@);
        if bytes::bytes_eq(list[i].path(), spec_path) || path_below(list[i].path(), spec_path) {
            assert(ls_tree::wanted(all[i as int].path, spec_path@));
            return true;
        }
        i += 1;
    }
    false
}

fn check_met(list: &Vec<LsFilesEntry>, specs: &Vec<Vec<u8>>) -> (r: Result<()>)
    ensures
        match first_unmet(models(list@), bytes::deep(specs@), specs@.len() as int) {
            Some(path) => fs::refused(r, Fault::NotFound, path),
            None => r is Ok,
        },
{
    let ghost all = bytes::deep(specs@);
    let mut n: usize = 0;
    while n < specs.len()
        invariant
            n <= specs@.len(),
            all == bytes::deep(specs@),
            first_unmet(models(list@), all, n as int) is None,
        decreases specs@.len() - n,
    {
        assert(all[n as int] == specs@[n as int]@);
        proof {
            lemma_first_unmet(models(list@), all, n + 1, all.len() as int);
        }
        if !is_met(list, specs[n].as_slice()) {
            return Err(Error::NotFound(bytes::to_vec(specs[n].as_slice())));
        }
        n += 1;
    }
    Ok(())
}

/// The working files, where they are asked for.
pub open spec fn worktree_found(
    files: memory::Tree,
    git: Seq<u8>,
    root: Seq<u8>,
    options: SelectionModel,
) -> core::result::Result<Seq<Found>, Refusal> {
    if !(options.others || options.killed) {
        Ok(Seq::empty())
    } else {
        let rules = if options.exclude_standard {
            ignore::repository_rules(files, git)
        } else {
            Ok(Seq::empty())
        };
        match rules {
            Err(refusal) => Err(refusal),
            Ok(rules) => match scan_directory(
                files,
                git,
                root,
                Seq::empty(),
                0,
                options,
                Scan { rules, out: Seq::empty() },
            ) {
                Err(refusal) => Err(refusal),
                Ok(scan) => Ok(scan.out),
            },
        }
    }
}

/// The listing before duplicates are dropped, or why there is none.
pub open spec fn all_listed(
    files: memory::Tree,
    git: Seq<u8>,
    root: Seq<u8>,
    entries: Seq<EntryModel>,
    options: SelectionModel,
) -> core::result::Result<Seq<Listed>, Refusal> {
    let shown = options.cached || options.stage || options.unmerged || !(options.deleted
        || options.modified || options.others || options.killed);
    match worktree_found(files, git, root, options) {
        Err(refusal) => Err(refusal),
        Ok(items) => {
            let others = if options.others {
                others_of(items, entries, options, items.len() as int)
            } else {
                Seq::empty()
            };
            let killed = if options.killed {
                killed_of(items, entries, options, items.len() as int)
            } else {
                Seq::empty()
            };
            let rules = if options.ignored {
                ignore::repository_rules(files, git)
            } else {
                Ok(Seq::empty())
            };
            match rules {
                Err(refusal) => Err(refusal),
                Ok(rules) => match index_listed(
                    files,
                    root,
                    entries,
                    options,
                    shown,
                    rules,
                    entries.len() as int,
                ) {
                    Err(refusal) => Err(refusal),
                    Ok((out, _)) => Ok(others + killed + out),
                },
            }
        },
    }
}

/// The listing, or why there is none.
pub open spec fn listing(list: Seq<Listed>, options: SelectionModel) -> core::result::Result<
    Seq<Listed>,
    Refusal,
> {
    let out = if options.deduplicate {
        deduplicated(list, list.len() as int)
    } else {
        list
    };
    let paths = options.paths;
    if options.error_unmatch && first_unmet(out, paths, paths.len() as int) is Some {
        Err(Refusal::At(Fault::NotFound, first_unmet(out, paths, paths.len() as int)->0))
    } else {
        Ok(out)
    }
}

/// The entries of the index of a repository.
pub open spec fn index_entries(files: memory::Tree, git: Seq<u8>) -> core::result::Result<
    Seq<EntryModel>,
    Refusal,
> {
    let p = repository::joined(git, bytes::utf8("index"@));
    match memory::contents(files, p) {
        Ok(data) => match index::index_from(data) {
            Ok(model) => Ok(model.entries),
            Err(error) => Err(Refusal::Said(error)),
        },
        Err(Fault::NotFound) => Ok(Seq::empty()),
        Err(fault) => Err(Refusal::At(fault, p)),
    }
}

/// What is listed for a repository, or why nothing is.
#[verifier::opaque]
pub open spec fn files_listed(
    files: memory::Tree,
    git: Seq<u8>,
    work: Option<Seq<u8>>,
    options: SelectionModel,
) -> core::result::Result<Seq<Listed>, Refusal> {
    let paths = options.paths;
    let needs_worktree = options.deleted || options.modified || options.others || options.killed
        || options.ignored;
    match first_bad_spec(paths, paths.len() as int) {
        Some(path) => Err(Refusal::At(Fault::InvalidPath, path)),
        None => if options.ignored && (!options.exclude_standard || (!options.others
            && !options.cached)) {
            Err(
                Refusal::Said(
                    Error::InvalidRepository(
                        "ignored ls-files mode requires cached or others and an exclusion source",
                    ),
                ),
            )
        } else {
            match index_entries(files, git) {
                Err(refusal) => Err(refusal),
                Ok(all) => match expanded(files, git, all, options, all.len() as int) {
                    Err(refusal) => Err(refusal),
                    Ok(entries) => if needs_worktree && work is None {
                        Err(
                            Refusal::Said(
                                Error::InvalidRepository("ls-files mode requires a worktree"),
                            ),
                        )
                    } else {
                        let root = match work {
                            Some(root) => root,
                            None => Seq::empty(),
                        };
                        match all_listed(files, git, root, entries, options) {
                            Err(refusal) => Err(refusal),
                            Ok(list) => listing(list, options),
                        }
                    },
                },
            }
        },
    }
}

impl Repository {
    fn collect_listed(&self, root: &[u8], entries: &Vec<IndexEntry>, options: &LsFilesOptions) -> (r:
        Result<Vec<LsFilesEntry>>)
        ensures
            match all_listed(
                self.tree(),
                self.git(),
                root@,
                index::models(entries@),
                options@,
            ) {
                Ok(list) => r is Ok && models(r->Ok_0@) == list,
                Err(refusal) => fs::declined(r, refusal),
            },
    {
        let shown: bool = options.cached || options.stage || options.unmerged || !(options.deleted
            || options.modified || options.others || options.killed);
        let mut items: Vec<WorktreeItem> = Vec::new();
        assert(found(items@) =~= Seq::empty());
        if options.others || options.killed {
            let mut matcher = if options.exclude_standard {
                self.ignore_matcher()?
            } else {
                IgnoreMatcher::default()
            };
            let top: Vec<u8> = Vec::new();
            assert(top@ =~= Seq::empty());
            self.collect_ls_files_worktree(
                root,
                top.as_slice(),
                0,
                options,
                &mut matcher,
                &mut items,
            )?;
        }
        let mut output: Vec<LsFilesEntry> = Vec::new();
        assert(models(output@) =~= Seq::empty());
        if options.others {
            push_others(&items, entries, options, &mut output);
        }
        let ghost others = models(output@);
        if options.killed {
            push_killed(&items, entries, options, &mut output);
        }
        let ghost killed = models(output@);
        let mut matcher = if options.ignored {
            self.ignore_matcher()?
        } else {
            IgnoreMatcher::default()
        };
        self.push_index(root, entries, options, shown, &mut matcher, &mut output)?;
        proof {
            let all = found(items@);
            let list = index::models(entries@);
            let a = if options.others {
                others_of(all, list, options@, all.len() as int)
            } else {
                Seq::empty()
            };
            let b = if options.killed {
                killed_of(all, list, options@, all.len() as int)
            } else {
                Seq::empty()
            };
            assert(others =~= a);
            assert(killed =~= a + b);
        }
        Ok(output)
    }

    /// List selected index and worktree classifications in Git's output order.
    ///
    /// With no selection flags, cached entries are returned. `unmerged` implies
    /// stage output and filters to stages 1–3. Other/killed worktree entries
    /// precede index classifications; index duplicates are retained unless
    /// `deduplicate` is requested.
    pub fn ls_files(&self, options: &LsFilesOptions) -> (r: Result<Vec<LsFilesEntry>>)
        ensures
            match files_listed(self.tree(), self.git(), self.work(), options@) {
                Ok(list) => r is Ok && models(r->Ok_0@) == list,
                Err(refusal) => fs::declined(r, refusal),
            },
    {
        reveal(files_listed);
        validate_specs(&options.paths)?;
        if options.ignored && (!options.exclude_standard || (!options.others && !options.cached)) {
            return Err(
                Error::InvalidRepository(
                    "ignored ls-files mode requires cached or others and an exclusion source",
                ),
            );
        }
        let index = self.read_index()?;
        assert(index@.entries == index_entries(self.tree(), self.git())->Ok_0);
        let entries = self.expanded_ls_files_entries(index.entries(), options)?;
        let needs_worktree: bool = options.deleted || options.modified || options.others
            || options.killed || options.ignored;
        let top: Vec<u8> = Vec::new();
        assert(top@ =~= Seq::empty());
        let root: &[u8] = match self.work_tree() {
            Some(root) => root,
            None => {
                if needs_worktree {
                    return Err(Error::InvalidRepository("ls-files mode requires a worktree"));
                }
                top.as_slice()
            },
        };
        let listed = self.collect_listed(root, &entries, options)?;
        let output = if options.deduplicate {
            deduplicate(listed)
        } else {
            listed
        };
        if options.error_unmatch {
            check_met(&output, &options.paths)?;
        }
        Ok(output)
    }
}

/// Once entries are deduplicated no path stands twice, and none is lost.
pub proof fn lemma_deduplicated(list: Seq<Listed>, n: int)
    requires
        0 <= n <= list.len(),
    ensures
        forall|i: int, j: int|
            0 <= i < j < deduplicated(list, n).len() ==> (#[trigger] deduplicated(list, n)[i]).path
                != (#[trigger] deduplicated(list, n)[j]).path,
        forall|k: int| 0 <= k < n ==> listed_path(deduplicated(list, n), (#[trigger] list[k]).path),
    decreases n,
{
    if n > 0 {
        lemma_deduplicated(list, n - 1);
        let before = deduplicated(list, n - 1);
        let after = deduplicated(list, n);
        assert forall|k: int| 0 <= k < n implies listed_path(after, (#[trigger] list[k]).path) by {
            if k < n - 1 {
                assert(listed_path(before, list[k].path));
                let i = choose|i: int| 0 <= i < before.len() && (#[trigger] before[i]).path == list[k].path;
                assert(after[i] == before[i]);
            } else if !listed_path(before, list[k].path) {
                assert(after[before.len() as int] == list[k]);
            }
        }
        assert forall|i: int, j: int| 0 <= i < j < after.len() implies (#[trigger] after[i]).path != (
        #[trigger] after[j]).path by {
            if j == before.len() {
                assert(after[i] == before[i]);
            } else {
                assert(before[i] == after[i] && before[j] == after[j]);
            }
        }
    }
}

// ---------------------------------------------------------------------------
// Listings with and without duplicates

/// Whether two selections differ at most in what they do with duplicates and
/// with paths that nothing meets.
pub open spec fn alike(a: SelectionModel, b: SelectionModel) -> bool {
    b == SelectionModel { deduplicate: b.deduplicate, error_unmatch: b.error_unmatch, ..a }
}

proof fn lemma_expand_tree_alike(
    files: memory::Tree,
    git: Seq<u8>,
    path: Seq<u8>,
    id: Seq<u8>,
    depth: int,
    a: SelectionModel,
    b: SelectionModel,
    out: Seq<EntryModel>,
)
    requires
        alike(a, b),
    ensures
        expand_tree(files, git, path, id, depth, a, out) == expand_tree(
            files,
            git,
            path,
            id,
            depth,
            b,
            out,
        ),
    decreases a.max_depth + 1 - depth, 1int, 0int,
{
    if depth <= a.max_depth {
        let list = tree::stored_tree(files, git, id, a.max_object_size as nat);
        if list is Ok {
            lemma_expand_items_alike(files, git, path, list->Ok_0, 0, depth, a, b, out);
        }
    }
}

proof fn lemma_expand_items_alike(
    files: memory::Tree,
    git: Seq<u8>,
    path: Seq<u8>,
    list: Seq<TreeItem>,
    i: int,
    depth: int,
    a: SelectionModel,
    b: SelectionModel,
    out: Seq<EntryModel>,
)
    requires
        alike(a, b),
    ensures
        expand_items(files, git, path, list, i, depth, a, out) == expand_items(
            files,
            git,
            path,
            list,
            i,
            depth,
            b,
            out,
        ),
    decreases a.max_depth + 1 - depth, 0int, list.len() - i,
{
    if !(i < 0 || i >= list.len() || depth > a.max_depth) {
        let item = list[i];
        let below = path.push(47) + item.name;
        let staged = index::staged(
            below,
            tree::mode_value(item.mode),
            item.id,
            index::no_stat(),
            0,
        );
        if staged is Ok {
            let skipped = EntryModel { skip_worktree: true, ..staged->Ok_0 };
            let added = if item.mode is Tree {
                expand_tree(files, git, below, item.id, depth + 1, a, out)
            } else {
                Ok(out.push(skipped))
            };
            if item.mode is Tree {
                lemma_expand_tree_alike(files, git, below, item.id, depth + 1, a, b, out);
            }
            if added is Ok {
                lemma_expand_items_alike(
                    files,
                    git,
                    path,
                    list,
                    i + 1,
                    depth,
                    a,
                    b,
                    added->Ok_0,
                );
            }
        }
    }
}

proof fn lemma_expanded_alike(
    files: memory::Tree,
    git: Seq<u8>,
    entries: Seq<EntryModel>,
    a: SelectionModel,
    b: SelectionModel,
    n: int,
)
    requires
        alike(a, b),
    ensures
        expanded(files, git, entries, a, n) == expanded(files, git, entries, b, n),
    decreases n,
{
    if n > 0 {
        lemma_expanded_alike(files, git, entries, a, b, n - 1);
        let before = expanded(files, git, entries, a, n - 1);
        if before is Ok {
            let entry = entries[n - 1];
            lemma_expand_tree_alike(files, git, entry.path, entry.id, 0, a, b, before->Ok_0);
        }
    }
}

proof fn lemma_scan_directory_alike(
    files: memory::Tree,
    git: Seq<u8>,
    root: Seq<u8>,
    relative: Seq<u8>,
    depth: int,
    a: SelectionModel,
    b: SelectionModel,
    scan: Scan,
)
    requires
        alike(a, b),
    ensures
        scan_directory(files, git, root, relative, depth, a, scan) == scan_directory(
            files,
            git,
            root,
            relative,
            depth,
            b,
            scan,
        ),
    decreases a.max_depth + 1 - depth, 1int, 0int,
{
    let rules = if a.exclude_standard {
        ignore::directory_rules(files, root, scan.rules, relative)
    } else {
        Ok(scan.rules)
    };
    if depth <= a.max_depth && rules is Ok {
        let names = listed_at(files, ignore::inside(root, relative));
        if names is Ok {
            lemma_scan_children_alike(
                files,
                git,
                root,
                relative,
                names->Ok_0,
                0,
                depth,
                a,
                b,
                Scan { rules: rules->Ok_0, out: scan.out },
            );
        }
    }
}

proof fn lemma_scan_children_alike(
    files: memory::Tree,
    git: Seq<u8>,
    root: Seq<u8>,
    relative: Seq<u8>,
    names: Seq<Seq<u8>>,
    i: int,
    depth: int,
    a: SelectionModel,
    b: SelectionModel,
    scan: Scan,
)
    requires
        alike(a, b),
    ensures
        scan_children(files, git, root, relative, names, i, depth, a, scan) == scan_children(
            files,
            git,
            root,
            relative,
            names,
            i,
            depth,
            b,
            scan,
        ),
    decreases a.max_depth + 1 - depth, 0int, names.len() - i,
{
    if !(i < 0 || i >= names.len() || depth > a.max_depth) {
        let child = ls_tree::extended(relative, names[i]);
        let full = repository::joined(root, child);
        if child == bytes::utf8(".git"@) || full == git {
            lemma_scan_children_alike(
                files,
                git,
                root,
                relative,
                names,
                i + 1,
                depth,
                a,
                b,
                scan,
            );
        } else {
            match node_at(files, full) {
                Err(_) => {},
                Ok(memory::Node::Directory { .. }) => {
                    lemma_scan_directory_alike(files, git, root, child, depth + 1, a, b, scan);
                    let next = scan_directory(files, git, root, child, depth + 1, a, scan);
                    if next is Ok {
                        lemma_scan_children_alike(
                            files,
                            git,
                            root,
                            relative,
                            names,
                            i + 1,
                            depth,
                            a,
                            b,
                            next->Ok_0,
                        );
                    }
                },
                Ok(_) => {
                    lemma_scan_children_alike(
                        files,
                        git,
                        root,
                        relative,
                        names,
                        i + 1,
                        depth,
                        a,
                        b,
                        Scan {
                            rules: scan.rules,
                            out: scan.out.push(
                                Found {
                                    path: child,
                                    ignored: ignore::ignored_by(
                                        scan.rules,
                                        scan.rules.len() as int,
                                        child,
                                        false,
                                    ),
                                },
                            ),
                        },
                    );
                },
            }
        }
    }
}

proof fn lemma_found_alike(
    items: Seq<Found>,
    entries: Seq<EntryModel>,
    a: SelectionModel,
    b: SelectionModel,
    n: int,
)
    requires
        alike(a, b),
    ensures
        others_of(items, entries, a, n) == others_of(items, entries, b, n),
        killed_of(items, entries, a, n) == killed_of(items, entries, b, n),
    decreases n,
{
    if n > 0 {
        lemma_found_alike(items, entries, a, b, n - 1);
    }
}

proof fn lemma_index_listed_alike(
    files: memory::Tree,
    root: Seq<u8>,
    entries: Seq<EntryModel>,
    a: SelectionModel,
    b: SelectionModel,
    shown: bool,
    rules: Seq<RuleModel>,
    n: int,
)
    requires
        alike(a, b),
    ensures
        index_listed(files, root, entries, a, shown, rules, n) == index_listed(
            files,
            root,
            entries,
            b,
            shown,
            rules,
            n,
        ),
    decreases n,
{
    if n > 0 {
        lemma_index_listed_alike(files, root, entries, a, b, shown, rules, n - 1);
        assert(entry_listed(files, root, entries[n - 1], a, shown) == entry_listed(
            files,
            root,
            entries[n - 1],
            b,
            shown,
        ));
    }
}

proof fn lemma_all_listed_alike(
    files: memory::Tree,
    git: Seq<u8>,
    root: Seq<u8>,
    entries: Seq<EntryModel>,
    a: SelectionModel,
    b: SelectionModel,
)
    requires
        alike(a, b),
    ensures
        all_listed(files, git, root, entries, a) == all_listed(files, git, root, entries, b),
{
    let shown = a.cached || a.stage || a.unmerged || !(a.deleted || a.modified || a.others
        || a.killed);
    let known = if a.exclude_standard {
        ignore::repository_rules(files, git)
    } else {
        Ok(Seq::empty())
    };
    if known is Ok {
        lemma_scan_directory_alike(
            files,
            git,
            root,
            Seq::empty(),
            0,
            a,
            b,
            Scan { rules: known->Ok_0, out: Seq::empty() },
        );
    }
    assert(worktree_found(files, git, root, a) == worktree_found(files, git, root, b));
    let items = worktree_found(files, git, root, a);
    if items is Ok {
        lemma_found_alike(items->Ok_0, entries, a, b, (items->Ok_0).len() as int);
        assert forall|rules: Seq<RuleModel>| #[trigger]
            index_listed(files, root, entries, a, shown, rules, entries.len() as int)
                == index_listed(files, root, entries, b, shown, rules, entries.len() as int) by {
            lemma_index_listed_alike(
                files,
                root,
                entries,
                a,
                b,
                shown,
                rules,
                entries.len() as int,
            );
        }
    }
}

/// Which entry of a list is the first with its path.
pub open spec fn is_first(list: Seq<Listed>, k: int) -> bool {
    0 <= k < list.len() && forall|j: int| 0 <= j < k ==> (#[trigger] list[j]).path != list[k].path
}

proof fn lemma_deduplicated_picks(list: Seq<Listed>, n: int) -> (at: Seq<int>)
    requires
        0 <= n <= list.len(),
    ensures
        ({
            let out = deduplicated(list, n);
            &&& at.len() == out.len()
            &&& forall|i: int|
                0 <= i < at.len() ==> 0 <= #[trigger] at[i] < n && is_first(list, at[i]) && out[i]
                    == list[at[i]]
            &&& forall|i: int, j: int| 0 <= i < j < at.len() ==> #[trigger] at[i] < #[trigger] at[j]
        }),
    decreases n,
{
    if n <= 0 {
        Seq::empty()
    } else {
        let before = lemma_deduplicated_picks(list, n - 1);
        lemma_deduplicated(list, n - 1);
        let kept = deduplicated(list, n - 1);
        if listed_path(kept, list[n - 1].path) {
            before
        } else {
            assert forall|j: int| 0 <= j < n - 1 implies (#[trigger] list[j]).path != list[n
                - 1].path by {
                assert(listed_path(kept, list[j].path));
            }
            before.push(n - 1)
        }
    }
}

/// A listing without duplicates is the plain listing with the first entry of
/// each path kept, in the same order: no path stands twice and none is lost.
pub proof fn lemma_deduplicated_listing(
    files: memory::Tree,
    git: Seq<u8>,
    work: Option<Seq<u8>>,
    options: SelectionModel,
) -> (at: Seq<int>)
    requires
        !options.deduplicate,
        !options.error_unmatch,
        files_listed(files, git, work, options) is Ok,
    ensures
        ({
            let plain = files_listed(files, git, work, options)->Ok_0;
            let outcome = files_listed(
                files,
                git,
                work,
                SelectionModel { deduplicate: true, ..options },
            );
            &&& outcome is Ok
            &&& (outcome->Ok_0).len() == at.len()
            &&& forall|i: int|
                0 <= i < at.len() ==> 0 <= #[trigger] at[i] < plain.len() && is_first(plain, at[i])
                    && (outcome->Ok_0)[i] == plain[at[i]]
            &&& forall|i: int, j: int| 0 <= i < j < at.len() ==> #[trigger] at[i] < #[trigger] at[j]
            &&& forall|k: int|
                0 <= k < plain.len() ==> listed_path(outcome->Ok_0, (#[trigger] plain[k]).path)
        }),
{
    reveal(files_listed);
    let other = SelectionModel { deduplicate: true, ..options };
    let plain = files_listed(files, git, work, options)->Ok_0;
    let all = index_entries(files, git)->Ok_0;
    let root = match work {
        Some(root) => root,
        None => Seq::empty(),
    };
    lemma_expanded_alike(files, git, all, options, other, all.len() as int);
    let entries = expanded(files, git, all, options, all.len() as int)->Ok_0;
    lemma_all_listed_alike(files, git, root, entries, options, other);
    lemma_deduplicated(plain, plain.len() as int);
    lemma_deduplicated_picks(plain, plain.len() as int)
}

// ---------------------------------------------------------------------------
// What is listed

/// Whether a listed entry tells of an entry of the index, as a kind.
pub open spec fn tells_of(x: Listed, entry: EntryModel, kind: LsFilesKind) -> bool {
    &&& x.path == entry.path && x.kind == kind
    &&& x.mode == Some(entry.mode) && x.id == Some(entry.id) && x.stage == Some(entry.stage)
    &&& x.assume_valid == entry.assume_valid && x.intent_to_add == entry.intent_to_add
    &&& x.skip_worktree == entry.skip_worktree
}

/// Whether what stands at a path is what an entry of the index says: a file
/// with its contents and its executable bit, a link with its target, or a
/// directory for an entry that stands for one.
pub open spec fn is_as_staged(node: memory::Node, entry: EntryModel) -> bool {
    match node {
        memory::Node::File { data, executable, .. } => object::object_id(ObjectKind::Blob, data)
            == entry.id && entry.mode == if executable {
            0o100_755u32
        } else {
            0o100_644u32
        },
        memory::Node::Symlink { target, .. } => object::object_id(ObjectKind::Blob, target)
            == entry.id && entry.mode == 0o120_000,
        memory::Node::Directory { .. } => entry.mode == 0o160_000 || entry.mode == 0o040_000,
    }
}

/// Whether nothing stands where the working file of an entry would.
pub open spec fn is_gone(files: memory::Tree, root: Seq<u8>, entry: EntryModel) -> bool {
    node_at(files, repository::joined(root, entry.path)) matches Err(refusal) && ignore::is_absent(
        refusal,
    )
}

/// Whether the working file of an entry is gone or is not as it was staged.
pub open spec fn is_changed(files: memory::Tree, root: Seq<u8>, entry: EntryModel) -> bool {
    match node_at(files, repository::joined(root, entry.path)) {
        Ok(node) => !is_as_staged(node, entry),
        Err(refusal) => ignore::is_absent(refusal),
    }
}

/// What an entry of the index is listed as: as staged or as one side of a
/// conflict where entries are shown; as deleted where its file is gone; as
/// modified where its file is gone or is not as it was staged. What is left
/// out of the working tree is neither of these.
#[verifier::spinoff_prover]
#[verifier::rlimit(60)]
pub proof fn lemma_entry_is_listed(
    files: memory::Tree,
    root: Seq<u8>,
    entry: EntryModel,
    options: SelectionModel,
    shown: bool,
    x: Listed,
)
    ensures
        entry_listed(files, root, entry, options, shown) matches Ok(list) ==> (list.contains(x)
            <==> {
            ||| shown && entry.stage == 0 && !options.unmerged && tells_of(
                x,
                entry,
                LsFilesKind::Cached,
            )
            ||| shown && entry.stage != 0 && tells_of(x, entry, LsFilesKind::Unmerged)
            ||| options.deleted && !entry.skip_worktree && is_gone(files, root, entry) && tells_of(
                x,
                entry,
                LsFilesKind::Deleted,
            )
            ||| options.modified && !entry.skip_worktree && is_changed(files, root, entry)
                && tells_of(x, entry, LsFilesKind::Modified)
        }),
{
    if let Ok(list) = entry_listed(files, root, entry, options, shown) {
        let kind = if entry.stage == 0 {
            LsFilesKind::Cached
        } else {
            LsFilesKind::Unmerged
        };
        let first = if shown && (!options.unmerged || entry.stage != 0) {
            seq![index_entry(entry, kind)]
        } else {
            Seq::empty()
        };
        assert forall|k: LsFilesKind| #[trigger] tells_of(x, entry, k) <==> x == index_entry(
            entry,
            k,
        ) by {
            if tells_of(x, entry, k) {
                assert(x =~= index_entry(entry, k));
            }
        }
        let more = list.skip(first.len() as int);
        assert(list =~= first + more);
        assert(first.contains(x) <==> first.len() > 0 && x == index_entry(entry, kind)) by {
            if first.len() > 0 {
                assert(first[0] == index_entry(entry, kind));
            }
        }
        lemma_in_either(first, more, x);
        if !(options.deleted || options.modified) || entry.skip_worktree {
            assert(more =~= Seq::empty());
        } else {
            let changes = change_listed(files, root, entry, options)->Ok_0;
            assert(list == first + changes);
            assert(more =~= changes);
            let deleted = index_entry(entry, LsFilesKind::Deleted);
            let modified = index_entry(entry, LsFilesKind::Modified);
            match node_at(files, repository::joined(root, entry.path)) {
                Err(refusal) => {
                    let a = if options.deleted {
                        seq![deleted]
                    } else {
                        Seq::empty()
                    };
                    let b = if options.modified {
                        seq![modified]
                    } else {
                        Seq::empty()
                    };
                    assert(changes == a + b);
                    lemma_in_either(a, b, x);
                    if options.deleted {
                        assert(a[0] == deleted);
                    }
                    if options.modified {
                        assert(b[0] == modified);
                    }
                },
                Ok(node) => {
                    assert(differs(entry, node) == !is_as_staged(node, entry));
                    if differs(entry, node) && options.modified {
                        assert(changes[0] == modified);
                    }
                },
            }
        }
    }
}

proof fn lemma_in_either(a: Seq<Listed>, b: Seq<Listed>, x: Listed)
    ensures
        (a + b).contains(x) <==> a.contains(x) || b.contains(x),
{
    let both = a + b;
    if a.contains(x) {
        let k = a.index_of(x);
        assert(both[k] == x);
    }
    if b.contains(x) {
        let k = b.index_of(x);
        assert(both[a.len() + k] == x);
    }
    if both.contains(x) {
        let k = both.index_of(x);
        if k < a.len() {
            assert(a[k] == x);
        } else {
            assert(b[k - a.len()] == x);
        }
    }
}

/// Whether an entry of the index gives something to be listed.
pub open spec fn gives(
    files: memory::Tree,
    root: Seq<u8>,
    entry: EntryModel,
    options: SelectionModel,
    shown: bool,
    x: Listed,
) -> bool {
    ls_tree::selected(entry.path, options.paths) && (entry_listed(
        files,
        root,
        entry,
        options,
        shown,
    ) matches Ok(list) && list.contains(x))
}

/// What is listed of the index is what its entries at the wanted paths give,
/// of all of them and of nothing else.
#[verifier::spinoff_prover]
#[verifier::rlimit(60)]
pub proof fn lemma_index_is_listed(
    files: memory::Tree,
    root: Seq<u8>,
    entries: Seq<EntryModel>,
    options: SelectionModel,
    shown: bool,
    rules: Seq<RuleModel>,
    n: int,
    x: Listed,
)
    requires
        0 <= n <= entries.len(),
        !options.ignored,
        index_listed(files, root, entries, options, shown, rules, n) is Ok,
    ensures
        (index_listed(files, root, entries, options, shown, rules, n)->Ok_0).0.contains(x)
            <==> exists|i: int|
            0 <= i < n && #[trigger] gives(files, root, entries[i], options, shown, x),
    decreases n,
{
    if n > 0 {
        lemma_index_is_listed(files, root, entries, options, shown, rules, n - 1, x);
        let less = (index_listed(files, root, entries, options, shown, rules, n - 1)->Ok_0).0;
        let out = (index_listed(files, root, entries, options, shown, rules, n)->Ok_0).0;
        let entry = entries[n - 1];
        let last = gives(files, root, entries[n - 1], options, shown, x);
        if ls_tree::selected(entry.path, options.paths) {
            let more = entry_listed(files, root, entry, options, shown)->Ok_0;
            assert(out =~= less + more);
            lemma_in_either(less, more, x);
            assert(last == more.contains(x));
        } else {
            assert(out =~= less);
            assert(!last);
        }
        assert(out.contains(x) <==> less.contains(x) || last);
        if less.contains(x) {
            let i = choose|i: int|
                0 <= i < n - 1 && #[trigger] gives(files, root, entries[i], options, shown, x);
            assert(0 <= i < n && gives(files, root, entries[i], options, shown, x));
        }
        if exists|i: int| 0 <= i < n && #[trigger] gives(
            files,
            root,
            entries[i],
            options,
            shown,
            x,
        ) {
            let i = choose|i: int|
                0 <= i < n && #[trigger] gives(files, root, entries[i], options, shown, x);
            if i < n - 1 {
                assert(0 <= i < n - 1 && gives(files, root, entries[i], options, shown, x));
            }
        }
    }
}

/// Whether a working file is one that the index does not know.
pub open spec fn is_unknown(item: Found, entries: Seq<EntryModel>, options: SelectionModel) -> bool {
    (forall|i: int| 0 <= i < entries.len() ==> (#[trigger] entries[i]).path != item.path)
        && ls_tree::selected(item.path, options.paths)
}

/// Working files are listed that the index does not know: the ignored ones
/// where these are asked for, and else the others. Each is listed by its path
/// alone.
pub proof fn lemma_unknown_files_are_listed(
    items: Seq<Found>,
    entries: Seq<EntryModel>,
    options: SelectionModel,
    n: int,
    path: Seq<u8>,
)
    requires
        0 <= n <= items.len(),
    ensures
        listed_path(others_of(items, entries, options, n), path) <==> exists|i: int|
            0 <= i < n && (#[trigger] items[i]).path == path && items[i].ignored == options.ignored
                && is_unknown(items[i], entries, options),
        forall|k: int|
            0 <= k < others_of(items, entries, options, n).len() ==> (#[trigger] others_of(
                items,
                entries,
                options,
                n,
            )[k]).id is None && others_of(items, entries, options, n)[k].kind == if options.ignored {
                LsFilesKind::Ignored
            } else {
                LsFilesKind::Other
            },
    decreases n,
{
    if n > 0 {
        lemma_unknown_files_are_listed(items, entries, options, n - 1, path);
        let less = others_of(items, entries, options, n - 1);
        let more = others_of(items, entries, options, n);
        let item = items[n - 1];
        assert(has_path(entries, item.path) <==> !(forall|i: int|
            0 <= i < entries.len() ==> (#[trigger] entries[i]).path != item.path));
        lemma_one_more(less, more, path);
        if more.len() > less.len() {
            assert(more[less.len() as int].path == item.path);
        }
    }
}

/// Working files are listed as in the way where the index does not know them
/// and a staged entry stands above or below them.
pub proof fn lemma_files_in_the_way_are_listed(
    items: Seq<Found>,
    entries: Seq<EntryModel>,
    options: SelectionModel,
    n: int,
    path: Seq<u8>,
)
    requires
        0 <= n <= items.len(),
    ensures
        listed_path(killed_of(items, entries, options, n), path) <==> exists|i: int|
            0 <= i < n && (#[trigger] items[i]).path == path && is_unknown(
                items[i],
                entries,
                options,
            ) && exists|j: int|
                0 <= j < entries.len() && (#[trigger] entries[j]).stage == 0 && (
                ls_tree::stands_below(path, entries[j].path) || ls_tree::stands_below(
                    entries[j].path,
                    path,
                )),
    decreases n,
{
    if n > 0 {
        lemma_files_in_the_way_are_listed(items, entries, options, n - 1, path);
        let less = killed_of(items, entries, options, n - 1);
        let more = killed_of(items, entries, options, n);
        let item = items[n - 1];
        assert(has_path(entries, item.path) <==> !(forall|i: int|
            0 <= i < entries.len() ==> (#[trigger] entries[i]).path != item.path));
        if in_the_way(entries, item.path) {
            let j = choose|j: int| 0 <= j < entries.len() && #[trigger] collides(
                entries[j],
                item.path,
            );
            assert(entries[j].stage == 0);
        }
        if exists|j: int|
            0 <= j < entries.len() && (#[trigger] entries[j]).stage == 0 && (ls_tree::stands_below(
                item.path,
                entries[j].path,
            ) || ls_tree::stands_below(entries[j].path, item.path)) {
            let j = choose|j: int|
                0 <= j < entries.len() && (#[trigger] entries[j]).stage == 0 && (
                ls_tree::stands_below(item.path, entries[j].path) || ls_tree::stands_below(
                    entries[j].path,
                    item.path,
                ));
            assert(collides(entries[j], item.path));
        }
        lemma_one_more(less, more, path);
        if more.len() > less.len() {
            assert(more[less.len() as int].path == item.path);
        }
    }
}

proof fn lemma_one_more(less: Seq<Listed>, more: Seq<Listed>, path: Seq<u8>)
    requires
        more == less || (more.len() > 0 && more == less.push(more.last())),
    ensures
        listed_path(more, path) <==> listed_path(less, path) || (more.len() > less.len()
            && more.last().path == path),
{
    if listed_path(less, path) {
        let k = choose|k: int| 0 <= k < less.len() && (#[trigger] less[k]).path == path;
        assert(more[k].path == path);
    }
    if listed_path(more, path) {
        let k = choose|k: int| 0 <= k < more.len() && (#[trigger] more[k]).path == path;
        if k < less.len() {
            assert(less[k].path == path);
        }
    }
    if more.len() > less.len() {
        assert(more[less.len() as int] == more.last());
    }
}

} // verus!
