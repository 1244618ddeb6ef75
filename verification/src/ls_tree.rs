//! Ordered, byte-preserving tree inspection.

use vstd::prelude::*;

use crate::bytes;
use crate::for_each_ref;
use crate::fs;
use crate::fs::memory;
use crate::fs::{Fault, Refusal};
use crate::merge;
use crate::object::{ObjectId, ObjectKind};
use crate::repository::Repository;
use crate::storage;
use crate::tree;
use crate::tree::{EntryMode, TreeEntry, TreeItem};
use crate::{Error, Result};

verus! {

#[derive(Debug, PartialEq, Eq)]
pub struct LsTreeOptions {
    pub recursive: bool,
    pub trees_only: bool,
    pub show_trees: bool,
    pub include_object_size: bool,
    /// Literal, repository-root-relative byte paths.
    pub paths: Vec<Vec<u8>>,
    pub max_entries: usize,
    pub max_depth: usize,
    pub max_object_size: usize,
}

impl Default for LsTreeOptions {
    fn default() -> (r: Self)
        ensures
            !r.recursive && !r.trees_only && !r.show_trees && !r.include_object_size,
            r.paths@.len() == 0,
            r.max_entries == 10_000_000,
            r.max_depth == 4096,
            r.max_object_size == 1024 * 1024 * 1024,
    {
        LsTreeOptions {
            recursive: false,
            trees_only: false,
            show_trees: false,
            include_object_size: false,
            paths: Vec::new(),
            max_entries: 10_000_000,
            max_depth: 4096,
            max_object_size: 1024 * 1024 * 1024,
        }
    }
}

/// What some options ask for.
#[verifier::ext_equal]
pub struct ListingModel {
    pub recursive: bool,
    pub trees_only: bool,
    pub show_trees: bool,
    pub include_object_size: bool,
    pub paths: Seq<Seq<u8>>,
    pub max_entries: usize,
    pub max_depth: usize,
    pub max_object_size: usize,
}

impl View for LsTreeOptions {
    type V = ListingModel;

    open spec fn view(&self) -> ListingModel {
        ListingModel {
            recursive: self.recursive,
            trees_only: self.trees_only,
            show_trees: self.show_trees,
            include_object_size: self.include_object_size,
            paths: bytes::deep(self.paths@),
            max_entries: self.max_entries,
            max_depth: self.max_depth,
            max_object_size: self.max_object_size,
        }
    }
}

/// The options that list every file of a tree, of objects up to a size.
pub open spec fn all_files(size: usize) -> ListingModel {
    ListingModel {
        recursive: true,
        trees_only: false,
        show_trees: false,
        include_object_size: false,
        paths: Seq::empty(),
        max_entries: usize::MAX,
        max_depth: usize::MAX,
        max_object_size: size,
    }
}

/// The options that list every file of a tree, of objects up to a size.
pub fn whole_tree(max_object_size: usize) -> (r: LsTreeOptions)
    ensures
        r@ == all_files(max_object_size),
{
    let mut options = LsTreeOptions::default();
    options.recursive = true;
    options.max_entries = usize::MAX;
    options.max_depth = usize::MAX;
    options.max_object_size = max_object_size;
    assert(bytes::deep(options.paths@) =~= Seq::empty());
    options
}

#[derive(Debug, PartialEq, Eq)]
pub struct LsTreeEntry {
    path: Vec<u8>,
    mode: EntryMode,
    kind: ObjectKind,
    id: ObjectId,
    object_size: Option<u64>,
}

/// What a listed entry says.
#[verifier::ext_equal]
pub struct Listed {
    pub path: Seq<u8>,
    pub mode: EntryMode,
    pub kind: ObjectKind,
    pub id: Seq<u8>,
    pub object_size: Option<u64>,
}

impl View for LsTreeEntry {
    type V = Listed;

    closed spec fn view(&self) -> Listed {
        Listed {
            path: self.path@,
            mode: self.mode,
            kind: self.kind,
            id: self.id@,
            object_size: self.object_size,
        }
    }
}

/// What a list of entries says.
pub open spec fn models(list: Seq<LsTreeEntry>) -> Seq<Listed> {
    Seq::new(list.len(), |i: int| list[i]@)
}

impl LsTreeEntry {
    pub fn path(&self) -> (r: &[u8])
        ensures
            r@ == self@.path,
    {
        self.path.as_slice()
    }

    pub fn mode(&self) -> (r: EntryMode)
        ensures
            r == self@.mode,
    {
        self.mode
    }

    pub fn kind(&self) -> (r: ObjectKind)
        ensures
            r == self@.kind,
    {
        self.kind
    }

    pub fn id(&self) -> (r: ObjectId)
        ensures
            r@ == self@.id,
    {
        self.id
    }

    /// Blob size when `include_object_size` was requested; trees and gitlinks
    /// have no ls-tree object size.
    pub fn object_size(&self) -> (r: Option<u64>)
        ensures
            r == self@.object_size,
    {
        self.object_size
    }

    pub fn mode_number(&self) -> (r: u32)
        ensures
            r == tree::mode_value(self@.mode),
    {
        self.mode.number()
    }
}

// ---------------------------------------------------------------------------
// Paths

/// Whether a path stands below another.
pub open spec fn stands_below(path: Seq<u8>, parent: Seq<u8>) -> bool {
    path.len() > parent.len() && bytes::has_prefix(path, parent) && path[parent.len() as int] == 47
}

pub fn path_below(path: &[u8], parent: &[u8]) -> (r: bool)
    ensures
        r == stands_below(path@, parent@),
{
    path.len() > parent.len() && bytes::starts_with(path, parent) && path[parent.len()] == 47
}

/// Whether a path is a wanted one or stands below one.
pub open spec fn wanted(path: Seq<u8>, spec_path: Seq<u8>) -> bool {
    path == spec_path || stands_below(path, spec_path)
}

/// Whether a path is selected.
pub open spec fn selected(path: Seq<u8>, specs: Seq<Seq<u8>>) -> bool {
    specs.len() == 0 || exists|i: int| 0 <= i < specs.len() && #[trigger] wanted(path, specs[i])
}

pub fn path_selected(path: &[u8], specs: &[Vec<u8>]) -> (r: bool)
    ensures
        r == selected(path@, bytes::deep(specs@)),
{
    if specs.len() == 0 {
        return true;
    }
    let ghost all = bytes::deep(specs@);
    let mut i: usize = 0;
    while i < specs.len()
        invariant
            i <= specs@.len(),
            all == bytes::deep(specs@),
            forall|j: int| 0 <= j < i ==> !#[trigger] wanted(path@, all[j]),
        decreases specs@.len() - i,
    {
        assert(all[i as int] == specs@[i as int]@);
        if bytes::bytes_eq(path, specs[i].as_slice()) || path_below(path, specs[i].as_slice()) {
            assert(wanted(path@, all[i as int]));
            return true;
        }
        i += 1;
    }
    false
}

/// Whether a wanted path calls for what stands below a directory.
pub open spec fn calls_for(path: Seq<u8>, recursive: bool, spec_path: Seq<u8>) -> bool {
    stands_below(spec_path, path) || (recursive && wanted(path, spec_path))
}

/// Whether the contents of a directory are listed.
pub open spec fn descends(path: Seq<u8>, recursive: bool, specs: Seq<Seq<u8>>) -> bool {
    if specs.len() == 0 {
        recursive
    } else {
        exists|i: int| 0 <= i < specs.len() && #[trigger] calls_for(path, recursive, specs[i])
    }
}

fn should_descend(path: &[u8], recursive: bool, specs: &[Vec<u8>]) -> (r: bool)
    ensures
        r == descends(path@, recursive, bytes::deep(specs@)),
{
    if specs.len() == 0 {
        return recursive;
    }
    let ghost all = bytes::deep(specs@);
    let mut i: usize = 0;
    while i < specs.len()
        invariant
            i <= specs@.len(),
            all == bytes::deep(specs@),
            forall|j: int| 0 <= j < i ==> !#[trigger] calls_for(path@, recursive, all[j]),
        decreases specs@.len() - i,
    {
        assert(all[i as int] == specs@[i as int]@);
        let spec_path = specs[i].as_slice();
        if path_below(spec_path, path) || (recursive && (bytes::bytes_eq(path, spec_path)
            || path_below(path, spec_path))) {
            assert(calls_for(path@, recursive, all[i as int]));
            return true;
        }
        i += 1;
    }
    false
}

pub open spec fn bad_component(part: Seq<u8>) -> bool {
    part.len() == 0 || part == seq![46u8] || part == seq![46u8, 46u8]
}

/// Whether a path cannot be asked for.
pub open spec fn bad_path(path: Seq<u8>) -> bool {
    path.contains(0) || exists|i: int|
        0 <= i < bytes::split(path, 47).len() && bad_component(#[trigger] bytes::split(path, 47)[i])
}

/// The first path that cannot be asked for, among the first `n`.
pub open spec fn first_bad(paths: Seq<Seq<u8>>, n: int) -> Option<Seq<u8>>
    decreases n,
{
    if n <= 0 {
        None
    } else {
        match first_bad(paths, n - 1) {
            Some(path) => Some(path),
            None => if bad_path(paths[n - 1]) {
                Some(paths[n - 1])
            } else {
                None
            },
        }
    }
}

proof fn lemma_first_bad(paths: Seq<Seq<u8>>, n: int, m: int)
    requires
        0 <= n <= m,
    ensures
        first_bad(paths, n) is Some ==> first_bad(paths, m) == first_bad(paths, n),
    decreases m,
{
    if n < m {
        lemma_first_bad(paths, n, m - 1);
    }
}

fn is_bad_path(path: &[u8]) -> (r: bool)
    ensures
        r == bad_path(path@),
{
    if bytes::contains_byte(path, 0) {
        return true;
    }
    let parts = bytes::split_on(path, 47);
    let ghost all = bytes::split(path@, 47);
    let mut i: usize = 0;
    while i < parts.len()
        invariant
            i <= parts@.len(),
            all == bytes::deep(parts@),
            all == bytes::split(path@, 47),
            forall|j: int| 0 <= j < i ==> !bad_component(#[trigger] all[j]),
        decreases parts@.len() - i,
    {
        let part = &parts[i];
        assert(all[i as int] == part@);
        let dot: bool = part.len() == 1 && part[0] == 46;
        let dots: bool = part.len() == 2 && part[0] == 46 && part[1] == 46;
        proof {
            if dot {
                assert(part@ =~= seq![46u8]);
            }
            if dots {
                assert(part@ =~= seq![46u8, 46u8]);
            }
        }
        if part.len() == 0 || dot || dots {
            assert(bad_component(all[i as int]));
            return true;
        }
        i += 1;
    }
    false
}

/// Refuses paths that cannot be asked for.
pub fn validate_paths(paths: &[Vec<u8>]) -> (r: Result<()>)
    ensures
        match first_bad(bytes::deep(paths@), paths@.len() as int) {
            Some(path) => fs::refused(r, Fault::InvalidPath, path),
            None => r is Ok,
        },
{
    let ghost all = bytes::deep(paths@);
    let mut n: usize = 0;
    while n < paths.len()
        invariant
            n <= paths@.len(),
            all == bytes::deep(paths@),
            first_bad(all, n as int) is None,
        decreases paths@.len() - n,
    {
        assert(all[n as int] == paths@[n as int]@);
        proof {
            lemma_first_bad(all, n + 1, all.len() as int);
        }
        if is_bad_path(paths[n].as_slice()) {
            return Err(Error::InvalidPath(bytes::to_vec(paths[n].as_slice())));
        }
        n += 1;
    }
    Ok(())
}

// ---------------------------------------------------------------------------
// The walk

/// How far a walk has come.
#[verifier::ext_equal]
pub struct Walk {
    pub visited: int,
    pub out: Seq<Listed>,
}

/// A name below a prefix.
pub open spec fn extended(prefix: Seq<u8>, name: Seq<u8>) -> Seq<u8> {
    if prefix.len() == 0 {
        name
    } else {
        prefix.push(47) + name
    }
}

/// The listed entry for an entry of a tree, or why it is refused.
#[verifier::opaque]
pub open spec fn listed_entry(
    files: memory::Tree,
    git: Seq<u8>,
    path: Seq<u8>,
    item: TreeItem,
    with_size: bool,
    limit: nat,
) -> core::result::Result<Listed, Refusal> {
    let plain = Listed {
        path,
        mode: item.mode,
        kind: tree::kind_of_mode(item.mode),
        id: item.id,
        object_size: None,
    };
    if with_size && (item.mode is Blob || item.mode is BlobExecutable || item.mode is Link) {
        match storage::stored_object(files, git, item.id, limit) {
            Err(refusal) => Err(refusal),
            Ok((kind, data)) => if kind != ObjectKind::Blob {
                Err(Refusal::Said(Error::InvalidTree("entry does not point to a blob")))
            } else {
                Ok(Listed { object_size: Some(data.len() as u64), ..plain })
            },
        }
    } else {
        Ok(plain)
    }
}

/// Whether an entry is listed.
#[verifier::opaque]
pub open spec fn emits(options: ListingModel, path: Seq<u8>, mode: EntryMode) -> bool {
    let specs = options.paths;
    let descend = mode is Tree && descends(path, options.recursive, specs);
    let show_trees = options.show_trees || (options.trees_only && options.recursive);
    &&& selected(path, specs) || (descend && show_trees)
    &&& !(options.trees_only && !(mode is Tree))
    &&& !(descend && !show_trees)
}

/// What walking a tree adds to a walk, or why it is refused.
pub open spec fn walk_tree(
    files: memory::Tree,
    git: Seq<u8>,
    id: Seq<u8>,
    prefix: Seq<u8>,
    depth: int,
    options: ListingModel,
    walk: Walk,
) -> core::result::Result<Walk, Refusal>
    decreases options.max_depth + 1 - depth, 1int, 0int,
{
    if depth > options.max_depth {
        Err(Refusal::Said(Error::InvalidTree("ls-tree exceeds depth limit")))
    } else {
        match tree::stored_tree(files, git, id, options.max_object_size as nat) {
            Err(refusal) => Err(refusal),
            Ok(list) => walk_items(files, git, list, 0, prefix, depth, options, walk),
        }
    }
}

/// What listing a tree gives.
pub open spec fn tree_listing(
    files: memory::Tree,
    git: Seq<u8>,
    id: Seq<u8>,
    options: ListingModel,
) -> core::result::Result<Seq<Listed>, Refusal> {
    match walk_tree(
        files,
        git,
        id,
        Seq::empty(),
        0,
        options,
        Walk { visited: 0, out: Seq::empty() },
    ) {
        Ok(walk) => Ok(walk.out),
        Err(refusal) => Err(refusal),
    }
}

/// The tree that an object leads to: a tree itself, that of a commit, or that
/// of what a tag names in the end.
pub open spec fn treeish(files: memory::Tree, git: Seq<u8>, id: Seq<u8>, size: nat) -> core::result::Result<
    Seq<u8>,
    Refusal,
> {
    match for_each_ref::unwrapped(
        files,
        git,
        size,
        id,
        seq![id],
        None,
        usize::MAX as nat,
    ) {
        Err(refusal) => Err(refusal),
        Ok(end) => match end.kind {
            ObjectKind::Tree => Ok(end.id),
            ObjectKind::Commit => match merge::stored_commit(files, git, end.id, size) {
                Err(refusal) => Err(refusal),
                Ok(model) => Ok(model.tree),
            },
            _ => Err(
                Refusal::Said(Error::InvalidTree("object does not resolve to a tree-ish")),
            ),
        },
    }
}

/// What listing the tree that an object leads to gives.
pub open spec fn listing_of(
    files: memory::Tree,
    git: Seq<u8>,
    id: Seq<u8>,
    options: ListingModel,
) -> core::result::Result<Seq<Listed>, Refusal> {
    match first_bad(options.paths, options.paths.len() as int) {
        Some(path) => Err(Refusal::At(Fault::InvalidPath, path)),
        None => match treeish(files, git, id, options.max_object_size as nat) {
            Err(refusal) => Err(refusal),
            Ok(top) => tree_listing(files, git, top, options),
        },
    }
}

/// What walking the entries of a tree from a position on adds to a walk.
pub open spec fn walk_items(
    files: memory::Tree,
    git: Seq<u8>,
    list: Seq<TreeItem>,
    i: int,
    prefix: Seq<u8>,
    depth: int,
    options: ListingModel,
    walk: Walk,
) -> core::result::Result<Walk, Refusal>
    decreases options.max_depth + 1 - depth, 0int, list.len() - i,
{
    if i < 0 || i >= list.len() || depth > options.max_depth {
        Ok(walk)
    } else if walk.visited + 1 > usize::MAX {
        Err(Refusal::Said(Error::InvalidTree("ls-tree entry count overflow")))
    } else if walk.visited + 1 > options.max_entries {
        Err(Refusal::Said(Error::InvalidTree("ls-tree exceeds entry limit")))
    } else {
        let item = list[i];
        let path = extended(prefix, item.name);
        let counted = Walk { visited: walk.visited + 1, out: walk.out };
        let emitted: core::result::Result<Walk, Refusal> = if emits(options, path, item.mode) {
            match listed_entry(
                files,
                git,
                path,
                item,
                options.include_object_size,
                options.max_object_size as nat,
            ) {
                Err(refusal) => Err(refusal),
                Ok(listed) => Ok(Walk { visited: counted.visited, out: walk.out.push(listed) }),
            }
        } else {
            Ok(counted)
        };
        match emitted {
            Err(refusal) => Err(refusal),
            Ok(next) => if item.mode is Tree && descends(
                path,
                options.recursive,
                options.paths,
            ) {
                match walk_tree(files, git, item.id, path, depth + 1, options, next) {
                    Err(refusal) => Err(refusal),
                    Ok(after) => walk_items(files, git, list, i + 1, prefix, depth, options, after),
                }
            } else {
                walk_items(files, git, list, i + 1, prefix, depth, options, next)
            },
        }
    }
}

fn emitted(path: &[u8], mode: EntryMode, options: &LsTreeOptions) -> (r: bool)
    ensures
        r == emits(options@, path@, mode),
{
    reveal(emits);
    let is_tree: bool = mode == EntryMode::Tree;
    let chosen: bool = path_selected(path, options.paths.as_slice());
    let descend: bool = is_tree && should_descend(
        path,
        options.recursive,
        options.paths.as_slice(),
    );
    let show_trees: bool = options.show_trees || (options.trees_only && options.recursive);
    (chosen || (descend && show_trees)) && !(options.trees_only && !is_tree) && !(descend
        && !show_trees)
}

impl Repository {
    fn ls_tree_entry(&self, path: &[u8], entry: &TreeEntry, options: &LsTreeOptions) -> (r: Result<
        LsTreeEntry,
    >)
        ensures
            match listed_entry(
                self.tree(),
                self.git(),
                path@,
                entry@,
                options.include_object_size,
                options.max_object_size as nat,
            ) {
                Ok(listed) => r is Ok && r->Ok_0@ == listed,
                Err(refusal) => fs::declined(r, refusal),
            },
    {
        reveal(listed_entry);
        let mode = entry.mode();
        let sized: bool = mode == EntryMode::Blob || mode == EntryMode::BlobExecutable || mode
            == EntryMode::Link;
        let object_size: Option<u64> = if options.include_object_size && sized {
            let object = self.read_object_raw(entry.id(), options.max_object_size)?;
            if object.kind() != ObjectKind::Blob {
                return Err(Error::InvalidTree("entry does not point to a blob"));
            }
            Some(object.data().len() as u64)
        } else {
            None
        };
        Ok(
            LsTreeEntry {
                path: bytes::to_vec(path),
                mode,
                kind: mode.object_kind(),
                id: entry.id(),
                object_size,
            },
        )
    }

    fn walk_ls_tree(
        &self,
        id: ObjectId,
        prefix: &[u8],
        depth: usize,
        options: &LsTreeOptions,
        visited: &mut usize,
        output: &mut Vec<LsTreeEntry>,
    ) -> (r: Result<()>)
        requires
            depth <= options.max_depth + 1,
        ensures
            match walk_tree(
                self.tree(),
                self.git(),
                id@,
                prefix@,
                depth as int,
                options@,
                Walk { visited: *old(visited) as int, out: models(old(output)@) },
            ) {
                Ok(walk) => r is Ok && *final(visited) == walk.visited && models(final(output)@)
                    == walk.out,
                Err(refusal) => fs::declined(r, refusal),
            },
        decreases options.max_depth + 1 - depth,
    {
        if depth > options.max_depth {
            return Err(Error::InvalidTree("ls-tree exceeds depth limit"));
        }
        let directory = self.read_tree(id, options.max_object_size)?;
        let entries = directory.entries();
        let ghost list = tree::items(entries@);
        let ghost goal = walk_items(
            self.tree(),
            self.git(),
            list,
            0,
            prefix@,
            depth as int,
            options@,
            Walk { visited: *visited as int, out: models(output@) },
        );
        let mut i: usize = 0;
        while i < entries.len()
            invariant
                i <= entries@.len(),
                depth <= options.max_depth,
                list == tree::items(entries@),
                goal == walk_items(
                    self.tree(),
                    self.git(),
                    list,
                    i as int,
                    prefix@,
                    depth as int,
                    options@,
                    Walk { visited: *visited as int, out: models(output@) },
                ),
                goal == walk_tree(
                    self.tree(),
                    self.git(),
                    id@,
                    prefix@,
                    depth as int,
                    options@,
                    Walk { visited: *old(visited) as int, out: models(old(output)@) },
                ),
            decreases entries@.len() - i,
        {
            let entry = &entries[i];
            assert(list[i as int] == entry@);
            if *visited == usize::MAX {
                return Err(Error::InvalidTree("ls-tree entry count overflow"));
            }
            if *visited + 1 > options.max_entries {
                return Err(Error::InvalidTree("ls-tree exceeds entry limit"));
            }
            *visited = *visited + 1;
            let mut path = bytes::to_vec(prefix);
            if prefix.len() > 0 {
                path.push(47);
            }
            bytes::append(&mut path, entry.name());
            assert(path@ =~= extended(prefix@, entry@.name));
            let emit: bool = emitted(path.as_slice(), entry.mode(), options);
            let descend: bool = entry.mode() == EntryMode::Tree && should_descend(
                path.as_slice(),
                options.recursive,
                options.paths.as_slice(),
            );
            if emit {
                let listed = self.ls_tree_entry(path.as_slice(), entry, options)?;
                let ghost before = models(output@);
                let ghost model = listed@;
                output.push(listed);
                assert(models(output@) =~= before.push(model));
            }
            if descend {
                if depth == usize::MAX {
                    assert(walk_tree(
                        self.tree(),
                        self.git(),
                        entry@.id,
                        path@,
                        depth + 1,
                        options@,
                        Walk { visited: *visited as int, out: models(output@) },
                    ) == Err::<Walk, Refusal>(
                        Refusal::Said(Error::InvalidTree("ls-tree exceeds depth limit")),
                    ));
                    return Err(Error::InvalidTree("ls-tree exceeds depth limit"));
                }
                self.walk_ls_tree(
                    entry.id(),
                    path.as_slice(),
                    depth + 1,
                    options,
                    visited,
                    output,
                )?;
            }
            i += 1;
        }
        Ok(())
    }

    /// Lists a tree without looking at the paths that are asked for.
    pub fn list_tree(&self, id: ObjectId, options: &LsTreeOptions) -> (r: Result<Vec<LsTreeEntry>>)
        ensures
            match tree_listing(self.tree(), self.git(), id@, options@) {
                Ok(list) => r is Ok && models(r->Ok_0@) == list,
                Err(refusal) => fs::declined(r, refusal),
            },
    {
        let mut output: Vec<LsTreeEntry> = Vec::new();
        let mut visited: usize = 0;
        let prefix: Vec<u8> = Vec::new();
        assert(models(output@) =~= Seq::empty());
        assert(prefix@ =~= Seq::empty());
        self.walk_ls_tree(id, prefix.as_slice(), 0, options, &mut visited, &mut output)?;
        Ok(output)
    }

    /// Finds the tree that a tree, a commit or a tag leads to.
    pub fn find_tree(&self, id: ObjectId, max_object_size: usize) -> (r: Result<ObjectId>)
        ensures
            match treeish(self.tree(), self.git(), id@, max_object_size as nat) {
                Ok(top) => r is Ok && r->Ok_0@ == top,
                Err(refusal) => fs::declined(r, refusal),
            },
    {
        let end = self.unwrap_tags(id, max_object_size, usize::MAX)?;
        match end.1 {
            ObjectKind::Tree => Ok(end.0),
            ObjectKind::Commit => {
                let commit = self.read_commit(end.0, max_object_size)?;
                Ok(commit.tree())
            },
            _ => Err(Error::InvalidTree("object does not resolve to a tree-ish")),
        }
    }

    /// List a tree in canonical Git tree order. A commit or a tag stands for
    /// the tree that it leads to.
    ///
    /// Literal nested paths cause targeted descent even without `recursive`.
    /// With recursive traversal, directory entries are hidden unless
    /// `show_trees` is set; `trees_only && recursive` implies `show_trees`, as
    /// in Git. Filenames remain arbitrary non-NUL bytes.
    pub fn ls_tree(&self, id: ObjectId, options: &LsTreeOptions) -> (r: Result<Vec<LsTreeEntry>>)
        ensures
            match listing_of(self.tree(), self.git(), id@, options@) {
                Ok(list) => r is Ok && models(r->Ok_0@) == list,
                Err(refusal) => fs::declined(r, refusal),
            },
    {
        validate_paths(options.paths.as_slice())?;
        let top = self.find_tree(id, options.max_object_size)?;
        self.list_tree(top, options)
    }
}

// ---------------------------------------------------------------------------
// Laws

/// Whether an entry is one that options ask for.
pub open spec fn is_asked_for(options: ListingModel, entry: Listed) -> bool {
    let sized = entry.mode is Blob || entry.mode is BlobExecutable || entry.mode is Link;
    let shows = options.show_trees || (options.trees_only && options.recursive);
    &&& entry.kind == tree::kind_of_mode(entry.mode)
    &&& options.trees_only ==> entry.mode is Tree
    &&& entry.object_size is Some <==> options.include_object_size && sized
    &&& selected(entry.path, options.paths) || (entry.mode is Tree && shows && descends(
        entry.path,
        options.recursive,
        options.paths,
    ))
    &&& entry.mode is Tree && !shows ==> !descends(entry.path, options.recursive, options.paths)
}

pub open spec fn keeps_to(options: ListingModel, walk: Walk) -> bool {
    &&& walk.out.len() <= walk.visited <= options.max_entries
    &&& forall|i: int| 0 <= i < walk.out.len() ==> is_asked_for(options, #[trigger] walk.out[i])
}

proof fn lemma_walk_keeps(
    files: memory::Tree,
    git: Seq<u8>,
    id: Seq<u8>,
    prefix: Seq<u8>,
    depth: int,
    options: ListingModel,
    walk: Walk,
)
    requires
        keeps_to(options, walk),
        walk_tree(files, git, id, prefix, depth, options, walk) is Ok,
    ensures
        keeps_to(options, walk_tree(files, git, id, prefix, depth, options, walk)->Ok_0),
    decreases options.max_depth + 1 - depth, 1int, 0int,
{
    let list = tree::stored_tree(files, git, id, options.max_object_size as nat)->Ok_0;
    lemma_items_keep(files, git, list, 0, prefix, depth, options, walk);
}

proof fn lemma_items_keep(
    files: memory::Tree,
    git: Seq<u8>,
    list: Seq<TreeItem>,
    i: int,
    prefix: Seq<u8>,
    depth: int,
    options: ListingModel,
    walk: Walk,
)
    requires
        keeps_to(options, walk),
        walk_items(files, git, list, i, prefix, depth, options, walk) is Ok,
    ensures
        keeps_to(options, walk_items(files, git, list, i, prefix, depth, options, walk)->Ok_0),
    decreases options.max_depth + 1 - depth, 0int, list.len() - i,
{
    if !(i < 0 || i >= list.len() || depth > options.max_depth) {
        reveal(emits);
        reveal(listed_entry);
        let item = list[i];
        let path = extended(prefix, item.name);
        let next = if emits(options, path, item.mode) {
            Walk {
                visited: walk.visited + 1,
                out: walk.out.push(
                    listed_entry(
                        files,
                        git,
                        path,
                        item,
                        options.include_object_size,
                        options.max_object_size as nat,
                    )->Ok_0,
                ),
            }
        } else {
            Walk { visited: walk.visited + 1, out: walk.out }
        };
        assert(keeps_to(options, next)) by {
            assert forall|k: int| 0 <= k < next.out.len() implies is_asked_for(
                options,
                #[trigger] next.out[k],
            ) by {
                if k < walk.out.len() {
                    assert(next.out[k] == walk.out[k]);
                }
            }
        }
        if item.mode is Tree && descends(path, options.recursive, options.paths) {
            lemma_walk_keeps(files, git, item.id, path, depth + 1, options, next);
            let after = walk_tree(files, git, item.id, path, depth + 1, options, next)->Ok_0;
            lemma_items_keep(files, git, list, i + 1, prefix, depth, options, after);
        } else {
            lemma_items_keep(files, git, list, i + 1, prefix, depth, options, next);
        }
    }
}

/// A listing keeps to the limit on entries, and each of its entries is asked
/// for: a tree where only trees are, a selected path or a tree on the way to
/// one, and with a size just where the sizes of files are wanted.
pub proof fn lemma_listing_is_asked_for(
    files: memory::Tree,
    git: Seq<u8>,
    id: Seq<u8>,
    options: ListingModel,
)
    ensures
        listing_of(files, git, id, options) matches Ok(list) ==> {
            &&& list.len() <= options.max_entries
            &&& forall|i: int| 0 <= i < list.len() ==> is_asked_for(options, #[trigger] list[i])
        },
{
    if listing_of(files, git, id, options) is Ok {
        let top = treeish(files, git, id, options.max_object_size as nat)->Ok_0;
        lemma_walk_keeps(
            files,
            git,
            top,
            Seq::empty(),
            0,
            options,
            Walk { visited: 0, out: Seq::empty() },
        );
    }
}

// ---------------------------------------------------------------------------
// Trees alone

proof fn lemma_tree_walks_agree(
    files: memory::Tree,
    git: Seq<u8>,
    id: Seq<u8>,
    prefix: Seq<u8>,
    depth: int,
    options: ListingModel,
    walk: Walk,
)
    requires
        options.trees_only && options.recursive,
    ensures
        walk_tree(files, git, id, prefix, depth, options, walk) == walk_tree(
            files,
            git,
            id,
            prefix,
            depth,
            ListingModel { show_trees: true, ..options },
            walk,
        ),
    decreases options.max_depth + 1 - depth, 1int, 0int,
{
    if depth <= options.max_depth {
        match tree::stored_tree(files, git, id, options.max_object_size as nat) {
            Err(_) => {},
            Ok(list) => {
                lemma_item_walks_agree(files, git, list, 0, prefix, depth, options, walk);
            },
        }
    }
}

proof fn lemma_item_walks_agree(
    files: memory::Tree,
    git: Seq<u8>,
    list: Seq<TreeItem>,
    i: int,
    prefix: Seq<u8>,
    depth: int,
    options: ListingModel,
    walk: Walk,
)
    requires
        options.trees_only && options.recursive,
    ensures
        walk_items(files, git, list, i, prefix, depth, options, walk) == walk_items(
            files,
            git,
            list,
            i,
            prefix,
            depth,
            ListingModel { show_trees: true, ..options },
            walk,
        ),
    decreases options.max_depth + 1 - depth, 0int, list.len() - i,
{
    if !(i < 0 || i >= list.len() || depth > options.max_depth) {
        reveal(emits);
        let shown = ListingModel { show_trees: true, ..options };
        let item = list[i];
        let path = extended(prefix, item.name);
        assert(emits(options, path, item.mode) == emits(shown, path, item.mode));
        let counted = Walk { visited: walk.visited + 1, out: walk.out };
        let entry = listed_entry(
            files,
            git,
            path,
            item,
            options.include_object_size,
            options.max_object_size as nat,
        );
        let next = if emits(options, path, item.mode) && entry is Ok {
            Walk { visited: walk.visited + 1, out: walk.out.push(entry->Ok_0) }
        } else {
            counted
        };
        if item.mode is Tree && descends(path, options.recursive, options.paths) {
            lemma_tree_walks_agree(files, git, item.id, path, depth + 1, options, next);
            match walk_tree(files, git, item.id, path, depth + 1, options, next) {
                Err(_) => {},
                Ok(after) => {
                    lemma_item_walks_agree(files, git, list, i + 1, prefix, depth, options, after);
                },
            }
        } else {
            lemma_item_walks_agree(files, git, list, i + 1, prefix, depth, options, next);
        }
    }
}

/// A recursive listing of trees alone shows the trees on the way, asked or not.
pub proof fn lemma_trees_alone_are_shown(
    files: memory::Tree,
    git: Seq<u8>,
    id: Seq<u8>,
    options: ListingModel,
)
    requires
        options.trees_only && options.recursive,
    ensures
        listing_of(files, git, id, options) == listing_of(
            files,
            git,
            id,
            ListingModel { show_trees: true, ..options },
        ),
{
    match treeish(files, git, id, options.max_object_size as nat) {
        Err(_) => {},
        Ok(top) => {
            lemma_tree_walks_agree(
                files,
                git,
                top,
                Seq::empty(),
                0,
                options,
                Walk { visited: 0, out: Seq::empty() },
            );
        },
    }
}

// ---------------------------------------------------------------------------
// Paths are distinct

/// Whether no stored tree names an entry twice.
pub open spec fn trees_name_once(files: memory::Tree, git: Seq<u8>, size: nat) -> bool {
    forall|id: Seq<u8>, i: int, j: int|
        #![trigger tree::stored_tree(files, git, id, size)->Ok_0[i], tree::stored_tree(files, git, id, size)->Ok_0[j]]
        tree::stored_tree(files, git, id, size) is Ok && 0 <= i < j < (tree::stored_tree(
            files,
            git,
            id,
            size,
        )->Ok_0).len() ==> (tree::stored_tree(files, git, id, size)->Ok_0)[i].name != (
        tree::stored_tree(files, git, id, size)->Ok_0)[j].name
}

/// Whether a path is that of an entry or stands below it.
spec fn covers(prefix: Seq<u8>, name: Seq<u8>, path: Seq<u8>) -> bool {
    wanted(path, extended(prefix, name))
}

proof fn lemma_covers_one(prefix: Seq<u8>, a: Seq<u8>, b: Seq<u8>, path: Seq<u8>)
    requires
        covers(prefix, a, path),
        covers(prefix, b, path),
        !a.contains(47) && !b.contains(47),
        a.len() <= b.len(),
    ensures
        a == b,
{
    let p = extended(prefix, a);
    let q = extended(prefix, b);
    let k = p.len() - a.len();
    assert(path.take(p.len() as int) =~= p);
    assert(path.take(q.len() as int) =~= q);
    assert forall|i: int| 0 <= i < a.len() implies a[i] == b[i] by {
        assert(p[k + i] == path[k + i]);
        assert(q[k + i] == path[k + i]);
        assert(p[k + i] == a[i]);
        assert(q[k + i] == b[i]);
    }
    if a.len() < b.len() {
        assert(path[p.len() as int] == q[p.len() as int]);
        assert(q[p.len() as int] == b[a.len() as int]);
        assert(b.contains(b[a.len() as int]));
    } else {
        assert(a =~= b);
    }
}

/// What a walk over entries from a position on added.
spec fn added_apart(
    before: Walk,
    after: Walk,
    prefix: Seq<u8>,
    list: Seq<TreeItem>,
    from: int,
) -> bool {
    let n = before.out.len() as int;
    &&& n <= after.out.len()
    &&& after.out.take(n) == before.out
    &&& forall|k: int|
        n <= k < after.out.len() ==> exists|j: int|
            from <= j < list.len() && covers(
                prefix,
                (#[trigger] list[j]).name,
                (#[trigger] after.out[k]).path,
            )
    &&& forall|k: int, l: int|
        n <= k < l < after.out.len() ==> (#[trigger] after.out[k]).path != (
        #[trigger] after.out[l]).path
}

/// What a walk over a tree added.
spec fn added_below(before: Walk, after: Walk, prefix: Seq<u8>) -> bool {
    let n = before.out.len() as int;
    &&& n <= after.out.len()
    &&& after.out.take(n) == before.out
    &&& forall|k: int|
        n <= k < after.out.len() ==> prefix.len() == 0 || stands_below(
            (#[trigger] after.out[k]).path,
            prefix,
        )
    &&& forall|k: int, l: int|
        n <= k < l < after.out.len() ==> (#[trigger] after.out[k]).path != (
        #[trigger] after.out[l]).path
}

proof fn lemma_tree_walk_adds(
    files: memory::Tree,
    git: Seq<u8>,
    id: Seq<u8>,
    prefix: Seq<u8>,
    depth: int,
    options: ListingModel,
    walk: Walk,
)
    requires
        trees_name_once(files, git, options.max_object_size as nat),
        walk_tree(files, git, id, prefix, depth, options, walk) is Ok,
    ensures
        added_below(walk, walk_tree(files, git, id, prefix, depth, options, walk)->Ok_0, prefix),
    decreases options.max_depth + 1 - depth, 1int, 0int,
{
    let size = options.max_object_size as nat;
    let list = tree::stored_tree(files, git, id, size)->Ok_0;
    tree::lemma_stored_names(files, git, id, size);
    assert(distinct_names(list)) by {
        assert forall|i: int, j: int| 0 <= i < j < list.len() implies (#[trigger] list[i]).name != (
        #[trigger] list[j]).name by {
            assert((tree::stored_tree(files, git, id, size)->Ok_0)[i].name != (tree::stored_tree(
                files,
                git,
                id,
                size,
            )->Ok_0)[j].name);
        }
    }
    lemma_item_walk_adds(files, git, list, 0, prefix, depth, options, walk);
    let after = walk_tree(files, git, id, prefix, depth, options, walk)->Ok_0;
    assert forall|k: int| walk.out.len() <= k < after.out.len() implies prefix.len() == 0
        || stands_below((#[trigger] after.out[k]).path, prefix) by {
        let path = after.out[k].path;
        let j = choose|j: int|
            0 <= j < list.len() && covers(prefix, (#[trigger] list[j]).name, path);
        if prefix.len() > 0 {
            let p = extended(prefix, list[j].name);
            assert(path.take(p.len() as int) =~= p);
            assert(path.take(prefix.len() as int) =~= p.take(prefix.len() as int));
            assert(p.take(prefix.len() as int) =~= prefix);
            assert(path[prefix.len() as int] == p[prefix.len() as int]);
        }
    }
}

spec fn distinct_names(list: Seq<TreeItem>) -> bool {
    forall|i: int, j: int|
        0 <= i < j < list.len() ==> (#[trigger] list[i]).name != (#[trigger] list[j]).name
}

proof fn lemma_item_walk_adds(
    files: memory::Tree,
    git: Seq<u8>,
    list: Seq<TreeItem>,
    i: int,
    prefix: Seq<u8>,
    depth: int,
    options: ListingModel,
    walk: Walk,
)
    requires
        0 <= i,
        depth <= options.max_depth,
        trees_name_once(files, git, options.max_object_size as nat),
        distinct_names(list),
        forall|j: int|
            0 <= j < list.len() ==> !(#[trigger] list[j]).name.contains(47) && list[j].name.len()
                > 0,
        walk_items(files, git, list, i, prefix, depth, options, walk) is Ok,
    ensures
        added_apart(
            walk,
            walk_items(files, git, list, i, prefix, depth, options, walk)->Ok_0,
            prefix,
            list,
            i,
        ),
    decreases options.max_depth + 1 - depth, 0int, list.len() - i,
{
    let last = walk_items(files, git, list, i, prefix, depth, options, walk)->Ok_0;
    if i >= list.len() {
        assert(last.out.take(walk.out.len() as int) =~= walk.out);
    } else {
        reveal(emits);
        reveal(listed_entry);
        let item = list[i];
        let path = extended(prefix, item.name);
        let shows = emits(options, path, item.mode);
        let entry = listed_entry(
            files,
            git,
            path,
            item,
            options.include_object_size,
            options.max_object_size as nat,
        );
        let next = if shows {
            Walk { visited: walk.visited + 1, out: walk.out.push(entry->Ok_0) }
        } else {
            Walk { visited: walk.visited + 1, out: walk.out }
        };
        assert(next.out.take(walk.out.len() as int) =~= walk.out);
        let middle = if item.mode is Tree && descends(path, options.recursive, options.paths) {
            lemma_tree_walk_adds(files, git, item.id, path, depth + 1, options, next);
            walk_tree(files, git, item.id, path, depth + 1, options, next)->Ok_0
        } else {
            assert(next.out.take(next.out.len() as int) =~= next.out);
            next
        };
        assert(path.len() > 0);
        assert(added_below(next, middle, path));
        lemma_item_walk_adds(files, git, list, i + 1, prefix, depth, options, middle);
        lemma_additions_join(walk, next, middle, last, prefix, list, i);
    }
}

proof fn lemma_additions_join(
    walk: Walk,
    next: Walk,
    middle: Walk,
    last: Walk,
    prefix: Seq<u8>,
    list: Seq<TreeItem>,
    i: int,
)
    requires
        0 <= i < list.len(),
        distinct_names(list),
        forall|j: int| 0 <= j < list.len() ==> !(#[trigger] list[j]).name.contains(47),
        extended(prefix, list[i].name).len() > 0,
        next.out == walk.out || (next.out.len() == walk.out.len() + 1 && next.out.take(
            walk.out.len() as int,
        ) == walk.out && next.out.last().path == extended(prefix, list[i].name)),
        added_below(next, middle, extended(prefix, list[i].name)),
        added_apart(middle, last, prefix, list, i + 1),
    ensures
        added_apart(walk, last, prefix, list, i),
{
    let n = walk.out.len() as int;
    let m = next.out.len() as int;
    let q = middle.out.len() as int;
    let own = extended(prefix, list[i].name);
    assert(last.out.take(n) =~= last.out.take(q).take(n));
    assert(middle.out.take(n) =~= middle.out.take(m).take(n));
    assert(next.out.take(n) =~= walk.out);
    assert(last.out.take(n) =~= walk.out);
    assert forall|k: int| n <= k < q implies covers(
        prefix,
        list[i].name,
        (#[trigger] last.out[k]).path,
    ) by {
        assert(last.out[k] == last.out.take(q)[k]);
        if k < m {
            assert(middle.out[k] == middle.out.take(m)[k]);
            assert(k == n);
        } else {
            assert(stands_below(middle.out[k].path, own));
        }
    }
    assert forall|k: int| n <= k < last.out.len() implies exists|j: int|
        i <= j < list.len() && covers(
            prefix,
            (#[trigger] list[j]).name,
            (#[trigger] last.out[k]).path,
        ) by {
        if k < q {
            assert(covers(prefix, list[i].name, last.out[k].path));
        } else {
            let j = choose|j: int|
                i + 1 <= j < list.len() && covers(
                    prefix,
                    (#[trigger] list[j]).name,
                    last.out[k].path,
                );
            assert(covers(prefix, list[j].name, last.out[k].path));
        }
    }
    assert forall|k: int, l: int| n <= k < l < last.out.len() implies (#[trigger] last.out[k]).path
        != (#[trigger] last.out[l]).path by {
        if l < q {
            assert(last.out[k] == last.out.take(q)[k]);
            assert(last.out[l] == last.out.take(q)[l]);
            if k < m {
                assert(middle.out[k] == middle.out.take(m)[k]);
                assert(stands_below(middle.out[l].path, own));
            }
        } else if k < q {
            assert(covers(prefix, list[i].name, last.out[k].path));
            let j = choose|j: int|
                i + 1 <= j < list.len() && covers(
                    prefix,
                    (#[trigger] list[j]).name,
                    last.out[l].path,
                );
            if last.out[k].path == last.out[l].path {
                assert(list[i].name != list[j].name);
                if list[i].name.len() <= list[j].name.len() {
                    lemma_covers_one(prefix, list[i].name, list[j].name, last.out[k].path);
                } else {
                    lemma_covers_one(prefix, list[j].name, list[i].name, last.out[k].path);
                }
            }
        }
    }
}

/// No path stands twice in a listing, where no stored tree names an entry
/// twice.
pub proof fn lemma_listed_paths_differ(
    files: memory::Tree,
    git: Seq<u8>,
    id: Seq<u8>,
    options: ListingModel,
)
    requires
        trees_name_once(files, git, options.max_object_size as nat),
    ensures
        listing_of(files, git, id, options) matches Ok(list) ==> forall|i: int, j: int|
            0 <= i < j < list.len() ==> (#[trigger] list[i]).path != (#[trigger] list[j]).path,
{
    if listing_of(files, git, id, options) is Ok {
        let top = treeish(files, git, id, options.max_object_size as nat)->Ok_0;
        lemma_tree_walk_adds(
            files,
            git,
            top,
            Seq::empty(),
            0,
            options,
            Walk { visited: 0, out: Seq::empty() },
        );
    }
}

// ---------------------------------------------------------------------------
// Named paths

/// Whether a tree, or one at most `steps` levels below it, has an entry at a
/// path.
pub open spec fn holds(
    files: memory::Tree,
    git: Seq<u8>,
    id: Seq<u8>,
    prefix: Seq<u8>,
    entry: Listed,
    size: nat,
    steps: nat,
) -> bool
    decreases steps,
{
    tree::stored_tree(files, git, id, size) matches Ok(list) && exists|i: int|
        #![trigger list[i]]
        0 <= i < list.len() && {
            let at = extended(prefix, list[i].name);
            ||| at == entry.path && list[i].mode == entry.mode && list[i].id == entry.id
            ||| list[i].mode is Tree && stands_below(entry.path, at) && steps > 0 && holds(
                files,
                git,
                list[i].id,
                at,
                entry,
                size,
                (steps - 1) as nat,
            )
        }
}

/// Whether a listing has an entry, whatever its size.
pub open spec fn lists(out: Seq<Listed>, entry: Listed) -> bool {
    exists|k: int|
        0 <= k < out.len() && (#[trigger] out[k]).path == entry.path && out[k].mode == entry.mode
            && out[k].id == entry.id
}

proof fn lemma_tree_walk_grows(
    files: memory::Tree,
    git: Seq<u8>,
    id: Seq<u8>,
    prefix: Seq<u8>,
    depth: int,
    options: ListingModel,
    walk: Walk,
    entry: Listed,
)
    requires
        lists(walk.out, entry),
        walk_tree(files, git, id, prefix, depth, options, walk) is Ok,
    ensures
        lists((walk_tree(files, git, id, prefix, depth, options, walk)->Ok_0).out, entry),
    decreases options.max_depth + 1 - depth, 1int, 0int,
{
    let list = tree::stored_tree(files, git, id, options.max_object_size as nat)->Ok_0;
    lemma_item_walk_grows(files, git, list, 0, prefix, depth, options, walk, entry);
}

proof fn lemma_item_walk_grows(
    files: memory::Tree,
    git: Seq<u8>,
    list: Seq<TreeItem>,
    i: int,
    prefix: Seq<u8>,
    depth: int,
    options: ListingModel,
    walk: Walk,
    entry: Listed,
)
    requires
        lists(walk.out, entry),
        walk_items(files, git, list, i, prefix, depth, options, walk) is Ok,
    ensures
        lists((walk_items(files, git, list, i, prefix, depth, options, walk)->Ok_0).out, entry),
    decreases options.max_depth + 1 - depth, 0int, list.len() - i,
{
    if !(i < 0 || i >= list.len() || depth > options.max_depth) {
        let item = list[i];
        let path = extended(prefix, item.name);
        let next = emitted_walk(files, git, path, item, options, walk);
        assert(lists(next.out, entry)) by {
            let k = choose|k: int|
                0 <= k < walk.out.len() && (#[trigger] walk.out[k]).path == entry.path
                    && walk.out[k].mode == entry.mode && walk.out[k].id == entry.id;
            assert(next.out[k] == walk.out[k]);
        }
        if item.mode is Tree && descends(path, options.recursive, options.paths) {
            lemma_tree_walk_grows(files, git, item.id, path, depth + 1, options, next, entry);
            let after = walk_tree(files, git, item.id, path, depth + 1, options, next)->Ok_0;
            lemma_item_walk_grows(files, git, list, i + 1, prefix, depth, options, after, entry);
        } else {
            lemma_item_walk_grows(files, git, list, i + 1, prefix, depth, options, next, entry);
        }
    }
}

/// The walk once an entry of a tree was listed, where it is.
spec fn emitted_walk(
    files: memory::Tree,
    git: Seq<u8>,
    path: Seq<u8>,
    item: TreeItem,
    options: ListingModel,
    walk: Walk,
) -> Walk {
    if emits(options, path, item.mode) {
        Walk {
            visited: walk.visited + 1,
            out: walk.out.push(
                listed_entry(
                    files,
                    git,
                    path,
                    item,
                    options.include_object_size,
                    options.max_object_size as nat,
                )->Ok_0,
            ),
        }
    } else {
        Walk { visited: walk.visited + 1, out: walk.out }
    }
}

/// Whether options ask for a file at a path: by its name, or for all files.
pub open spec fn asks_for(options: ListingModel, path: Seq<u8>) -> bool {
    &&& !options.trees_only
    &&& options.paths.contains(path) || (options.paths.len() == 0 && options.recursive)
}

/// A walk lists a file that is asked for, where the tree holds it.
pub proof fn lemma_tree_walk_reaches(
    files: memory::Tree,
    git: Seq<u8>,
    id: Seq<u8>,
    prefix: Seq<u8>,
    depth: int,
    options: ListingModel,
    walk: Walk,
    entry: Listed,
    steps: nat,
)
    requires
        asks_for(options, entry.path),
        !(entry.mode is Tree),
        holds(files, git, id, prefix, entry, options.max_object_size as nat, steps),
        walk_tree(files, git, id, prefix, depth, options, walk) is Ok,
    ensures
        lists((walk_tree(files, git, id, prefix, depth, options, walk)->Ok_0).out, entry),
    decreases steps, 1int, 0int,
{
    let size = options.max_object_size as nat;
    let list = tree::stored_tree(files, git, id, size)->Ok_0;
    let i = choose|i: int|
        #![trigger list[i]]
        0 <= i < list.len() && {
            let at = extended(prefix, list[i].name);
            ||| at == entry.path && list[i].mode == entry.mode && list[i].id == entry.id
            ||| list[i].mode is Tree && stands_below(entry.path, at) && steps > 0 && holds(
                files,
                git,
                list[i].id,
                at,
                entry,
                size,
                (steps - 1) as nat,
            )
        };
    lemma_item_walk_reaches(files, git, list, 0, i, prefix, depth, options, walk, entry, steps);
}

proof fn lemma_item_walk_reaches(
    files: memory::Tree,
    git: Seq<u8>,
    list: Seq<TreeItem>,
    k: int,
    i: int,
    prefix: Seq<u8>,
    depth: int,
    options: ListingModel,
    walk: Walk,
    entry: Listed,
    steps: nat,
)
    requires
        asks_for(options, entry.path),
        !(entry.mode is Tree),
        depth <= options.max_depth,
        0 <= k <= i < list.len(),
        ({
            let at = extended(prefix, list[i].name);
            ||| at == entry.path && list[i].mode == entry.mode && list[i].id == entry.id
            ||| list[i].mode is Tree && stands_below(entry.path, at) && steps > 0 && holds(
                files,
                git,
                list[i].id,
                at,
                entry,
                options.max_object_size as nat,
                (steps - 1) as nat,
            )
        }),
        walk_items(files, git, list, k, prefix, depth, options, walk) is Ok,
    ensures
        lists((walk_items(files, git, list, k, prefix, depth, options, walk)->Ok_0).out, entry),
    decreases steps, 0int, i - k,
{
    let item = list[k];
    let path = extended(prefix, item.name);
    let next = emitted_walk(files, git, path, item, options, walk);
    let below = item.mode is Tree && descends(path, options.recursive, options.paths);
    let middle = if below {
        walk_tree(files, git, item.id, path, depth + 1, options, next)->Ok_0
    } else {
        next
    };
    if k < i {
        lemma_item_walk_reaches(
            files,
            git,
            list,
            k + 1,
            i,
            prefix,
            depth,
            options,
            middle,
            entry,
            steps,
        );
    } else {
        let n = choose|n: int| 0 <= n < options.paths.len() && options.paths[n] == entry.path;
        if path == entry.path && item.mode == entry.mode && item.id == entry.id {
            assert(emits(options, path, item.mode)) by {
                reveal(emits);
                if options.paths.len() > 0 {
                    assert(wanted(path, options.paths[n]));
                }
            }
            reveal(listed_entry);
            assert(next.out.last().path == entry.path);
            assert(next.out[next.out.len() - 1].path == entry.path);
            assert(lists(next.out, entry));
        } else {
            if options.paths.len() > 0 {
                assert(calls_for(path, options.recursive, options.paths[n]));
            }
            lemma_tree_walk_reaches(
                files,
                git,
                item.id,
                path,
                depth + 1,
                options,
                next,
                entry,
                (steps - 1) as nat,
            );
        }
        lemma_item_walk_grows(files, git, list, k + 1, prefix, depth, options, middle, entry);
    }
}

/// A file that stands in a tree, at whatever level, is listed where its path
/// is asked for.
pub proof fn lemma_named_file_is_listed(
    files: memory::Tree,
    git: Seq<u8>,
    id: Seq<u8>,
    options: ListingModel,
    entry: Listed,
    steps: nat,
)
    requires
        options.paths.contains(entry.path),
        !options.trees_only,
        !(entry.mode is Tree),
        treeish(files, git, id, options.max_object_size as nat) matches Ok(top) && holds(
            files,
            git,
            top,
            Seq::empty(),
            entry,
            options.max_object_size as nat,
            steps,
        ),
    ensures
        listing_of(files, git, id, options) matches Ok(list) ==> lists(list, entry),
{
    if listing_of(files, git, id, options) is Ok {
        let top = treeish(files, git, id, options.max_object_size as nat)->Ok_0;
        lemma_tree_walk_reaches(
            files,
            git,
            top,
            Seq::empty(),
            0,
            options,
            Walk { visited: 0, out: Seq::empty() },
            entry,
            steps,
        );
    }
}

} // verus!
