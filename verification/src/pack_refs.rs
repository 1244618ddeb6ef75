//! Moving loose references into one file.

use vstd::prelude::*;

use crate::bytemap::ByteMap;
use crate::bytes;
use crate::for_each_ref;
use crate::fs;
use crate::fs::memory;
use crate::fs::memory::MemoryFileSystem;
use crate::fs::path;
use crate::fs::{Fault, FileSystem, Refusal};
use crate::ignore;
use crate::mail;
use crate::object;
use crate::object::{ObjectId, ObjectKind};
use crate::packed_refs;
use crate::packed_refs::PackedValue;
use crate::refname;
use crate::repository;
use crate::repository::Repository;
use crate::storage;
use crate::{Error, Result};

verus! {

/// Which references are packed, and the limits.
#[derive(Debug, PartialEq, Eq)]
pub struct PackRefsOptions {
    /// Take every reference; otherwise tags, unless patterns are given.
    pub all: bool,
    /// Remove the loose references that were packed.
    pub prune: bool,
    /// Patterns that take the place of tags.
    pub included: Vec<Vec<u8>>,
    pub exclude: Vec<Vec<u8>>,
    pub max_object_size: usize,
    pub max_tag_depth: usize,
    pub max_refs: usize,
    /// Only tell what would be packed.
    pub dry_run: bool,
}

/// Whether options are the ones to begin with.
pub open spec fn by_default(r: PackRefsOptions) -> bool {
    &&& !r.all && r.prune && !r.dry_run
    &&& r.included@.len() == 0 && r.exclude@.len() == 0
    &&& r.max_object_size == 1024 * 1024 * 1024
    &&& r.max_tag_depth == 64
    &&& r.max_refs == 10_000_000
}

impl Default for PackRefsOptions {
    fn default() -> (r: Self)
        ensures
            by_default(r),
    {
        PackRefsOptions {
            all: false,
            prune: true,
            included: Vec::new(),
            exclude: Vec::new(),
            max_object_size: 1024 * 1024 * 1024,
            max_tag_depth: 64,
            max_refs: 10_000_000,
            dry_run: false,
        }
    }
}

/// The names that were packed, and how many loose references were removed.
#[derive(Debug, PartialEq, Eq)]
pub struct PackRefsResult {
    pub packed: Vec<Vec<u8>>,
    pub pruned: usize,
}

impl PackRefsResult {
    pub fn packed(&self) -> (r: &[Vec<u8>])
        ensures
            r@ == self.packed@,
    {
        self.packed.as_slice()
    }
}

// ---------------------------------------------------------------------------
// Which references

pub open spec fn any_matches(patterns: Seq<Seq<u8>>, name: Seq<u8>) -> bool {
    exists|k: int|
        0 <= k < patterns.len() && ignore::wild_match(#[trigger] patterns[k], name, false)
}

/// Whether a name is taken: an exclusion wins.
pub open spec fn is_selected(name: Seq<u8>, options: PackRefsOptions) -> bool {
    &&& if options.all {
        true
    } else if options.included@.len() == 0 {
        bytes::has_prefix(name, bytes::utf8("refs/tags/"@))
    } else {
        any_matches(bytes::deep(options.included@), name)
    }
    &&& !any_matches(bytes::deep(options.exclude@), name)
}

/// Whether a reference belongs to one working tree alone.
pub open spec fn is_own(name: Seq<u8>) -> bool {
    ||| bytes::has_prefix(name, bytes::utf8("refs/bisect/"@))
    ||| bytes::has_prefix(name, bytes::utf8("refs/worktree/"@))
    ||| bytes::has_prefix(name, bytes::utf8("refs/rewritten/"@))
}

pub open spec fn bad_pattern(pattern: Seq<u8>) -> bool {
    pattern.len() == 0 || pattern.contains(0)
}

pub open spec fn has_bad(patterns: Seq<Seq<u8>>) -> bool {
    exists|k: int| 0 <= k < patterns.len() && bad_pattern(#[trigger] patterns[k])
}

/// The object that a loose reference holds, `None` where it names another
/// reference, or why it is refused.
pub open spec fn loose_object(data: Seq<u8>) -> core::result::Result<Option<Seq<u8>>, Error> {
    let text = mail::trimmed(data);
    if bytes::has_prefix(text, bytes::utf8("ref: "@)) {
        Ok(None)
    } else {
        match object::id_of_hex(text) {
            Some(id) => Ok(Some(id)),
            None => Err(Error::InvalidReference("malformed loose reference")),
        }
    }
}

/// A loose reference that is packed.
#[verifier::ext_equal]
pub struct Loose {
    pub path: Seq<u8>,
    pub name: Seq<u8>,
    pub id: Seq<u8>,
    pub kind: ObjectKind,
}

/// The kind of an object, `None` where it is not here.
#[verifier::opaque]
pub open spec fn kind_at(files: memory::Tree, git: Seq<u8>, id: Seq<u8>, limit: nat) -> core::result::Result<
    Option<ObjectKind>,
    Refusal,
> {
    match storage::stored_object(files, git, id, limit) {
        Err(refusal) => if ignore::is_absent(refusal) {
            Ok(None)
        } else {
            Err(refusal)
        },
        Ok((kind, _)) => Ok(Some(kind)),
    }
}

/// The name of the reference at a path of the repository's own directory.
pub open spec fn name_at(git: Seq<u8>, p: Seq<u8>) -> Seq<u8> {
    if git.len() == 0 {
        p
    } else {
        p.skip(git.len() as int + 1)
    }
}

/// The reference at a path, where it is to be packed. One whose object is not
/// here is passed over.
#[verifier::opaque]
pub open spec fn loose_at(
    files: memory::Tree,
    git: Seq<u8>,
    p: Seq<u8>,
    options: PackRefsOptions,
) -> core::result::Result<Option<Loose>, Refusal> {
    let name = name_at(git, p);
    match files[p] {
        memory::Node::File { data, .. } => if bytes::has_suffix(name, bytes::utf8(".lock"@))
            || is_own(name) || !is_selected(name, options) {
            Ok(None)
        } else {
            match loose_object(data) {
                Err(error) => Err(Refusal::Said(error)),
                Ok(None) => Ok(None),
                Ok(Some(id)) => match kind_at(files, git, id, options.max_object_size as nat) {
                    Err(refusal) => Err(refusal),
                    Ok(None) => Ok(None),
                    Ok(Some(kind)) => Ok(Some(Loose { path: p, name, id, kind })),
                },
            }
        },
        _ => Ok(None),
    }
}

/// The references to pack among the first `n` paths.
pub open spec fn loose_among(
    files: memory::Tree,
    git: Seq<u8>,
    paths: Seq<Seq<u8>>,
    options: PackRefsOptions,
    n: int,
) -> core::result::Result<Seq<Loose>, Refusal>
    decreases n,
{
    if n <= 0 {
        Ok(Seq::empty())
    } else {
        match loose_among(files, git, paths, options, n - 1) {
            Err(refusal) => Err(refusal),
            Ok(before) => match loose_at(files, git, paths[n - 1], options) {
                Err(refusal) => Err(refusal),
                Ok(None) => Ok(before),
                Ok(Some(found)) => if before.len() + 1 > options.max_refs {
                    Err(Refusal::Said(Error::InvalidRepository("loose reference limit exceeded")))
                } else {
                    Ok(before.push(found))
                },
            },
        }
    }
}

pub open spec fn refs_root(git: Seq<u8>) -> Seq<u8> {
    repository::joined(git, bytes::utf8("refs"@))
}

/// The references to pack, in ascending order of names.
pub open spec fn loose_refs(files: memory::Tree, git: Seq<u8>, options: PackRefsOptions) -> core::result::Result<
    Seq<Loose>,
    Refusal,
> {
    let paths = memory::paths_below(files, refs_root(git));
    match storage::listed(files, refs_root(git)) {
        Err(refusal) => Err(refusal),
        Ok(_) => loose_among(files, git, paths, options, paths.len() as int),
    }
}

proof fn lemma_loose_persist(
    files: memory::Tree,
    git: Seq<u8>,
    paths: Seq<Seq<u8>>,
    options: PackRefsOptions,
    n: int,
    m: int,
)
    requires
        0 <= n <= m,
        loose_among(files, git, paths, options, n) is Err,
    ensures
        loose_among(files, git, paths, options, m) == loose_among(files, git, paths, options, n),
    decreases m - n,
{
    if n < m {
        lemma_loose_persist(files, git, paths, options, n, m - 1);
    }
}

struct LooseRef {
    path: Vec<u8>,
    name: Vec<u8>,
    id: ObjectId,
    kind: ObjectKind,
}

impl LooseRef {
    spec fn model(self) -> Loose {
        Loose { path: self.path@, name: self.name@, id: self.id@, kind: self.kind }
    }
}

spec fn models(list: Seq<LooseRef>) -> Seq<Loose> {
    Seq::new(list.len(), |i: int| list[i].model())
}

fn matches_any(patterns: &[Vec<u8>], name: &[u8]) -> (r: bool)
    ensures
        r == any_matches(bytes::deep(patterns@), name@),
{
    let ghost all = bytes::deep(patterns@);
    let mut i: usize = 0;
    while i < patterns.len()
        invariant
            i <= patterns@.len(),
            all == bytes::deep(patterns@),
            forall|k: int| 0 <= k < i ==> !ignore::wild_match(#[trigger] all[k], name@, false),
        decreases patterns@.len() - i,
    {
        assert(all[i as int] == patterns@[i as int]@);
        if ignore::wildmatch_ref(patterns[i].as_slice(), name) {
            return true;
        }
        i += 1;
    }
    false
}

fn selected_ref(name: &[u8], options: &PackRefsOptions) -> (r: bool)
    ensures
        r == is_selected(name@, *options),
{
    let taken = if options.all {
        true
    } else if options.included.len() == 0 {
        bytes::starts_with(name, "refs/tags/".as_bytes())
    } else {
        matches_any(options.included.as_slice(), name)
    };
    taken && !matches_any(options.exclude.as_slice(), name)
}

fn is_per_worktree_ref(name: &[u8]) -> (r: bool)
    ensures
        r == is_own(name@),
{
    bytes::starts_with(name, "refs/bisect/".as_bytes()) || bytes::starts_with(
        name,
        "refs/worktree/".as_bytes(),
    ) || bytes::starts_with(name, "refs/rewritten/".as_bytes())
}

fn validate_patterns(patterns: &[Vec<u8>]) -> (r: Result<()>)
    ensures
        if has_bad(bytes::deep(patterns@)) {
            r is Err && r->Err_0 == Error::InvalidReference(
                "empty or NUL-containing pack-refs pattern",
            )
        } else {
            r is Ok
        },
{
    let ghost all = bytes::deep(patterns@);
    let mut i: usize = 0;
    while i < patterns.len()
        invariant
            i <= patterns@.len(),
            all == bytes::deep(patterns@),
            forall|k: int| 0 <= k < i ==> !bad_pattern(#[trigger] all[k]),
        decreases patterns@.len() - i,
    {
        assert(all[i as int] == patterns@[i as int]@);
        if patterns[i].len() == 0 || bytes::contains_byte(patterns[i].as_slice(), 0) {
            assert(bad_pattern(all[i as int]));
            return Err(Error::InvalidReference("empty or NUL-containing pack-refs pattern"));
        }
        i += 1;
    }
    Ok(())
}

fn parse_loose(data: &[u8]) -> (r: Result<Option<ObjectId>>)
    ensures
        match loose_object(data@) {
            Ok(Some(id)) => r is Ok && r->Ok_0 is Some && (r->Ok_0->0)@ == id,
            Ok(None) => r is Ok && r->Ok_0 is None,
            Err(error) => r is Err && r->Err_0 == error,
        },
{
    let text = mail::trim_ascii(data);
    if bytes::starts_with(text, "ref: ".as_bytes()) {
        return Ok(None);
    }
    match ObjectId::from_hex(text) {
        Ok(id) => Ok(Some(id)),
        Err(_) => Err(Error::InvalidReference("malformed loose reference")),
    }
}

impl Repository {
    fn find_kind(&self, id: ObjectId, limit: usize) -> (r: Result<Option<ObjectKind>>)
        ensures
            match kind_at(self.tree(), self.git(), id@, limit as nat) {
                Ok(kind) => r == Ok::<Option<ObjectKind>, Error>(kind),
                Err(refusal) => fs::declined(r, refusal),
            },
    {
        reveal(kind_at);
        match self.read_object_raw(id, limit) {
            Ok(object) => Ok(Some(object.kind())),
            Err(Error::NotFound(_)) => Ok(None),
            Err(error) => Err(error),
        }
    }

    fn read_loose(&self, p: &Vec<u8>, options: &PackRefsOptions) -> (r: Result<Option<LooseRef>>)
        requires
            self.tree().contains_key(p@),
            path::normalized(p@) == Some(p@),
            p@.len() >= self.git().len() + 1,
        ensures
            match loose_at(self.tree(), self.git(), p@, *options) {
                Ok(Some(found)) => r is Ok && r->Ok_0 is Some && (r->Ok_0->0).model() == found
                    && found.path == p@,
                Ok(None) => r is Ok && r->Ok_0 is None,
                Err(refusal) => fs::declined(r, refusal),
            },
    {
        reveal(loose_at);
        if !self.filesystem().metadata(p.as_slice())?.is_file() {
            return Ok(None);
        }
        let git = self.git_dir();
        let size: usize = p.len();
        let name = if git.len() == 0 {
            bytes::to_vec(p.as_slice())
        } else {
            let name = bytes::copy_range(p.as_slice(), git.len() + 1, size);
            assert(name@ =~= p@.skip(git@.len() as int + 1));
            name
        };
        if bytes::ends_with(name.as_slice(), ".lock".as_bytes()) || is_per_worktree_ref(
            name.as_slice(),
        ) || !selected_ref(name.as_slice(), options) {
            return Ok(None);
        }
        let data = self.filesystem().read(p.as_slice())?;
        let id = match parse_loose(data.as_slice())? {
            Some(id) => id,
            None => return Ok(None),
        };
        match self.find_kind(id, options.max_object_size)? {
            Some(kind) => Ok(
                Some(LooseRef { path: bytes::to_vec(p.as_slice()), name, id, kind }),
            ),
            None => Ok(None),
        }
    }

    fn packable_loose_refs(&self, options: &PackRefsOptions) -> (r: Result<Vec<LooseRef>>)
        ensures
            match loose_refs(self.tree(), self.git(), *options) {
                Ok(list) => r is Ok && models(r->Ok_0@) == list,
                Err(refusal) => fs::declined(r, refusal),
            },
            r is Ok ==> forall|i: int|
                0 <= i < r->Ok_0@.len() ==> path::plain((#[trigger] r->Ok_0@[i]).path@)
                    && r->Ok_0@[i].path@.len() > 0,
            r is Ok ==> files_apart(self.tree(), models(r->Ok_0@)),
    {
        proof {
            lemma_names_plain();
        }
        self.list_directory("refs".as_bytes())?;
        let root = self.git_path("refs".as_bytes());
        let paths = self.filesystem().list_below(root.as_slice());
        let ghost all = bytes::deep(paths@);
        let ghost files = self.tree();
        let mut output: Vec<LooseRef> = Vec::new();
        assert(models(output@) =~= Seq::empty());
        let mut i: usize = 0;
        while i < paths.len()
            invariant
                i <= paths@.len(),
                all == bytes::deep(paths@),
                files == self.tree(),
                root@ == refs_root(self.git()),
                storage::listed(files, root@) is Ok,
                all == memory::paths_below(files, root@),
                crate::bytemap::ascending(all),
                forall|k: int|
                    0 <= k < paths@.len() ==> files.contains_key((#[trigger] paths@[k])@)
                        && memory::plain_below(paths@[k]@, root@),
                forall|k: int|
                    0 <= k < output@.len() ==> path::plain((#[trigger] output@[k]).path@)
                        && output@[k].path@.len() > 0,
                loose_among(files, self.git(), all, *options, i as int) == Ok::<
                    Seq<Loose>,
                    Refusal,
                >(models(output@)),
            decreases paths@.len() - i,
        {
            proof {
                assert(all[i as int] == paths@[i as int]@);
                assert(memory::plain_below(paths@[i as int]@, root@));
                assert(root@.len() >= self.git().len());
                path::lemma_normalized_plain(paths@[i as int]@);
                if loose_among(files, self.git(), all, *options, i + 1) is Err {
                    lemma_loose_persist(
                        files,
                        self.git(),
                        all,
                        *options,
                        i + 1,
                        all.len() as int,
                    );
                }
            }
            if let Some(found) = self.read_loose(&paths[i], options)? {
                assert(models(output@).len() == output@.len());
                if output.len() >= options.max_refs {
                    return Err(Error::InvalidRepository("loose reference limit exceeded"));
                }
                let ghost before = output@;
                let ghost model = found.model();
                output.push(found);
                assert(models(output@) =~= models(before).push(model));
            }
            i += 1;
        }
        proof {
            assert forall|k: int| 0 <= k < all.len() implies files.contains_key(
                #[trigger] all[k],
            ) by {
                assert(all[k] == paths@[k]@);
            }
            lemma_loose_sound(files, self.git(), all, *options, all.len() as int);
        }
        Ok(output)
    }
}

proof fn lemma_names_plain()
    ensures
        path::plain(bytes::utf8("refs"@)),
        bytes::utf8("refs"@).len() > 0,
        path::plain(bytes::utf8("packed-refs"@)),
        bytes::utf8("packed-refs"@).len() > 0,
{
    reveal_strlit("refs");
    bytes::lemma_ascii("refs"@);
    reveal_strlit("packed-refs");
    bytes::lemma_ascii("packed-refs"@);
    path::lemma_plain_name(bytes::utf8("refs"@));
    path::lemma_plain_name(bytes::utf8("packed-refs"@));
}

// ---------------------------------------------------------------------------
// What is packed

pub open spec fn packed_path(git: Seq<u8>) -> Seq<u8> {
    repository::joined(git, bytes::utf8("packed-refs"@))
}

/// What the file of packed references holds; none holds nothing.
pub open spec fn packed_at(files: memory::Tree, git: Seq<u8>) -> core::result::Result<
    Map<Seq<u8>, PackedValue>,
    Refusal,
> {
    match memory::contents(files, packed_path(git)) {
        Ok(data) => packed_refs::decoded(data),
        Err(fault) => if fault is NotFound {
            Ok(Map::empty())
        } else {
            Err(Refusal::At(fault, packed_path(git)))
        },
    }
}

/// What a reference is packed as: a tag with what it leads to.
#[verifier::opaque]
pub open spec fn packed_value(
    files: memory::Tree,
    git: Seq<u8>,
    item: Loose,
    options: PackRefsOptions,
) -> core::result::Result<PackedValue, Refusal> {
    let id = object::id_with(item.id);
    if item.kind is Tag {
        match for_each_ref::unwrapped(
            files,
            git,
            options.max_object_size as nat,
            item.id,
            seq![item.id],
            None,
            options.max_tag_depth as nat,
        ) {
            Err(refusal) => Err(refusal),
            Ok(end) => Ok(PackedValue { id, peeled: Some(object::id_with(end.id)) }),
        }
    } else {
        Ok(PackedValue { id, peeled: None })
    }
}

/// The packed values once the first `n` references are added.
pub open spec fn with_packed(
    files: memory::Tree,
    git: Seq<u8>,
    map: Map<Seq<u8>, PackedValue>,
    list: Seq<Loose>,
    options: PackRefsOptions,
    n: int,
) -> core::result::Result<Map<Seq<u8>, PackedValue>, Refusal>
    decreases n,
{
    if n <= 0 {
        Ok(map)
    } else {
        match with_packed(files, git, map, list, options, n - 1) {
            Err(refusal) => Err(refusal),
            Ok(before) => match packed_value(files, git, list[n - 1], options) {
                Err(refusal) => Err(refusal),
                Ok(value) => Ok(before.insert(list[n - 1].name, value)),
            },
        }
    }
}

proof fn lemma_packed_persist(
    files: memory::Tree,
    git: Seq<u8>,
    map: Map<Seq<u8>, PackedValue>,
    list: Seq<Loose>,
    options: PackRefsOptions,
    n: int,
    m: int,
)
    requires
        0 <= n <= m,
        with_packed(files, git, map, list, options, n) is Err,
    ensures
        with_packed(files, git, map, list, options, m) == with_packed(
            files,
            git,
            map,
            list,
            options,
            n,
        ),
    decreases m - n,
{
    if n < m {
        lemma_packed_persist(files, git, map, list, options, n, m - 1);
    }
}

/// The first reference that is locked.
pub open spec fn first_locked(files: memory::Tree, list: Seq<Loose>, from: int) -> Option<Seq<u8>>
    decreases list.len() - from,
{
    if from < 0 || from >= list.len() {
        None
    } else if files.contains_key(repository::lock_of(list[from].path)) {
        Some(repository::lock_of(list[from].path))
    } else {
        first_locked(files, list, from + 1)
    }
}

/// A tree without the empty directories from a path up to a root.
pub open spec fn without_empty(tree: memory::Tree, directory: Seq<u8>, root: Seq<u8>) -> memory::Tree
    decreases directory.len(),
{
    if directory.len() <= root.len() {
        tree
    } else {
        let next = if tree.contains_key(directory) && tree[directory] is Directory && !exists|
            q: Seq<u8>,
        |
            memory::is_child(tree, directory, q) {
            tree.remove(directory)
        } else {
            tree
        };
        if memory::parent_of(directory).len() < directory.len() {
            without_empty(next, memory::parent_of(directory), root)
        } else {
            next
        }
    }
}

/// A tree without the first `n` references and the directories that they leave
/// empty.
pub open spec fn pruned(tree: memory::Tree, list: Seq<Loose>, root: Seq<u8>, n: int) -> memory::Tree
    decreases n,
{
    if n <= 0 {
        tree
    } else {
        let before = pruned(tree, list, root, n - 1);
        let p = list[n - 1].path;
        without_empty(before.remove(p), memory::parent_of(p), root)
    }
}

/// What packing makes of the files, and the names that are packed, or why it
/// is refused.
pub open spec fn packing(files: memory::Tree, git: Seq<u8>, options: PackRefsOptions) -> (
    memory::Tree,
    core::result::Result<Seq<Loose>, Refusal>,
) {
    let bad = Refusal::Said(Error::InvalidReference("empty or NUL-containing pack-refs pattern"));
    let full = Refusal::Said(Error::InvalidRepository("packed reference limit exceeded"));
    if has_bad(bytes::deep(options.included@)) || has_bad(bytes::deep(options.exclude@)) {
        (files, Err(bad))
    } else {
        match loose_refs(files, git, options) {
            Err(refusal) => (files, Err(refusal)),
            Ok(list) => {
                let locked = first_locked(files, list, 0);
                let guard = repository::lock_of(packed_path(git));
                if list.len() == 0 {
                    (files, Ok(list))
                } else if !options.dry_run && locked is Some {
                    (files, Err(Refusal::At(Fault::AlreadyExists, locked->0)))
                } else if !options.dry_run && files.contains_key(guard) {
                    (files, Err(Refusal::At(Fault::AlreadyExists, guard)))
                } else {
                    match packed_at(files, git) {
                        Err(refusal) => (files, Err(refusal)),
                        Ok(map) => if options.dry_run && map.len() + list.len()
                            > options.max_refs {
                            (files, Err(full))
                        } else {
                            match with_packed(files, git, map, list, options, list.len() as int) {
                                Err(refusal) => (files, Err(refusal)),
                                Ok(values) => if options.dry_run {
                                    (files, Ok(list))
                                } else if values.len() > options.max_refs {
                                    (files, Err(full))
                                } else {
                                    let (written, refusal) = repository::replaced(
                                        files,
                                        packed_path(git),
                                        packed_refs::encoded(values),
                                    );
                                    match refusal {
                                        Some(refusal) => (written, Err(refusal)),
                                        None => (
                                            if options.prune {
                                                pruned(
                                                    written,
                                                    list,
                                                    refs_root(git),
                                                    list.len() as int,
                                                )
                                            } else {
                                                written
                                            },
                                            Ok(list),
                                        ),
                                    }
                                },
                            }
                        },
                    }
                }
            },
        }
    }
}

fn remove_empty(files: &mut MemoryFileSystem, directory: Vec<u8>, root: &[u8])
    requires
        path::plain(directory@),
    ensures
        final(files)@ == without_empty(old(files)@, directory@, root@),
    decreases directory@.len(),
{
    if directory.len() <= root.len() {
        return;
    }
    proof {
        memory::lemma_parent_plain(directory@);
    }
    let ghost start = files@;
    let _ = files.remove_dir(directory.as_slice());
    let up = memory::parent(directory.as_slice());
    remove_empty(files, up, root);
}

fn prune_refs(files: &mut MemoryFileSystem, list: &Vec<LooseRef>, root: &[u8])
    requires
        forall|i: int|
            0 <= i < list@.len() ==> path::plain((#[trigger] list@[i]).path@)
                && list@[i].path@.len() > 0,
        forall|i: int|
            0 <= i < list@.len() ==> old(files)@.contains_key((#[trigger] list@[i]).path@) && old(files)@[list@[i].path@] is File,
        forall|i: int, j: int|
            0 <= i < j < list@.len() ==> (#[trigger] list@[i]).path@ != (
            #[trigger] list@[j]).path@,
    ensures
        final(files)@ == pruned(old(files)@, models(list@), root@, list@.len() as int),
{
    let ghost start = files@;
    let ghost all = models(list@);
    let mut i: usize = 0;
    while i < list.len()
        invariant
            i <= list@.len(),
            all == models(list@),
            files@ == pruned(start, all, root@, i as int),
            forall|k: int|
                0 <= k < list@.len() ==> path::plain((#[trigger] list@[k]).path@)
                    && list@[k].path@.len() > 0,
            forall|k: int|
                i <= k < list@.len() ==> files@.contains_key((#[trigger] list@[k]).path@)
                    && files@[list@[k].path@] is File,
            forall|k: int, j: int|
                0 <= k < j < list@.len() ==> (#[trigger] list@[k]).path@ != (
                #[trigger] list@[j]).path@,
        decreases list@.len() - i,
    {
        let p = list[i].path.as_slice();
        assert(all[i as int].path == list@[i as int].path@);
        let ghost before = files@;
        let _ = files.remove_file(p);
        proof {
            memory::lemma_parent_plain(p@);
            lemma_files_stay(before.remove(p@), memory::parent_of(p@), root@);
        }
        remove_empty(files, memory::parent(p), root);
        i += 1;
    }
}

/// Removing empty directories leaves the files.
proof fn lemma_files_stay(tree: memory::Tree, directory: Seq<u8>, root: Seq<u8>)
    ensures
        forall|p: Seq<u8>| #[trigger]
            tree.contains_key(p) && tree[p] is File ==> without_empty(
                tree,
                directory,
                root,
            ).contains_key(p) && without_empty(tree, directory, root)[p] == tree[p],
    decreases directory.len(),
{
    if directory.len() > root.len() {
        let next = if tree.contains_key(directory) && tree[directory] is Directory && !exists|
            q: Seq<u8>,
        |
            memory::is_child(tree, directory, q) {
            tree.remove(directory)
        } else {
            tree
        };
        if memory::parent_of(directory).len() < directory.len() {
            lemma_files_stay(next, memory::parent_of(directory), root);
            assert forall|p: Seq<u8>| #[trigger]
                tree.contains_key(p) && tree[p] is File implies without_empty(
                tree,
                directory,
                root,
            ).contains_key(p) && without_empty(tree, directory, root)[p] == tree[p] by {
                assert(next.contains_key(p));
            }
        }
    }
}

/// Whether references stand as files at different paths.
spec fn files_apart(files: memory::Tree, list: Seq<Loose>) -> bool {
    &&& forall|i: int|
        0 <= i < list.len() ==> files.contains_key((#[trigger] list[i]).path)
            && files[list[i].path] is File
    &&& forall|i: int, j: int|
        0 <= i < j < list.len() ==> (#[trigger] list[i]).path != (#[trigger] list[j]).path
}

/// What is known of the references to pack: their paths ascend, and each is a
/// file.
proof fn lemma_loose_sound(
    files: memory::Tree,
    git: Seq<u8>,
    paths: Seq<Seq<u8>>,
    options: PackRefsOptions,
    n: int,
)
    requires
        0 <= n <= paths.len(),
        crate::bytemap::ascending(paths),
        forall|k: int| 0 <= k < paths.len() ==> files.contains_key(#[trigger] paths[k]),
        loose_among(files, git, paths, options, n) is Ok,
    ensures
        ({
            let list = loose_among(files, git, paths, options, n)->Ok_0;
            &&& files_apart(files, list)
            &&& forall|i: int|
                0 <= i < list.len() ==> exists|k: int|
                    0 <= k < n && #[trigger] paths[k] == (#[trigger] list[i]).path
        }),
    decreases n,
{
    if n > 0 {
        lemma_loose_sound(files, git, paths, options, n - 1);
        reveal(loose_at);
        let before = loose_among(files, git, paths, options, n - 1)->Ok_0;
        let list = loose_among(files, git, paths, options, n)->Ok_0;
        assert(files.contains_key(paths[n - 1]));
        assert forall|i: int| 0 <= i < list.len() implies exists|k: int|
            0 <= k < n && #[trigger] paths[k] == (#[trigger] list[i]).path by {
            if i < before.len() {
                assert(list[i] == before[i]);
                let k = choose|k: int|
                    0 <= k < n - 1 && #[trigger] paths[k] == (#[trigger] before[i]).path;
                assert(paths[k] == list[i].path);
            } else {
                assert(paths[n - 1] == list[i].path);
            }
        }
        assert forall|i: int, j: int| 0 <= i < j < list.len() implies (#[trigger] list[i]).path != (
        #[trigger] list[j]).path by {
            assert(list[i] == before[i]);
            let k = choose|k: int|
                0 <= k < n - 1 && #[trigger] paths[k] == (#[trigger] before[i]).path;
            if j < before.len() {
                assert(list[j] == before[j]);
            } else {
                assert(bytes::lex_lt(paths[k], paths[n - 1]));
                bytes::lemma_lex_irreflexive(paths[k]);
            }
        }
    }
}

impl Repository {
    fn read_packed_values(&self) -> (r: Result<ByteMap<PackedValue>>)
        ensures
            match packed_at(self.tree(), self.git()) {
                Ok(map) => r is Ok && r->Ok_0@ == map,
                Err(refusal) => fs::declined(r, refusal),
            },
    {
        proof {
            lemma_names_plain();
        }
        match self.read_git_file("packed-refs".as_bytes()) {
            Ok(data) => packed_refs::decode(data.as_slice()),
            Err(Error::NotFound(_)) => Ok(ByteMap::new()),
            Err(error) => Err(error),
        }
    }

    fn value_of(&self, item: &LooseRef, options: &PackRefsOptions) -> (r: Result<PackedValue>)
        ensures
            match packed_value(self.tree(), self.git(), item.model(), *options) {
                Ok(value) => r is Ok && r->Ok_0 == value,
                Err(refusal) => fs::declined(r, refusal),
            },
    {
        reveal(packed_value);
        proof {
            object::lemma_id_with(item.id);
        }
        match item.kind {
            ObjectKind::Tag => {
                let (end, _, _, _) = self.unwrap_tags(
                    item.id,
                    options.max_object_size,
                    options.max_tag_depth,
                )?;
                proof {
                    object::lemma_id_with(end);
                }
                Ok(PackedValue { id: item.id, peeled: Some(end) })
            },
            _ => Ok(PackedValue { id: item.id, peeled: None }),
        }
    }

    fn add_packed(
        &self,
        values: ByteMap<PackedValue>,
        list: &Vec<LooseRef>,
        options: &PackRefsOptions,
    ) -> (r: Result<ByteMap<PackedValue>>)
        ensures
            match with_packed(
                self.tree(),
                self.git(),
                values@,
                models(list@),
                *options,
                list@.len() as int,
            ) {
                Ok(map) => r is Ok && r->Ok_0@ == map,
                Err(refusal) => fs::declined(r, refusal),
            },
    {
        let ghost start = values@;
        let ghost all = models(list@);
        let ghost files = self.tree();
        let ghost git = self.git();
        let mut merged = values;
        let mut i: usize = 0;
        while i < list.len()
            invariant
                i <= list@.len(),
                all == models(list@),
                start == values@,
                files == self.tree(),
                git == self.git(),
                with_packed(files, git, start, all, *options, i as int) == Ok::<
                    Map<Seq<u8>, PackedValue>,
                    Refusal,
                >(merged@),
            decreases list@.len() - i,
        {
            proof {
                assert(all[i as int] == list@[i as int].model());
                if with_packed(files, git, start, all, *options, i + 1) is Err {
                    lemma_packed_persist(
                        files,
                        git,
                        start,
                        all,
                        *options,
                        i + 1,
                        list@.len() as int,
                    );
                }
            }
            let value = self.value_of(&list[i], options)?;
            merged.insert(bytes::to_vec(list[i].name.as_slice()), value);
            i += 1;
        }
        Ok(merged)
    }

    /// Refuses where a reference to pack is locked.
    fn check_locks(&self, list: &Vec<LooseRef>) -> (r: Result<()>)
        requires
            forall|i: int|
                0 <= i < list@.len() ==> path::plain((#[trigger] list@[i]).path@)
                    && list@[i].path@.len() > 0,
        ensures
            match first_locked(self.tree(), models(list@), 0) {
                Some(lock) => fs::refused(r, Fault::AlreadyExists, lock),
                None => r is Ok,
            },
    {
        let ghost all = models(list@);
        let mut i: usize = 0;
        while i < list.len()
            invariant
                i <= list@.len(),
                all == models(list@),
                forall|k: int|
                    0 <= k < list@.len() ==> path::plain((#[trigger] list@[k]).path@)
                        && list@[k].path@.len() > 0,
                first_locked(self.tree(), all, 0) == first_locked(self.tree(), all, i as int),
            decreases list@.len() - i,
        {
            assert(all[i as int].path == list@[i as int].path@);
            self.check_lock(list[i].path.as_slice())?;
            i += 1;
        }
        Ok(())
    }

    fn check_lock(&self, p: &[u8]) -> (r: Result<()>)
        requires
            path::plain(p@),
            p@.len() > 0,
        ensures
            if self.tree().contains_key(repository::lock_of(p@)) {
                fs::refused(r, Fault::AlreadyExists, repository::lock_of(p@))
            } else {
                r is Ok
            },
    {
        let mut lock = bytes::to_vec(p);
        bytes::append(&mut lock, ".lock".as_bytes());
        proof {
            repository::lemma_lock(p@);
        }
        if self.filesystem().is_present(lock.as_slice())? {
            return Err(Error::AlreadyExists(lock));
        }
        Ok(())
    }

    /// Merge selected loose references into the file of packed ones.
    ///
    /// References that name others are never packed. What the file holds
    /// already is kept. Where a lock stands nothing changes.
    pub fn pack_refs(&mut self, options: &PackRefsOptions) -> (r: Result<PackRefsResult>)
        ensures
            ({
                let (tree, outcome) = packing(old(self).tree(), old(self).git(), *options);
                &&& final(self).tree() == tree
                &&& final(self).git() == old(self).git()
                &&& final(self).work() == old(self).work()
                &&& match outcome {
                    Err(refusal) => fs::declined(r, refusal),
                    Ok(list) => {
                        &&& r is Ok
                        &&& bytes::deep(r->Ok_0.packed@) == Seq::new(
                            list.len(),
                            |i: int| list[i].name,
                        )
                        &&& r->Ok_0.pruned == (if options.prune && !options.dry_run {
                            list.len()
                        } else {
                            0
                        })
                    },
                }
            }),
    {
        validate_patterns(options.included.as_slice())?;
        validate_patterns(options.exclude.as_slice())?;
        let list = self.packable_loose_refs(options)?;
        let ghost all = models(list@);
        let ghost files = self.tree();
        let ghost git = self.git();
        assert(all.len() == list@.len());
        let packed = names_of(&list);
        if list.len() == 0 {
            return Ok(PackRefsResult { packed, pruned: 0 });
        }
        proof {
            lemma_names_plain();
        }
        let target = self.git_path("packed-refs".as_bytes());
        if !options.dry_run {
            self.check_locks(&list)?;
            self.check_lock(target.as_slice())?;
        }
        let existing = self.read_packed_values()?;
        if options.dry_run {
            let held: usize = existing.len();
            if list.len() > options.max_refs || held > options.max_refs - list.len() {
                return Err(Error::InvalidRepository("packed reference limit exceeded"));
            }
        }
        let values = self.add_packed(existing, &list, options)?;
        if options.dry_run {
            return Ok(PackRefsResult { packed, pruned: 0 });
        }
        if values.len() > options.max_refs {
            return Err(Error::InvalidRepository("packed reference limit exceeded"));
        }
        let data = packed_refs::encode(&values);
        self.write_atomic("packed-refs".as_bytes(), data.as_slice())?;
        if !options.prune {
            return Ok(PackRefsResult { packed, pruned: 0 });
        }
        let root = self.git_path("refs".as_bytes());
        let mut changed = self.swap_files(MemoryFileSystem::new());
        proof {
            lemma_prunable(files, git, list@, data@);
        }
        prune_refs(&mut changed, &list, root.as_slice());
        let pruned: usize = list.len();
        let _ = self.swap_files(changed);
        Ok(PackRefsResult { packed, pruned })
    }
}

fn names_of(list: &Vec<LooseRef>) -> (r: Vec<Vec<u8>>)
    ensures
        bytes::deep(r@) == Seq::new(models(list@).len(), |i: int| models(list@)[i].name),
{
    let mut out: Vec<Vec<u8>> = Vec::new();
    let mut i: usize = 0;
    while i < list.len()
        invariant
            i <= list@.len(),
            out@.len() == i,
            forall|k: int| 0 <= k < i ==> (#[trigger] out@[k])@ == list@[k].name@,
        decreases list@.len() - i,
    {
        out.push(bytes::to_vec(list[i].name.as_slice()));
        i += 1;
    }
    assert(bytes::deep(out@) =~= Seq::new(models(list@).len(), |i: int| models(list@)[i].name));
    out
}

/// The references that were packed stand as files beside the file that holds
/// them now.
proof fn lemma_prunable(files: memory::Tree, git: Seq<u8>, list: Seq<LooseRef>, data: Seq<u8>)
    requires
        files_apart(files, models(list)),
        repository::replaced(files, packed_path(git), data).1 is None,
    ensures
        ({
            let tree = repository::replaced(files, packed_path(git), data).0;
            forall|i: int|
                0 <= i < list.len() ==> tree.contains_key((#[trigger] list[i]).path@)
                    && tree[list[i].path@] is File
        }),
        forall|i: int, j: int|
            0 <= i < j < list.len() ==> (#[trigger] list[i]).path@ != (#[trigger] list[j]).path@,
{
    let all = models(list);
    let p = packed_path(git);
    let up = memory::parent_of(p);
    if up.len() > 0 {
        memory::lemma_directories_keep(files, up, 0);
    }
    assert forall|i: int| 0 <= i < list.len() implies {
        let tree = repository::replaced(files, p, data).0;
        tree.contains_key((#[trigger] list[i]).path@) && tree[list[i].path@] is File
    } by {
        assert(all[i].path == list[i].path@);
    }
    assert forall|i: int, j: int| 0 <= i < j < list.len() implies (#[trigger] list[i]).path@ != (
    #[trigger] list[j]).path@ by {
        assert(all[i].path == list[i].path@);
        assert(all[j].path == list[j].path@);
    }
}

/// What the file holds already for a name that is not packed is kept.
pub proof fn lemma_others_kept(
    files: memory::Tree,
    git: Seq<u8>,
    map: Map<Seq<u8>, PackedValue>,
    list: Seq<Loose>,
    options: PackRefsOptions,
    name: Seq<u8>,
    n: int,
)
    requires
        0 <= n <= list.len(),
        map.contains_key(name),
        forall|i: int| 0 <= i < list.len() ==> (#[trigger] list[i]).name != name,
        with_packed(files, git, map, list, options, n) is Ok,
    ensures
        with_packed(files, git, map, list, options, n)->Ok_0.contains_key(name),
        with_packed(files, git, map, list, options, n)->Ok_0[name] == map[name],
    decreases n,
{
    if n > 0 {
        lemma_others_kept(files, git, map, list, options, name, n - 1);
        assert(list[n - 1].name != name);
    }
}

// ---------------------------------------------------------------------------
// What references lead to

/// Where a reference leads: to an object, or to what its file says otherwise.
#[verifier::ext_equal]
pub enum Leads {
    Object(Seq<u8>),
    Said(Seq<u8>),
    Nowhere,
}

/// Where a reference leads: its own file comes first, then the file of packed
/// references.
pub open spec fn leads(files: memory::Tree, git: Seq<u8>, name: Seq<u8>) -> Leads {
    match memory::contents(files, repository::joined(git, name)) {
        Ok(data) => match loose_object(data) {
            Ok(Some(id)) => Leads::Object(id),
            _ => Leads::Said(data),
        },
        Err(_) => match packed_at(files, git) {
            Ok(map) => if map.contains_key(name) {
                Leads::Object(map[name].id@)
            } else {
                Leads::Nowhere
            },
            Err(_) => Leads::Nowhere,
        },
    }
}

proof fn lemma_without_empty(tree: memory::Tree, directory: Seq<u8>, root: Seq<u8>)
    ensures
        forall|q: Seq<u8>| #[trigger]
            without_empty(tree, directory, root).contains_key(q) ==> tree.contains_key(q)
                && without_empty(tree, directory, root)[q] == tree[q],
        forall|q: Seq<u8>| #[trigger]
            tree.contains_key(q) && !(tree[q] is Directory) ==> without_empty(
                tree,
                directory,
                root,
            ).contains_key(q),
    decreases directory.len(),
{
    if directory.len() > root.len() {
        let next = if tree.contains_key(directory) && tree[directory] is Directory && !exists|
            q: Seq<u8>,
        |
            memory::is_child(tree, directory, q) {
            tree.remove(directory)
        } else {
            tree
        };
        let after = without_empty(tree, directory, root);
        if memory::parent_of(directory).len() < directory.len() {
            lemma_without_empty(next, memory::parent_of(directory), root);
            assert(after == without_empty(next, memory::parent_of(directory), root));
        } else {
            assert(after == next);
        }
        assert forall|q: Seq<u8>| #[trigger] after.contains_key(q) implies tree.contains_key(q)
            && after[q] == tree[q] by {
            assert(next.contains_key(q));
        }
        assert forall|q: Seq<u8>| #[trigger]
            tree.contains_key(q) && !(tree[q] is Directory) implies after.contains_key(q) by {
            assert(next.contains_key(q));
        }
    }
}

/// Whether a path is that of one of the first `n` references.
spec fn is_listed(list: Seq<Loose>, n: int, p: Seq<u8>) -> bool {
    exists|i: int| 0 <= i < n && (#[trigger] list[i]).path == p
}

proof fn lemma_pruned_nodes(tree: memory::Tree, list: Seq<Loose>, root: Seq<u8>, n: int)
    requires
        0 <= n <= list.len(),
    ensures
        forall|q: Seq<u8>| #[trigger]
            pruned(tree, list, root, n).contains_key(q) ==> tree.contains_key(q) && pruned(
                tree,
                list,
                root,
                n,
            )[q] == tree[q] && !is_listed(list, n, q),
        forall|q: Seq<u8>| #[trigger]
            tree.contains_key(q) && !(tree[q] is Directory) && !is_listed(list, n, q) ==> pruned(
                tree,
                list,
                root,
                n,
            ).contains_key(q),
    decreases n,
{
    if n > 0 {
        lemma_pruned_nodes(tree, list, root, n - 1);
        let before = pruned(tree, list, root, n - 1);
        let p = list[n - 1].path;
        lemma_without_empty(before.remove(p), memory::parent_of(p), root);
        let after = pruned(tree, list, root, n);
        assert forall|q: Seq<u8>| #[trigger] after.contains_key(q) implies tree.contains_key(q)
            && after[q] == tree[q] && !is_listed(list, n, q) by {
            assert(before.remove(p).contains_key(q));
            assert(before.contains_key(q) && q != p);
            if is_listed(list, n, q) {
                let i = choose|i: int| 0 <= i < n && (#[trigger] list[i]).path == q;
                assert(i != n - 1);
                assert(is_listed(list, n - 1, q));
            }
        }
        assert forall|q: Seq<u8>| #[trigger]
            tree.contains_key(q) && !(tree[q] is Directory) && !is_listed(
                list,
                n,
                q,
            ) implies after.contains_key(q) by {
            if is_listed(list, n - 1, q) {
                let i = choose|i: int| 0 <= i < n - 1 && (#[trigger] list[i]).path == q;
                assert(list[i].path == q);
                assert(is_listed(list, n, q));
            }
            assert(list[n - 1].path == p);
            assert(q != p);
            assert(before.contains_key(q));
            assert(before.remove(p).contains_key(q));
        }
    }
}

/// What a packed reference was: a file that names its object.
spec fn was_loose(files: memory::Tree, git: Seq<u8>, item: Loose) -> bool {
    &&& item.path == repository::joined(git, item.name)
    &&& memory::contents(files, item.path) matches Ok(data) && loose_object(data) == Ok::<
        Option<Seq<u8>>,
        Error,
    >(Some(item.id))
    &&& bytes::has_prefix(item.path, refs_root(git).push(47))
}

proof fn lemma_packed_were_loose(
    files: memory::Tree,
    git: Seq<u8>,
    paths: Seq<Seq<u8>>,
    options: PackRefsOptions,
    n: int,
)
    requires
        0 <= n <= paths.len(),
        forall|k: int|
            0 <= k < paths.len() ==> files.contains_key(#[trigger] paths[k]) && memory::below(
                paths[k],
                refs_root(git),
            ),
        loose_among(files, git, paths, options, n) is Ok,
    ensures
        forall|i: int|
            0 <= i < (loose_among(files, git, paths, options, n)->Ok_0).len() ==> was_loose(
                files,
                git,
                #[trigger] (loose_among(files, git, paths, options, n)->Ok_0)[i],
            ),
    decreases n,
{
    if n > 0 {
        lemma_packed_were_loose(files, git, paths, options, n - 1);
        reveal(loose_at);
        let p = paths[n - 1];
        let name = name_at(git, p);
        let root = refs_root(git);
        assert(p == repository::joined(git, name)) by {
            if git.len() > 0 {
                let k = git.len() as int;
                assert(p.take(root.len() as int + 1) == root.push(47));
                assert(p.take(k + 1) =~= p.take(root.len() as int + 1).take(k + 1));
                assert(root.push(47).take(k + 1) =~= git.push(47));
                assert(p =~= p.take(k + 1) + p.skip(k + 1));
            }
        }
    }
}

proof fn lemma_value_packed(
    files: memory::Tree,
    git: Seq<u8>,
    map: Map<Seq<u8>, PackedValue>,
    list: Seq<Loose>,
    options: PackRefsOptions,
    n: int,
)
    requires
        0 <= n <= list.len(),
        with_packed(files, git, map, list, options, n) is Ok,
        forall|i: int| 0 <= i < list.len() ==> (#[trigger] list[i]).id.len() == 20,
        forall|i: int, j: int|
            0 <= i < j < list.len() ==> (#[trigger] list[i]).name != (#[trigger] list[j]).name,
    ensures
        ({
            let values = with_packed(files, git, map, list, options, n)->Ok_0;
            &&& forall|i: int|
                0 <= i < n ==> values.contains_key((#[trigger] list[i]).name)
                    && values[list[i].name].id@ == list[i].id
            &&& forall|name: Seq<u8>| #[trigger]
                values.contains_key(name) ==> map.contains_key(name) || exists|i: int|
                    0 <= i < n && (#[trigger] list[i]).name == name
            &&& map.dom().finite() ==> values.dom().finite()
        }),
    decreases n,
{
    if n > 0 {
        lemma_value_packed(files, git, map, list, options, n - 1);
        reveal(packed_value);
        let before = with_packed(files, git, map, list, options, n - 1)->Ok_0;
        let values = with_packed(files, git, map, list, options, n)->Ok_0;
        let item = list[n - 1];
        object::lemma_id_with_len(item.id);
        assert forall|i: int| 0 <= i < n implies values.contains_key((#[trigger] list[i]).name)
            && values[list[i].name].id@ == list[i].id by {
            if i < n - 1 {
                assert(list[i].name != list[n - 1].name);
            }
        }
        assert forall|name: Seq<u8>| #[trigger] values.contains_key(name) implies map.contains_key(
            name,
        ) || exists|i: int| 0 <= i < n && (#[trigger] list[i]).name == name by {
            if name == item.name {
                assert(list[n - 1].name == name);
            } else if !map.contains_key(name) {
                assert(before.contains_key(name));
                let i = choose|i: int| 0 <= i < n - 1 && (#[trigger] list[i]).name == name;
                assert(list[i].name == name);
            }
        }
    }
}

/// Packing references leaves every reference leading where it led, whether
/// packed or not, and whether or not the packed files are removed. The names
/// that are packed have to be well formed.
#[verifier::rlimit(60)]
#[verifier::spinoff_prover]
pub proof fn lemma_packing_keeps_references(
    files: memory::Tree,
    git: Seq<u8>,
    options: PackRefsOptions,
    name: Seq<u8>,
)
    requires
        files.dom().finite(),
        refname::valid(name),
        packing(files, git, options).1 is Ok,
        forall|i: int|
            0 <= i < (packing(files, git, options).1->Ok_0).len() ==> refname::valid(
                (#[trigger] (packing(files, git, options).1->Ok_0)[i]).name,
            ) && vstd::utf8::valid_utf8((packing(files, git, options).1->Ok_0)[i].name),
    ensures
        leads(packing(files, git, options).0, git, name) == leads(files, git, name),
{
    let (after, outcome) = packing(files, git, options);
    let list = outcome->Ok_0;
    let n = list.len() as int;
    if n > 0 && !options.dry_run {
        let map = packed_at(files, git)->Ok_0;
        match memory::contents(files, packed_path(git)) {
            Ok(data) => {
                packed_refs::lemma_decoded_names(data);
            },
            Err(_) => {},
        }
        let values = with_packed(files, git, map, list, options, n)->Ok_0;
        let pp = packed_path(git);
        let (written, _) = repository::replaced(files, pp, packed_refs::encoded(values));
        let paths = memory::paths_below(files, refs_root(git));
        lemma_paths_stand(files, refs_root(git));
        lemma_packed_were_loose(files, git, paths, options, paths.len() as int);
        lemma_loose_sound(files, git, paths, options, paths.len() as int);
        assert forall|i: int, j: int| 0 <= i < j < n implies (#[trigger] list[i]).name != (
        #[trigger] list[j]).name by {
            assert(was_loose(files, git, list[i]) && was_loose(files, git, list[j]));
            assert(list[i].path != list[j].path);
        }
        assert forall|i: int| 0 <= i < n implies (#[trigger] list[i]).id.len() == 20 by {
            assert(was_loose(files, git, list[i]));
            let data = memory::contents(files, list[i].path)->Ok_0;
            object::lemma_id_of_hex_len(mail::trimmed(data));
        }
        lemma_value_packed(files, git, map, list, options, n);
        lemma_written_nodes(files, git, packed_refs::encoded(values), name);
        assert forall|other: Seq<u8>| #[trigger] values.contains_key(other) implies refname::valid(
            other,
        ) && vstd::utf8::valid_utf8(other) by {
            if !map.contains_key(other) {
                let i = choose|i: int| 0 <= i < n && (#[trigger] list[i]).name == other;
                assert(refname::valid(list[i].name));
            }
        }
        packed_refs::lemma_packed_round_trip(values);
        lemma_pruned_nodes(written, list, refs_root(git), n);
        let p = repository::joined(git, name);
        lemma_packed_apart(git, name);
        assert forall|i: int| 0 <= i < n implies (#[trigger] list[i]).path != pp by {
            assert(was_loose(files, git, list[i]));
            lemma_packed_not_below(git, list[i].path);
        }
        assert(!is_listed(list, n, pp));
        assert(memory::contents(after, pp) == Ok::<Seq<u8>, Fault>(packed_refs::encoded(values)));
        assert(packed_at(after, git) == Ok::<Map<Seq<u8>, PackedValue>, Refusal>(values));
        if is_listed(list, n, p) {
            let i = choose|i: int| 0 <= i < n && (#[trigger] list[i]).path == p;
            assert(was_loose(files, git, list[i]));
            lemma_joined_same(git, name, list[i].name);
            assert(values[name].id@ == list[i].id);
        } else {
            assert forall|i: int| 0 <= i < n implies (#[trigger] list[i]).name != name by {
                assert(was_loose(files, git, list[i]));
                if list[i].name == name {
                    assert(list[i].path == p);
                }
            }
            if map.contains_key(name) {
                lemma_others_kept(files, git, map, list, options, name, n);
            }
        }
    }
}

proof fn lemma_joined_same(git: Seq<u8>, a: Seq<u8>, b: Seq<u8>)
    requires
        repository::joined(git, a) == repository::joined(git, b),
    ensures
        a == b,
{
    if git.len() > 0 {
        assert((git.push(47) + a).skip(git.len() as int + 1) =~= a);
        assert((git.push(47) + b).skip(git.len() as int + 1) =~= b);
    }
}

proof fn lemma_packed_apart(git: Seq<u8>, name: Seq<u8>)
    requires
        refname::valid(name),
    ensures
        repository::joined(git, name) != packed_path(git),
{
    reveal_strlit("packed-refs");
    bytes::lemma_ascii("packed-refs"@);
    let own = bytes::utf8("packed-refs"@);
    if repository::joined(git, name) == packed_path(git) {
        lemma_joined_same(git, name, own);
        path::lemma_split_single(own, 47);
    }
}

proof fn lemma_packed_not_below(git: Seq<u8>, p: Seq<u8>)
    requires
        bytes::has_prefix(p, refs_root(git).push(47)),
    ensures
        p != packed_path(git),
{
    reveal_strlit("packed-refs");
    reveal_strlit("refs");
    bytes::lemma_ascii("packed-refs"@);
    bytes::lemma_ascii("refs"@);
    let root = refs_root(git);
    let k = root.len() as int - 4;
    assert(p.take(root.len() as int + 1)[k] == root.push(47)[k]);
    assert(p[k] == 114);
    assert(packed_path(git)[k] == 112);
}

proof fn lemma_written_nodes(files: memory::Tree, git: Seq<u8>, data: Seq<u8>, name: Seq<u8>)
    requires
        refname::valid(name),
        repository::replaced(files, packed_path(git), data).1 is None,
    ensures
        ({
            let written = repository::replaced(files, packed_path(git), data).0;
            let p = repository::joined(git, name);
            &&& written.contains_key(packed_path(git))
            &&& written[packed_path(git)] == memory::file(data, false)
            &&& files.contains_key(p) ==> written.contains_key(p) && written[p] == files[p]
            &&& written.contains_key(p) && !files.contains_key(p) ==> written[p] is Directory
        }),
{
    let pp = packed_path(git);
    let up = memory::parent_of(pp);
    lemma_packed_apart(git, name);
    memory::lemma_directories_keep(files, up, 0);
    memory::lemma_directories_new(files, up, 0);
}

proof fn lemma_paths_stand(files: memory::Tree, root: Seq<u8>)
    requires
        files.dom().finite(),
    ensures
        ({
            let paths = memory::paths_below(files, root);
            &&& crate::bytemap::ascending(paths)
            &&& forall|k: int|
                0 <= k < paths.len() ==> files.contains_key(#[trigger] paths[k]) && memory::below(
                    paths[k],
                    root,
                )
        }),
{
    let set = Set::new(|p: Seq<u8>| files.contains_key(p) && memory::plain_below(p, root));
    assert(set.subset_of(files.dom()));
    vstd::set_lib::lemma_len_subset(set, files.dom());
    crate::id_set::lemma_sorted_exists(set);
    let paths = memory::paths_below(files, root);
    assert forall|k: int| 0 <= k < paths.len() implies files.contains_key(#[trigger] paths[k])
        && memory::below(paths[k], root) by {
        assert(paths.to_set().contains(paths[k]));
    }
}

} // verus!
