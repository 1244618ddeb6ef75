//! Linked worktrees: their registrations, locks and pruning.

use vstd::prelude::*;

use crate::bytes;
use crate::fs;
use crate::fs::memory;
use crate::fs::memory::MemoryFileSystem;
use crate::fs::path;
use crate::fs::{Fault, FileSystem, Refusal};
use crate::index;
use crate::index::Index;
use crate::merge;
use crate::object;
use crate::object::ObjectId;
use crate::refname;
use crate::repository;
use crate::repository::Repository;
use crate::storage;
use crate::worktree_path;
use crate::{Error, Result};

verus! {

/// What the HEAD of a linked worktree selects.
#[derive(Debug, PartialEq, Eq)]
pub enum WorktreeTarget {
    Branch(Vec<u8>),
    Detached(ObjectId),
}

/// What a target says.
#[verifier::ext_equal]
pub enum TargetModel {
    Branch(Seq<u8>),
    Detached(Seq<u8>),
}

impl View for WorktreeTarget {
    type V = TargetModel;

    open spec fn view(&self) -> TargetModel {
        match self {
            WorktreeTarget::Branch(name) => TargetModel::Branch(name@),
            WorktreeTarget::Detached(id) => TargetModel::Detached(id@),
        }
    }
}

/// Settings for the creation of a worktree.
#[derive(Debug, PartialEq, Eq, Clone, Copy)]
pub struct AddWorktreeOptions {
    pub checkout: bool,
    pub max_object_size: usize,
}

impl Default for AddWorktreeOptions {
    fn default() -> (r: Self)
        ensures
            r.checkout,
            r.max_object_size == 1024 * 1024 * 1024,
    {
        AddWorktreeOptions { checkout: true, max_object_size: 1024 * 1024 * 1024 }
    }
}

/// Safety settings for the removal of a linked worktree.
#[derive(Clone, Copy, Debug, PartialEq, Eq)]
pub struct RemoveWorktreeOptions {
    /// Permits removal when the linked worktree has local changes.
    pub force: bool,
    /// Permits removal of a locked worktree.
    pub override_lock: bool,
}

impl Default for RemoveWorktreeOptions {
    fn default() -> (r: Self)
        ensures
            !r.force && !r.override_lock,
    {
        RemoveWorktreeOptions { force: false, override_lock: false }
    }
}

/// Collision and lock authority for moves of a linked worktree.
#[derive(Clone, Copy, Debug, PartialEq, Eq)]
pub struct MoveWorktreeOptions {
    /// Replaces a missing destination that is already registered.
    pub force_registered_destination: bool,
    /// Moves a locked source or replaces a locked missing destination.
    pub override_locks: bool,
}

impl Default for MoveWorktreeOptions {
    fn default() -> (r: Self)
        ensures
            !r.force_registered_destination && !r.override_locks,
    {
        MoveWorktreeOptions { force_registered_destination: false, override_locks: false }
    }
}

/// One registered linked worktree.
#[derive(Debug, PartialEq, Eq)]
pub struct LinkedWorktreeInfo {
    pub name: Vec<u8>,
    pub path: Vec<u8>,
    pub target: WorktreeTarget,
}

/// What is known of a registered worktree.
#[verifier::ext_equal]
pub struct Registration {
    pub name: Seq<u8>,
    pub path: Seq<u8>,
    pub target: TargetModel,
}

impl View for LinkedWorktreeInfo {
    type V = Registration;

    open spec fn view(&self) -> Registration {
        Registration { name: self.name@, path: self.path@, target: self.target@ }
    }
}

pub open spec fn registrations(list: Seq<LinkedWorktreeInfo>) -> Seq<Registration> {
    Seq::new(list.len(), |i: int| list[i]@)
}

/// Why the registration of a linked worktree may be pruned.
#[derive(Clone, Copy, Debug, PartialEq, Eq, Structural)]
pub enum WorktreePruneReason {
    NotDirectory,
    MissingGitdir,
    InvalidGitdir,
    MissingWorktree,
    Duplicate,
}

/// One registration selected for pruning.
#[derive(Debug, PartialEq, Eq)]
pub struct WorktreePruneEntry {
    name: Vec<u8>,
    path: Vec<u8>,
    reason: WorktreePruneReason,
}

/// What a selected registration says.
#[verifier::ext_equal]
pub struct Doomed {
    pub name: Seq<u8>,
    pub path: Seq<u8>,
    pub reason: WorktreePruneReason,
}

impl View for WorktreePruneEntry {
    type V = Doomed;

    closed spec fn view(&self) -> Doomed {
        Doomed { name: self.name@, path: self.path@, reason: self.reason }
    }
}

pub open spec fn dooms(list: Seq<WorktreePruneEntry>) -> Seq<Doomed> {
    Seq::new(list.len(), |i: int| list[i]@)
}

impl WorktreePruneEntry {
    pub fn name(&self) -> (r: &[u8])
        ensures
            r@ == self@.name,
    {
        self.name.as_slice()
    }

    pub fn path(&self) -> (r: &[u8])
        ensures
            r@ == self@.path,
    {
        self.path.as_slice()
    }

    pub fn reason(&self) -> (r: WorktreePruneReason)
        ensures
            r == self@.reason,
    {
        self.reason
    }
}

/// Resource and mutation settings for pruning.
#[derive(Clone, Copy, Debug, PartialEq, Eq)]
pub struct WorktreePruneOptions {
    /// A missing worktree is pruned when its index is no newer than this.
    pub expire_before: u64,
    pub max_worktrees: usize,
    pub dry_run: bool,
}

/// Whether options are the ones to begin with.
pub open spec fn prunes_by_default(r: WorktreePruneOptions) -> bool {
    r.expire_before == u64::MAX && r.max_worktrees == 100_000 && r.dry_run
}

impl Default for WorktreePruneOptions {
    fn default() -> (r: Self)
        ensures
            prunes_by_default(r),
    {
        WorktreePruneOptions { expire_before: u64::MAX, max_worktrees: 100_000, dry_run: true }
    }
}

// ---------------------------------------------------------------------------
// Names of the files of a registration

/// Where the registrations stand.
pub open spec fn registry(git: Seq<u8>) -> Seq<u8> {
    repository::joined(git, bytes::utf8("worktrees"@))
}

/// A file of a registration.
pub open spec fn within(admin: Seq<u8>, name: Seq<char>) -> Seq<u8> {
    repository::joined(admin, bytes::utf8(name))
}

/// The name of a file: a plain path of one part.
pub open spec fn is_name(name: Seq<u8>) -> bool {
    &&& path::plain(name)
    &&& name.len() > 0
    &&& forall|i: int| 0 <= i < name.len() ==> name[i] != 47
}

/// The names of the files of a registration are plain.
pub proof fn lemma_file_names()
    ensures
        is_name(bytes::utf8("worktrees"@)),
        is_name(bytes::utf8("locked"@)),
        is_name(bytes::utf8("gitdir"@)),
        is_name(bytes::utf8("index"@)),
        is_name(bytes::utf8("modules"@)),
        is_name(bytes::utf8("HEAD"@)),
        is_name(bytes::utf8("commondir"@)),
        is_name(bytes::utf8(".git"@)),
{
    reveal_strlit("worktrees");
    reveal_strlit("locked");
    reveal_strlit("gitdir");
    reveal_strlit("index");
    reveal_strlit("modules");
    reveal_strlit("HEAD");
    reveal_strlit("commondir");
    reveal_strlit(".git");
    bytes::lemma_ascii("worktrees"@);
    bytes::lemma_ascii("locked"@);
    bytes::lemma_ascii("gitdir"@);
    bytes::lemma_ascii("index"@);
    bytes::lemma_ascii("modules"@);
    bytes::lemma_ascii("HEAD"@);
    bytes::lemma_ascii("commondir"@);
    bytes::lemma_ascii(".git"@);
    path::lemma_plain_name(bytes::utf8("worktrees"@));
    path::lemma_plain_name(bytes::utf8("locked"@));
    path::lemma_plain_name(bytes::utf8("gitdir"@));
    path::lemma_plain_name(bytes::utf8("index"@));
    path::lemma_plain_name(bytes::utf8("modules"@));
    path::lemma_plain_name(bytes::utf8("HEAD"@));
    path::lemma_plain_name(bytes::utf8("commondir"@));
    path::lemma_plain_name(bytes::utf8(".git"@));
}

/// The path of a file in a plain directory.
fn file_in(directory: &[u8], name: &str) -> (r: Vec<u8>)
    requires
        path::plain(directory@),
        path::plain(bytes::utf8(name@)),
        bytes::utf8(name@).len() > 0,
    ensures
        r@ == within(directory@, name@),
        path::plain(r@),
        r@.len() > 0,
{
    proof {
        repository::lemma_joined_plain(directory@, bytes::utf8(name@));
    }
    repository::join_path(directory, name.as_bytes())
}

// ---------------------------------------------------------------------------
// Pruning

/// What a registration deserves: a reason to prune it, or the path by which
/// it is alive.
pub open spec fn standing(tree: memory::Tree, admin: Seq<u8>, expire_before: u64) -> core::result::Result<
    (Option<WorktreePruneReason>, Option<Seq<u8>>),
    Refusal,
> {
    if !tree.contains_key(admin) {
        Err(Refusal::At(Fault::NotFound, admin))
    } else if !(tree[admin] is Directory) {
        Ok((Some(WorktreePruneReason::NotDirectory), None))
    } else if tree.contains_key(within(admin, "locked"@)) {
        Ok((None, None))
    } else {
        match memory::contents(tree, within(admin, "gitdir"@)) {
            Err(fault) => if fault is NotFound {
                Ok((Some(WorktreePruneReason::MissingGitdir), None))
            } else {
                Err(Refusal::At(fault, within(admin, "gitdir"@)))
            },
            Ok(contents) => match points_at(admin, contents) {
                Err(_) => Ok((Some(WorktreePruneReason::InvalidGitdir), None)),
                Ok(place) => if tree.contains_key(place) {
                    Ok((None, Some(place)))
                } else if outlived(tree, admin, expire_before) {
                    Ok((Some(WorktreePruneReason::MissingWorktree), None))
                } else {
                    Ok((None, None))
                },
            },
        }
    }
}

/// Where the linking file of a registration points.
pub open spec fn points_at(admin: Seq<u8>, contents: Seq<u8>) -> core::result::Result<Seq<u8>, Error> {
    match worktree_path::path_in(contents) {
        Err(error) => Err(error),
        Ok(value) => worktree_path::target(admin, value),
    }
}

/// Whether the index of a registration is absent or old enough.
pub open spec fn outlived(tree: memory::Tree, admin: Seq<u8>, expire_before: u64) -> bool {
    let p = within(admin, "index"@);
    !tree.contains_key(p) || memory::metadata_of(tree[p]).stat.mtime_seconds <= expire_before
}

/// What each of the first `n` registrations deserves.
pub open spec fn surveyed(
    tree: memory::Tree,
    root: Seq<u8>,
    names: Seq<Seq<u8>>,
    expire_before: u64,
    n: int,
) -> core::result::Result<Seq<(Option<WorktreePruneReason>, Option<Seq<u8>>)>, Refusal>
    decreases n,
{
    if n <= 0 {
        Ok(Seq::empty())
    } else {
        match surveyed(tree, root, names, expire_before, n - 1) {
            Err(refusal) => Err(refusal),
            Ok(list) => {
                let name = names[n - 1];
                let at = repository::joined(root, name);
                if !vstd::utf8::valid_utf8(name) {
                    Err(Refusal::Said(Error::InvalidRepository("non-UTF-8 worktree name")))
                } else {
                    match path::normalized(at) {
                        None => Err(Refusal::At(Fault::InvalidPath, at)),
                        Some(admin) => match standing(tree, admin, expire_before) {
                            Err(refusal) => Err(refusal),
                            Ok(one) => Ok(list.push(one)),
                        },
                    }
                }
            },
        }
    }
}

/// Whether a registration repeats the main worktree or an earlier one.
pub open spec fn repeats(
    list: Seq<(Option<WorktreePruneReason>, Option<Seq<u8>>)>,
    common: Seq<u8>,
    i: int,
) -> bool {
    list[i].1 is Some && (list[i].1 == Some(common) || exists|j: int|
        0 <= j < i && #[trigger] list[j].1 == list[i].1)
}

/// Why a registration is pruned.
pub open spec fn verdict(
    list: Seq<(Option<WorktreePruneReason>, Option<Seq<u8>>)>,
    common: Seq<u8>,
    i: int,
) -> Option<WorktreePruneReason> {
    if list[i].0 is Some {
        list[i].0
    } else if repeats(list, common, i) {
        Some(WorktreePruneReason::Duplicate)
    } else {
        None
    }
}

/// Which of the first `n` registrations are pruned, in order of their names.
pub open spec fn doomed(
    root: Seq<u8>,
    names: Seq<Seq<u8>>,
    list: Seq<(Option<WorktreePruneReason>, Option<Seq<u8>>)>,
    common: Seq<u8>,
    n: int,
) -> Seq<Doomed>
    decreases n,
{
    if n <= 0 {
        Seq::empty()
    } else {
        let before = doomed(root, names, list, common, n - 1);
        match verdict(list, common, n - 1) {
            None => before,
            Some(reason) => before.push(
                Doomed {
                    name: names[n - 1],
                    path: path::normalized(repository::joined(root, names[n - 1]))->0,
                    reason,
                },
            ),
        }
    }
}

/// What is left once the first `n` selected registrations are removed.
pub open spec fn swept(tree: memory::Tree, list: Seq<Doomed>, n: int) -> (
    memory::Tree,
    Option<Refusal>,
)
    decreases n,
{
    if n <= 0 {
        (tree, None)
    } else {
        let (left, bad) = swept(tree, list, n - 1);
        if bad is Some {
            (left, bad)
        } else if !left.contains_key(list[n - 1].path) {
            (left, Some(Refusal::At(Fault::NotFound, list[n - 1].path)))
        } else {
            (memory::without(left, list[n - 1].path), None)
        }
    }
}

/// A directory is removed if it is empty.
pub open spec fn dropped(tree: memory::Tree, root: Seq<u8>) -> (memory::Tree, Option<Refusal>) {
    if !tree.contains_key(root) {
        (tree, None)
    } else if !(tree[root] is Directory) {
        (tree, Some(Refusal::At(Fault::NotDirectory, root)))
    } else if exists|q: Seq<u8>| memory::is_child(tree, root, q) {
        (tree, None)
    } else {
        (tree.remove(root), None)
    }
}

/// The registrations that pruning selects.
pub open spec fn selected(tree: memory::Tree, git: Seq<u8>, options: WorktreePruneOptions) -> core::result::Result<
    Seq<Doomed>,
    Refusal,
> {
    let root = registry(git);
    match storage::listed(tree, root) {
        Err(refusal) => if crate::ignore::is_absent(refusal) {
            Ok(Seq::empty())
        } else {
            Err(refusal)
        },
        Ok(names) => if names.len() > options.max_worktrees {
            Err(Refusal::Said(Error::InvalidRepository("worktree count exceeds limit")))
        } else {
            match surveyed(tree, root, names, options.expire_before, names.len() as int) {
                Err(refusal) => Err(refusal),
                Ok(list) => Ok(doomed(root, names, list, git, names.len() as int)),
            }
        },
    }
}

/// What removing the selected registrations leaves.
pub open spec fn cleared(tree: memory::Tree, git: Seq<u8>, list: Seq<Doomed>) -> (
    memory::Tree,
    Option<Refusal>,
) {
    let (left, bad) = swept(tree, list, list.len() as int);
    if bad is Some {
        (left, bad)
    } else {
        dropped(left, registry(git))
    }
}

fn standing_of(files: &MemoryFileSystem, admin: &[u8], expire_before: u64) -> (r: Result<
    (Option<WorktreePruneReason>, Option<Vec<u8>>),
>)
    requires
        path::plain(admin@),
    ensures
        match standing(files@, admin@, expire_before) {
            Ok((reason, live)) => r is Ok && r->Ok_0.0 == reason && match r->Ok_0.1 {
                Some(at) => live == Some(at@),
                None => live is None,
            },
            Err(refusal) => fs::declined(r, refusal),
        },
{
    proof {
        lemma_file_names();
    }
    if !files.metadata(admin)?.is_dir() {
        return Ok((Some(WorktreePruneReason::NotDirectory), None));
    }
    let lock = file_in(admin, "locked");
    if files.is_present(lock.as_slice())? {
        return Ok((None, None));
    }
    let link = file_in(admin, "gitdir");
    let contents = match files.read(link.as_slice()) {
        Ok(contents) => contents,
        Err(Error::NotFound(_)) => return Ok((Some(WorktreePruneReason::MissingGitdir), None)),
        Err(error) => return Err(error),
    };
    let value = match worktree_path::parse_path_file(contents.as_slice()) {
        Ok(value) => value,
        Err(_) => return Ok((Some(WorktreePruneReason::InvalidGitdir), None)),
    };
    let place = match worktree_path::resolve_worktree_path(admin, value.as_slice()) {
        Ok(place) => place,
        Err(_) => return Ok((Some(WorktreePruneReason::InvalidGitdir), None)),
    };
    if files.is_present(place.as_slice())? {
        return Ok((None, Some(place)));
    }
    let index = file_in(admin, "index");
    let expired = match files.metadata(index.as_slice()) {
        Ok(metadata) => metadata.stat().mtime_seconds as u64 <= expire_before,
        Err(Error::NotFound(_)) => true,
        Err(error) => return Err(error),
    };
    if expired {
        Ok((Some(WorktreePruneReason::MissingWorktree), None))
    } else {
        Ok((None, None))
    }
}

proof fn lemma_surveyed_persists(
    tree: memory::Tree,
    root: Seq<u8>,
    names: Seq<Seq<u8>>,
    expire_before: u64,
    n: int,
    m: int,
)
    requires
        0 <= n <= m,
        surveyed(tree, root, names, expire_before, n) is Err,
    ensures
        surveyed(tree, root, names, expire_before, m) == surveyed(
            tree,
            root,
            names,
            expire_before,
            n,
        ),
    decreases m - n,
{
    if n < m {
        lemma_surveyed_persists(tree, root, names, expire_before, n, m - 1);
    }
}

/// What is known of a registration.
spec fn survey_view(list: Seq<(Option<WorktreePruneReason>, Option<Vec<u8>>)>) -> Seq<
    (Option<WorktreePruneReason>, Option<Seq<u8>>),
> {
    Seq::new(
        list.len(),
        |i: int|
            (
                list[i].0,
                match list[i].1 {
                    Some(at) => Some(at@),
                    None => None,
                },
            ),
    )
}

fn survey(
    files: &MemoryFileSystem,
    root: &[u8],
    names: &Vec<Vec<u8>>,
    expire_before: u64,
) -> (r: Result<Vec<(Option<WorktreePruneReason>, Option<Vec<u8>>)>>)
    ensures
        match surveyed(files@, root@, bytes::deep(names@), expire_before, names@.len() as int) {
            Ok(list) => r is Ok && survey_view(r->Ok_0@) == list && list.len() == names@.len(),
            Err(refusal) => fs::declined(r, refusal),
        },
        r is Ok ==> forall|i: int|
            0 <= i < names@.len() ==> path::normalized(
                repository::joined(root@, #[trigger] bytes::deep(names@)[i]),
            ) is Some,
{
    let ghost all = bytes::deep(names@);
    let mut list: Vec<(Option<WorktreePruneReason>, Option<Vec<u8>>)> = Vec::new();
    let mut i: usize = 0;
    assert(survey_view(list@) =~= Seq::empty());
    while i < names.len()
        invariant
            i <= names@.len(),
            all == bytes::deep(names@),
            list@.len() == i,
            surveyed(files@, root@, all, expire_before, i as int) == Ok::<
                Seq<(Option<WorktreePruneReason>, Option<Seq<u8>>)>,
                Refusal,
            >(survey_view(list@)),
            forall|j: int|
                0 <= j < i ==> path::normalized(repository::joined(root@, #[trigger] all[j]))
                    is Some,
        decreases names@.len() - i,
    {
        let name = names[i].as_slice();
        assert(name@ == all[i as int]);
        proof {
            if surveyed(files@, root@, all, expire_before, i + 1) is Err {
                lemma_surveyed_persists(
                    files@,
                    root@,
                    all,
                    expire_before,
                    i + 1,
                    names@.len() as int,
                );
            }
        }
        if bytes::text_of(name).is_none() {
            return Err(Error::InvalidRepository("non-UTF-8 worktree name"));
        }
        let at = repository::join_path(root, name);
        let admin = path::validate(at.as_slice())?;
        proof {
            path::lemma_normalized_plain(at@);
        }
        let one = standing_of(files, admin.as_slice(), expire_before)?;
        let ghost before = list@;
        list.push(one);
        assert(survey_view(list@) =~= survey_view(before).push(survey_view(list@)[i as int]));
        i += 1;
    }
    Ok(list)
}

fn repeated(
    list: &Vec<(Option<WorktreePruneReason>, Option<Vec<u8>>)>,
    common: &[u8],
    i: usize,
) -> (r: bool)
    requires
        i < list@.len(),
    ensures
        r == repeats(survey_view(list@), common@, i as int),
{
    let ghost all = survey_view(list@);
    let live = match &list[i].1 {
        None => return false,
        Some(live) => live,
    };
    assert(all[i as int].1 == Some(live@));
    if bytes::bytes_eq(live.as_slice(), common) {
        return true;
    }
    let mut j: usize = 0;
    while j < i
        invariant
            j <= i < list@.len(),
            all == survey_view(list@),
            all[i as int].1 == Some(live@),
            live@ != common@,
            forall|k: int| 0 <= k < j ==> #[trigger] all[k].1 != all[i as int].1,
        decreases i - j,
    {
        match &list[j].1 {
            Some(other) => {
                if bytes::bytes_eq(other.as_slice(), live.as_slice()) {
                    assert(all[j as int].1 == all[i as int].1);
                    return true;
                }
                assert(all[j as int].1 == Some(other@));
            },
            None => {
                assert(all[j as int].1 is None);
            },
        }
        j += 1;
    }
    false
}

fn select(
    root: &[u8],
    names: &Vec<Vec<u8>>,
    list: &Vec<(Option<WorktreePruneReason>, Option<Vec<u8>>)>,
    common: &[u8],
) -> (r: Vec<WorktreePruneEntry>)
    requires
        list@.len() == names@.len(),
        forall|i: int|
            0 <= i < names@.len() ==> path::normalized(
                repository::joined(root@, #[trigger] bytes::deep(names@)[i]),
            ) is Some,
    ensures
        dooms(r@) == doomed(
            root@,
            bytes::deep(names@),
            survey_view(list@),
            common@,
            names@.len() as int,
        ),
{
    let ghost all = bytes::deep(names@);
    let ghost known = survey_view(list@);
    let mut out: Vec<WorktreePruneEntry> = Vec::new();
    let mut i: usize = 0;
    assert(dooms(out@) =~= Seq::empty());
    while i < names.len()
        invariant
            i <= names@.len(),
            list@.len() == names@.len(),
            all == bytes::deep(names@),
            known == survey_view(list@),
            forall|i: int|
                0 <= i < names@.len() ==> path::normalized(
                    repository::joined(root@, #[trigger] all[i]),
                ) is Some,
            dooms(out@) == doomed(root@, all, known, common@, i as int),
        decreases names@.len() - i,
    {
        assert(names@[i as int]@ == all[i as int]);
        let reason = match list[i].0 {
            Some(reason) => Some(reason),
            None => {
                if repeated(list, common, i) {
                    Some(WorktreePruneReason::Duplicate)
                } else {
                    None
                }
            },
        };
        assert(known[i as int].0 == list@[i as int].0);
        assert(reason == verdict(known, common@, i as int));
        match reason {
            None => {},
            Some(reason) => {
                let at = repository::join_path(root, names[i].as_slice());
                match path::validate(at.as_slice()) {
                    Ok(path) => {
                        let ghost before = out@;
                        out.push(
                            WorktreePruneEntry {
                                name: bytes::to_vec(names[i].as_slice()),
                                path,
                                reason,
                            },
                        );
                        assert(dooms(out@) =~= dooms(before).push(out@.last()@));
                    },
                    Err(_) => {},
                }
            },
        }
        i += 1;
    }
    out
}

proof fn lemma_swept_persists(tree: memory::Tree, list: Seq<Doomed>, n: int, m: int)
    requires
        0 <= n <= m,
        swept(tree, list, n).1 is Some,
    ensures
        swept(tree, list, m) == swept(tree, list, n),
    decreases m - n,
{
    if n < m {
        lemma_swept_persists(tree, list, n, m - 1);
    }
}

/// A selected registration stands at a plain path.
proof fn lemma_doomed_plain(
    root: Seq<u8>,
    names: Seq<Seq<u8>>,
    list: Seq<(Option<WorktreePruneReason>, Option<Seq<u8>>)>,
    common: Seq<u8>,
    n: int,
)
    requires
        0 <= n <= names.len(),
        forall|i: int|
            0 <= i < names.len() ==> path::normalized(
                repository::joined(root, #[trigger] names[i]),
            ) is Some,
    ensures
        forall|i: int|
            0 <= i < doomed(root, names, list, common, n).len() ==> path::plain(
                (#[trigger] doomed(root, names, list, common, n)[i]).path,
            ),
    decreases n,
{
    if n > 0 {
        lemma_doomed_plain(root, names, list, common, n - 1);
        assert(path::normalized(repository::joined(root, names[n - 1])) is Some);
        path::lemma_normalized_plain(repository::joined(root, names[n - 1]));
    }
}

fn sweep(files: &mut MemoryFileSystem, list: &Vec<WorktreePruneEntry>, root: &[u8]) -> (r: Result<
    (),
>)
    requires
        forall|i: int| 0 <= i < dooms(list@).len() ==> path::plain(
            (#[trigger] dooms(list@)[i]).path,
        ),
        path::plain(root@),
    ensures
        ({
            let all = dooms(list@);
            let (left, bad) = swept(old(files)@, all, all.len() as int);
            let (tree, refusal) = if bad is Some {
                (left, bad)
            } else {
                dropped(left, root@)
            };
            &&& final(files)@ == tree
            &&& match refusal {
                Some(refusal) => fs::declined(r, refusal),
                None => r is Ok,
            }
        }),
{
    let ghost all = dooms(list@);
    let ghost tree = files@;
    let mut i: usize = 0;
    while i < list.len()
        invariant
            i <= list@.len(),
            all == dooms(list@),
            tree == old(files)@,
            forall|i: int| 0 <= i < all.len() ==> path::plain((#[trigger] all[i]).path),
            swept(tree, all, i as int) == (files@, None::<Refusal>),
        decreases list@.len() - i,
    {
        assert(list@[i as int]@ == all[i as int]);
        assert(path::plain(all[i as int].path));
        proof {
            if swept(tree, all, i + 1).1 is Some {
                lemma_swept_persists(tree, all, i + 1, all.len() as int);
            }
        }
        files.remove_tree(list[i].path())?;
        i += 1;
    }
    match files.remove_dir(root) {
        Ok(()) => Ok(()),
        Err(Error::DirectoryNotEmpty(_)) => Ok(()),
        Err(Error::NotFound(_)) => Ok(()),
        Err(error) => Err(error),
    }
}

impl Repository {
    fn registry_path(&self) -> (r: Vec<u8>)
        ensures
            r@ == registry(self.git()),
            path::plain(r@),
            r@.len() > 0,
    {
        proof {
            lemma_file_names();
        }
        self.git_path("worktrees".as_bytes())
    }

    /// Finds, and unless asked not to removes, stale registrations of linked
    /// worktrees. A `locked` file protects a registration.
    pub fn prune_worktrees(&mut self, options: &WorktreePruneOptions) -> (r: Result<
        Vec<WorktreePruneEntry>,
    >)
        ensures
            final(self).git() == old(self).git(),
            final(self).work() == old(self).work(),
            match selected(old(self).tree(), old(self).git(), *options) {
                Err(refusal) => fs::declined(r, refusal) && final(self).tree() == old(self).tree(),
                Ok(list) => if options.dry_run || !old(self).tree().contains_key(
                    registry(old(self).git()),
                ) {
                    r is Ok && dooms(r->Ok_0@) == list && final(self).tree() == old(self).tree()
                } else {
                    let (tree, refusal) = cleared(old(self).tree(), old(self).git(), list);
                    &&& final(self).tree() == tree
                    &&& match refusal {
                        Some(refusal) => fs::declined(r, refusal),
                        None => r is Ok && dooms(r->Ok_0@) == list,
                    }
                },
            },
    {
        let root = self.registry_path();
        proof {
            lemma_file_names();
        }
        let names = match self.list_directory("worktrees".as_bytes()) {
            Ok(names) => names,
            Err(Error::NotFound(_)) => {
                let none: Vec<WorktreePruneEntry> = Vec::new();
                assert(dooms(none@) =~= Seq::empty());
                return Ok(none);
            },
            Err(error) => return Err(error),
        };
        if names.len() > options.max_worktrees {
            return Err(Error::InvalidRepository("worktree count exceeds limit"));
        }
        let list = survey(self.filesystem(), root.as_slice(), &names, options.expire_before)?;
        let entries = select(root.as_slice(), &names, &list, self.git_dir());
        if !options.dry_run {
            proof {
                lemma_doomed_plain(
                    root@,
                    bytes::deep(names@),
                    survey_view(list@),
                    self.git(),
                    names@.len() as int,
                );
            }
            let mut files = self.swap_files(MemoryFileSystem::new());
            let r = sweep(&mut files, &entries, root.as_slice());
            let _ = self.swap_files(files);
            r?;
        }
        Ok(entries)
    }
}

// ---------------------------------------------------------------------------
// Locks

/// Where the registration of a name stands.
pub open spec fn admin_of(tree: memory::Tree, git: Seq<u8>, name: Seq<u8>) -> core::result::Result<
    Seq<u8>,
    Refusal,
> {
    let admin = repository::joined(registry(git), name);
    if !worktree_path::valid_name(name) {
        Err(Refusal::Said(Error::InvalidRepository("invalid worktree name")))
    } else if !tree.contains_key(admin) {
        Err(Refusal::At(Fault::NotFound, admin))
    } else if !(tree[admin] is Directory) {
        Err(Refusal::At(Fault::NotDirectory, admin))
    } else {
        Ok(admin)
    }
}

/// The reason that the lock of a registration states.
pub open spec fn lock_reason(tree: memory::Tree, admin: Seq<u8>) -> core::result::Result<
    Option<Seq<u8>>,
    Refusal,
> {
    match memory::contents(tree, within(admin, "locked"@)) {
        Err(fault) => if fault is NotFound {
            Ok(None)
        } else {
            Err(Refusal::At(fault, within(admin, "locked"@)))
        },
        Ok(contents) => if !vstd::utf8::valid_utf8(contents) {
            Err(Refusal::Said(Error::InvalidRepository("non-UTF-8 worktree lock reason")))
        } else {
            Ok(
                Some(
                    bytes::utf8(
                        bytes::trimmed_end(
                            bytes::trimmed_start(vstd::utf8::decode_utf8(contents)),
                        ),
                    ),
                ),
            )
        },
    }
}

/// The text of a lock file.
pub open spec fn lock_text(reason: Option<Seq<u8>>) -> Seq<u8> {
    match reason {
        Some(reason) => reason.push(10),
        None => seq![10u8],
    }
}

impl Repository {
    fn worktree_admin_dir(&self, name: &[u8]) -> (r: Result<Vec<u8>>)
        ensures
            match admin_of(self.tree(), self.git(), name@) {
                Ok(admin) => r is Ok && r->Ok_0@ == admin && path::plain(admin) && admin.len() > 0,
                Err(refusal) => fs::declined(r, refusal),
            },
    {
        worktree_path::validate_worktree_name(name)?;
        let root = self.registry_path();
        let admin = repository::join_path(root.as_slice(), name);
        proof {
            repository::lemma_joined_plain(root@, name@);
        }
        if !self.filesystem().metadata(admin.as_slice())?.is_dir() {
            return Err(Error::NotDirectory(admin));
        }
        Ok(admin)
    }

    /// Gives the trimmed reason of a worktree's lock, or nothing when the
    /// worktree is unlocked.
    pub fn worktree_lock_reason(&self, name: &[u8]) -> (r: Result<Option<Vec<u8>>>)
        ensures
            match admin_of(self.tree(), self.git(), name@) {
                Err(refusal) => fs::declined(r, refusal),
                Ok(admin) => match lock_reason(self.tree(), admin) {
                    Err(refusal) => fs::declined(r, refusal),
                    Ok(reason) => r is Ok && match r->Ok_0 {
                        Some(text) => reason == Some(text@),
                        None => reason is None,
                    },
                },
            },
    {
        proof {
            lemma_file_names();
        }
        let admin = self.worktree_admin_dir(name)?;
        let lock = file_in(admin.as_slice(), "locked");
        let contents = match self.filesystem().read(lock.as_slice()) {
            Ok(contents) => contents,
            Err(Error::NotFound(_)) => return Ok(None),
            Err(error) => return Err(error),
        };
        match bytes::text_of(contents.as_slice()) {
            None => Err(Error::InvalidRepository("non-UTF-8 worktree lock reason")),
            Some(text) => {
                proof {
                    vstd::utf8::encode_utf8_decode_utf8(text@);
                }
                Ok(Some(bytes::to_vec(bytes::trim_text(text).as_bytes())))
            },
        }
    }

    /// Locks a linked worktree so that pruning and plain removal keep it.
    pub fn lock_worktree(&mut self, name: &[u8], reason: Option<&[u8]>) -> (r: Result<()>)
        ensures
            final(self).git() == old(self).git(),
            final(self).work() == old(self).work(),
            match admin_of(old(self).tree(), old(self).git(), name@) {
                Err(refusal) => fs::declined(r, refusal) && final(self).tree() == old(self).tree(),
                Ok(admin) => {
                    let p = within(admin, "locked"@);
                    if reason is Some && reason->0@.contains(0) {
                        &&& r is Err
                        &&& r->Err_0 == Error::InvalidRepository(
                            "worktree lock reason contains NUL",
                        )
                        &&& final(self).tree() == old(self).tree()
                    } else if old(self).tree().contains_key(p) {
                        fs::refused(r, Fault::AlreadyExists, p) && final(self).tree() == old(self).tree()
                    } else {
                        r is Ok && final(self).tree() == old(self).tree().insert(
                            p,
                            memory::file(
                                lock_text(
                                    match reason {
                                        Some(text) => Some(text@),
                                        None => None,
                                    },
                                ),
                                false,
                            ),
                        )
                    }
                },
            },
    {
        proof {
            lemma_file_names();
        }
        let admin = self.worktree_admin_dir(name)?;
        let mut contents: Vec<u8> = Vec::new();
        match reason {
            Some(text) => {
                if bytes::contains_byte(text, 0) {
                    return Err(Error::InvalidRepository("worktree lock reason contains NUL"));
                }
                bytes::append(&mut contents, text);
                assert(contents@ =~= text@);
            },
            None => {},
        }
        contents.push(10);
        let lock = file_in(admin.as_slice(), "locked");
        proof {
            lemma_parent_within(admin@, bytes::utf8("locked"@));
            assert(contents@ =~= lock_text(
                match reason {
                    Some(text) => Some(text@),
                    None => None,
                },
            ));
        }
        let mut files = self.swap_files(MemoryFileSystem::new());
        let r = files.write_new(lock.as_slice(), contents.as_slice());
        let _ = self.swap_files(files);
        r
    }

    /// Unlocks a linked worktree.
    pub fn unlock_worktree(&mut self, name: &[u8]) -> (r: Result<()>)
        ensures
            final(self).git() == old(self).git(),
            final(self).work() == old(self).work(),
            match admin_of(old(self).tree(), old(self).git(), name@) {
                Err(refusal) => fs::declined(r, refusal) && final(self).tree() == old(self).tree(),
                Ok(admin) => {
                    let p = within(admin, "locked"@);
                    if !old(self).tree().contains_key(p) {
                        fs::refused(r, Fault::NotFound, p) && final(self).tree() == old(self).tree()
                    } else if old(self).tree()[p] is Directory {
                        fs::refused(r, Fault::IsDirectory, p) && final(self).tree() == old(self).tree()
                    } else {
                        r is Ok && final(self).tree() == old(self).tree().remove(p)
                    }
                },
            },
    {
        proof {
            lemma_file_names();
        }
        let admin = self.worktree_admin_dir(name)?;
        let lock = file_in(admin.as_slice(), "locked");
        let mut files = self.swap_files(MemoryFileSystem::new());
        let r = files.remove_file(lock.as_slice());
        let _ = self.swap_files(files);
        r
    }
}

/// A file in a directory has the directory for its parent.
pub proof fn lemma_parent_within(directory: Seq<u8>, name: Seq<u8>)
    requires
        name.len() > 0,
        forall|i: int| 0 <= i < name.len() ==> name[i] != 47,
    ensures
        memory::parent_of(repository::joined(directory, name)) == directory,
{
    let p = repository::joined(directory, name);
    memory::lemma_last_slash(p);
    let at = memory::last_slash(p);
    let n = directory.len() as int;
    if n == 0 {
        if at >= 0 {
            assert(p[at] == name[at]);
        }
        assert(memory::parent_of(p) =~= directory);
    } else {
        assert(p[n] == 47);
        if at > n {
            assert(p[at] == name[at - n - 1]);
        }
        assert(memory::parent_of(p) =~= directory);
    }
}

/// A worktree that was locked is unlocked by one call, and the registry is as
/// it was before.
pub proof fn lemma_unlock_undoes_lock(tree: memory::Tree, admin: Seq<u8>, data: Seq<u8>)
    requires
        !tree.contains_key(within(admin, "locked"@)),
    ensures
        tree.insert(
            within(admin, "locked"@),
            memory::file(data, false),
        ).remove(within(admin, "locked"@)) == tree,
{
    assert(tree.insert(
        within(admin, "locked"@),
        memory::file(data, false),
    ).remove(within(admin, "locked"@)) =~= tree);
}

/// A locked registration is never pruned.
pub proof fn lemma_lock_protects(tree: memory::Tree, admin: Seq<u8>, expire_before: u64)
    requires
        tree.contains_key(admin),
        tree[admin] is Directory,
        tree.contains_key(within(admin, "locked"@)),
    ensures
        standing(tree, admin, expire_before) == Ok::<
            (Option<WorktreePruneReason>, Option<Seq<u8>>),
            Refusal,
        >((None, None)),
{
}

// ---------------------------------------------------------------------------
// Listing

/// What a HEAD file selects.
pub open spec fn head_target(contents: Seq<u8>) -> core::result::Result<TargetModel, Refusal> {
    let line = worktree_path::line_of(contents);
    if bytes::has_prefix(line, bytes::utf8("ref: "@)) {
        let name = line.skip(bytes::utf8("ref: "@).len() as int);
        if !vstd::utf8::valid_utf8(name) {
            Err(Refusal::Said(Error::InvalidReference("non-UTF-8 worktree HEAD")))
        } else if !bytes::has_prefix(name, bytes::utf8("refs/heads/"@)) {
            Err(Refusal::Said(Error::InvalidReference("worktree HEAD does not name a branch")))
        } else {
            match refname::name_fault(name) {
                Some(refusal) => Err(refusal),
                None => Ok(TargetModel::Branch(name.skip(bytes::utf8("refs/heads/"@).len() as int))),
            }
        }
    } else if !vstd::utf8::valid_utf8(line) {
        Err(Refusal::Said(Error::InvalidReference("non-ASCII worktree HEAD")))
    } else {
        match object::id_of_hex(line) {
            None => Err(Refusal::Said(Error::InvalidReference("invalid detached worktree HEAD"))),
            Some(id) => Ok(TargetModel::Detached(id)),
        }
    }
}

/// Reads what a HEAD file selects.
pub fn parse_head(contents: &[u8]) -> (r: Result<WorktreeTarget>)
    ensures
        match head_target(contents@) {
            Ok(target) => r is Ok && r->Ok_0@ == target,
            Err(refusal) => fs::declined(r, refusal),
        },
{
    let line = worktree_path::cut_newline(contents);
    let symbolic = "ref: ".as_bytes();
    let heads = "refs/heads/".as_bytes();
    if bytes::starts_with(line, symbolic) {
        let name = &line[symbolic.len()..line.len()];
        assert(name@ =~= line@.skip(symbolic@.len() as int));
        if bytes::text_of(name).is_none() {
            return Err(Error::InvalidReference("non-UTF-8 worktree HEAD"));
        }
        if !bytes::starts_with(name, heads) {
            return Err(Error::InvalidReference("worktree HEAD does not name a branch"));
        }
        refname::validate(name)?;
        let branch = bytes::copy_range(name, heads.len(), name.len());
        assert(branch@ =~= name@.skip(heads@.len() as int));
        Ok(WorktreeTarget::Branch(branch))
    } else {
        if bytes::text_of(line).is_none() {
            return Err(Error::InvalidReference("non-ASCII worktree HEAD"));
        }
        match ObjectId::from_hex(line) {
            Ok(id) => Ok(WorktreeTarget::Detached(id)),
            Err(_) => Err(Error::InvalidReference("invalid detached worktree HEAD")),
        }
    }
}

/// Where a registration says that its worktree stands.
pub open spec fn worktree_of(tree: memory::Tree, admin: Seq<u8>) -> core::result::Result<
    Seq<u8>,
    Refusal,
> {
    match storage::read_at(tree, within(admin, "gitdir"@)) {
        Err(refusal) => Err(refusal),
        Ok(contents) => match worktree_path::path_in(contents) {
            Err(error) => Err(Refusal::Said(error)),
            Ok(value) => match worktree_path::relative_target(admin, value) {
                Err(error) => Err(Refusal::Said(error)),
                Ok(place) => if place.len() == 0 {
                    Err(Refusal::Said(Error::InvalidRepository("invalid worktree backlink")))
                } else {
                    Ok(memory::parent_of(place))
                },
            },
        },
    }
}

/// What is known of the first `n` registrations.
pub open spec fn registered(tree: memory::Tree, root: Seq<u8>, names: Seq<Seq<u8>>, n: int) -> core::result::Result<
    Seq<Registration>,
    Refusal,
>
    decreases n,
{
    if n <= 0 {
        Ok(Seq::empty())
    } else {
        match registered(tree, root, names, n - 1) {
            Err(refusal) => Err(refusal),
            Ok(list) => {
                let name = names[n - 1];
                let admin = repository::joined(root, name);
                if !vstd::utf8::valid_utf8(name) {
                    Err(Refusal::Said(Error::InvalidRepository("non-UTF-8 worktree name")))
                } else if !worktree_path::valid_name(name) {
                    Err(Refusal::Said(Error::InvalidRepository("invalid worktree name")))
                } else {
                    match worktree_of(tree, admin) {
                        Err(refusal) => Err(refusal),
                        Ok(path) => match storage::read_at(tree, within(admin, "HEAD"@)) {
                            Err(refusal) => Err(refusal),
                            Ok(contents) => match head_target(contents) {
                                Err(refusal) => Err(refusal),
                                Ok(target) => Ok(list.push(Registration { name, path, target })),
                            },
                        },
                    }
                }
            },
        }
    }
}

/// The registered worktrees, in order of their names.
pub open spec fn all_registered(tree: memory::Tree, git: Seq<u8>) -> core::result::Result<
    Seq<Registration>,
    Refusal,
> {
    match storage::listed(tree, registry(git)) {
        Err(refusal) => if crate::ignore::is_absent(refusal) {
            Ok(Seq::empty())
        } else {
            Err(refusal)
        },
        Ok(names) => registered(tree, registry(git), names, names.len() as int),
    }
}

proof fn lemma_registered_persists(
    tree: memory::Tree,
    root: Seq<u8>,
    names: Seq<Seq<u8>>,
    n: int,
    m: int,
)
    requires
        0 <= n <= m,
        registered(tree, root, names, n) is Err,
    ensures
        registered(tree, root, names, m) == registered(tree, root, names, n),
    decreases m - n,
{
    if n < m {
        lemma_registered_persists(tree, root, names, n, m - 1);
    }
}

/// Finds where a registration says that its worktree stands.
fn find_worktree(files: &MemoryFileSystem, admin: &[u8]) -> (r: Result<Vec<u8>>)
    requires
        path::plain(admin@),
    ensures
        match worktree_of(files@, admin@) {
            Ok(at) => r is Ok && r->Ok_0@ == at && path::plain(at),
            Err(refusal) => fs::declined(r, refusal),
        },
{
    proof {
        lemma_file_names();
    }
    let link = file_in(admin, "gitdir");
    let contents = files.read(link.as_slice())?;
    let value = worktree_path::parse_path_file(contents.as_slice())?;
    let place = worktree_path::resolve_relative(admin, value.as_slice())?;
    if place.len() == 0 {
        return Err(Error::InvalidRepository("invalid worktree backlink"));
    }
    proof {
        memory::lemma_parent_plain(place@);
    }
    Ok(memory::parent(place.as_slice()))
}

impl Repository {
    /// Lists the registered worktrees in order of their names.
    pub fn linked_worktrees(&self) -> (r: Result<Vec<LinkedWorktreeInfo>>)
        ensures
            match all_registered(self.tree(), self.git()) {
                Ok(list) => r is Ok && registrations(r->Ok_0@) == list,
                Err(refusal) => fs::declined(r, refusal),
            },
    {
        proof {
            lemma_file_names();
        }
        let root = self.registry_path();
        let mut out: Vec<LinkedWorktreeInfo> = Vec::new();
        assert(registrations(out@) =~= Seq::empty());
        let names = match self.list_directory("worktrees".as_bytes()) {
            Ok(names) => names,
            Err(Error::NotFound(_)) => return Ok(out),
            Err(error) => return Err(error),
        };
        let ghost all = bytes::deep(names@);
        let mut i: usize = 0;
        while i < names.len()
            invariant
                i <= names@.len(),
                all == bytes::deep(names@),
                root@ == registry(self.git()),
                path::plain(root@),
                storage::listed(self.tree(), root@) == Ok::<Seq<Seq<u8>>, Refusal>(all),
                registered(self.tree(), root@, all, i as int) == Ok::<Seq<Registration>, Refusal>(
                    registrations(out@),
                ),
            decreases names@.len() - i,
        {
            proof {
                lemma_file_names();
                if registered(self.tree(), root@, all, i + 1) is Err {
                    lemma_registered_persists(self.tree(), root@, all, i + 1, all.len() as int);
                }
            }
            let name = names[i].as_slice();
            assert(name@ == all[i as int]);
            if bytes::text_of(name).is_none() {
                return Err(Error::InvalidRepository("non-UTF-8 worktree name"));
            }
            worktree_path::validate_worktree_name(name)?;
            let admin = repository::join_path(root.as_slice(), name);
            proof {
                repository::lemma_joined_plain(root@, name@);
            }
            let path = find_worktree(self.filesystem(), admin.as_slice())?;
            let head = file_in(admin.as_slice(), "HEAD");
            let contents = self.filesystem().read(head.as_slice())?;
            let target = parse_head(contents.as_slice())?;
            let ghost before = out@;
            out.push(LinkedWorktreeInfo { name: bytes::to_vec(name), path, target });
            assert(registrations(out@) =~= registrations(before).push(out@.last()@));
            i += 1;
        }
        Ok(out)
    }
}

// ---------------------------------------------------------------------------
// Removal

/// What removing a tree leaves, and why it is refused.
pub open spec fn torn(tree: memory::Tree, p: Seq<u8>) -> (memory::Tree, Option<Refusal>) {
    if !tree.contains_key(p) {
        (tree, Some(Refusal::At(Fault::NotFound, p)))
    } else {
        (memory::without(tree, p), None)
    }
}

/// Why a worktree may not be removed, or where it and its registration stand.
pub open spec fn removable(
    tree: memory::Tree,
    git: Seq<u8>,
    name: Seq<u8>,
    options: RemoveWorktreeOptions,
) -> core::result::Result<(Seq<u8>, Seq<u8>), Refusal> {
    match admin_of(tree, git, name) {
        Err(refusal) => Err(refusal),
        Ok(admin) => match lock_reason(tree, admin) {
            Err(refusal) => Err(refusal),
            Ok(reason) => if reason is Some && !options.override_lock {
                Err(Refusal::Said(Error::ReferenceConflict("worktree is locked")))
            } else {
                match worktree_of(tree, admin) {
                    Err(refusal) => Err(refusal),
                    Ok(path) => Ok((path, admin)),
                }
            },
        },
    }
}

/// What removing a worktree and its registration leaves.
pub open spec fn uprooted(tree: memory::Tree, path: Seq<u8>, admin: Seq<u8>) -> (
    memory::Tree,
    Option<Refusal>,
) {
    if tree.contains_key(path) {
        torn(memory::without(tree, path), admin)
    } else {
        torn(tree, admin)
    }
}

fn copies(list: &[Vec<u8>]) -> (r: Vec<Vec<u8>>)
    ensures
        bytes::deep(r@) == bytes::deep(list@),
{
    let mut out: Vec<Vec<u8>> = Vec::new();
    let mut i: usize = 0;
    while i < list.len()
        invariant
            i <= list@.len(),
            out@.len() == i,
            forall|j: int| 0 <= j < i ==> (#[trigger] out@[j])@ == list@[j]@,
        decreases list@.len() - i,
    {
        out.push(bytes::to_vec(list[i].as_slice()));
        i += 1;
    }
    assert(bytes::deep(out@) =~= bytes::deep(list@));
    out
}

impl Repository {
    /// Removes a linked worktree and its registration. The paths that differ
    /// from the worktree's own HEAD and index prevent it, unless forced.
    pub fn remove_worktree_with_options(
        &mut self,
        name: &[u8],
        options: &RemoveWorktreeOptions,
        changes: &[Vec<u8>],
    ) -> (r: Result<()>)
        ensures
            final(self).git() == old(self).git(),
            final(self).work() == old(self).work(),
            match removable(old(self).tree(), old(self).git(), name@, *options) {
                Err(refusal) => fs::declined(r, refusal) && final(self).tree() == old(self).tree(),
                Ok((path, admin)) => if old(self).tree().contains_key(path) && !options.force
                    && changes@.len() > 0 {
                    &&& r is Err && r->Err_0 is CheckoutConflict
                    &&& bytes::deep(r->Err_0->CheckoutConflict_0@) == bytes::deep(changes@)
                    &&& final(self).tree() == old(self).tree()
                } else {
                    let (tree, refusal) = uprooted(old(self).tree(), path, admin);
                    &&& final(self).tree() == tree
                    &&& match refusal {
                        Some(refusal) => fs::declined(r, refusal),
                        None => r is Ok,
                    }
                },
            },
    {
        let admin = self.worktree_admin_dir(name)?;
        if self.worktree_lock_reason(name)?.is_some() && !options.override_lock {
            return Err(Error::ReferenceConflict("worktree is locked"));
        }
        let path = find_worktree(self.filesystem(), admin.as_slice())?;
        let stands = self.filesystem().is_present(path.as_slice())?;
        if stands && !options.force && changes.len() > 0 {
            return Err(Error::CheckoutConflict(copies(changes)));
        }
        let mut files = self.swap_files(MemoryFileSystem::new());
        let mut r: Result<()> = Ok(());
        if stands {
            r = files.remove_tree(path.as_slice());
        }
        if r.is_ok() {
            r = files.remove_tree(admin.as_slice());
        }
        let _ = self.swap_files(files);
        r
    }

    /// Removes a linked worktree that is not locked.
    pub fn remove_worktree(&mut self, name: &[u8], force: bool, changes: &[Vec<u8>]) -> (r: Result<
        (),
    >)
        ensures
            final(self).git() == old(self).git(),
            final(self).work() == old(self).work(),
            match removable(
                old(self).tree(),
                old(self).git(),
                name@,
                RemoveWorktreeOptions { force, override_lock: false },
            ) {
                Err(refusal) => fs::declined(r, refusal) && final(self).tree() == old(self).tree(),
                Ok((path, admin)) => if old(self).tree().contains_key(path) && !force
                    && changes@.len() > 0 {
                    &&& r is Err && r->Err_0 is CheckoutConflict
                    &&& bytes::deep(r->Err_0->CheckoutConflict_0@) == bytes::deep(changes@)
                    &&& final(self).tree() == old(self).tree()
                } else {
                    let (tree, refusal) = uprooted(old(self).tree(), path, admin);
                    &&& final(self).tree() == tree
                    &&& match refusal {
                        Some(refusal) => fs::declined(r, refusal),
                        None => r is Ok,
                    }
                },
            },
    {
        self.remove_worktree_with_options(
            name,
            &RemoveWorktreeOptions { force, override_lock: false },
            changes,
        )
    }
}

// ---------------------------------------------------------------------------
// Settings

/// What the settings of a repository say of linked worktrees: whether their
/// links may be relative, and the format version.
#[derive(Clone, Copy, Debug, PartialEq, Eq)]
pub struct WorktreeFormat {
    pub relative: Option<bool>,
    pub version: i64,
}

/// Names of settings with their values.
pub open spec fn setting_models(list: Seq<(Vec<u8>, Vec<u8>)>) -> Seq<(Seq<u8>, Seq<u8>)> {
    Seq::new(list.len(), |i: int| (list[i].0@, list[i].1@))
}

/// The settings that relative links between worktrees need.
pub open spec fn relative_settings(format: WorktreeFormat) -> core::result::Result<
    Seq<(Seq<u8>, Seq<u8>)>,
    Error,
> {
    if format.relative == Some(true) {
        Ok(Seq::empty())
    } else if format.version != 0 {
        Err(
            Error::InvalidRepository(
                "cannot enable relative worktrees for unknown repository format",
            ),
        )
    } else {
        Ok(
            seq![
                (bytes::utf8("core.repositoryformatversion"@), bytes::utf8("1"@)),
                (bytes::utf8("extensions.relativeworktrees"@), bytes::utf8("true"@)),
            ],
        )
    }
}

/// Tells which settings are to be written before a linked worktree is used.
pub fn enable_relative_worktrees(format: WorktreeFormat) -> (r: Result<Vec<(Vec<u8>, Vec<u8>)>>)
    ensures
        match relative_settings(format) {
            Err(error) => r is Err && r->Err_0 == error,
            Ok(settings) => r is Ok && setting_models(r->Ok_0@) == settings,
        },
{
    let mut out: Vec<(Vec<u8>, Vec<u8>)> = Vec::new();
    if let Some(true) = format.relative {
        assert(setting_models(out@) =~= Seq::empty());
        return Ok(out);
    }
    if format.version != 0 {
        return Err(
            Error::InvalidRepository(
                "cannot enable relative worktrees for unknown repository format",
            ),
        );
    }
    out.push(
        (
            bytes::to_vec("core.repositoryformatversion".as_bytes()),
            bytes::to_vec("1".as_bytes()),
        ),
    );
    out.push(
        (
            bytes::to_vec("extensions.relativeworktrees".as_bytes()),
            bytes::to_vec("true".as_bytes()),
        ),
    );
    assert(setting_models(out@) =~= relative_settings(format)->Ok_0);
    Ok(out)
}

/// What a repair did: whether it changed a linking file, and the settings that
/// are to be written with it.
#[derive(Debug, PartialEq, Eq)]
pub struct WorktreeRepair {
    pub changed: bool,
    pub settings: Vec<(Vec<u8>, Vec<u8>)>,
}

/// Where a worktree was moved, and the settings that are to be written with it.
#[derive(Debug, PartialEq, Eq)]
pub struct MovedWorktree {
    pub path: Vec<u8>,
    pub settings: Vec<(Vec<u8>, Vec<u8>)>,
}

/// A new worktree: its registration, the settings that are to be written with
/// it, and the tree to check out in it by force, where one is.
#[derive(Debug, PartialEq, Eq)]
pub struct AddedWorktree {
    pub git_dir: Vec<u8>,
    pub settings: Vec<(Vec<u8>, Vec<u8>)>,
    pub checkout: Option<ObjectId>,
}

// ---------------------------------------------------------------------------
// Repair

/// What publishing two linking files makes of a tree: both, or neither where
/// a lock stands.
pub open spec fn linked(
    tree: memory::Tree,
    first: Seq<u8>,
    first_data: Seq<u8>,
    second: Seq<u8>,
    second_data: Seq<u8>,
) -> (memory::Tree, Option<Refusal>) {
    if tree.contains_key(repository::lock_of(first)) {
        (tree, Some(Refusal::At(Fault::AlreadyExists, repository::lock_of(first))))
    } else if tree.contains_key(repository::lock_of(second)) || repository::lock_of(second)
        == repository::lock_of(first) {
        (tree, Some(Refusal::At(Fault::AlreadyExists, repository::lock_of(second))))
    } else {
        (
            tree.insert(first, memory::file(first_data, false)).insert(
                second,
                memory::file(second_data, false),
            ),
            None,
        )
    }
}

fn publish_linking_files(
    files: &mut MemoryFileSystem,
    first: &[u8],
    first_data: &[u8],
    second: &[u8],
    second_data: &[u8],
) -> (r: Result<()>)
    requires
        path::plain(first@) && first@.len() > 0,
        path::plain(second@) && second@.len() > 0,
        first@ != repository::lock_of(second@),
        memory::parent_fault(old(files)@, first@) is None,
        memory::parent_fault(old(files)@, second@) is None,
        !(old(files)@.contains_key(first@) && old(files)@[first@] is Directory),
    ensures
        ({
            let (tree, refusal) = linked(old(files)@, first@, first_data@, second@, second_data@);
            &&& final(files)@ == tree
            &&& match refusal {
                Some(refusal) => fs::declined(r, refusal),
                None => r is Ok,
            }
        }),
{
    let ghost tree = files@;
    proof {
        repository::lemma_lock(first@);
        repository::lemma_lock(second@);
    }
    let mut first_lock = bytes::to_vec(first);
    bytes::append(&mut first_lock, ".lock".as_bytes());
    let mut second_lock = bytes::to_vec(second);
    bytes::append(&mut second_lock, ".lock".as_bytes());
    files.write_new(first_lock.as_slice(), first_data)?;
    let ghost one = memory::file(first_data@, false);
    let ghost two = memory::file(second_data@, false);
    assert(files@ == tree.insert(first_lock@, one));
    match files.write_new(second_lock.as_slice(), second_data) {
        Ok(()) => {},
        Err(error) => {
            let _ = files.remove_file(first_lock.as_slice());
            assert(files@ =~= tree);
            return Err(error);
        },
    }
    match files.rename(first_lock.as_slice(), first) {
        Ok(()) => {},
        Err(error) => {
            let _ = files.remove_file(first_lock.as_slice());
            let _ = files.remove_file(second_lock.as_slice());
            return Err(error);
        },
    }
    assert(files@ =~= tree.insert(second_lock@, two).insert(first@, one));
    match files.rename(second_lock.as_slice(), second) {
        Ok(()) => {
            assert(files@ =~= tree.insert(first@, one).insert(second@, two));
            Ok(())
        },
        Err(error) => Err(error),
    }
}

/// The text of the `.git` file of a worktree.
pub open spec fn gitfile_text(worktree: Seq<u8>, admin: Seq<u8>) -> Seq<u8> {
    (bytes::utf8("gitdir: "@) + worktree_path::relative(worktree, admin)).push(10)
}

/// The text of a linking file that points from one path to another.
pub open spec fn link_text(from: Seq<u8>, to: Seq<u8>) -> Seq<u8> {
    worktree_path::relative(from, to).push(10)
}

/// The contents of a file that may be absent.
pub open spec fn perhaps(tree: memory::Tree, p: Seq<u8>) -> core::result::Result<
    Option<Seq<u8>>,
    Refusal,
> {
    match memory::contents(tree, p) {
        Ok(data) => Ok(Some(data)),
        Err(fault) => if fault is NotFound {
            Ok(None)
        } else {
            Err(Refusal::At(fault, p))
        },
    }
}

/// Why a path cannot be the worktree of a registration.
pub open spec fn unfit(tree: memory::Tree, worktree: Seq<u8>) -> Option<Refusal> {
    let dot = within(worktree, ".git"@);
    if !tree.contains_key(worktree) {
        Some(Refusal::At(Fault::NotFound, worktree))
    } else if !(tree[worktree] is Directory) {
        Some(Refusal::At(Fault::NotDirectory, worktree))
    } else if tree.contains_key(dot) && tree[dot] is Directory {
        Some(Refusal::At(Fault::IsDirectory, dot))
    } else {
        None
    }
}

/// What repairing the links between a worktree and its registration makes of
/// a tree, whether anything changed, and the settings that this needs.
pub open spec fn relinked(
    tree: memory::Tree,
    admin: Seq<u8>,
    worktree: Seq<u8>,
    format: WorktreeFormat,
) -> (memory::Tree, core::result::Result<(bool, Seq<(Seq<u8>, Seq<u8>)>), Refusal>) {
    let dot = within(worktree, ".git"@);
    let link = within(admin, "gitdir"@);
    let dot_text = gitfile_text(worktree, admin);
    let link_text = link_text(admin, dot);
    match unfit(tree, worktree) {
        Some(refusal) => (tree, Err(refusal)),
        None => match perhaps(tree, dot) {
            Err(refusal) => (tree, Err(refusal)),
            Ok(current_dot) => match perhaps(tree, link) {
                Err(refusal) => (tree, Err(refusal)),
                Ok(current_link) => if current_dot == Some(dot_text) && current_link == Some(
                    link_text,
                ) {
                    (tree, Ok((false, Seq::empty())))
                } else {
                    match relative_settings(format) {
                        Err(error) => (tree, Err(Refusal::Said(error))),
                        Ok(settings) => {
                            let (next, refusal) = linked(tree, link, link_text, dot, dot_text);
                            (
                                next,
                                match refusal {
                                    Some(refusal) => Err(refusal),
                                    None => Ok((true, settings)),
                                },
                            )
                        },
                    }
                },
            },
        },
    }
}

/// What repairing a worktree makes of a tree.
pub open spec fn repaired(
    tree: memory::Tree,
    git: Seq<u8>,
    name: Seq<u8>,
    value: Seq<u8>,
    format: WorktreeFormat,
) -> (memory::Tree, core::result::Result<(bool, Seq<(Seq<u8>, Seq<u8>)>), Refusal>) {
    match admin_of(tree, git, name) {
        Err(refusal) => (tree, Err(refusal)),
        Ok(admin) => match path::normalized(value) {
            None => (tree, Err(Refusal::At(Fault::InvalidPath, value))),
            Some(worktree) => relinked(tree, admin, worktree, format),
        },
    }
}

fn optional_read(files: &MemoryFileSystem, p: &[u8]) -> (r: Result<Option<Vec<u8>>>)
    requires
        path::plain(p@),
    ensures
        match perhaps(files@, p@) {
            Err(refusal) => fs::declined(r, refusal),
            Ok(data) => r is Ok && match r->Ok_0 {
                Some(contents) => data == Some(contents@),
                None => data is None,
            },
        },
{
    match files.read(p) {
        Ok(contents) => Ok(Some(contents)),
        Err(Error::NotFound(_)) => Ok(None),
        Err(error) => Err(error),
    }
}

fn holds(current: &Option<Vec<u8>>, text: &[u8]) -> (r: bool)
    ensures
        r == (current is Some && current->0@ == text@),
{
    match current {
        Some(contents) => bytes::bytes_eq(contents.as_slice(), text),
        None => false,
    }
}

/// Writes the two linking files of a worktree anew where they differ.
fn relink(files: &mut MemoryFileSystem, admin: &[u8], worktree: &[u8], format: WorktreeFormat) -> (r: Result<
    WorktreeRepair,
>)
    requires
        path::plain(admin@) && admin@.len() > 0,
        path::plain(worktree@),
        old(files)@.contains_key(admin@) && old(files)@[admin@] is Directory,
    ensures
        final(files)@ == relinked(old(files)@, admin@, worktree@, format).0,
        match relinked(old(files)@, admin@, worktree@, format).1 {
            Ok((changed, settings)) => r is Ok && r->Ok_0.changed == changed && setting_models(
                r->Ok_0.settings@,
            ) == settings,
            Err(refusal) => fs::declined(r, refusal),
        },
{
    proof {
        lemma_file_names();
    }
    if !files.metadata(worktree)?.is_dir() {
        return Err(Error::NotDirectory(bytes::to_vec(worktree)));
    }
    let dot = file_in(worktree, ".git");
    match files.metadata(dot.as_slice()) {
        Ok(metadata) => {
            if metadata.is_dir() {
                return Err(Error::IsDirectory(dot));
            }
        },
        Err(Error::NotFound(_)) => {},
        Err(error) => return Err(error),
    }
    let link = file_in(admin, "gitdir");
    let mut dot_text = bytes::to_vec("gitdir: ".as_bytes());
    bytes::append(&mut dot_text, worktree_path::relative_path(worktree, admin).as_slice());
    dot_text.push(10);
    let mut text = worktree_path::relative_path(admin, dot.as_slice());
    text.push(10);
    assert(dot_text@ =~= gitfile_text(worktree@, admin@));
    assert(text@ =~= link_text(admin@, dot@));
    let current_dot = optional_read(files, dot.as_slice())?;
    let current_link = optional_read(files, link.as_slice())?;
    if holds(&current_dot, dot_text.as_slice()) && holds(&current_link, text.as_slice()) {
        let none = WorktreeRepair { changed: false, settings: Vec::new() };
        assert(setting_models(none.settings@) =~= Seq::empty());
        return Ok(none);
    }
    let settings = enable_relative_worktrees(format)?;
    proof {
        lemma_parent_within(admin@, bytes::utf8("gitdir"@));
        lemma_parent_within(worktree@, bytes::utf8(".git"@));
        lemma_link_apart(admin@, worktree@);
    }
    publish_linking_files(
        files,
        link.as_slice(),
        text.as_slice(),
        dot.as_slice(),
        dot_text.as_slice(),
    )?;
    Ok(WorktreeRepair { changed: true, settings })
}

/// The linking file of a registration is not the lock of a `.git` file.
proof fn lemma_link_apart(admin: Seq<u8>, worktree: Seq<u8>)
    ensures
        within(admin, "gitdir"@) != repository::lock_of(within(worktree, ".git"@)),
{
    reveal_strlit("gitdir");
    reveal_strlit(".git");
    reveal_strlit(".lock");
    bytes::lemma_ascii("gitdir"@);
    bytes::lemma_ascii(".git"@);
    bytes::lemma_ascii(".lock"@);
    let a = within(admin, "gitdir"@);
    let b = repository::lock_of(within(worktree, ".git"@));
    assert(a.last() == 114) by {
        assert(a.last() == bytes::utf8("gitdir"@).last());
    }
    assert(b.last() == 107) by {
        assert(b.last() == bytes::utf8(".lock"@).last());
    }
}

impl Repository {
    /// Writes the linking files of a worktree that was moved to a path by
    /// other means. Tells whether either changed, and the settings that are to
    /// be written then.
    pub fn repair_worktree(&mut self, name: &[u8], value: &[u8], format: WorktreeFormat) -> (r: Result<
        WorktreeRepair,
    >)
        ensures
            final(self).git() == old(self).git(),
            final(self).work() == old(self).work(),
            final(self).tree() == repaired(
                old(self).tree(),
                old(self).git(),
                name@,
                value@,
                format,
            ).0,
            match repaired(old(self).tree(), old(self).git(), name@, value@, format).1 {
                Ok((changed, settings)) => r is Ok && r->Ok_0.changed == changed && setting_models(
                    r->Ok_0.settings@,
                ) == settings,
                Err(refusal) => fs::declined(r, refusal),
            },
    {
        let admin = self.worktree_admin_dir(name)?;
        let worktree = path::validate(value)?;
        proof {
            path::lemma_normalized_plain(value@);
        }
        let mut files = self.swap_files(MemoryFileSystem::new());
        let r = relink(&mut files, admin.as_slice(), worktree.as_slice(), format);
        let _ = self.swap_files(files);
        r
    }
}

/// After a repair the two linking files point at each other.
pub proof fn lemma_repair_links(
    tree: memory::Tree,
    admin: Seq<u8>,
    worktree: Seq<u8>,
    format: WorktreeFormat,
)
    requires
        path::plain(admin),
        path::plain(worktree),
        relinked(tree, admin, worktree, format).1 is Ok,
        within(admin, "gitdir"@) != within(worktree, ".git"@),
    ensures
        ({
            let after = relinked(tree, admin, worktree, format).0;
            let dot = within(worktree, ".git"@);
            &&& memory::contents(after, dot) == Ok::<Seq<u8>, Fault>(gitfile_text(worktree, admin))
            &&& memory::contents(after, within(admin, "gitdir"@)) == Ok::<Seq<u8>, Fault>(
                link_text(admin, dot),
            )
            &&& worktree_path::target(admin, worktree_path::relative(admin, dot)) == Ok::<
                Seq<u8>,
                Error,
            >(dot)
            &&& worktree_path::target(worktree, worktree_path::relative(worktree, admin)) == Ok::<
                Seq<u8>,
                Error,
            >(admin)
        }),
{
    lemma_file_names();
    repository::lemma_joined_plain(worktree, bytes::utf8(".git"@));
    worktree_path::lemma_relative_leads(admin, within(worktree, ".git"@));
    worktree_path::lemma_relative_leads(worktree, admin);
}

// ---------------------------------------------------------------------------
// Creation

/// What writing a file makes of a tree.
pub open spec fn wrote(tree: memory::Tree, p: Seq<u8>, data: Seq<u8>) -> (
    memory::Tree,
    Option<Refusal>,
) {
    match memory::parent_fault(tree, p) {
        Some(fault) => (tree, Some(Refusal::At(fault, memory::parent_of(p)))),
        None => if tree.contains_key(p) && tree[p] is Directory {
            (tree, Some(Refusal::At(Fault::IsDirectory, p)))
        } else {
            (
                tree.insert(
                    p,
                    memory::file(data, memory::kept_bit(tree, p)),
                ),
                None,
            )
        },
    }
}

/// What writing the first `n` of some files makes of a tree.
pub open spec fn wrote_all(tree: memory::Tree, list: Seq<(Seq<u8>, Seq<u8>)>, n: int) -> (
    memory::Tree,
    Option<Refusal>,
)
    decreases n,
{
    if n <= 0 {
        (tree, None)
    } else {
        let (next, bad) = wrote_all(tree, list, n - 1);
        if bad is Some {
            (next, bad)
        } else {
            wrote(next, list[n - 1].0, list[n - 1].1)
        }
    }
}

/// The text of the HEAD of a worktree.
pub open spec fn head_text(target: TargetModel) -> Seq<u8> {
    match target {
        TargetModel::Branch(name) => (bytes::utf8("ref: refs/heads/"@) + name).push(10),
        TargetModel::Detached(id) => object::hex_of(id).push(10),
    }
}

/// The files that register a worktree.
pub open spec fn registration_files(
    git: Seq<u8>,
    admin: Seq<u8>,
    worktree: Seq<u8>,
    target: TargetModel,
) -> Seq<(Seq<u8>, Seq<u8>)> {
    let dot = within(worktree, ".git"@);
    seq![
        (dot, gitfile_text(worktree, admin)),
        (within(admin, "gitdir"@), link_text(admin, dot)),
        (within(admin, "commondir"@), link_text(admin, git)),
        (within(admin, "HEAD"@), head_text(target)),
    ]
}

/// Whether a branch is checked out somewhere.
pub open spec fn branch_taken(tree: memory::Tree, git: Seq<u8>, name: Seq<u8>) -> Option<Refusal> {
    match storage::read_at(tree, within(git, "HEAD"@)) {
        Err(refusal) => Some(refusal),
        Ok(head) => if head == head_text(TargetModel::Branch(name)) {
            Some(
                Refusal::Said(
                    Error::ReferenceConflict("branch is checked out in the main worktree"),
                ),
            )
        } else {
            match all_registered(tree, git) {
                Err(refusal) => Some(refusal),
                Ok(list) => if exists|i: int|
                    0 <= i < list.len() && (#[trigger] list[i]).target == TargetModel::Branch(
                        name,
                    ) {
                    Some(
                        Refusal::Said(
                            Error::ReferenceConflict("branch is checked out in a worktree"),
                        ),
                    )
                } else {
                    None
                },
            }
        },
    }
}

/// The full name of a branch.
pub open spec fn branch_ref(branch: Seq<u8>) -> Seq<u8> {
    bytes::utf8("refs/heads/"@) + branch
}

/// Why a worktree cannot select a target: its branch has no sound name, is
/// checked out elsewhere or stands nowhere, or the commit is not to be read.
pub open spec fn unselectable(
    tree: memory::Tree,
    git: Seq<u8>,
    target: TargetModel,
    tip: Option<Seq<u8>>,
    size: nat,
) -> Option<Refusal> {
    match target {
        TargetModel::Branch(branch) => match refname::name_fault(branch_ref(branch)) {
            Some(refusal) => Some(refusal),
            None => match branch_taken(tree, git, branch) {
                Some(refusal) => Some(refusal),
                None => match tip {
                    None => Some(Refusal::At(Fault::NotFound, branch_ref(branch))),
                    Some(id) => match merge::stored_commit(tree, git, id, size) {
                        Err(refusal) => Some(refusal),
                        Ok(_) => None,
                    },
                },
            },
        },
        TargetModel::Detached(id) => match merge::stored_commit(tree, git, id, size) {
            Err(refusal) => Some(refusal),
            Ok(_) => None,
        },
    }
}

/// Why a worktree cannot be created, or where it and its registration go.
pub open spec fn creatable(
    tree: memory::Tree,
    git: Seq<u8>,
    value: Seq<u8>,
    name: Seq<u8>,
    target: TargetModel,
    tip: Option<Seq<u8>>,
    size: nat,
    format: WorktreeFormat,
) -> core::result::Result<(Seq<u8>, Seq<u8>), Refusal> {
    let admin = repository::joined(registry(git), name);
    if !worktree_path::valid_name(name) {
        Err(Refusal::Said(Error::InvalidRepository("invalid worktree name")))
    } else {
        match path::normalized(value) {
            None => Err(Refusal::At(Fault::InvalidPath, value)),
            Some(worktree) => if worktree.len() == 0 || tree.contains_key(worktree) {
                Err(Refusal::At(Fault::AlreadyExists, worktree))
            } else if tree.contains_key(admin) {
                Err(Refusal::At(Fault::AlreadyExists, admin))
            } else {
                match unselectable(tree, git, target, tip, size) {
                    Some(refusal) => Err(refusal),
                    None => match relative_settings(format) {
                        Err(error) => Err(Refusal::Said(error)),
                        Ok(_) => Ok((worktree, admin)),
                    },
                }
            },
        }
    }
}

/// The commit of a target; `tip` is that of its branch.
pub open spec fn target_commit(target: TargetModel, tip: Option<Seq<u8>>) -> Seq<u8> {
    match target {
        TargetModel::Branch(_) => tip->0,
        TargetModel::Detached(id) => id,
    }
}

/// Whether a result describes a worktree that was added: its registration, the
/// settings, and the tree of its commit where a checkout is wanted.
pub open spec fn adds(
    r: AddedWorktree,
    tree: memory::Tree,
    git: Seq<u8>,
    admin: Seq<u8>,
    target: TargetModel,
    tip: Option<Seq<u8>>,
    format: WorktreeFormat,
    options: AddWorktreeOptions,
) -> bool {
    &&& r.git_dir@ == admin
    &&& relative_settings(format) == Ok::<Seq<(Seq<u8>, Seq<u8>)>, Error>(
        setting_models(r.settings@),
    )
    &&& merge::raw_id(r.checkout) == (if options.checkout {
        match merge::commit_tree(
            tree,
            git,
            target_commit(target, tip),
            options.max_object_size as nat,
        ) {
            Ok(top) => Some(top),
            Err(_) => None,
        }
    } else {
        None
    })
}

/// What removing a tree that may be absent leaves.
pub open spec fn cleaned(tree: memory::Tree, p: Seq<u8>) -> memory::Tree {
    torn(tree, p).0
}

/// What registering a worktree makes of a tree: the two directories and the
/// registration files, or neither directory where a file is refused.
pub open spec fn created(
    tree: memory::Tree,
    git: Seq<u8>,
    worktree: Seq<u8>,
    admin: Seq<u8>,
    target: TargetModel,
) -> (memory::Tree, Option<Refusal>) {
    let (one, bad) = memory::with_directories(tree, admin, 0);
    if bad is Some {
        (one, Some(Refusal::At(Fault::NotDirectory, bad->0)))
    } else {
        let (two, bad) = memory::with_directories(one, worktree, 0);
        if bad is Some {
            (two, Some(Refusal::At(Fault::NotDirectory, bad->0)))
        } else {
            let list = registration_files(git, admin, worktree, target);
            let (three, bad) = wrote_all(two, list, 4);
            if bad is Some {
                (cleaned(cleaned(three, worktree), admin), bad)
            } else {
                (three, None)
            }
        }
    }
}

fn text_of_head(target: &WorktreeTarget) -> (r: Vec<u8>)
    ensures
        r@ == head_text(target@),
{
    match target {
        WorktreeTarget::Branch(name) => {
            let mut out = bytes::to_vec("ref: refs/heads/".as_bytes());
            bytes::append(&mut out, name.as_slice());
            out.push(10);
            assert(out@ =~= head_text(target@));
            out
        },
        WorktreeTarget::Detached(id) => {
            let hex = id.to_hex();
            let mut out = bytes::to_vec(hex.as_slice());
            out.push(10);
            assert(out@ =~= head_text(target@));
            out
        },
    }
}

fn write_registration(
    files: &mut MemoryFileSystem,
    git: &[u8],
    admin: &[u8],
    worktree: &[u8],
    target: &WorktreeTarget,
) -> (r: Result<()>)
    requires
        path::plain(git@),
        path::plain(admin@),
        path::plain(worktree@),
    ensures
        ({
            let list = registration_files(git@, admin@, worktree@, target@);
            let (tree, refusal) = wrote_all(old(files)@, list, 4);
            &&& final(files)@ == tree
            &&& match refusal {
                Some(refusal) => fs::declined(r, refusal),
                None => r is Ok,
            }
        }),
{
    proof {
        lemma_file_names();
        reveal_with_fuel(wrote_all, 5);
    }
    let dot = file_in(worktree, ".git");
    let mut dot_text = bytes::to_vec("gitdir: ".as_bytes());
    bytes::append(&mut dot_text, worktree_path::relative_path(worktree, admin).as_slice());
    dot_text.push(10);
    assert(dot_text@ =~= gitfile_text(worktree@, admin@));
    files.write(dot.as_slice(), dot_text.as_slice())?;
    let mut link = worktree_path::relative_path(admin, dot.as_slice());
    link.push(10);
    assert(link@ =~= link_text(admin@, dot@));
    files.write(file_in(admin, "gitdir").as_slice(), link.as_slice())?;
    let mut common = worktree_path::relative_path(admin, git);
    common.push(10);
    assert(common@ =~= link_text(admin@, git@));
    files.write(file_in(admin, "commondir").as_slice(), common.as_slice())?;
    files.write(file_in(admin, "HEAD").as_slice(), text_of_head(target).as_slice())
}

impl Repository {
    /// Refuses a branch that is checked out in a worktree.
    pub fn ensure_branch_available(&self, branch: &[u8]) -> (r: Result<()>)
        ensures
            match branch_taken(self.tree(), self.git(), branch@) {
                Some(refusal) => fs::declined(r, refusal),
                None => r is Ok,
            },
    {
        proof {
            lemma_file_names();
        }
        let head = self.read_git_file("HEAD".as_bytes())?;
        let text = text_of_head(&WorktreeTarget::Branch(bytes::to_vec(branch)));
        if bytes::bytes_eq(head.as_slice(), text.as_slice()) {
            return Err(Error::ReferenceConflict("branch is checked out in the main worktree"));
        }
        let list = self.linked_worktrees()?;
        let ghost all = registrations(list@);
        let mut i: usize = 0;
        while i < list.len()
            invariant
                i <= list@.len(),
                all == registrations(list@),
                all_registered(self.tree(), self.git()) == Ok::<Seq<Registration>, Refusal>(all),
                storage::read_at(self.tree(), within(self.git(), "HEAD"@)) == Ok::<
                    Seq<u8>,
                    Refusal,
                >(head@),
                head@ != head_text(TargetModel::Branch(branch@)),
                forall|j: int|
                    0 <= j < i ==> (#[trigger] all[j]).target != TargetModel::Branch(branch@),
            decreases list@.len() - i,
        {
            assert(all[i as int] == list@[i as int]@);
            match &list[i].target {
                WorktreeTarget::Branch(name) => {
                    if bytes::bytes_eq(name.as_slice(), branch) {
                        assert(all[i as int].target == TargetModel::Branch(branch@));
                        return Err(Error::ReferenceConflict("branch is checked out in a worktree"));
                    }
                },
                WorktreeTarget::Detached(_) => {},
            }
            i += 1;
        }
        Ok(())
    }

    /// Registers a new linked worktree with an empty working directory, and
    /// gives the place of its registration with what is left to do. `tip` is
    /// the commit that the branch of the target stands at, where there is one.
    pub fn add_worktree(
        &mut self,
        value: &[u8],
        name: &[u8],
        target: &WorktreeTarget,
        tip: Option<ObjectId>,
        format: WorktreeFormat,
        options: &AddWorktreeOptions,
    ) -> (r: Result<AddedWorktree>)
        ensures
            final(self).git() == old(self).git(),
            final(self).work() == old(self).work(),
            match creatable(
                old(self).tree(),
                old(self).git(),
                value@,
                name@,
                target@,
                merge::raw_id(tip),
                options.max_object_size as nat,
                format,
            ) {
                Err(refusal) => fs::declined(r, refusal) && final(self).tree() == old(self).tree(),
                Ok((worktree, admin)) => {
                    let (tree, refusal) = created(
                        old(self).tree(),
                        old(self).git(),
                        worktree,
                        admin,
                        target@,
                    );
                    &&& final(self).tree() == tree
                    &&& match refusal {
                        Some(refusal) => fs::declined(r, refusal),
                        None => r is Ok && adds(
                            r->Ok_0,
                            old(self).tree(),
                            old(self).git(),
                            admin,
                            target@,
                            merge::raw_id(tip),
                            format,
                            *options,
                        ),
                    }
                },
            },
    {
        worktree_path::validate_worktree_name(name)?;
        let worktree = path::validate(value)?;
        proof {
            path::lemma_normalized_plain(value@);
        }
        if worktree.len() == 0 || self.filesystem().is_present(worktree.as_slice())? {
            return Err(Error::AlreadyExists(worktree));
        }
        let root = self.registry_path();
        let admin = repository::join_path(root.as_slice(), name);
        proof {
            repository::lemma_joined_plain(root@, name@);
        }
        if self.filesystem().is_present(admin.as_slice())? {
            return Err(Error::AlreadyExists(admin));
        }
        let top = match target {
            WorktreeTarget::Branch(branch) => {
                let mut full = bytes::to_vec("refs/heads/".as_bytes());
                bytes::append(&mut full, branch.as_slice());
                refname::validate(full.as_slice())?;
                self.ensure_branch_available(branch.as_slice())?;
                match tip {
                    None => {
                        return Err(Error::NotFound(full));
                    },
                    Some(id) => self.read_commit(id, options.max_object_size)?.tree(),
                }
            },
            WorktreeTarget::Detached(id) => {
                self.read_commit(*id, options.max_object_size)?.tree()
            },
        };
        let settings = enable_relative_worktrees(format)?;
        let git = bytes::to_vec(self.git_dir());
        let mut files = self.swap_files(MemoryFileSystem::new());
        let mut r = files.create_dir_all(admin.as_slice());
        if r.is_ok() {
            r = files.create_dir_all(worktree.as_slice());
            if r.is_ok() {
                r = write_registration(
                    &mut files,
                    git.as_slice(),
                    admin.as_slice(),
                    worktree.as_slice(),
                    target,
                );
                if r.is_err() {
                    let _ = files.remove_tree(worktree.as_slice());
                    let _ = files.remove_tree(admin.as_slice());
                }
            }
        }
        let _ = self.swap_files(files);
        match r {
            Ok(()) => Ok(
                AddedWorktree {
                    git_dir: admin,
                    settings,
                    checkout: if options.checkout {
                        Some(top)
                    } else {
                        None
                    },
                },
            ),
            Err(error) => Err(error),
        }
    }
}

// ---------------------------------------------------------------------------
// Moving

/// The worktree that a registration points at from anywhere.
pub open spec fn source_of(tree: memory::Tree, admin: Seq<u8>) -> core::result::Result<
    Seq<u8>,
    Refusal,
> {
    match storage::read_at(tree, within(admin, "gitdir"@)) {
        Err(refusal) => Err(refusal),
        Ok(contents) => match points_at(admin, contents) {
            Err(error) => Err(Refusal::Said(error)),
            Ok(place) => if place.len() == 0 {
                Err(Refusal::Said(Error::InvalidRepository("invalid worktree backlink")))
            } else {
                Ok(memory::parent_of(place))
            },
        },
    }
}

/// Why the `.git` file of a worktree does not point at its registration.
pub open spec fn gitfile_fault(tree: memory::Tree, source: Seq<u8>, admin: Seq<u8>) -> Option<
    Refusal,
> {
    match storage::read_at(tree, within(source, ".git"@)) {
        Err(refusal) => Some(refusal),
        Ok(contents) => {
            let line = worktree_path::line_of(contents);
            let prefix = bytes::utf8("gitdir: "@);
            if !bytes::has_prefix(line, prefix) {
                Some(Refusal::Said(Error::InvalidRepository("worktree .git file is malformed")))
            } else {
                match points_at(source, line.skip(prefix.len() as int)) {
                    Err(error) => Some(Refusal::Said(error)),
                    Ok(place) => if place != admin {
                        Some(
                            Refusal::Said(
                                Error::InvalidRepository(
                                    "worktree .git file points at a different registration",
                                ),
                            ),
                        )
                    } else {
                        None
                    },
                }
            }
        },
    }
}

/// Why the first `n` entries of an index keep a worktree from being moved: a
/// submodule that is checked out.
pub open spec fn submodule_fault(
    tree: memory::Tree,
    source: Seq<u8>,
    list: Seq<index::EntryModel>,
    n: int,
) -> Option<Refusal>
    decreases n,
{
    if n <= 0 {
        None
    } else {
        match submodule_fault(tree, source, list, n - 1) {
            Some(refusal) => Some(refusal),
            None => {
                let e = list[n - 1];
                let at = repository::joined(source, e.path);
                if e.stage != 0 || e.mode != 0o160000 {
                    None
                } else if !vstd::utf8::valid_utf8(e.path) {
                    Some(
                        Refusal::Said(
                            Error::InvalidRepository(
                                "non-UTF-8 submodule path cannot be inspected",
                            ),
                        ),
                    )
                } else {
                    match path::normalized(at) {
                        None => Some(Refusal::At(Fault::InvalidPath, at)),
                        Some(place) => if tree.contains_key(place) {
                            Some(
                                Refusal::Said(
                                    Error::InvalidRepository(
                                        "worktrees containing populated submodules cannot be moved",
                                    ),
                                ),
                            )
                        } else {
                            None
                        },
                    }
                }
            },
        }
    }
}

/// Why the submodules of a worktree keep it from being moved.
pub open spec fn unmovable(tree: memory::Tree, admin: Seq<u8>, source: Seq<u8>) -> Option<Refusal> {
    if tree.contains_key(within(admin, "modules"@)) {
        Some(
            Refusal::Said(
                Error::InvalidRepository("worktrees containing submodules cannot be moved"),
            ),
        )
    } else {
        match perhaps(tree, within(admin, "index"@)) {
            Err(refusal) => Some(refusal),
            Ok(None) => None,
            Ok(Some(data)) => match index::index_from(data) {
                Err(error) => Some(Refusal::Said(error)),
                Ok(model) => submodule_fault(
                    tree,
                    source,
                    model.entries,
                    model.entries.len() as int,
                ),
            },
        }
    }
}

/// Where a worktree goes: below a directory that stands, or else to the very
/// path.
pub open spec fn landing(tree: memory::Tree, source: Seq<u8>, value: Seq<u8>) -> core::result::Result<
    Seq<u8>,
    Refusal,
> {
    match path::normalized(value) {
        None => Err(Refusal::At(Fault::InvalidPath, value)),
        Some(wanted) => {
            let there = if !tree.contains_key(wanted) {
                Ok(wanted)
            } else if !(tree[wanted] is Directory) {
                Err(Refusal::At(Fault::AlreadyExists, wanted))
            } else if source.len() == 0 {
                Err(Refusal::Said(Error::InvalidRepository("worktree has no directory name")))
            } else {
                Ok(repository::joined(wanted, memory::name_of(source)))
            };
            match there {
                Err(refusal) => Err(refusal),
                Ok(at) => if memory::stands_in(at, source) {
                    Err(Refusal::At(Fault::InvalidPath, at))
                } else if tree.contains_key(at) {
                    Err(Refusal::At(Fault::AlreadyExists, at))
                } else {
                    Ok(at)
                },
            }
        },
    }
}

/// Why a worktree may not be moved, or its registration, its place and its
/// new place.
pub open spec fn movable(
    tree: memory::Tree,
    git: Seq<u8>,
    name: Seq<u8>,
    value: Seq<u8>,
    options: MoveWorktreeOptions,
) -> core::result::Result<(Seq<u8>, Seq<u8>, Seq<u8>), Refusal> {
    match admin_of(tree, git, name) {
        Err(refusal) => Err(refusal),
        Ok(admin) => match lock_reason(tree, admin) {
            Err(refusal) => Err(refusal),
            Ok(reason) => if reason is Some && !options.override_locks {
                Err(Refusal::Said(Error::ReferenceConflict("worktree is locked")))
            } else {
                match source_of(tree, admin) {
                    Err(refusal) => Err(refusal),
                    Ok(source) => if !tree.contains_key(source) {
                        Err(Refusal::At(Fault::NotFound, source))
                    } else if !(tree[source] is Directory) {
                        Err(Refusal::At(Fault::NotDirectory, source))
                    } else {
                        match gitfile_fault(tree, source, admin) {
                            Some(refusal) => Err(refusal),
                            None => match unmovable(tree, admin, source) {
                                Some(refusal) => Err(refusal),
                                None => match landing(tree, source, value) {
                                    Err(refusal) => Err(refusal),
                                    Ok(at) => Ok((admin, source, at)),
                                },
                            },
                        }
                    },
                }
            },
        },
    }
}

/// Whether a registration claims a place for its worktree.
pub open spec fn claims(tree: memory::Tree, admin: Seq<u8>, at: Seq<u8>) -> bool {
    match memory::contents(tree, within(admin, "gitdir"@)) {
        Err(_) => false,
        Ok(contents) => match points_at(admin, contents) {
            Err(_) => false,
            Ok(place) => place.len() > 0 && memory::parent_of(place) == at,
        },
    }
}

/// What giving up the first `n` registrations that claim a place leaves.
pub open spec fn vacated(
    tree: memory::Tree,
    root: Seq<u8>,
    names: Seq<Seq<u8>>,
    moving: Seq<u8>,
    at: Seq<u8>,
    options: MoveWorktreeOptions,
    n: int,
) -> (memory::Tree, Option<Refusal>)
    decreases n,
{
    if n <= 0 {
        (tree, None)
    } else {
        let (left, bad) = vacated(tree, root, names, moving, at, options, n - 1);
        let name = names[n - 1];
        if bad is Some {
            (left, bad)
        } else if !vstd::utf8::valid_utf8(name) || name == moving {
            (left, None)
        } else {
            match path::normalized(repository::joined(root, name)) {
                None => (left, None),
                Some(admin) => if !claims(left, admin, at) {
                    (left, None)
                } else if !options.force_registered_destination {
                    (
                        left,
                        Some(
                            Refusal::Said(
                                Error::ReferenceConflict("destination is registered as a worktree"),
                            ),
                        ),
                    )
                } else if left.contains_key(within(admin, "locked"@)) && !options.override_locks {
                    (
                        left,
                        Some(
                            Refusal::Said(
                                Error::ReferenceConflict("destination worktree is locked"),
                            ),
                        ),
                    )
                } else {
                    torn(left, admin)
                },
            }
        }
    }
}

/// What moving a directory to a free place makes of a tree.
pub open spec fn carried(tree: memory::Tree, from: Seq<u8>, to: Seq<u8>) -> (
    memory::Tree,
    Option<Refusal>,
) {
    match memory::renamed(tree, from, to) {
        Err((fault, at)) => (tree, Some(Refusal::At(fault, at))),
        Ok(next) => (next, None),
    }
}

/// What moving a worktree makes of a tree: where the links cannot be written
/// the directory goes back.
pub open spec fn relocated(
    tree: memory::Tree,
    git: Seq<u8>,
    name: Seq<u8>,
    value: Seq<u8>,
    format: WorktreeFormat,
    options: MoveWorktreeOptions,
) -> (memory::Tree, core::result::Result<(Seq<u8>, Seq<(Seq<u8>, Seq<u8>)>), Refusal>) {
    match movable(tree, git, name, value, options) {
        Err(refusal) => (tree, Err(refusal)),
        Ok((admin, source, at)) => match storage::listed(tree, registry(git)) {
            Err(refusal) => (tree, Err(refusal)),
            Ok(names) => {
                let (free, bad) = vacated(
                    tree,
                    registry(git),
                    names,
                    name,
                    at,
                    options,
                    names.len() as int,
                );
                if bad is Some {
                    (free, Err(bad->0))
                } else {
                    let (moved, bad) = carried(free, source, at);
                    if bad is Some {
                        (moved, Err(bad->0))
                    } else {
                        let (done, links) = repaired(moved, git, name, at, format);
                        match links {
                            Ok((_, settings)) => (done, Ok((at, settings))),
                            Err(refusal) => (carried(done, at, source).0, Err(refusal)),
                        }
                    }
                }
            },
        },
    }
}

/// Finds the worktree that a registration points at.
fn find_source(files: &MemoryFileSystem, admin: &[u8]) -> (r: Result<Vec<u8>>)
    requires
        path::plain(admin@),
    ensures
        match source_of(files@, admin@) {
            Ok(at) => r is Ok && r->Ok_0@ == at && path::plain(at),
            Err(refusal) => fs::declined(r, refusal),
        },
{
    proof {
        lemma_file_names();
    }
    let link = file_in(admin, "gitdir");
    let contents = files.read(link.as_slice())?;
    let value = worktree_path::parse_path_file(contents.as_slice())?;
    let place = worktree_path::resolve_worktree_path(admin, value.as_slice())?;
    if place.len() == 0 {
        return Err(Error::InvalidRepository("invalid worktree backlink"));
    }
    proof {
        memory::lemma_parent_plain(place@);
    }
    Ok(memory::parent(place.as_slice()))
}

fn validate_worktree_gitfile(files: &MemoryFileSystem, source: &[u8], admin: &[u8]) -> (r: Result<
    (),
>)
    requires
        path::plain(source@),
    ensures
        match gitfile_fault(files@, source@, admin@) {
            Some(refusal) => fs::declined(r, refusal),
            None => r is Ok,
        },
{
    proof {
        lemma_file_names();
    }
    let contents = files.read(file_in(source, ".git").as_slice())?;
    let line = worktree_path::cut_newline(contents.as_slice());
    let prefix = "gitdir: ".as_bytes();
    if !bytes::starts_with(line, prefix) {
        return Err(Error::InvalidRepository("worktree .git file is malformed"));
    }
    let value = &line[prefix.len()..line.len()];
    assert(value@ =~= line@.skip(prefix@.len() as int));
    let value = worktree_path::parse_path_file(value)?;
    let place = worktree_path::resolve_worktree_path(source, value.as_slice())?;
    if !bytes::bytes_eq(place.as_slice(), admin) {
        return Err(
            Error::InvalidRepository("worktree .git file points at a different registration"),
        );
    }
    Ok(())
}

proof fn lemma_submodule_persists(
    tree: memory::Tree,
    source: Seq<u8>,
    list: Seq<index::EntryModel>,
    n: int,
    m: int,
)
    requires
        0 <= n <= m,
        submodule_fault(tree, source, list, n) is Some,
    ensures
        submodule_fault(tree, source, list, m) == submodule_fault(tree, source, list, n),
    decreases m - n,
{
    if n < m {
        lemma_submodule_persists(tree, source, list, n, m - 1);
    }
}

fn reject_submodules(files: &MemoryFileSystem, admin: &[u8], source: &[u8]) -> (r: Result<()>)
    requires
        path::plain(admin@),
        path::plain(source@),
    ensures
        match unmovable(files@, admin@, source@) {
            Some(refusal) => fs::declined(r, refusal),
            None => r is Ok,
        },
{
    proof {
        lemma_file_names();
    }
    if files.is_present(file_in(admin, "modules").as_slice())? {
        return Err(Error::InvalidRepository("worktrees containing submodules cannot be moved"));
    }
    let data = match optional_read(files, file_in(admin, "index").as_slice())? {
        Some(data) => data,
        None => return Ok(()),
    };
    let parsed = Index::parse(data.as_slice())?;
    let entries = parsed.entries();
    let ghost list = index::models(entries@);
    let mut i: usize = 0;
    while i < entries.len()
        invariant
            i <= entries@.len(),
            list == index::models(entries@),
            submodule_fault(files@, source@, list, i as int) is None,
            unmovable(files@, admin@, source@) == submodule_fault(
                files@,
                source@,
                list,
                list.len() as int,
            ),
        decreases entries@.len() - i,
    {
        let entry = &entries[i];
        assert(list[i as int] == entry@);
        proof {
            if submodule_fault(files@, source@, list, i + 1) is Some {
                lemma_submodule_persists(files@, source@, list, i + 1, list.len() as int);
            }
        }
        if entry.stage() == 0 && entry.mode() == 0o160000 {
            if bytes::text_of(entry.path()).is_none() {
                return Err(
                    Error::InvalidRepository("non-UTF-8 submodule path cannot be inspected"),
                );
            }
            let at = repository::join_path(source, entry.path());
            if files.is_present(at.as_slice())? {
                return Err(
                    Error::InvalidRepository(
                        "worktrees containing populated submodules cannot be moved",
                    ),
                );
            }
        }
        i += 1;
    }
    Ok(())
}

/// Finds where a worktree goes.
fn find_landing(files: &MemoryFileSystem, source: &[u8], value: &[u8]) -> (r: Result<Vec<u8>>)
    requires
        path::plain(source@),
    ensures
        match landing(files@, source@, value@) {
            Ok(at) => r is Ok && r->Ok_0@ == at && path::plain(at),
            Err(refusal) => fs::declined(r, refusal),
        },
{
    let wanted = path::validate(value)?;
    proof {
        path::lemma_normalized_plain(value@);
    }
    let at = match files.metadata(wanted.as_slice()) {
        Ok(metadata) => {
            if !metadata.is_dir() {
                return Err(Error::AlreadyExists(wanted));
            }
            if source.len() == 0 {
                return Err(Error::InvalidRepository("worktree has no directory name"));
            }
            proof {
                memory::lemma_name_plain(source@);
                repository::lemma_joined_plain(wanted@, memory::name_of(source@));
            }
            repository::join_path(wanted.as_slice(), memory::file_name(source).as_slice())
        },
        Err(Error::NotFound(_)) => wanted,
        Err(error) => return Err(error),
    };
    if source.len() == 0 || memory::at_or_below(at.as_slice(), source) {
        return Err(Error::InvalidPath(at));
    }
    if files.is_present(at.as_slice())? {
        return Err(Error::AlreadyExists(at));
    }
    Ok(at)
}

fn claimed(files: &MemoryFileSystem, admin: &[u8], at: &[u8]) -> (r: bool)
    requires
        path::plain(admin@),
    ensures
        r == claims(files@, admin@, at@),
{
    proof {
        lemma_file_names();
    }
    match files.read(file_in(admin, "gitdir").as_slice()) {
        Err(_) => false,
        Ok(contents) => match worktree_path::parse_path_file(contents.as_slice()) {
            Err(_) => false,
            Ok(value) => match worktree_path::resolve_worktree_path(admin, value.as_slice()) {
                Err(_) => false,
                Ok(place) => place.len() > 0 && bytes::bytes_eq(
                    memory::parent(place.as_slice()).as_slice(),
                    at,
                ),
            },
        },
    }
}

proof fn lemma_vacated_persists(
    tree: memory::Tree,
    root: Seq<u8>,
    names: Seq<Seq<u8>>,
    moving: Seq<u8>,
    at: Seq<u8>,
    options: MoveWorktreeOptions,
    n: int,
    m: int,
)
    requires
        0 <= n <= m,
        vacated(tree, root, names, moving, at, options, n).1 is Some,
    ensures
        vacated(tree, root, names, moving, at, options, m) == vacated(
            tree,
            root,
            names,
            moving,
            at,
            options,
            n,
        ),
    decreases m - n,
{
    if n < m {
        lemma_vacated_persists(tree, root, names, moving, at, options, n, m - 1);
    }
}

/// Gives up the registrations that claim a place.
fn vacate(
    files: &mut MemoryFileSystem,
    root: &[u8],
    names: &Vec<Vec<u8>>,
    moving: &[u8],
    at: &[u8],
    options: &MoveWorktreeOptions,
) -> (r: Result<()>)
    ensures
        ({
            let (tree, refusal) = vacated(
                old(files)@,
                root@,
                bytes::deep(names@),
                moving@,
                at@,
                *options,
                names@.len() as int,
            );
            &&& final(files)@ == tree
            &&& match refusal {
                Some(refusal) => fs::declined(r, refusal),
                None => r is Ok,
            }
        }),
{
    let ghost all = bytes::deep(names@);
    let ghost tree = files@;
    let mut i: usize = 0;
    while i < names.len()
        invariant
            i <= names@.len(),
            all == bytes::deep(names@),
            tree == old(files)@,
            vacated(tree, root@, all, moving@, at@, *options, i as int) == (
                files@,
                None::<Refusal>,
            ),
        decreases names@.len() - i,
    {
        let name = names[i].as_slice();
        assert(name@ == all[i as int]);
        proof {
            lemma_file_names();
            if vacated(tree, root@, all, moving@, at@, *options, i + 1).1 is Some {
                lemma_vacated_persists(
                    tree,
                    root@,
                    all,
                    moving@,
                    at@,
                    *options,
                    i + 1,
                    all.len() as int,
                );
            }
        }
        if bytes::text_of(name).is_some() && !bytes::bytes_eq(name, moving) {
            let full = repository::join_path(root, name);
            match path::validate(full.as_slice()) {
                Err(_) => {},
                Ok(admin) => {
                    proof {
                        path::lemma_normalized_plain(full@);
                    }
                    if claimed(files, admin.as_slice(), at) {
                        if !options.force_registered_destination {
                            return Err(
                                Error::ReferenceConflict("destination is registered as a worktree"),
                            );
                        }
                        let locked = files.is_present(
                            file_in(admin.as_slice(), "locked").as_slice(),
                        )?;
                        if locked && !options.override_locks {
                            return Err(Error::ReferenceConflict("destination worktree is locked"));
                        }
                        files.remove_tree(admin.as_slice())?;
                    }
                },
            }
        }
        i += 1;
    }
    Ok(())
}

impl Repository {
    fn movable_worktree(&self, name: &[u8], value: &[u8], options: &MoveWorktreeOptions) -> (r: Result<
        (Vec<u8>, Vec<u8>),
    >)
        ensures
            match movable(self.tree(), self.git(), name@, value@, *options) {
                Ok((admin, source, at)) => r is Ok && r->Ok_0.0@ == source && r->Ok_0.1@ == at
                    && path::plain(source) && path::plain(at),
                Err(refusal) => fs::declined(r, refusal),
            },
    {
        let admin = self.worktree_admin_dir(name)?;
        if self.worktree_lock_reason(name)?.is_some() && !options.override_locks {
            return Err(Error::ReferenceConflict("worktree is locked"));
        }
        let source = find_source(self.filesystem(), admin.as_slice())?;
        if !self.filesystem().metadata(source.as_slice())?.is_dir() {
            return Err(Error::NotDirectory(source));
        }
        validate_worktree_gitfile(self.filesystem(), source.as_slice(), admin.as_slice())?;
        reject_submodules(self.filesystem(), admin.as_slice(), source.as_slice())?;
        let at = find_landing(self.filesystem(), source.as_slice(), value)?;
        Ok((source, at))
    }

    /// Moves the directory of a linked worktree and writes both linking files
    /// anew. A destination that is a directory takes the worktree in.
    pub fn move_worktree(
        &mut self,
        name: &[u8],
        value: &[u8],
        format: WorktreeFormat,
        options: &MoveWorktreeOptions,
    ) -> (r: Result<MovedWorktree>)
        ensures
            final(self).git() == old(self).git(),
            final(self).work() == old(self).work(),
            final(self).tree() == relocated(
                old(self).tree(),
                old(self).git(),
                name@,
                value@,
                format,
                *options,
            ).0,
            match relocated(old(self).tree(), old(self).git(), name@, value@, format, *options).1 {
                Ok((at, settings)) => r is Ok && r->Ok_0.path@ == at && setting_models(
                    r->Ok_0.settings@,
                ) == settings,
                Err(refusal) => fs::declined(r, refusal),
            },
    {
        let (source, at) = self.movable_worktree(name, value, options)?;
        let root = self.registry_path();
        proof {
            lemma_file_names();
        }
        let names = self.list_directory("worktrees".as_bytes())?;
        let mut files = self.swap_files(MemoryFileSystem::new());
        let mut r = vacate(&mut files, root.as_slice(), &names, name, at.as_slice(), options);
        if r.is_ok() {
            r = files.rename(source.as_slice(), at.as_slice());
        }
        let _ = self.swap_files(files);
        r?;
        match self.repair_worktree(name, at.as_slice(), format) {
            Ok(repair) => Ok(MovedWorktree { path: at, settings: repair.settings }),
            Err(error) => {
                let mut files = self.swap_files(MemoryFileSystem::new());
                let _ = files.rename(at.as_slice(), source.as_slice());
                let _ = self.swap_files(files);
                Err(error)
            },
        }
    }
}

} // verus!
