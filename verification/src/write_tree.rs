//! Tree objects for a flat map from paths to entries.

use vstd::prelude::*;

use crate::bytes;
use crate::flat_tree;
use crate::flat_tree::FlatTree;
use crate::fs;
use crate::fs::memory;
use crate::fs::Refusal;
use crate::index;
use crate::index::{IndexEntry, StatData};
use crate::object;
use crate::object::{ObjectId, ObjectKind};
use crate::repository::Repository;
use crate::storage;
use crate::tree;
use crate::tree::{EntryMode, Tree, TreeEntry, TreeItem};
use crate::{Error, Result};

verus! {

/// Stat fields that are all zero.
pub open spec fn no_stat() -> StatData {
    StatData {
        ctime_seconds: 0,
        ctime_nanoseconds: 0,
        mtime_seconds: 0,
        mtime_nanoseconds: 0,
        device: 0,
        inode: 0,
        uid: 0,
        gid: 0,
        size: 0,
    }
}

/// Why one of the first `n` entries of a map cannot be staged.
pub open spec fn entry_fault(map: flat_tree::FlatMap, n: int) -> Option<Error>
    decreases n,
{
    if n <= 0 {
        None
    } else {
        match entry_fault(map, n - 1) {
            Some(error) => Some(error),
            None => {
                let path = flat_tree::paths_of(map)[n - 1];
                match index::staged(path, map[path].mode, map[path].id@, no_stat(), 0) {
                    Err(error) => Some(error),
                    Ok(_) => None,
                }
            },
        }
    }
}

/// Where the paths from `from` on that begin with some bytes end.
pub open spec fn group_end(paths: Seq<Seq<u8>>, front: Seq<u8>, from: int, to: int) -> int
    decreases to - from,
{
    if 0 <= from < to && bytes::has_prefix(paths[from], front) {
        group_end(paths, front, from + 1, to)
    } else {
        from
    }
}

/// A group begins where it is looked for and ends within the list.
pub proof fn lemma_group_end(paths: Seq<Seq<u8>>, front: Seq<u8>, from: int, to: int)
    requires
        0 <= from <= to,
    ensures
        from <= group_end(paths, front, from, to) <= to,
        forall|k: int|
            from <= k < group_end(paths, front, from, to) ==> bytes::has_prefix(
                #[trigger] paths[k],
                front,
            ),
    decreases to - from,
{
    if from < to && bytes::has_prefix(paths[from], front) {
        lemma_group_end(paths, front, from + 1, to);
    }
}

/// What writing one directory makes of the files, and its identifier.
///
/// The directory holds the paths from `from` to `to`, which share their first
/// `skip` bytes; `items` are the entries that are already known. The paths of
/// a subdirectory stand together, and it is written before the directory.
pub open spec fn level_written(
    files: memory::Tree,
    git: Seq<u8>,
    map: flat_tree::FlatMap,
    from: int,
    to: int,
    skip: int,
    items: Seq<TreeItem>,
) -> (memory::Tree, core::result::Result<Seq<u8>, Refusal>)
    decreases to - from, flat_tree::paths_of(map)[from].len() - skip,
{
    let paths = flat_tree::paths_of(map);
    let path = paths[from];
    if !(0 <= from < to && 0 <= skip <= path.len()) {
        let body = tree::tree_bytes(items);
        let (after, refusal) = storage::put_object(files, git, ObjectKind::Tree, body);
        match refusal {
            Some(refusal) => (after, Err(refusal)),
            None => (after, Ok(object::object_id(ObjectKind::Tree, body))),
        }
    } else {
        let slash = bytes::index_from(path, 47, skip);
        proof {
            bytes::lemma_index_from(path, 47, skip);
            lemma_group_end(paths, path.take(slash + 1), from + 1, to);
        }
        if slash >= path.len() {
            let name = path.skip(skip);
            match tree::mode_of(map[path].mode) {
                None => (files, Err(Refusal::Said(Error::InvalidTree("invalid tree entry mode")))),
                Some(mode) => if !tree::entry_name(name) {
                    (files, Err(Refusal::Said(Error::InvalidTree("invalid tree entry name"))))
                } else {
                    level_written(
                        files,
                        git,
                        map,
                        from + 1,
                        to,
                        skip,
                        items.push(TreeItem { mode, name, id: map[path].id@ }),
                    )
                },
            }
        } else {
            let end = group_end(paths, path.take(slash + 1), from + 1, to);
            let name = path.subrange(skip, slash);
            let (after, outcome) = level_written(
                files,
                git,
                map,
                from,
                end,
                slash + 1,
                Seq::empty(),
            );
            match outcome {
                Err(refusal) => (after, Err(refusal)),
                Ok(id) => if !tree::entry_name(name) {
                    (after, Err(Refusal::Said(Error::InvalidTree("invalid tree entry name"))))
                } else {
                    level_written(
                        after,
                        git,
                        map,
                        end,
                        to,
                        skip,
                        items.push(TreeItem { mode: EntryMode::Tree, name, id }),
                    )
                },
            }
        }
    }
}

/// What writing the trees of a map makes of the files, and the identifier of
/// the topmost one.
#[verifier::opaque]
pub open spec fn flat_written(files: memory::Tree, git: Seq<u8>, map: flat_tree::FlatMap) -> (
    memory::Tree,
    core::result::Result<Seq<u8>, Refusal>,
) {
    let count = flat_tree::paths_of(map).len() as int;
    match entry_fault(map, count) {
        Some(error) => (files, Err(Refusal::Said(error))),
        None => level_written(files, git, map, 0, count, 0, Seq::empty()),
    }
}

proof fn lemma_entry_fault_persists(map: flat_tree::FlatMap, n: int, m: int)
    requires
        0 <= n <= m,
        entry_fault(map, n) is Some,
    ensures
        entry_fault(map, m) == entry_fault(map, n),
    decreases m - n,
{
    if n < m {
        lemma_entry_fault_persists(map, n, m - 1);
    }
}

fn check_entries(flat: &FlatTree) -> (r: Result<()>)
    ensures
        match entry_fault(flat@, flat_tree::paths_of(flat@).len() as int) {
            Some(error) => r is Err && r->Err_0 == error,
            None => r is Ok,
        },
{
    let count: usize = flat.len();
    let ghost paths = flat_tree::paths_of(flat@);
    let mut i: usize = 0;
    while i < count
        invariant
            i <= count,
            count == paths.len(),
            paths == flat_tree::paths_of(flat@),
            entry_fault(flat@, i as int) is None,
        decreases count - i,
    {
        let path = bytes::to_vec(flat.path_at(i));
        proof {
            if entry_fault(flat@, i + 1) is Some {
                lemma_entry_fault_persists(flat@, i + 1, count as int);
            }
        }
        match flat.get(path.as_slice()) {
            None => {},
            Some(entry) => {
                let stat = StatData::default();
                assert(stat == no_stat());
                let _ = IndexEntry::new(path, entry.mode, entry.id, stat)?;
            },
        }
        i += 1;
    }
    Ok(())
}

fn find_group_end(flat: &FlatTree, front: &[u8], from: usize, to: usize) -> (r: usize)
    requires
        from <= to <= flat_tree::paths_of(flat@).len(),
    ensures
        r == group_end(flat_tree::paths_of(flat@), front@, from as int, to as int),
{
    let ghost paths = flat_tree::paths_of(flat@);
    let mut i: usize = from;
    while i < to && bytes::starts_with(flat.path_at(i), front)
        invariant
            from <= i <= to <= paths.len(),
            paths == flat_tree::paths_of(flat@),
            group_end(paths, front@, from as int, to as int) == group_end(
                paths,
                front@,
                i as int,
                to as int,
            ),
        decreases to - i,
    {
        i += 1;
    }
    i
}

impl Repository {
    fn write_directory(&mut self, items: Vec<TreeEntry>) -> (r: Result<ObjectId>)
        ensures
            final(self).git() == old(self).git(),
            final(self).work() == old(self).work(),
            ({
                let body = tree::tree_bytes(tree::items(items@));
                let (after, refusal) = storage::put_object(
                    old(self).tree(),
                    old(self).git(),
                    ObjectKind::Tree,
                    body,
                );
                &&& final(self).tree() == after
                &&& match refusal {
                    Some(refusal) => fs::declined(r, refusal),
                    None => r is Ok && r->Ok_0@ == object::object_id(ObjectKind::Tree, body),
                }
            }),
    {
        let contents = Tree::from_entries(items).encode();
        self.write_object(ObjectKind::Tree, contents.as_slice())
    }

    fn write_level(&mut self, flat: &FlatTree, from: usize, to: usize, skip: usize) -> (r: Result<
        ObjectId,
    >)
        requires
            from <= to <= flat_tree::paths_of(flat@).len(),
            forall|k: int|
                from <= k < to ==> (#[trigger] flat_tree::paths_of(flat@)[k]).len() >= skip,
        ensures
            final(self).git() == old(self).git(),
            final(self).work() == old(self).work(),
            ({
                let (after, outcome) = level_written(
                    old(self).tree(),
                    old(self).git(),
                    flat@,
                    from as int,
                    to as int,
                    skip as int,
                    Seq::empty(),
                );
                &&& final(self).tree() == after
                &&& match outcome {
                    Ok(id) => r is Ok && r->Ok_0@ == id,
                    Err(refusal) => fs::declined(r, refusal),
                }
            }),
        decreases to - from, flat_tree::paths_of(flat@)[from as int].len() - skip,
    {
        let ghost map = flat@;
        let ghost paths = flat_tree::paths_of(map);
        let ghost git = self.git();
        let ghost whole = level_written(
            self.tree(),
            git,
            map,
            from as int,
            to as int,
            skip as int,
            Seq::empty(),
        );
        let mut items: Vec<TreeEntry> = Vec::new();
        assert(tree::items(items@) =~= Seq::empty());
        let mut i: usize = from;
        while i < to
            invariant
                from <= i <= to <= paths.len(),
                map == flat@,
                paths == flat_tree::paths_of(map),
                git == old(self).git(),
                self.git() == git,
                self.work() == old(self).work(),
                forall|k: int| from <= k < to ==> (#[trigger] paths[k]).len() >= skip,
                whole == level_written(
                    self.tree(),
                    git,
                    map,
                    i as int,
                    to as int,
                    skip as int,
                    tree::items(items@),
                ),
                whole == level_written(
                    old(self).tree(),
                    git,
                    map,
                    from as int,
                    to as int,
                    skip as int,
                    Seq::empty(),
                ),
            decreases to - i,
        {
            let path = flat.path_at(i);
            assert(paths[i as int].len() >= skip);
            proof {
                bytes::lemma_index_from(path@, 47, skip as int);
            }
            let slash: usize = bytes::find_byte(path, 47, skip);
            let ghost known = tree::items(items@);
            if slash >= path.len() {
                let entry = match flat.get(path) {
                    Some(entry) => entry,
                    None => return Err(Error::InvalidTree("invalid tree entry mode")),
                };
                let mode = match tree::mode_from(entry.mode) {
                    Some(mode) => mode,
                    None => return Err(Error::InvalidTree("invalid tree entry mode")),
                };
                let name = bytes::copy_range(path, skip, path.len());
                assert(name@ =~= path@.skip(skip as int));
                let item = TreeEntry::new(mode, name, entry.id)?;
                let ghost model = item@;
                items.push(item);
                assert(tree::items(items@) =~= known.push(model));
                i += 1;
            } else {
                let front = bytes::copy_range(path, 0, slash + 1);
                assert(front@ =~= path@.take(slash + 1));
                let end: usize = find_group_end(flat, front.as_slice(), i + 1, to);
                proof {
                    lemma_group_end(paths, front@, i + 1, to as int);
                    assert forall|k: int| i <= k < end implies (#[trigger] paths[k]).len() >= slash
                        + 1 by {
                        if k > i {
                            assert(bytes::has_prefix(paths[k], front@));
                        }
                    }
                }
                let name = bytes::copy_range(path, skip, slash);
                let id = self.write_level(flat, i, end, slash + 1)?;
                let item = TreeEntry::new(EntryMode::Tree, name, id)?;
                let ghost model = item@;
                items.push(item);
                assert(tree::items(items@) =~= known.push(model));
                i = end;
            }
        }
        self.write_directory(items)
    }

    /// Writes the trees of a map, each directory after the directories in it,
    /// and gives the identifier of the topmost one.
    pub fn write_flat_tree(&mut self, flat: &FlatTree) -> (r: Result<ObjectId>)
        ensures
            final(self).git() == old(self).git(),
            final(self).work() == old(self).work(),
            ({
                let (after, outcome) = flat_written(old(self).tree(), old(self).git(), flat@);
                &&& final(self).tree() == after
                &&& match outcome {
                    Ok(id) => r is Ok && r->Ok_0@ == id,
                    Err(refusal) => fs::declined(r, refusal),
                }
            }),
    {
        reveal(flat_written);
        check_entries(flat)?;
        let count: usize = flat.len();
        self.write_level(flat, 0, count, 0)
    }
}

} // verus!
