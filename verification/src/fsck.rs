//! Verification of a repository's objects and of the links between them.

use vstd::prelude::*;

use crate::bytes;
use crate::commit;
use crate::commit::{AnnotatedTag, Commit};
use crate::fs;
use crate::fs::memory;
use crate::fs::path;
use crate::fs::{FileSystem, Refusal};
use crate::fsck_laws;
use crate::id_set;
use crate::id_set::IdSet;
use crate::index;
use crate::object;
use crate::object::{ObjectId, ObjectKind};
use crate::pack;
use crate::pack::PackIndex;
use crate::repository;
use crate::repository::Repository;
use crate::storage;
use crate::tree;
use crate::tree::{EntryMode, Tree};
use crate::{Error, Result};

verus! {

/// Limits and the sources of the objects that are kept.
pub struct FsckOptions {
    pub max_object_size: usize,
    pub max_objects: usize,
    pub include_index: bool,
    pub include_reflogs: bool,
    pub additional_roots: Vec<ObjectId>,
}

impl Default for FsckOptions {
    fn default() -> (r: Self)
        ensures
            r.max_object_size == 1024 * 1024 * 1024,
            r.max_objects == 10_000_000,
            r.include_index && r.include_reflogs,
            r.additional_roots@.len() == 0,
    {
        FsckOptions {
            max_object_size: 1024 * 1024 * 1024,
            max_objects: 10_000_000,
            include_index: true,
            include_reflogs: true,
            additional_roots: Vec::new(),
        }
    }
}

/// The objects that references and reflogs name, and the commits whose
/// parents are cut off.
pub struct Retention {
    pub references: Vec<ObjectId>,
    pub reflogs: Vec<ObjectId>,
    pub shallow: Vec<ObjectId>,
}

/// What a verification found.
#[derive(Debug, PartialEq, Eq)]
pub struct FsckReport {
    pub objects: usize,
    pub reachable: usize,
    pub blobs: usize,
    pub trees: usize,
    pub commits: usize,
    pub tags: usize,
    pub reachable_objects: Vec<ObjectId>,
    pub packed_objects: Vec<ObjectId>,
    pub unreachable: Vec<ObjectId>,
    pub dangling: Vec<ObjectId>,
}

impl FsckReport {
    /// The objects that are kept, in ascending order.
    pub closed spec fn kept(self) -> Seq<Seq<u8>> {
        commit::raw_ids(self.reachable_objects@)
    }

    /// The objects that packs hold, in ascending order.
    pub closed spec fn packed(self) -> Seq<Seq<u8>> {
        commit::raw_ids(self.packed_objects@)
    }

    /// The objects that are not kept, in ascending order.
    pub closed spec fn lost(self) -> Seq<Seq<u8>> {
        commit::raw_ids(self.unreachable@)
    }

    /// The objects that are not kept and that nothing names.
    pub closed spec fn loose_ends(self) -> Seq<Seq<u8>> {
        commit::raw_ids(self.dangling@)
    }

    pub fn reachable_objects(&self) -> (r: &[ObjectId])
        ensures
            commit::raw_ids(r@) == self.kept(),
    {
        self.reachable_objects.as_slice()
    }

    pub fn packed_objects(&self) -> (r: &[ObjectId])
        ensures
            commit::raw_ids(r@) == self.packed(),
    {
        self.packed_objects.as_slice()
    }

    pub fn unreachable(&self) -> (r: &[ObjectId])
        ensures
            commit::raw_ids(r@) == self.lost(),
    {
        self.unreachable.as_slice()
    }

    pub fn dangling(&self) -> (r: &[ObjectId])
        ensures
            commit::raw_ids(r@) == self.loose_ends(),
    {
        self.dangling.as_slice()
    }
}

// ---------------------------------------------------------------------------
// Links

/// An object that another names, and the kind that it should have.
#[derive(Clone, Copy)]
pub struct Link {
    pub id: ObjectId,
    pub expected: ObjectKind,
}

/// What a link says.
pub struct LinkModel {
    pub id: Seq<u8>,
    pub expected: ObjectKind,
}

/// What an object is and which objects it names.
struct Fact {
    kind: ObjectKind,
    links: Vec<Link>,
}

/// What is known of an object.
pub struct FactModel {
    pub kind: ObjectKind,
    pub links: Seq<LinkModel>,
}

pub open spec fn link_view(list: Seq<Link>) -> Seq<LinkModel> {
    Seq::new(list.len(), |i: int| LinkModel { id: list[i].id@, expected: list[i].expected })
}

spec fn fact_view(list: Seq<Fact>) -> Seq<FactModel> {
    Seq::new(list.len(), |i: int| FactModel { kind: list[i].kind, links: link_view(list[i].links@) })
}

/// The links of the first `n` entries of a tree; other repositories' commits
/// are no links.
pub open spec fn tree_links(list: Seq<tree::TreeItem>, n: int) -> Seq<LinkModel>
    decreases n,
{
    if n <= 0 {
        Seq::empty()
    } else {
        let before = tree_links(list, n - 1);
        if list[n - 1].mode == EntryMode::Gitlink {
            before
        } else {
            before.push(
                LinkModel {
                    id: list[n - 1].id,
                    expected: tree::kind_of_mode(list[n - 1].mode),
                },
            )
        }
    }
}

/// The links to parents.
pub open spec fn parent_links(parents: Seq<Seq<u8>>) -> Seq<LinkModel> {
    Seq::new(parents.len(), |i: int| LinkModel { id: parents[i], expected: ObjectKind::Commit })
}

/// The links of an object. The parents of a shallow commit are cut off.
pub open spec fn links_of(kind: ObjectKind, data: Seq<u8>, shallow: bool) -> core::result::Result<
    Seq<LinkModel>,
    Error,
> {
    match kind {
        ObjectKind::Blob => Ok(Seq::empty()),
        ObjectKind::Commit => match commit::commit_from(data) {
            Err(error) => Err(error),
            Ok(model) => {
                let first = seq![LinkModel { id: model.tree, expected: ObjectKind::Tree }];
                if shallow {
                    Ok(first)
                } else {
                    Ok(first + parent_links(model.parents))
                }
            },
        },
        ObjectKind::Tree => match tree::items_from(data, 0) {
            Err(error) => Err(error),
            Ok(list) => Ok(tree_links(list, list.len() as int)),
        },
        ObjectKind::Tag => match commit::tag_from(data) {
            Err(error) => Err(error),
            Ok(model) => Ok(seq![LinkModel { id: model.target, expected: model.target_kind }]),
        },
    }
}

/// Finds the links of an object.
pub fn find_links(kind: ObjectKind, data: &[u8], shallow: bool) -> (r: Result<Vec<Link>>)
    ensures
        match links_of(kind, data@, shallow) {
            Ok(links) => r is Ok && link_view(r->Ok_0@) == links,
            Err(error) => r is Err && r->Err_0 == error,
        },
{
    let mut out: Vec<Link> = Vec::new();
    assert(link_view(out@) =~= Seq::empty());
    match kind {
        ObjectKind::Blob => {},
        ObjectKind::Commit => {
            let parsed = Commit::parse(data)?;
            out.push(Link { id: parsed.tree(), expected: ObjectKind::Tree });
            let ghost first = seq![LinkModel { id: parsed@.tree, expected: ObjectKind::Tree }];
            assert(link_view(out@) =~= first);
            if !shallow {
                let parents = parsed.parents();
                let ghost all = parent_links(parsed@.parents);
                let mut i: usize = 0;
                assert(first + all.take(0) =~= first);
                while i < parents.len()
                    invariant
                        i <= parents@.len(),
                        all == parent_links(parsed@.parents),
                        commit::raw_ids(parents@) == parsed@.parents,
                        link_view(out@) == first + all.take(i as int),
                    decreases parents@.len() - i,
                {
                    let ghost before = out@;
                    assert(commit::raw_ids(parents@)[i as int] == parents@[i as int]@);
                    out.push(Link { id: parents[i], expected: ObjectKind::Commit });
                    assert(link_view(out@) =~= link_view(before).push(all[i as int]));
                    assert(first + all.take(i + 1) =~= (first + all.take(i as int)).push(
                        all[i as int],
                    ));
                    i += 1;
                }
                assert(all.take(i as int) =~= all);
            }
        },
        ObjectKind::Tree => {
            let parsed = Tree::parse(data)?;
            let entries = parsed.entries();
            let ghost all = parsed@;
            let mut i: usize = 0;
            while i < entries.len()
                invariant
                    i <= entries@.len(),
                    tree::items(entries@) == all,
                    link_view(out@) == tree_links(all, i as int),
                decreases entries@.len() - i,
            {
                assert(tree::items(entries@)[i as int] == entries@[i as int]@);
                let mode = entries[i].mode();
                if mode != EntryMode::Gitlink {
                    let ghost before = out@;
                    out.push(Link { id: entries[i].id(), expected: mode.object_kind() });
                    assert(link_view(out@) =~= link_view(before).push(
                        LinkModel { id: all[i as int].id, expected: tree::kind_of_mode(mode) },
                    ));
                }
                i += 1;
            }
        },
        ObjectKind::Tag => {
            let parsed = AnnotatedTag::parse(data)?;
            out.push(Link { id: parsed.target(), expected: parsed.target_kind() });
            assert(link_view(out@) =~= seq![
                LinkModel { id: parsed@.target, expected: parsed@.target_kind },
            ]);
        },
    }
    Ok(out)
}

// ---------------------------------------------------------------------------
// Which objects there are

/// A set with one more identifier, within a limit.
pub open spec fn with_id(set: Set<Seq<u8>>, id: Seq<u8>, limit: nat) -> core::result::Result<
    Set<Seq<u8>>,
    Refusal,
> {
    if set.insert(id).len() > limit {
        Err(Refusal::Said(Error::InvalidRepository("fsck object count limit exceeded")))
    } else {
        Ok(set.insert(id))
    }
}

/// A set with the loose objects of the first `n` files of a directory.
pub open spec fn with_files(
    fanout: Seq<u8>,
    files: Seq<Seq<u8>>,
    set: Set<Seq<u8>>,
    limit: nat,
    n: int,
) -> core::result::Result<Set<Seq<u8>>, Refusal>
    decreases n,
{
    if n <= 0 {
        Ok(set)
    } else {
        match with_files(fanout, files, set, limit, n - 1) {
            Err(refusal) => Err(refusal),
            Ok(before) => if files[n - 1].len() == 38 && object::all_hex(files[n - 1]) {
                with_id(before, object::unhex(fanout + files[n - 1]), limit)
            } else {
                Ok(before)
            },
        }
    }
}

/// The loose objects of the first `n` directories.
pub open spec fn loose_ids(
    files: memory::Tree,
    objects: Seq<u8>,
    names: Seq<Seq<u8>>,
    limit: nat,
    n: int,
) -> core::result::Result<Set<Seq<u8>>, Refusal>
    decreases n,
{
    if n <= 0 {
        Ok(Set::empty())
    } else {
        match loose_ids(files, objects, names, limit, n - 1) {
            Err(refusal) => Err(refusal),
            Ok(before) => if names[n - 1].len() == 2 && object::all_hex(names[n - 1]) {
                match storage::listed(files, repository::joined(objects, names[n - 1])) {
                    Err(refusal) => Err(refusal),
                    Ok(list) => with_files(names[n - 1], list, before, limit, list.len() as int),
                }
            } else {
                Ok(before)
            },
        }
    }
}

/// Why one of the first `n` records of a pack is refused.
pub open spec fn record_fault(
    data: Seq<u8>,
    list: Seq<pack::PackRecord>,
    checksum: Seq<u8>,
    limit: nat,
    n: int,
) -> Option<Refusal>
    decreases n,
{
    if n <= 0 {
        None
    } else {
        match record_fault(data, list, checksum, limit, n - 1) {
            Some(refusal) => Some(refusal),
            None => match storage::object_in_pack(data, list, checksum, list[n - 1].id, limit) {
                Err(refusal) => Some(refusal),
                Ok(_) => None,
            },
        }
    }
}

/// The records of a pack, once all its objects are sound.
pub open spec fn sound_pack(
    files: memory::Tree,
    git: Seq<u8>,
    name: Seq<u8>,
    limit: nat,
) -> core::result::Result<Seq<pack::PackRecord>, Refusal> {
    match storage::fetched(files, repository::joined(git, storage::pack_file(name))) {
        Err(refusal) => Err(refusal),
        Ok(index) => match pack::index_from(index) {
            Err(error) => Err(Refusal::Said(error)),
            Ok((list, checksum)) => match storage::fetched(
                files,
                repository::joined(git, storage::pack_file(storage::pack_name_of(name))),
            ) {
                Err(refusal) => Err(refusal),
                Ok(data) => match pack::pack_fault(data, list.len() as int, checksum) {
                    Some(error) => Err(Refusal::Said(error)),
                    None => match record_fault(data, list, checksum, limit, list.len() as int) {
                        Some(refusal) => Err(refusal),
                        None => Ok(list),
                    },
                },
            },
        },
    }
}

/// Two sets with the objects of the first `n` records of a pack.
pub open spec fn with_records(
    list: Seq<pack::PackRecord>,
    sets: (Set<Seq<u8>>, Set<Seq<u8>>),
    limit: nat,
    n: int,
) -> core::result::Result<(Set<Seq<u8>>, Set<Seq<u8>>), Refusal>
    decreases n,
{
    if n <= 0 {
        Ok(sets)
    } else {
        match with_records(list, sets, limit, n - 1) {
            Err(refusal) => Err(refusal),
            Ok((all, packed)) => match with_id(all, list[n - 1].id, limit) {
                Err(refusal) => Err(refusal),
                Ok(all) => Ok((all, packed.insert(list[n - 1].id))),
            },
        }
    }
}

/// All objects and the packed ones, with the first `n` files of the pack
/// directory.
pub open spec fn with_packs(
    files: memory::Tree,
    git: Seq<u8>,
    names: Seq<Seq<u8>>,
    loose: Set<Seq<u8>>,
    size: nat,
    limit: nat,
    n: int,
) -> core::result::Result<(Set<Seq<u8>>, Set<Seq<u8>>), Refusal>
    decreases n,
{
    if n <= 0 {
        Ok((loose, Set::empty()))
    } else {
        match with_packs(files, git, names, loose, size, limit, n - 1) {
            Err(refusal) => Err(refusal),
            Ok(sets) => if !storage::has_extension(names[n - 1], bytes::utf8("idx"@)) {
                Ok(sets)
            } else {
                match sound_pack(files, git, names[n - 1], size) {
                    Err(refusal) => Err(refusal),
                    Ok(list) => with_records(list, sets, limit, list.len() as int),
                }
            },
        }
    }
}

/// All objects of a repository and the packed ones.
pub open spec fn all_ids(files: memory::Tree, git: Seq<u8>, size: nat, limit: nat) -> core::result::Result<
    (Set<Seq<u8>>, Set<Seq<u8>>),
    Refusal,
> {
    let objects = repository::joined(git, bytes::utf8("objects"@));
    match storage::listed(files, objects) {
        Err(refusal) => Err(refusal),
        Ok(names) => match loose_ids(files, objects, names, limit, names.len() as int) {
            Err(refusal) => Err(refusal),
            Ok(loose) => match storage::listed(
                files,
                repository::joined(git, storage::pack_directory()),
            ) {
                Err(refusal) => if crate::ignore::is_absent(refusal) {
                    Ok((loose, Set::empty()))
                } else {
                    Err(refusal)
                },
                Ok(packs) => with_packs(files, git, packs, loose, size, limit, packs.len() as int),
            },
        },
    }
}

fn put_id(set: &mut IdSet, id: ObjectId, limit: usize) -> (r: Result<()>)
    ensures
        match with_id(old(set)@, id@, limit as nat) {
            Ok(after) => r is Ok && final(set)@ == after,
            Err(refusal) => fs::declined(r, refusal),
        },
{
    set.insert(id);
    if set.len() > limit {
        return Err(Error::InvalidRepository("fsck object count limit exceeded"));
    }
    Ok(())
}

proof fn lemma_files_persist(
    fanout: Seq<u8>,
    files: Seq<Seq<u8>>,
    set: Set<Seq<u8>>,
    limit: nat,
    n: int,
    m: int,
)
    requires
        0 <= n <= m,
        with_files(fanout, files, set, limit, n) is Err,
    ensures
        with_files(fanout, files, set, limit, m) == with_files(fanout, files, set, limit, n),
    decreases m - n,
{
    if n < m {
        lemma_files_persist(fanout, files, set, limit, n, m - 1);
    }
}

fn put_files(set: &mut IdSet, fanout: &[u8], files: &Vec<Vec<u8>>, limit: usize) -> (r: Result<()>)
    requires
        fanout@.len() == 2,
        object::all_hex(fanout@),
    ensures
        match with_files(
            fanout@,
            bytes::deep(files@),
            old(set)@,
            limit as nat,
            files@.len() as int,
        ) {
            Ok(after) => r is Ok && final(set)@ == after,
            Err(refusal) => fs::declined(r, refusal),
        },
{
    let ghost all = bytes::deep(files@);
    let ghost start = set@;
    let mut i: usize = 0;
    while i < files.len()
        invariant
            i <= files@.len(),
            all == bytes::deep(files@),
            start == old(set)@,
            fanout@.len() == 2,
            object::all_hex(fanout@),
            with_files(fanout@, all, start, limit as nat, i as int) == Ok::<
                Set<Seq<u8>>,
                Refusal,
            >(set@),
        decreases files@.len() - i,
    {
        let name = files[i].as_slice();
        assert(name@ == all[i as int]);
        proof {
            if with_files(fanout@, all, start, limit as nat, i + 1) is Err {
                lemma_files_persist(fanout@, all, start, limit as nat, i + 1, all.len() as int);
            }
        }
        if name.len() == 38 && object::is_all_hex(name) {
            let mut hex = bytes::to_vec(fanout);
            bytes::append(&mut hex, name);
            assert(hex@ =~= fanout@ + name@);
            assert(object::all_hex(hex@)) by {
                assert forall|j: int| 0 <= j < hex@.len() implies object::hex_number(
                    #[trigger] hex@[j],
                ) is Some by {
                    if j < 2 {
                        assert(hex@[j] == fanout@[j]);
                    } else {
                        assert(hex@[j] == name@[j - 2]);
                    }
                }
            }
            match ObjectId::from_hex(hex.as_slice()) {
                Ok(id) => put_id(set, id, limit)?,
                Err(_) => {},
            }
        }
        i += 1;
    }
    Ok(())
}

proof fn lemma_loose_persist(
    files: memory::Tree,
    objects: Seq<u8>,
    names: Seq<Seq<u8>>,
    limit: nat,
    n: int,
    m: int,
)
    requires
        0 <= n <= m,
        loose_ids(files, objects, names, limit, n) is Err,
    ensures
        loose_ids(files, objects, names, limit, m) == loose_ids(files, objects, names, limit, n),
    decreases m - n,
{
    if n < m {
        lemma_loose_persist(files, objects, names, limit, n, m - 1);
    }
}

proof fn lemma_objects_name()
    ensures
        path::plain(bytes::utf8("objects"@)),
        bytes::utf8("objects"@).len() > 0,
{
    reveal_strlit("objects");
    bytes::lemma_ascii("objects"@);
    path::lemma_plain_name(bytes::utf8("objects"@));
}

proof fn lemma_fanout_plain(name: Seq<u8>)
    requires
        name.len() == 2,
        object::all_hex(name),
    ensures
        path::plain(name),
{
    assert(object::hex_number(name[0]) is Some);
    assert(object::hex_number(name[1]) is Some);
    path::lemma_plain_name(name);
}

proof fn lemma_records_persist(
    list: Seq<pack::PackRecord>,
    sets: (Set<Seq<u8>>, Set<Seq<u8>>),
    limit: nat,
    n: int,
    m: int,
)
    requires
        0 <= n <= m,
        with_records(list, sets, limit, n) is Err,
    ensures
        with_records(list, sets, limit, m) == with_records(list, sets, limit, n),
    decreases m - n,
{
    if n < m {
        lemma_records_persist(list, sets, limit, n, m - 1);
    }
}

fn put_records(
    set: &mut IdSet,
    packed: &mut IdSet,
    entries: &[pack::PackIndexEntry],
    limit: usize,
) -> (r: Result<()>)
    ensures
        match with_records(
            pack::records(entries@),
            (old(set)@, old(packed)@),
            limit as nat,
            entries@.len() as int,
        ) {
            Ok((all, some)) => r is Ok && final(set)@ == all && final(packed)@ == some,
            Err(refusal) => fs::declined(r, refusal),
        },
{
    let ghost list = pack::records(entries@);
    let ghost start = (set@, packed@);
    let mut i: usize = 0;
    while i < entries.len()
        invariant
            i <= entries@.len(),
            list == pack::records(entries@),
            start == (old(set)@, old(packed)@),
            with_records(list, start, limit as nat, i as int) == Ok::<
                (Set<Seq<u8>>, Set<Seq<u8>>),
                Refusal,
            >((set@, packed@)),
        decreases entries@.len() - i,
    {
        proof {
            if with_records(list, start, limit as nat, i + 1) is Err {
                lemma_records_persist(list, start, limit as nat, i + 1, list.len() as int);
            }
        }
        assert(list[i as int].id == entries@[i as int].id@);
        put_id(set, entries[i].id, limit)?;
        packed.insert(entries[i].id);
        i += 1;
    }
    Ok(())
}

proof fn lemma_record_fault_persists(
    data: Seq<u8>,
    list: Seq<pack::PackRecord>,
    checksum: Seq<u8>,
    limit: nat,
    n: int,
    m: int,
)
    requires
        0 <= n <= m,
        record_fault(data, list, checksum, limit, n) is Some,
    ensures
        record_fault(data, list, checksum, limit, m) == record_fault(
            data,
            list,
            checksum,
            limit,
            n,
        ),
    decreases m - n,
{
    if n < m {
        lemma_record_fault_persists(data, list, checksum, limit, n, m - 1);
    }
}

proof fn lemma_packs_persist(
    files: memory::Tree,
    git: Seq<u8>,
    names: Seq<Seq<u8>>,
    loose: Set<Seq<u8>>,
    size: nat,
    limit: nat,
    n: int,
    m: int,
)
    requires
        0 <= n <= m,
        with_packs(files, git, names, loose, size, limit, n) is Err,
    ensures
        with_packs(files, git, names, loose, size, limit, m) == with_packs(
            files,
            git,
            names,
            loose,
            size,
            limit,
            n,
        ),
    decreases m - n,
{
    if n < m {
        lemma_packs_persist(files, git, names, loose, size, limit, n, m - 1);
    }
}

/// Checks that every object of a pack is sound.
pub fn check_records(data: &[u8], index: &PackIndex, max_size: usize) -> (r: Result<()>)
    requires
        data@.len() >= 32,
        pack::pack_fault(data@, index.list().len() as int, index.checksum()) is None,
    ensures
        match record_fault(
            data@,
            index.list(),
            index.checksum(),
            max_size as nat,
            index.list().len() as int,
        ) {
            Some(refusal) => fs::declined(r, refusal),
            None => r is Ok,
        },
{
    let ghost list = index.list();
    let ghost checksum = index.checksum();
    let entries = index.entries();
    let mut i: usize = 0;
    while i < entries.len()
        invariant
            i <= entries@.len(),
            list == pack::records(entries@),
            list == index.list(),
            checksum == index.checksum(),
            data@.len() >= 32,
            pack::pack_fault(data@, list.len() as int, checksum) is None,
            record_fault(data@, list, checksum, max_size as nat, i as int) is None,
        decreases entries@.len() - i,
    {
        let id = entries[i].id;
        assert(list[i as int].id == id@);
        proof {
            if record_fault(data@, list, checksum, max_size as nat, i + 1) is Some {
                lemma_record_fault_persists(
                    data@,
                    list,
                    checksum,
                    max_size as nat,
                    i + 1,
                    list.len() as int,
                );
            }
        }
        let (kind, contents) = pack::resolve(data, index, id, max_size, 0)?;
        if !ObjectId::compute(kind, contents.as_slice()).same(&id) {
            return Err(
                Error::InvalidObject("invalid pack: resolved packed object hash mismatch"),
            );
        }
        i += 1;
    }
    Ok(())
}

impl Repository {
    /// Reads the index of a pack whose objects are all sound.
    pub fn validate_indexed_pack(&self, name: &[u8], max_size: usize) -> (r: Result<PackIndex>)
        requires
            storage::has_extension(name@, bytes::utf8("idx"@)),
        ensures
            match sound_pack(self.tree(), self.git(), name@, max_size as nat) {
                Ok(list) => r is Ok && r->Ok_0.list() == list,
                Err(refusal) => fs::declined(r, refusal),
            },
    {
        let index_path = self.pack_path(name);
        let index_data = self.filesystem().read(index_path.as_slice())?;
        let parsed = PackIndex::parse(index_data.as_slice())?;
        proof {
            reveal_strlit("idx");
            bytes::lemma_ascii("idx"@);
        }
        let mut pack_name = bytes::copy_range(name, 0, name.len() - 3);
        bytes::append(&mut pack_name, "pack".as_bytes());
        assert(pack_name@ =~= storage::pack_name_of(name@));
        let pack_path = self.pack_path(pack_name.as_slice());
        let data = self.filesystem().read(pack_path.as_slice())?;
        pack::validate_pack(data.as_slice(), &parsed)?;
        check_records(data.as_slice(), &parsed, max_size)?;
        Ok(parsed)
    }

    fn loose_object_ids(&self, limit: usize) -> (r: Result<IdSet>)
        ensures
            ({
                let objects = repository::joined(self.git(), bytes::utf8("objects"@));
                match storage::listed(self.tree(), objects) {
                    Err(refusal) => fs::declined(r, refusal),
                    Ok(names) => match loose_ids(
                        self.tree(),
                        objects,
                        names,
                        limit as nat,
                        names.len() as int,
                    ) {
                        Err(refusal) => fs::declined(r, refusal),
                        Ok(set) => r is Ok && r->Ok_0@ == set,
                    },
                }
            }),
    {
        proof {
            lemma_objects_name();
        }
        let objects = self.git_path("objects".as_bytes());
        let names = self.list_directory("objects".as_bytes())?;
        let ghost all = bytes::deep(names@);
        let mut set = IdSet::new();
        let mut i: usize = 0;
        while i < names.len()
            invariant
                i <= names@.len(),
                all == bytes::deep(names@),
                objects@ == repository::joined(self.git(), bytes::utf8("objects"@)),
                path::plain(objects@),
                storage::listed(self.tree(), objects@) == Ok::<Seq<Seq<u8>>, Refusal>(all),
                loose_ids(self.tree(), objects@, all, limit as nat, i as int) == Ok::<
                    Set<Seq<u8>>,
                    Refusal,
                >(set@),
            decreases names@.len() - i,
        {
            let name = names[i].as_slice();
            assert(name@ == all[i as int]);
            proof {
                if loose_ids(self.tree(), objects@, all, limit as nat, i + 1) is Err {
                    lemma_loose_persist(
                        self.tree(),
                        objects@,
                        all,
                        limit as nat,
                        i + 1,
                        all.len() as int,
                    );
                }
            }
            if name.len() == 2 && object::is_all_hex(name) {
                let directory = repository::join_path(objects.as_slice(), name);
                proof {
                    lemma_fanout_plain(name@);
                    repository::lemma_joined_plain(objects@, name@);
                }
                let files = self.filesystem().read_dir(directory.as_slice())?;
                proof {
                    storage::lemma_children(self.tree(), directory@, bytes::deep(files@));
                }
                put_files(&mut set, name, &files, limit)?;
            }
            i += 1;
        }
        Ok(set)
    }

    /// Gives all objects and the packed ones.
    fn fsck_object_ids(&self, limit: usize, max_size: usize) -> (r: Result<(IdSet, IdSet)>)
        ensures
            match all_ids(self.tree(), self.git(), max_size as nat, limit as nat) {
                Ok((all, packed)) => r is Ok && r->Ok_0.0@ == all && r->Ok_0.1@ == packed,
                Err(refusal) => fs::declined(r, refusal),
            },
    {
        proof {
            storage::lemma_pack_directory();
        }
        let mut set = self.loose_object_ids(limit)?;
        let mut packed = IdSet::new();
        let ghost loose = set@;
        let names = match self.list_directory("objects/pack".as_bytes()) {
            Ok(names) => names,
            Err(Error::NotFound(_)) => return Ok((set, packed)),
            Err(error) => return Err(error),
        };
        let ghost all = bytes::deep(names@);
        let ghost goal = with_packs(
            self.tree(),
            self.git(),
            all,
            loose,
            max_size as nat,
            limit as nat,
            all.len() as int,
        );
        assert(all_ids(self.tree(), self.git(), max_size as nat, limit as nat) == goal);
        let mut i: usize = 0;
        while i < names.len()
            invariant
                i <= names@.len(),
                all == bytes::deep(names@),
                goal == with_packs(
                    self.tree(),
                    self.git(),
                    all,
                    loose,
                    max_size as nat,
                    limit as nat,
                    all.len() as int,
                ),
                all_ids(self.tree(), self.git(), max_size as nat, limit as nat) == goal,
                with_packs(
                    self.tree(),
                    self.git(),
                    all,
                    loose,
                    max_size as nat,
                    limit as nat,
                    i as int,
                ) == Ok::<(Set<Seq<u8>>, Set<Seq<u8>>), Refusal>((set@, packed@)),
            decreases names@.len() - i,
        {
            let name = names[i].as_slice();
            assert(name@ == all[i as int]);
            proof {
                if with_packs(
                    self.tree(),
                    self.git(),
                    all,
                    loose,
                    max_size as nat,
                    limit as nat,
                    i + 1,
                ) is Err {
                    lemma_packs_persist(
                        self.tree(),
                        self.git(),
                        all,
                        loose,
                        max_size as nat,
                        limit as nat,
                        i + 1,
                        all.len() as int,
                    );
                }
            }
            if storage::ends_in(name, "idx".as_bytes()) {
                let parsed = self.validate_indexed_pack(name, max_size)?;
                put_records(&mut set, &mut packed, parsed.entries(), limit)?;
            }
            i += 1;
        }
        Ok((set, packed))
    }
}

// ---------------------------------------------------------------------------
// What the objects say

/// What is known of the first `n` objects.
pub open spec fn facts_of(
    files: memory::Tree,
    git: Seq<u8>,
    ids: Seq<Seq<u8>>,
    shallow: Set<Seq<u8>>,
    size: nat,
    n: int,
) -> core::result::Result<Seq<FactModel>, Refusal>
    decreases n,
{
    if n <= 0 {
        Ok(Seq::empty())
    } else {
        match facts_of(files, git, ids, shallow, size, n - 1) {
            Err(refusal) => Err(refusal),
            Ok(before) => match storage::stored_object(files, git, ids[n - 1], size) {
                Err(refusal) => Err(refusal),
                Ok((kind, data)) => match links_of(kind, data, shallow.contains(ids[n - 1])) {
                    Err(error) => Err(Refusal::Said(error)),
                    Ok(links) => Ok(before.push(FactModel { kind, links })),
                },
            },
        }
    }
}

/// Whether a link leads to an object of the right kind.
pub open spec fn link_fault(ids: Seq<Seq<u8>>, facts: Seq<FactModel>, link: LinkModel) -> Option<
    Error,
> {
    if !ids.contains(link.id) {
        Some(Error::InvalidObject("broken link"))
    } else if facts[ids.index_of(link.id)].kind != link.expected {
        Some(Error::InvalidObject("wrong object type in link"))
    } else {
        None
    }
}

/// The first fault among the first `n` links of an object.
pub open spec fn links_fault(
    ids: Seq<Seq<u8>>,
    facts: Seq<FactModel>,
    links: Seq<LinkModel>,
    n: int,
) -> Option<Error>
    decreases n,
{
    if n <= 0 {
        None
    } else {
        match links_fault(ids, facts, links, n - 1) {
            Some(error) => Some(error),
            None => link_fault(ids, facts, links[n - 1]),
        }
    }
}

/// The first fault among the links of the first `n` objects.
pub open spec fn all_links_fault(ids: Seq<Seq<u8>>, facts: Seq<FactModel>, n: int) -> Option<Error>
    decreases n,
{
    if n <= 0 {
        None
    } else {
        match all_links_fault(ids, facts, n - 1) {
            Some(error) => Some(error),
            None => links_fault(
                ids,
                facts,
                facts[n - 1].links,
                facts[n - 1].links.len() as int,
            ),
        }
    }
}

/// Whether an object names another.
pub open spec fn names_id(fact: FactModel, id: Seq<u8>) -> bool {
    exists|k: int| 0 <= k < fact.links.len() && (#[trigger] fact.links[k]).id == id
}

/// A chain of objects from a root, each of which names the next.
pub open spec fn is_chain(
    ids: Seq<Seq<u8>>,
    facts: Seq<FactModel>,
    roots: Seq<Seq<u8>>,
    chain: Seq<Seq<u8>>,
) -> bool {
    &&& chain.len() > 0
    &&& roots.contains(chain[0])
    &&& forall|i: int| 0 <= i < chain.len() ==> ids.contains(#[trigger] chain[i])
    &&& forall|i: int| 0 <= i < chain.len() ==> #[trigger] chain[i] != null_id()
    &&& forall|i: int|
        0 < i < chain.len() ==> names_id(facts[ids.index_of(chain[i - 1])], #[trigger] chain[i])
}

/// The identifier of no object.
pub open spec fn null_id() -> Seq<u8> {
    Seq::new(20, |i: int| 0u8)
}

/// An object is kept when a chain leads from a root to it.
pub open spec fn is_kept(
    ids: Seq<Seq<u8>>,
    facts: Seq<FactModel>,
    roots: Seq<Seq<u8>>,
    id: Seq<u8>,
) -> bool {
    exists|chain: Seq<Seq<u8>>| #[trigger] is_chain(ids, facts, roots, chain) && chain.last() == id
}

/// Whether any object names an identifier.
pub open spec fn is_named(facts: Seq<FactModel>, id: Seq<u8>) -> bool {
    exists|i: int| 0 <= i < facts.len() && names_id(#[trigger] facts[i], id)
}

/// How many of the first `n` objects are of a kind.
pub open spec fn count_of(facts: Seq<FactModel>, kind: ObjectKind, n: int) -> nat
    decreases n,
{
    if n <= 0 {
        0
    } else {
        count_of(facts, kind, n - 1) + if facts[n - 1].kind == kind {
            1nat
        } else {
            0nat
        }
    }
}

/// The identifiers of the first `n` index entries that are objects of this
/// repository.
pub open spec fn indexed(list: Seq<index::EntryModel>, n: int) -> Seq<Seq<u8>>
    decreases n,
{
    if n <= 0 {
        Seq::empty()
    } else if list[n - 1].mode == 0o160000 {
        indexed(list, n - 1)
    } else {
        indexed(list, n - 1).push(list[n - 1].id)
    }
}

/// What the index of a repository holds.
pub open spec fn index_of(files: memory::Tree, git: Seq<u8>) -> core::result::Result<
    index::IndexModel,
    Refusal,
> {
    let p = repository::joined(git, bytes::utf8("index"@));
    match memory::contents(files, p) {
        Ok(data) => match index::index_from(data) {
            Ok(model) => Ok(model),
            Err(error) => Err(Refusal::Said(error)),
        },
        Err(fault) => if fault is NotFound {
            Ok(index::empty_index())
        } else {
            Err(Refusal::At(fault, p))
        },
    }
}

/// The objects that are kept for their own sake.
pub open spec fn roots_of(
    files: memory::Tree,
    git: Seq<u8>,
    options: FsckOptions,
    retention: Retention,
) -> core::result::Result<Seq<Seq<u8>>, Refusal> {
    let given = commit::raw_ids(options.additional_roots@) + commit::raw_ids(
        retention.references@,
    );
    let logged = if options.include_reflogs {
        commit::raw_ids(retention.reflogs@)
    } else {
        Seq::empty()
    };
    if options.include_index {
        match index_of(files, git) {
            Err(refusal) => Err(refusal),
            Ok(model) => Ok(given + indexed(model.entries, model.entries.len() as int) + logged),
        }
    } else {
        Ok(given + logged)
    }
}

/// Whether a root is no object of the repository.
pub open spec fn root_missing(ids: Seq<Seq<u8>>, roots: Seq<Seq<u8>>) -> bool {
    exists|i: int|
        0 <= i < roots.len() && #[trigger] roots[i] != null_id() && !ids.contains(roots[i])
}

/// Whether a report says what holds of the objects.
pub open spec fn describes(
    report: FsckReport,
    ids: Seq<Seq<u8>>,
    packed: Seq<Seq<u8>>,
    facts: Seq<FactModel>,
    roots: Seq<Seq<u8>>,
) -> bool {
    let kept = ids.filter(|id: Seq<u8>| is_kept(ids, facts, roots, id));
    let lost = ids.filter(|id: Seq<u8>| !is_kept(ids, facts, roots, id));
    &&& report.objects == ids.len()
    &&& report.reachable == kept.len()
    &&& report.blobs == count_of(facts, ObjectKind::Blob, facts.len() as int)
    &&& report.trees == count_of(facts, ObjectKind::Tree, facts.len() as int)
    &&& report.commits == count_of(facts, ObjectKind::Commit, facts.len() as int)
    &&& report.tags == count_of(facts, ObjectKind::Tag, facts.len() as int)
    &&& report.kept() == kept
    &&& report.packed() == packed
    &&& report.lost() == lost
    &&& report.loose_ends() == lost.filter(|id: Seq<u8>| !is_named(facts, id))
}

/// What a verification finds.
pub open spec fn verified(
    files: memory::Tree,
    git: Seq<u8>,
    options: FsckOptions,
    retention: Retention,
    r: Result<FsckReport>,
) -> bool {
    match all_ids(files, git, options.max_object_size as nat, options.max_objects as nat) {
        Err(refusal) => fs::declined(r, refusal),
        Ok((all, packed)) => {
            let ids = id_set::sorted(all);
            match facts_of(
                files,
                git,
                ids,
                commit::raw_ids(retention.shallow@).to_set(),
                options.max_object_size as nat,
                ids.len() as int,
            ) {
                Err(refusal) => fs::declined(r, refusal),
                Ok(facts) => match all_links_fault(ids, facts, facts.len() as int) {
                    Some(error) => r is Err && r->Err_0 == error,
                    None => match roots_of(files, git, options, retention) {
                        Err(refusal) => fs::declined(r, refusal),
                        Ok(roots) => if root_missing(ids, roots) {
                            r is Err && r->Err_0 == Error::InvalidObject(
                                "retention root is missing",
                            )
                        } else {
                            r is Ok && describes(
                                r->Ok_0,
                                ids,
                                id_set::sorted(packed),
                                facts,
                                roots,
                            )
                        },
                    },
                },
            }
        },
    }
}

proof fn lemma_facts_persist(
    files: memory::Tree,
    git: Seq<u8>,
    ids: Seq<Seq<u8>>,
    shallow: Set<Seq<u8>>,
    size: nat,
    n: int,
    m: int,
)
    requires
        0 <= n <= m,
        facts_of(files, git, ids, shallow, size, n) is Err,
    ensures
        facts_of(files, git, ids, shallow, size, m) == facts_of(files, git, ids, shallow, size, n),
    decreases m - n,
{
    if n < m {
        lemma_facts_persist(files, git, ids, shallow, size, n, m - 1);
    }
}

fn in_list(list: &[ObjectId], id: ObjectId) -> (r: bool)
    ensures
        r == commit::raw_ids(list@).to_set().contains(id@),
{
    let ghost all = commit::raw_ids(list@);
    let mut i: usize = 0;
    while i < list.len()
        invariant
            i <= list@.len(),
            all == commit::raw_ids(list@),
            forall|j: int| 0 <= j < i ==> #[trigger] all[j] != id@,
        decreases list@.len() - i,
    {
        assert(all[i as int] == list@[i as int]@);
        if list[i].same(&id) {
            assert(all.contains(id@));
            return true;
        }
        i += 1;
    }
    false
}

impl Repository {
    fn read_facts(&self, ids: &IdSet, shallow: &[ObjectId], max_size: usize) -> (r: Result<Vec<Fact>>)
        ensures
            match facts_of(
                self.tree(),
                self.git(),
                ids.list(),
                commit::raw_ids(shallow@).to_set(),
                max_size as nat,
                ids.list().len() as int,
            ) {
                Ok(facts) => r is Ok && fact_view(r->Ok_0@) == facts && facts.len()
                    == ids.list().len(),
                Err(refusal) => fs::declined(r, refusal),
            },
    {
        let ghost all = ids.list();
        let ghost cut = commit::raw_ids(shallow@).to_set();
        let mut out: Vec<Fact> = Vec::new();
        let n: usize = ids.len();
        let mut i: usize = 0;
        assert(fact_view(out@) =~= Seq::empty());
        while i < n
            invariant
                i <= n,
                n == all.len(),
                all == ids.list(),
                out@.len() == i,
                cut == commit::raw_ids(shallow@).to_set(),
                facts_of(self.tree(), self.git(), all, cut, max_size as nat, i as int) == Ok::<
                    Seq<FactModel>,
                    Refusal,
                >(fact_view(out@)),
            decreases n - i,
        {
            proof {
                if facts_of(self.tree(), self.git(), all, cut, max_size as nat, i + 1) is Err {
                    lemma_facts_persist(
                        self.tree(),
                        self.git(),
                        all,
                        cut,
                        max_size as nat,
                        i + 1,
                        all.len() as int,
                    );
                }
            }
            let id = ids.at(i);
            let object = self.read_object_raw(id, max_size)?;
            let kind = object.kind();
            let links = find_links(kind, object.data(), in_list(shallow, id))?;
            let ghost before = out@;
            out.push(Fact { kind, links });
            assert(fact_view(out@) =~= fact_view(before).push(
                FactModel { kind, links: link_view(links@) },
            ));
            i += 1;
        }
        Ok(out)
    }
}

proof fn lemma_links_persist(
    ids: Seq<Seq<u8>>,
    facts: Seq<FactModel>,
    links: Seq<LinkModel>,
    n: int,
    m: int,
)
    requires
        0 <= n <= m,
        links_fault(ids, facts, links, n) is Some,
    ensures
        links_fault(ids, facts, links, m) == links_fault(ids, facts, links, n),
    decreases m - n,
{
    if n < m {
        lemma_links_persist(ids, facts, links, n, m - 1);
    }
}

proof fn lemma_all_links_persist(ids: Seq<Seq<u8>>, facts: Seq<FactModel>, n: int, m: int)
    requires
        0 <= n <= m,
        all_links_fault(ids, facts, n) is Some,
    ensures
        all_links_fault(ids, facts, m) == all_links_fault(ids, facts, n),
    decreases m - n,
{
    if n < m {
        lemma_all_links_persist(ids, facts, n, m - 1);
    }
}

/// In an ascending list an identifier stands at one place.
proof fn lemma_place(ids: Seq<Seq<u8>>, i: int)
    requires
        crate::bytemap::ascending(ids),
        0 <= i < ids.len(),
    ensures
        ids.contains(ids[i]),
        ids.index_of(ids[i]) == i,
{
    crate::bytemap::lemma_assoc(ids, ids, i);
}

fn check_links(ids: &IdSet, facts: &Vec<Fact>) -> (r: Result<()>)
    requires
        ids.list().len() == facts@.len(),
        crate::bytemap::ascending(ids.list()),
    ensures
        match all_links_fault(ids.list(), fact_view(facts@), facts@.len() as int) {
            Some(error) => r is Err && r->Err_0 == error,
            None => r is Ok,
        },
{
    let ghost all = ids.list();
    let ghost known = fact_view(facts@);
    let mut i: usize = 0;
    while i < facts.len()
        invariant
            i <= facts@.len(),
            all == ids.list(),
            known == fact_view(facts@),
            all.len() == known.len(),
            crate::bytemap::ascending(all),
            all_links_fault(all, known, i as int) is None,
        decreases facts@.len() - i,
    {
        let links = &facts[i].links;
        let ghost model = link_view(links@);
        assert(known[i as int].links == model);
        let mut j: usize = 0;
        while j < links.len()
            invariant
                i < facts@.len(),
                j <= links@.len(),
                model == link_view(links@),
                all == ids.list(),
                known == fact_view(facts@),
                all.len() == known.len(),
                known[i as int].links == model,
                crate::bytemap::ascending(all),
                all_links_fault(all, known, i as int) is None,
                links_fault(all, known, model, j as int) is None,
            decreases links@.len() - j,
        {
            let link = links[j];
            assert(model[j as int] == (LinkModel { id: link.id@, expected: link.expected }));
            proof {
                if links_fault(all, known, model, j + 1) is Some {
                    lemma_links_persist(all, known, model, j + 1, model.len() as int);
                    lemma_all_links_persist(all, known, i + 1, known.len() as int);
                }
            }
            match ids.position(link.id) {
                None => return Err(Error::InvalidObject("broken link")),
                Some(at) => {
                    proof {
                        lemma_place(all, at as int);
                    }
                    if facts[at].kind != link.expected {
                        return Err(Error::InvalidObject("wrong object type in link"));
                    }
                },
            }
            j += 1;
        }
        i += 1;
    }
    Ok(())
}

// ---------------------------------------------------------------------------
// What is kept

proof fn lemma_links_sound(
    ids: Seq<Seq<u8>>,
    facts: Seq<FactModel>,
    links: Seq<LinkModel>,
    n: int,
    k: int,
)
    requires
        0 <= k < n <= links.len(),
        links_fault(ids, facts, links, n) is None,
    ensures
        link_fault(ids, facts, links[k]) is None,
    decreases n,
{
    if k < n - 1 {
        lemma_links_sound(ids, facts, links, n - 1, k);
    }
}

/// Where no link is at fault, every link leads to an object.
pub proof fn lemma_all_links_sound(ids: Seq<Seq<u8>>, facts: Seq<FactModel>, n: int, i: int, k: int)
    requires
        0 <= i < n <= facts.len(),
        0 <= k < facts[i].links.len(),
        all_links_fault(ids, facts, n) is None,
    ensures
        ids.contains(facts[i].links[k].id),
        facts[ids.index_of(facts[i].links[k].id)].kind == facts[i].links[k].expected,
    decreases n,
{
    if i < n - 1 {
        lemma_all_links_sound(ids, facts, n - 1, i, k);
    } else {
        lemma_links_sound(ids, facts, facts[i].links, facts[i].links.len() as int, k);
    }
}

/// An identifier that is dealt with or waits to be.
spec fn settled(x: Seq<u8>, stack: Seq<Seq<u8>>, ids: Seq<Seq<u8>>, marks: Seq<bool>) -> bool {
    x == null_id() || stack.contains(x) || (ids.contains(x) && marks[ids.index_of(x)])
}

/// How many of the first `n` objects are not marked.
spec fn unmarked(marks: Seq<bool>, n: int) -> nat
    decreases n,
{
    if n <= 0 {
        0
    } else {
        unmarked(marks, n - 1) + if marks[n - 1] {
            0nat
        } else {
            1nat
        }
    }
}

proof fn lemma_unmarked(marks: Seq<bool>, at: int, n: int)
    requires
        0 <= at < marks.len(),
        0 <= n <= marks.len(),
        !marks[at],
    ensures
        unmarked(marks.update(at, true), n) == unmarked(marks, n) - (if at < n {
            1int
        } else {
            0int
        }),
        at < n ==> unmarked(marks, n) > 0,
    decreases n,
{
    if n > 0 {
        lemma_unmarked(marks, at, n - 1);
    }
}

pub proof fn lemma_root_kept(ids: Seq<Seq<u8>>, facts: Seq<FactModel>, roots: Seq<Seq<u8>>, id: Seq<u8>)
    requires
        roots.contains(id),
        ids.contains(id),
        id != null_id(),
    ensures
        is_kept(ids, facts, roots, id),
{
    let chain = seq![id];
    assert(is_chain(ids, facts, roots, chain));
    assert(chain.last() == id);
}

pub proof fn lemma_next_kept(
    ids: Seq<Seq<u8>>,
    facts: Seq<FactModel>,
    roots: Seq<Seq<u8>>,
    from: Seq<u8>,
    to: Seq<u8>,
)
    requires
        is_kept(ids, facts, roots, from),
        ids.contains(to),
        to != null_id(),
        names_id(facts[ids.index_of(from)], to),
    ensures
        is_kept(ids, facts, roots, to),
{
    let chain = choose|chain: Seq<Seq<u8>>| #[trigger]
        is_chain(ids, facts, roots, chain) && chain.last() == from;
    let longer = chain.push(to);
    assert forall|i: int| 0 <= i < longer.len() implies ids.contains(#[trigger] longer[i]) by {
        if i < chain.len() {
            assert(longer[i] == chain[i]);
        }
    }
    assert forall|i: int| 0 <= i < longer.len() implies #[trigger] longer[i] != null_id() by {
        if i < chain.len() {
            assert(longer[i] == chain[i]);
        }
    }
    assert forall|i: int| 0 < i < longer.len() implies names_id(
        facts[ids.index_of(longer[i - 1])],
        #[trigger] longer[i],
    ) by {
        if i < chain.len() {
            assert(longer[i] == chain[i] && longer[i - 1] == chain[i - 1]);
            assert(names_id(facts[ids.index_of(chain[i - 1])], chain[i]));
        } else {
            assert(longer[i - 1] == chain.last());
        }
    }
    assert(longer[0] == chain[0]);
    assert(is_chain(ids, facts, roots, longer));
    assert(longer.last() == to);
}

/// Once nothing waits, every kept object is marked.
proof fn lemma_kept_marked(
    ids: Seq<Seq<u8>>,
    facts: Seq<FactModel>,
    roots: Seq<Seq<u8>>,
    marks: Seq<bool>,
    chain: Seq<Seq<u8>>,
    n: int,
)
    requires
        is_chain(ids, facts, roots, chain),
        0 <= n < chain.len(),
        forall|r: int|
            0 <= r < roots.len() ==> settled(#[trigger] roots[r], Seq::empty(), ids, marks),
        forall|i: int, k: int|
            0 <= i < ids.len() && marks[i] && 0 <= k < facts[i].links.len() ==> settled(
                (#[trigger] facts[i].links[k]).id,
                Seq::empty(),
                ids,
                marks,
            ),
    ensures
        marks[ids.index_of(chain[n])],
    decreases n,
{
    assert(ids.contains(chain[n]));
    assert(chain[n] != null_id());
    if n == 0 {
        let r = roots.index_of(chain[0]);
        assert(roots[r] == chain[0]);
        assert(settled(roots[r], Seq::empty(), ids, marks));
    } else {
        lemma_kept_marked(ids, facts, roots, marks, chain, n - 1);
        assert(ids.contains(chain[n - 1]));
        let i = ids.index_of(chain[n - 1]);
        assert(names_id(facts[ids.index_of(chain[n - 1])], chain[n]));
        let k = choose|k: int| 0 <= k < facts[i].links.len() && (#[trigger] facts[i].links[k]).id == chain[n];
        assert(settled(facts[i].links[k].id, Seq::empty(), ids, marks));
    }
}

/// Marks the objects that are kept.
fn mark(ids: &IdSet, facts: &Vec<Fact>, roots: &Vec<ObjectId>) -> (r: Result<Vec<bool>>)
    requires
        ids.list().len() == facts@.len(),
        crate::bytemap::ascending(ids.list()),
        all_links_fault(ids.list(), fact_view(facts@), facts@.len() as int) is None,
    ensures
        if root_missing(ids.list(), commit::raw_ids(roots@)) {
            r is Err && r->Err_0 == Error::InvalidObject("retention root is missing")
        } else {
            &&& r is Ok && r->Ok_0@.len() == ids.list().len()
            &&& forall|i: int|
                0 <= i < ids.list().len() ==> #[trigger] r->Ok_0@[i] == is_kept(
                    ids.list(),
                    fact_view(facts@),
                    commit::raw_ids(roots@),
                    ids.list()[i],
                )
        },
{
    let ghost all = ids.list();
    let ghost known = fact_view(facts@);
    let ghost from = commit::raw_ids(roots@);
    let n: usize = ids.len();
    let mut marks: Vec<bool> = Vec::new();
    let mut i: usize = 0;
    while i < n
        invariant
            i <= n,
            marks@.len() == i,
            forall|j: int| 0 <= j < i ==> !#[trigger] marks@[j],
        decreases n - i,
    {
        marks.push(false);
        i += 1;
    }
    let mut stack: Vec<ObjectId> = Vec::new();
    i = 0;
    while i < roots.len()
        invariant
            i <= roots@.len(),
            stack@ == roots@.take(i as int),
        decreases roots@.len() - i,
    {
        stack.push(roots[i]);
        assert(stack@ =~= roots@.take(i + 1));
        i += 1;
    }
    proof {
        assert(roots@.take(i as int) =~= roots@);
        assert(commit::raw_ids(stack@) =~= from);
        assert forall|k: int| 0 <= k < stack@.len() implies {
            let x = #[trigger] commit::raw_ids(stack@)[k];
            x == null_id() || (all.contains(x) && is_kept(all, known, from, x)) || (!all.contains(
                x,
            ) && root_missing(all, from))
        } by {
            let x = from[k];
            assert(from.contains(x));
            if x != null_id() {
                if all.contains(x) {
                    lemma_root_kept(all, known, from, x);
                }
            }
        }
        assert forall|r: int| 0 <= r < from.len() implies settled(
            #[trigger] from[r],
            commit::raw_ids(stack@),
            all,
            marks@,
        ) by {
            assert(from.contains(from[r]));
        }
    }
    while stack.len() > 0
        invariant
            n == all.len(),
            all == ids.list(),
            known == fact_view(facts@),
            from == commit::raw_ids(roots@),
            all.len() == known.len(),
            marks@.len() == all.len(),
            crate::bytemap::ascending(all),
            all_links_fault(all, known, known.len() as int) is None,
            forall|j: int|
                0 <= j < all.len() && #[trigger] marks@[j] ==> is_kept(all, known, from, all[j]),
            forall|k: int|
                0 <= k < stack@.len() ==> {
                    let x = #[trigger] commit::raw_ids(stack@)[k];
                    x == null_id() || (all.contains(x) && is_kept(all, known, from, x)) || (
                    !all.contains(x) && root_missing(all, from))
                },
            forall|r: int|
                0 <= r < from.len() ==> settled(
                    #[trigger] from[r],
                    commit::raw_ids(stack@),
                    all,
                    marks@,
                ),
            forall|i: int, k: int|
                0 <= i < all.len() && marks@[i] && 0 <= k < known[i].links.len() ==> settled(
                    (#[trigger] known[i].links[k]).id,
                    commit::raw_ids(stack@),
                    all,
                    marks@,
                ),
        decreases unmarked(marks@, marks@.len() as int), stack@.len(),
    {
        let ghost old_stack = commit::raw_ids(stack@);
        let ghost old_marks = marks@;
        let id = stack.pop().unwrap();
        let ghost rest = commit::raw_ids(stack@);
        proof {
            assert(rest =~= old_stack.drop_last());
            assert(old_stack[old_stack.len() - 1] == id@);
        }
        if id.is_null() {
            proof {
                assert(id@ =~= null_id());
                lemma_popped(old_stack, rest, id@, all, marks@, known, from);
            }
            continue;
        }
        assert(id@ != null_id()) by {
            if id@ == null_id() {
                assert(forall|i: int| 0 <= i < 20 ==> id@[i] == 0);
            }
        }
        let at: usize = match ids.position(id) {
            Some(at) => at,
            None => {
                assert(root_missing(all, from));
                return Err(Error::InvalidObject("retention root is missing"));
            },
        };
        proof {
            lemma_place(all, at as int);
        }
        if marks[at] {
            proof {
                lemma_popped(old_stack, rest, id@, all, marks@, known, from);
            }
            continue;
        }
        marks.set(at, true);
        proof {
            lemma_unmarked(old_marks, at as int, old_marks.len() as int);
            assert(marks@ =~= old_marks.update(at as int, true));
        }
        let links = &facts[at].links;
        let ghost model = link_view(links@);
        assert(known[at as int].links == model);
        let mut k: usize = 0;
        while k < links.len()
            invariant
                k <= links@.len(),
                model == link_view(links@),
                stack@.len() == rest.len() + k,
                forall|j: int| 0 <= j < rest.len() ==> #[trigger] commit::raw_ids(stack@)[j] == rest[j],
                forall|j: int|
                    0 <= j < k ==> #[trigger] model[j].id == commit::raw_ids(stack@)[rest.len() + j],
            decreases links@.len() - k,
        {
            let ghost before = stack@;
            stack.push(links[k].id);
            assert(commit::raw_ids(stack@) =~= commit::raw_ids(before).push(links@[k as int].id@));
            k += 1;
        }
        proof {
            let now = commit::raw_ids(stack@);
            assert forall|j: int| 0 <= j < stack@.len() implies {
                let x = #[trigger] now[j];
                x == null_id() || (all.contains(x) && is_kept(all, known, from, x)) || (
                !all.contains(x) && root_missing(all, from))
            } by {
                if j < rest.len() {
                    assert(now[j] == rest[j] && rest[j] == old_stack[j]);
                } else {
                    let m = j - rest.len();
                    assert(model[m].id == now[j]);
                    lemma_all_links_sound(all, known, known.len() as int, at as int, m);
                    if now[j] != null_id() {
                        assert(names_id(known[at as int], now[j]));
                        lemma_next_kept(all, known, from, all[at as int], now[j]);
                    }
                }
            }
            assert forall|x: Seq<u8>| #[trigger]
                settled(x, old_stack, all, old_marks) implies settled(x, now, all, marks@) by {
                if x != null_id() {
                    if old_stack.contains(x) {
                        let m = old_stack.index_of(x);
                        if m < rest.len() {
                            assert(now[m] == rest[m] && rest[m] == x);
                        } else {
                            assert(x == id@);
                            assert(marks@[all.index_of(x)]);
                        }
                    } else {
                        let m = all.index_of(x);
                        assert(old_marks[m]);
                        assert(marks@[m]);
                    }
                }
            }
            assert forall|i: int, k: int|
                0 <= i < all.len() && marks@[i] && 0 <= k < known[i].links.len() implies settled(
                (#[trigger] known[i].links[k]).id,
                now,
                all,
                marks@,
            ) by {
                if i == at {
                    assert(model[k].id == now[rest.len() + k]);
                    assert(now.contains(model[k].id));
                } else {
                    assert(old_marks[i]);
                    assert(settled(known[i].links[k].id, old_stack, all, old_marks));
                }
            }
            assert forall|r: int| 0 <= r < from.len() implies settled(
                #[trigger] from[r],
                now,
                all,
                marks@,
            ) by {
                assert(settled(from[r], old_stack, all, old_marks));
            }
        }
    }
    proof {
        assert(commit::raw_ids(stack@) =~= Seq::empty());
        assert(!root_missing(all, from)) by {
            if root_missing(all, from) {
                let r = choose|r: int|
                    0 <= r < from.len() && #[trigger] from[r] != null_id() && !all.contains(
                        from[r],
                    );
                assert(settled(from[r], Seq::empty(), all, marks@));
            }
        }
        assert forall|i: int| 0 <= i < all.len() implies #[trigger] marks@[i] == is_kept(
            all,
            known,
            from,
            all[i],
        ) by {
            if is_kept(all, known, from, all[i]) {
                let chain = choose|chain: Seq<Seq<u8>>| #[trigger]
                    is_chain(all, known, from, chain) && chain.last() == all[i];
                lemma_kept_marked(all, known, from, marks@, chain, chain.len() - 1);
                lemma_place(all, i);
            }
        }
    }
    Ok(marks)
}

/// What was settled stays settled when an identifier that is dealt with is
/// taken off.
proof fn lemma_popped(
    old_stack: Seq<Seq<u8>>,
    rest: Seq<Seq<u8>>,
    id: Seq<u8>,
    all: Seq<Seq<u8>>,
    marks: Seq<bool>,
    known: Seq<FactModel>,
    from: Seq<Seq<u8>>,
)
    requires
        old_stack.len() > 0,
        rest == old_stack.drop_last(),
        old_stack.last() == id,
        id == null_id() || (all.contains(id) && marks[all.index_of(id)]),
    ensures
        forall|x: Seq<u8>| #[trigger]
            settled(x, old_stack, all, marks) ==> settled(x, rest, all, marks),
        forall|k: int| 0 <= k < rest.len() ==> #[trigger] rest[k] == old_stack[k],
{
    assert forall|x: Seq<u8>| #[trigger] settled(x, old_stack, all, marks) implies settled(
        x,
        rest,
        all,
        marks,
    ) by {
        if old_stack.contains(x) && x != id {
            let m = old_stack.index_of(x);
            assert(rest[m] == x);
        }
    }
}

// ---------------------------------------------------------------------------
// The report

fn push_all(out: &mut Vec<ObjectId>, list: &[ObjectId])
    ensures
        commit::raw_ids(final(out)@) == commit::raw_ids(old(out)@) + commit::raw_ids(list@),
{
    let ghost start = commit::raw_ids(out@);
    let ghost all = commit::raw_ids(list@);
    let mut i: usize = 0;
    assert(start + all.take(0) =~= start);
    while i < list.len()
        invariant
            i <= list@.len(),
            all == commit::raw_ids(list@),
            commit::raw_ids(out@) == start + all.take(i as int),
        decreases list@.len() - i,
    {
        let ghost before = out@;
        out.push(list[i]);
        assert(commit::raw_ids(out@) =~= commit::raw_ids(before).push(all[i as int]));
        assert(start + all.take(i + 1) =~= (start + all.take(i as int)).push(all[i as int]));
        i += 1;
    }
    assert(all.take(i as int) =~= all);
}

fn count_kind(facts: &Vec<Fact>, kind: ObjectKind) -> (r: usize)
    ensures
        r == count_of(fact_view(facts@), kind, facts@.len() as int),
{
    let ghost known = fact_view(facts@);
    let mut count: usize = 0;
    let mut i: usize = 0;
    while i < facts.len()
        invariant
            i <= facts@.len(),
            count <= i,
            known == fact_view(facts@),
            count == count_of(known, kind, i as int),
        decreases facts@.len() - i,
    {
        assert(known[i as int].kind == facts@[i as int].kind);
        if facts[i].kind == kind {
            count += 1;
        }
        i += 1;
    }
    count
}

fn names_it(facts: &Vec<Fact>, id: ObjectId) -> (r: bool)
    ensures
        r == is_named(fact_view(facts@), id@),
{
    let ghost known = fact_view(facts@);
    let mut i: usize = 0;
    while i < facts.len()
        invariant
            i <= facts@.len(),
            known == fact_view(facts@),
            forall|j: int| 0 <= j < i ==> !names_id(#[trigger] known[j], id@),
        decreases facts@.len() - i,
    {
        let links = &facts[i].links;
        let ghost model = link_view(links@);
        assert(known[i as int].links == model);
        let mut k: usize = 0;
        while k < links.len()
            invariant
                i < facts@.len(),
                k <= links@.len(),
                known == fact_view(facts@),
                model == link_view(links@),
                known[i as int].links == model,
                forall|j: int| 0 <= j < k ==> (#[trigger] model[j]).id != id@,
            decreases links@.len() - k,
        {
            assert(model[k as int].id == links@[k as int].id@);
            if links[k].id.same(&id) {
                assert(names_id(known[i as int], id@));
                return true;
            }
            k += 1;
        }
        i += 1;
    }
    false
}

/// The members of an ascending list that are marked, or those that are not.
fn choose_marked(ids: &IdSet, marks: &Vec<bool>, wanted: bool, Ghost(keep): Ghost<spec_fn(Seq<u8>) -> bool>) -> (r: Vec<ObjectId>)
    requires
        marks@.len() == ids.list().len(),
        forall|i: int|
            0 <= i < marks@.len() ==> (#[trigger] marks@[i] == wanted) == keep(ids.list()[i]),
    ensures
        commit::raw_ids(r@) == ids.list().filter(keep),
{
    let ghost all = ids.list();
    let mut out: Vec<ObjectId> = Vec::new();
    let mut i: usize = 0;
    proof {
        reveal(Seq::filter);
        assert(all.take(0).filter(keep) =~= Seq::empty());
        assert(commit::raw_ids(out@) =~= Seq::empty());
    }
    while i < marks.len()
        invariant
            i <= marks@.len(),
            all == ids.list(),
            marks@.len() == all.len(),
            forall|i: int|
                0 <= i < marks@.len() ==> (#[trigger] marks@[i] == wanted) == keep(all[i]),
            commit::raw_ids(out@) == all.take(i as int).filter(keep),
        decreases marks@.len() - i,
    {
        proof {
            reveal(Seq::filter);
            assert(all.take(i + 1).drop_last() =~= all.take(i as int));
            assert(all.take(i + 1).last() == all[i as int]);
        }
        if marks[i] == wanted {
            let ghost before = out@;
            out.push(ids.at(i));
            assert(commit::raw_ids(out@) =~= commit::raw_ids(before).push(all[i as int]));
        }
        i += 1;
    }
    assert(all.take(i as int) =~= all);
    out
}

fn unnamed(list: &Vec<ObjectId>, facts: &Vec<Fact>) -> (r: Vec<ObjectId>)
    ensures
        commit::raw_ids(r@) == commit::raw_ids(list@).filter(
            |id: Seq<u8>| !is_named(fact_view(facts@), id),
        ),
{
    let ghost all = commit::raw_ids(list@);
    let ghost known = fact_view(facts@);
    let ghost keep = |id: Seq<u8>| !is_named(known, id);
    let mut out: Vec<ObjectId> = Vec::new();
    let mut i: usize = 0;
    proof {
        reveal(Seq::filter);
        assert(all.take(0).filter(keep) =~= Seq::empty());
        assert(commit::raw_ids(out@) =~= Seq::empty());
    }
    while i < list.len()
        invariant
            i <= list@.len(),
            all == commit::raw_ids(list@),
            known == fact_view(facts@),
            keep == (|id: Seq<u8>| !is_named(known, id)),
            commit::raw_ids(out@) == all.take(i as int).filter(keep),
        decreases list@.len() - i,
    {
        proof {
            reveal(Seq::filter);
            assert(all.take(i + 1).drop_last() =~= all.take(i as int));
            assert(all.take(i + 1).last() == all[i as int]);
        }
        assert(all[i as int] == list@[i as int]@);
        if !names_it(facts, list[i]) {
            let ghost before = out@;
            out.push(list[i]);
            assert(commit::raw_ids(out@) =~= commit::raw_ids(before).push(all[i as int]));
        }
        i += 1;
    }
    assert(all.take(i as int) =~= all);
    out
}

fn report_on(ids: &IdSet, packed: IdSet, facts: &Vec<Fact>, marks: &Vec<bool>, Ghost(roots): Ghost<Seq<Seq<u8>>>) -> (r: FsckReport)
    requires
        ids.list().len() == facts@.len(),
        marks@.len() == ids.list().len(),
        forall|i: int|
            0 <= i < ids.list().len() ==> #[trigger] marks@[i] == is_kept(
                ids.list(),
                fact_view(facts@),
                roots,
                ids.list()[i],
            ),
    ensures
        describes(r, ids.list(), packed.list(), fact_view(facts@), roots),
{
    let ghost all = ids.list();
    let ghost known = fact_view(facts@);
    let kept = choose_marked(
        ids,
        marks,
        true,
        Ghost(|id: Seq<u8>| is_kept(all, known, roots, id)),
    );
    let lost = choose_marked(
        ids,
        marks,
        false,
        Ghost(|id: Seq<u8>| !is_kept(all, known, roots, id)),
    );
    let dangling = unnamed(&lost, facts);
    FsckReport {
        objects: ids.len(),
        reachable: kept.len(),
        blobs: count_kind(facts, ObjectKind::Blob),
        trees: count_kind(facts, ObjectKind::Tree),
        commits: count_kind(facts, ObjectKind::Commit),
        tags: count_kind(facts, ObjectKind::Tag),
        reachable_objects: kept,
        packed_objects: packed.into_vec(),
        unreachable: lost,
        dangling,
    }
}

impl Repository {
    fn fsck_roots(&self, options: &FsckOptions, retention: &Retention) -> (r: Result<Vec<ObjectId>>)
        ensures
            match roots_of(self.tree(), self.git(), *options, *retention) {
                Ok(roots) => r is Ok && commit::raw_ids(r->Ok_0@) == roots,
                Err(refusal) => fs::declined(r, refusal),
            },
    {
        let mut roots: Vec<ObjectId> = Vec::new();
        assert(commit::raw_ids(roots@) =~= Seq::empty());
        push_all(&mut roots, options.additional_roots.as_slice());
        push_all(&mut roots, retention.references.as_slice());
        let ghost given = commit::raw_ids(options.additional_roots@) + commit::raw_ids(
            retention.references@,
        );
        assert(commit::raw_ids(roots@) =~= given);
        if options.include_index {
            let parsed = self.read_index()?;
            let entries = parsed.entries();
            let ghost list = index::models(entries@);
            assert(index_of(self.tree(), self.git()) == Ok::<index::IndexModel, Refusal>(parsed@));
            assert(list == parsed@.entries);
            let mut i: usize = 0;
            assert(given + indexed(list, 0) =~= given);
            while i < entries.len()
                invariant
                    i <= entries@.len(),
                    list == index::models(entries@),
                    commit::raw_ids(roots@) == given + indexed(list, i as int),
                decreases entries@.len() - i,
            {
                assert(list[i as int] == entries@[i as int]@);
                if entries[i].mode() != 0o160000 {
                    let ghost before = roots@;
                    roots.push(entries[i].id());
                    assert(commit::raw_ids(roots@) =~= commit::raw_ids(before).push(
                        list[i as int].id,
                    ));
                    assert(given + indexed(list, i + 1) =~= (given + indexed(
                        list,
                        i as int,
                    )).push(list[i as int].id));
                }
                i += 1;
            }
        }
        if options.include_reflogs {
            push_all(&mut roots, retention.reflogs.as_slice());
        } else {
            assert(commit::raw_ids(roots@) =~= commit::raw_ids(roots@) + Seq::<Seq<u8>>::empty());
        }
        Ok(roots)
    }

    /// Verifies all loose and packed objects and their typed links.
    ///
    /// References, reflogs, index entries and roots of the caller's determine
    /// what is kept. Objects that are not kept are reported and no error.
    pub fn fsck(&self, options: &FsckOptions, retention: &Retention) -> (r: Result<FsckReport>)
        ensures
            verified(self.tree(), self.git(), *options, *retention, r),
            r matches Ok(report) ==> fsck_laws::tells(
                self.tree(),
                self.git(),
                *options,
                *retention,
                report,
            ),
    {
        let (ids, packed) = self.fsck_object_ids(options.max_objects, options.max_object_size)?;
        let _ = ids.len();
        let _ = packed.len();
        let facts = self.read_facts(&ids, retention.shallow.as_slice(), options.max_object_size)?;
        check_links(&ids, &facts)?;
        let roots = self.fsck_roots(options, retention)?;
        let marks = mark(&ids, &facts, &roots)?;
        let report = report_on(&ids, packed, &facts, &marks, Ghost(commit::raw_ids(roots@)));
        let r: Result<FsckReport> = Ok(report);
        proof {
            fsck_laws::lemma_verification_tells(self.tree(), self.git(), *options, *retention, r);
        }
        r
    }
}

/// What is kept for one set of roots is kept for a larger one.
pub proof fn lemma_more_roots_keep_more(
    ids: Seq<Seq<u8>>,
    facts: Seq<FactModel>,
    roots: Seq<Seq<u8>>,
    more: Seq<Seq<u8>>,
    id: Seq<u8>,
)
    requires
        is_kept(ids, facts, roots, id),
    ensures
        is_kept(ids, facts, roots + more, id),
{
    let chain = choose|chain: Seq<Seq<u8>>| #[trigger]
        is_chain(ids, facts, roots, chain) && chain.last() == id;
    let k = roots.index_of(chain[0]);
    assert((roots + more)[k] == chain[0]);
    assert(is_chain(ids, facts, roots + more, chain));
}

} // verus!
