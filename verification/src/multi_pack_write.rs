//! The multi-pack index of a repository.

use vstd::prelude::*;

use crate::bytemap::ByteMap;
use crate::bytes;
use crate::fs;
use crate::fs::memory;
use crate::fs::path;
use crate::fs::{Fault, FileSystem, Refusal};
use crate::multi_pack_index;
use crate::multi_pack_index::{Location, MultiPackIndex, MultiPackIndexEntry};
use crate::object;
use crate::object::ObjectId;
use crate::order;
use crate::pack;
use crate::pack::{PackIndex, PackRecord};
use crate::repository;
use crate::repository::Repository;
use crate::storage;
use crate::{Error, Result};

verus! {

/// Resource limits and selection policy for MIDX generation.
#[derive(Debug, PartialEq, Eq)]
pub struct MultiPackIndexOptions {
    pub max_packs: usize,
    pub max_objects: usize,
    pub max_pack_index_size: usize,
    pub max_file_size: usize,
    /// An `.idx` basename whose duplicate objects should be selected first.
    pub preferred_pack: Option<Vec<u8>>,
    pub force: bool,
    pub dry_run: bool,
}

/// Whether options are the ones to begin with.
pub open spec fn by_default(r: MultiPackIndexOptions) -> bool {
    &&& r.max_packs == 1_000_000
    &&& r.max_objects == 100_000_000
    &&& r.max_pack_index_size == 1024 * 1024 * 1024
    &&& r.max_file_size == if usize::MAX < 0x2_0000_0000 {
        usize::MAX as int
    } else {
        0x2_0000_0000int
    }
    &&& r.preferred_pack is None
    &&& !r.force
    &&& !r.dry_run
}

impl Default for MultiPackIndexOptions {
    fn default() -> (r: Self)
        ensures
            by_default(r),
    {
        let file_size: u64 = 0x2_0000_0000;
        MultiPackIndexOptions {
            max_packs: 1_000_000,
            max_objects: 100_000_000,
            max_pack_index_size: 1024 * 1024 * 1024,
            max_file_size: if file_size > usize::MAX as u64 {
                usize::MAX
            } else {
                file_size as usize
            },
            preferred_pack: None,
            force: false,
            dry_run: false,
        }
    }
}

/// Generation result and inventory.
#[derive(Clone, Copy, Debug, PartialEq, Eq)]
pub struct MultiPackIndexReport {
    pub packs: usize,
    pub objects: usize,
    pub duplicate_objects: usize,
    pub bytes: usize,
    pub changed: bool,
}

/// The path of the file below the repository's own directory.
pub open spec fn midx_path() -> Seq<u8> {
    bytes::utf8("objects/pack/multi-pack-index"@)
}

proof fn lemma_midx_path()
    ensures
        path::plain(midx_path()),
        midx_path().len() > 0,
{
    reveal_strlit("objects/pack/multi-pack-index");
    reveal_strlit("objects/pack/");
    bytes::lemma_ascii("objects/pack/multi-pack-index"@);
    bytes::lemma_ascii("objects/pack/"@);
    let name = midx_path().skip(13);
    assert(name[0] == 109);
    path::lemma_plain_name(name);
    storage::lemma_pack_file(name);
    assert(midx_path() =~= storage::pack_file(name));
}

pub open spec fn said(message: &'static str) -> Refusal {
    Refusal::Said(Error::InvalidRepository(message))
}

pub open spec fn pack_beside(git: Seq<u8>, name: Seq<u8>) -> Seq<u8> {
    repository::joined(git, storage::pack_file(storage::pack_name_of(name)))
}

/// The pack indexes among the first `n` names, or why they are refused.
pub open spec fn index_names(
    tree: memory::Tree,
    git: Seq<u8>,
    all: Seq<Seq<u8>>,
    max_packs: int,
    n: int,
) -> core::result::Result<Seq<Seq<u8>>, Refusal>
    decreases n,
{
    if n <= 0 {
        Ok(Seq::empty())
    } else {
        match index_names(tree, git, all, max_packs, n - 1) {
            Err(refusal) => Err(refusal),
            Ok(before) => {
                let name = all[n - 1];
                if !vstd::utf8::valid_utf8(name) {
                    Err(said("invalid multi-pack-index: non-UTF-8 pack index name"))
                } else if !multi_pack_index::pack_index_name(name) {
                    Ok(before)
                } else if !tree.contains_key(pack_beside(git, name)) {
                    Err(said("invalid multi-pack-index: pack index has no corresponding pack"))
                } else if before.len() + 1 > max_packs {
                    Err(said("invalid multi-pack-index: pack count exceeds limit"))
                } else {
                    Ok(before.push(name))
                }
            },
        }
    }
}

/// Locations after the first `k` records of a pack are taken up: a location
/// that stands gives way only to the preferred pack.
pub open spec fn taken_up(
    selected: Map<Seq<u8>, Location>,
    list: Seq<PackRecord>,
    pack: u32,
    preferred: bool,
    k: int,
) -> Map<Seq<u8>, Location>
    decreases k,
{
    if k <= 0 {
        selected
    } else {
        let before = taken_up(selected, list, pack, preferred, k - 1);
        let record = list[k - 1];
        if before.contains_key(record.id) && !preferred {
            before
        } else {
            before.insert(record.id, Location { id: record.id, pack, offset: record.offset })
        }
    }
}

/// The locations that the first `n` packs give, and how many records these
/// packs have, or why they are refused.
pub open spec fn collected(
    tree: memory::Tree,
    git: Seq<u8>,
    names: Seq<Seq<u8>>,
    preferred: Option<Seq<u8>>,
    max_size: int,
    max_objects: int,
    n: int,
) -> core::result::Result<(Map<Seq<u8>, Location>, int), Refusal>
    decreases n,
{
    if n <= 0 {
        Ok((Map::empty(), 0))
    } else {
        match collected(tree, git, names, preferred, max_size, max_objects, n - 1) {
            Err(refusal) => Err(refusal),
            Ok((selected, total)) => {
                let p = repository::joined(git, storage::pack_file(names[n - 1]));
                if !tree.contains_key(p) {
                    Err(Refusal::At(Fault::NotFound, p))
                } else if memory::metadata_of(tree[p]).len > max_size {
                    Err(
                        Refusal::Said(
                            Error::ObjectTooLarge {
                                declared: memory::metadata_of(tree[p]).len,
                                limit: max_size as usize,
                            },
                        ),
                    )
                } else {
                    match storage::read_at(tree, p) {
                        Err(refusal) => Err(refusal),
                        Ok(data) => match pack::index_from(data) {
                            Err(error) => Err(Refusal::Said(error)),
                            Ok((list, _)) => if total + list.len() > usize::MAX {
                                Err(said("invalid multi-pack-index: object count overflow"))
                            } else if total + list.len() > max_objects {
                                Err(said("invalid multi-pack-index: object count exceeds limit"))
                            } else if list.len() > 0 && n - 1 > u32::MAX {
                                Err(said("invalid multi-pack-index: pack count overflow"))
                            } else {
                                Ok(
                                    (
                                        taken_up(
                                            selected,
                                            list,
                                            (n - 1) as u32,
                                            preferred == Some(names[n - 1]),
                                            list.len() as int,
                                        ),
                                        total + list.len(),
                                    ),
                                )
                            },
                        },
                    }
                }
            },
        }
    }
}

/// Whether a list holds the locations of a map, in the order of identifiers.
pub open spec fn lists(selected: Map<Seq<u8>, Location>, list: Seq<Location>) -> bool {
    &&& pack::ascends(multi_pack_index::places(list))
    &&& forall|id: Seq<u8>| #[trigger]
        selected.contains_key(id) ==> list.contains(selected[id]) && selected[id].id == id
    &&& forall|k: int|
        0 <= k < list.len() ==> selected.contains_key((#[trigger] list[k]).id) && selected[list[k].id]
            == list[k]
}

/// The locations of a map, in the order of identifiers.
pub open spec fn spread(selected: Map<Seq<u8>, Location>) -> Seq<Location> {
    choose|list: Seq<Location>| lists(selected, list)
}

/// There is one list of the locations of a map.
pub proof fn lemma_spread(selected: Map<Seq<u8>, Location>, list: Seq<Location>)
    requires
        lists(selected, list),
    ensures
        spread(selected) == list,
{
    let other = spread(selected);
    let a = Seq::new(list.len(), |i: int| list[i].id);
    let b = Seq::new(other.len(), |i: int| other[i].id);
    lemma_ids_ascend(list);
    lemma_ids_ascend(other);
    assert forall|x: Seq<u8>| a.contains(x) <==> b.contains(x) by {
        if a.contains(x) {
            let k = a.index_of(x);
            assert(selected.contains_key(list[k].id));
            assert(other.contains(selected[x]));
            let j = other.index_of(selected[x]);
            assert(b[j] == x);
        }
        if b.contains(x) {
            let k = b.index_of(x);
            assert(selected.contains_key(other[k].id));
            assert(list.contains(selected[x]));
            let j = list.index_of(selected[x]);
            assert(a[j] == x);
        }
    }
    order::lemma_ascending_same(a, b);
    assert(a.len() == list.len() && b.len() == other.len());
    assert(list.len() == other.len());
    assert forall|k: int| 0 <= k < list.len() implies #[trigger] list[k] == #[trigger] other[k] by {
        assert(a[k] == list[k].id && b[k] == other[k].id);
        assert(list[k].id == other[k].id);
        assert(selected.contains_key(list[k].id) && selected[list[k].id] == list[k]);
        assert(selected.contains_key(other[k].id) && selected[other[k].id] == other[k]);
    }
    assert(list =~= other);
}

proof fn lemma_ids_ascend(list: Seq<Location>)
    requires
        pack::ascends(multi_pack_index::places(list)),
    ensures
        crate::bytemap::ascending(Seq::new(list.len(), |i: int| list[i].id)),
{
    let ids = Seq::new(list.len(), |i: int| list[i].id);
    let records = multi_pack_index::places(list);
    assert forall|i: int, j: int| 0 <= i < j < ids.len() implies #[trigger] bytes::lex_lt(
        ids[i],
        ids[j],
    ) by {
        assert(pack::id_before(records[i], records[j]));
    }
}

/// What a multi-pack index for a repository holds.
pub struct Plan {
    pub names: Seq<Seq<u8>>,
    pub list: Seq<Location>,
    pub total: int,
    pub data: Seq<u8>,
}

/// The multi-pack index that a repository gets, or why it gets none.
#[verifier::opaque]
pub open spec fn planned(
    tree: memory::Tree,
    git: Seq<u8>,
    max_packs: int,
    preferred: Option<Seq<u8>>,
    max_size: int,
    max_objects: int,
    max_file_size: int,
) -> core::result::Result<Plan, Refusal> {
    match storage::listed(tree, repository::joined(git, storage::pack_directory())) {
        Err(refusal) => Err(refusal),
        Ok(all) => match index_names(tree, git, all, max_packs, all.len() as int) {
            Err(refusal) => Err(refusal),
            Ok(names) => if names.len() == 0 {
                Err(said("invalid multi-pack-index: no pack files to index"))
            } else if preferred is Some && !names.contains(preferred->0) {
                Err(said("invalid multi-pack-index: preferred pack is not present"))
            } else {
                match collected(
                    tree,
                    git,
                    names,
                    preferred,
                    max_size,
                    max_objects,
                    names.len() as int,
                ) {
                    Err(refusal) => Err(refusal),
                    Ok((selected, total)) => {
                        let list = spread(selected);
                        let data = multi_pack_index::midx_bytes(names, list);
                        if list.len() == 0 {
                            Err(said("invalid multi-pack-index: pack files contain no objects"))
                        } else if list.len() > u32::MAX {
                            Err(said("invalid multi-pack-index: object count overflow"))
                        } else if names.len() > u32::MAX {
                            Err(said("invalid multi-pack-index: pack count overflow"))
                        } else if data.len() > max_file_size {
                            Err(
                                Refusal::Said(
                                    Error::ObjectTooLarge {
                                        declared: data.len() as u64,
                                        limit: max_file_size as usize,
                                    },
                                ),
                            )
                        } else {
                            Ok(Plan { names, list, total, data })
                        }
                    },
                }
            },
        },
    }
}

proof fn lemma_index_names_persist(
    tree: memory::Tree,
    git: Seq<u8>,
    all: Seq<Seq<u8>>,
    max_packs: int,
    n: int,
    m: int,
)
    requires
        0 <= n <= m,
    ensures
        index_names(tree, git, all, max_packs, n) is Err ==> index_names(
            tree,
            git,
            all,
            max_packs,
            m,
        ) == index_names(tree, git, all, max_packs, n),
    decreases m,
{
    if n < m {
        lemma_index_names_persist(tree, git, all, max_packs, n, m - 1);
    }
}

proof fn lemma_collected_persists(
    tree: memory::Tree,
    git: Seq<u8>,
    names: Seq<Seq<u8>>,
    preferred: Option<Seq<u8>>,
    max_size: int,
    max_objects: int,
    n: int,
    m: int,
)
    requires
        0 <= n <= m,
    ensures
        collected(tree, git, names, preferred, max_size, max_objects, n) is Err ==> collected(
            tree,
            git,
            names,
            preferred,
            max_size,
            max_objects,
            m,
        ) == collected(tree, git, names, preferred, max_size, max_objects, n),
    decreases m,
{
    if n < m {
        lemma_collected_persists(tree, git, names, preferred, max_size, max_objects, n, m - 1);
    }
}

/// The name of a pack index, and of the pack beside it, is plain.
proof fn lemma_index_name_plain(name: Seq<u8>)
    requires
        multi_pack_index::pack_index_name(name),
    ensures
        path::plain(name),
        path::plain(storage::pack_name_of(name)),
        storage::pack_name_of(name).len() > 0,
{
    reveal_strlit("pack-");
    reveal_strlit(".idx");
    reveal_strlit("pack");
    bytes::lemma_ascii("pack-"@);
    bytes::lemma_ascii(".idx"@);
    bytes::lemma_ascii("pack"@);
    assert forall|i: int| 0 <= i < name.len() implies name[i] != 47 by {
        if i < 5 {
            assert(name.take(5)[i] == name[i]);
        } else if i < 45 {
            let digits = name.subrange(5, 45);
            assert(digits[i - 5] == name[i]);
            assert(object::hex_number(digits[i - 5]) is Some);
        } else {
            assert(name.skip(45)[i - 45] == name[i]);
        }
    }
    assert(name.take(5)[0] == name[0]);
    assert(name[0] == 112);
    path::lemma_plain_name(name);
    let other = storage::pack_name_of(name);
    assert(other[0] == 112);
    assert forall|i: int| 0 <= i < other.len() implies other[i] != 47 by {
        if i < 46 {
            assert(other[i] == name[i]);
        }
    }
    path::lemma_plain_name(other);
}

proof fn lemma_taken_up_size(
    selected: Map<Seq<u8>, Location>,
    list: Seq<PackRecord>,
    pack: u32,
    preferred: bool,
    k: int,
)
    requires
        selected.dom().finite(),
        0 <= k,
    ensures
        taken_up(selected, list, pack, preferred, k).dom().finite(),
        taken_up(selected, list, pack, preferred, k).dom().len() <= selected.dom().len() + k,
    decreases k,
{
    if k > 0 {
        lemma_taken_up_size(selected, list, pack, preferred, k - 1);
    }
}

/// No more locations are kept than records were seen.
proof fn lemma_collected_size(
    tree: memory::Tree,
    git: Seq<u8>,
    names: Seq<Seq<u8>>,
    preferred: Option<Seq<u8>>,
    max_size: int,
    max_objects: int,
    n: int,
)
    ensures
        match collected(tree, git, names, preferred, max_size, max_objects, n) {
            Ok((selected, total)) => selected.dom().finite() && selected.dom().len() <= total,
            Err(_) => true,
        },
    decreases n,
{
    if n > 0 {
        lemma_collected_size(tree, git, names, preferred, max_size, max_objects, n - 1);
        match collected(tree, git, names, preferred, max_size, max_objects, n) {
            Ok((selected, total)) => {
                let before = collected(
                    tree,
                    git,
                    names,
                    preferred,
                    max_size,
                    max_objects,
                    n - 1,
                )->Ok_0;
                let p = repository::joined(git, storage::pack_file(names[n - 1]));
                let list = pack::index_from(storage::read_at(tree, p)->Ok_0)->Ok_0.0;
                lemma_taken_up_size(
                    before.0,
                    list,
                    (n - 1) as u32,
                    preferred == Some(names[n - 1]),
                    list.len() as int,
                );
            },
            Err(_) => {},
        }
    }
}

proof fn lemma_list_size(selected: Map<Seq<u8>, Location>, list: Seq<Location>)
    requires
        lists(selected, list),
        selected.dom().finite(),
    ensures
        list.len() == selected.dom().len(),
{
    let ids = Seq::new(list.len(), |i: int| list[i].id);
    lemma_ids_ascend(list);
    assert forall|i: int, j: int| 0 <= i < j < ids.len() implies ids[i] != ids[j] by {
        assert(bytes::lex_lt(ids[i], ids[j]));
        bytes::lemma_lex_irreflexive(ids[i]);
    }
    assert(ids.no_duplicates());
    ids.unique_seq_to_set();
    assert(ids.to_set() =~= selected.dom()) by {
        assert forall|x: Seq<u8>| ids.to_set().contains(x) <==> selected.dom().contains(x) by {
            if ids.contains(x) {
                let k = ids.index_of(x);
                assert(selected.contains_key(list[k].id));
            }
            if selected.contains_key(x) {
                assert(list.contains(selected[x]));
                let k = list.index_of(selected[x]);
                assert(ids[k] == x);
            }
        }
    }
}

/// Whether the slots of a map hold what a model says.
spec fn holds(slots: ByteMap<MultiPackIndexEntry>, selected: Map<Seq<u8>, Location>) -> bool {
    &&& slots@.dom() =~= selected.dom()
    &&& forall|id: Seq<u8>| #[trigger]
        slots@.contains_key(id) ==> slots@[id]@ == selected[id] && selected[id].id == id
}

fn take_up(
    slots: &mut ByteMap<MultiPackIndexEntry>,
    index: &PackIndex,
    pack_position: u32,
    preferred: bool,
    Ghost(selected): Ghost<Map<Seq<u8>, Location>>,
)
    requires
        holds(*old(slots), selected),
    ensures
        holds(
            *final(slots),
            taken_up(
                selected,
                index.list(),
                pack_position,
                preferred,
                index.list().len() as int,
            ),
        ),
{
    let entries = index.entries();
    let ghost list = index.list();
    let mut k: usize = 0;
    while k < entries.len()
        invariant
            k <= entries@.len(),
            list == pack::records(entries@),
            list == index.list(),
            holds(*slots, taken_up(selected, list, pack_position, preferred, k as int)),
        decreases entries@.len() - k,
    {
        let entry = entries[k];
        assert(list[k as int] == entry@);
        let ghost before = taken_up(selected, list, pack_position, preferred, k as int);
        let key = bytes::to_vec(entry.id.as_bytes().as_slice());
        if preferred || !slots.contains(key.as_slice()) {
            let location = MultiPackIndexEntry::new(entry.id, pack_position, entry.offset);
            slots.insert(key, location);
        }
        proof {
            let after = taken_up(selected, list, pack_position, preferred, k + 1);
            assert forall|id: Seq<u8>| #[trigger] slots@.contains_key(id) implies slots@[id]@
                == after[id] && after[id].id == id by {
                if id != entry.id@ {
                    assert(before.contains_key(id));
                }
            }
            assert(slots@.dom() =~= after.dom());
        }
        k += 1;
    }
}

/// The values of a map in the order of its keys.
fn spread_out(slots: &ByteMap<MultiPackIndexEntry>, Ghost(selected): Ghost<
    Map<Seq<u8>, Location>,
>) -> (r: Vec<MultiPackIndexEntry>)
    requires
        holds(*slots, selected),
    ensures
        multi_pack_index::locations(r@) == spread(selected),
        selected.dom().finite() ==> r@.len() == selected.dom().len(),
{
    let mut entries: Vec<MultiPackIndexEntry> = Vec::new();
    let n: usize = slots.len();
    let ghost keys = slots.keys();
    let mut i: usize = 0;
    while i < n
        invariant
            i <= n,
            n == keys.len(),
            keys == slots.keys(),
            slots.wf(),
            entries@.len() == i,
            forall|k: int| 0 <= k < i ==> #[trigger] entries@[k] == slots.values()[k],
        decreases n - i,
    {
        entries.push(*slots.value_at(i));
        i += 1;
    }
    proof {
        let list = multi_pack_index::locations(entries@);
        let records = multi_pack_index::places(list);
        assert forall|k: int| 0 <= k < list.len() implies selected.contains_key(
            (#[trigger] list[k]).id,
        ) && selected[list[k].id] == list[k] && list[k].id == keys[k] by {
            crate::bytemap::lemma_assoc(keys, slots.values(), k);
            assert(slots@.contains_key(keys[k]));
        }
        assert forall|a: int, b: int| 0 <= a < b < records.len() implies #[trigger] pack::id_before(
            records[a],
            records[b],
        ) by {
            assert(list[a].id == keys[a] && list[b].id == keys[b]);
            assert(bytes::lex_lt(keys[a], keys[b]));
        }
        assert forall|id: Seq<u8>| #[trigger] selected.contains_key(id) implies list.contains(
            selected[id],
        ) && selected[id].id == id by {
            assert(slots@.dom().contains(id));
            assert(slots@.contains_key(id));
            let k = keys.index_of(id);
            assert(keys[k] == id);
            assert(list[k].id == id);
        }
        lemma_spread(selected, list);
        if selected.dom().finite() {
            lemma_list_size(selected, list);
        }
    }
    entries
}

/// What a name in the options says.
pub open spec fn preferred_name(options: MultiPackIndexOptions) -> Option<Seq<u8>> {
    match options.preferred_pack {
        Some(name) => Some(name@),
        None => None,
    }
}

/// The plan that options ask for.
pub open spec fn plan_for(
    tree: memory::Tree,
    git: Seq<u8>,
    options: MultiPackIndexOptions,
) -> core::result::Result<Plan, Refusal> {
    planned(
        tree,
        git,
        options.max_packs as int,
        preferred_name(options),
        options.max_pack_index_size as int,
        options.max_objects as int,
        options.max_file_size as int,
    )
}

/// What writing the index over all packs makes of the files, and what it
/// reports.
#[verifier::opaque]
pub open spec fn index_run(files: memory::Tree, git: Seq<u8>, options: MultiPackIndexOptions) -> (
    memory::Tree,
    core::result::Result<MultiPackIndexReport, Refusal>,
) {
    let p = repository::joined(git, midx_path());
    match plan_for(files, git, options) {
        Err(refusal) => (files, Err(refusal)),
        Ok(plan) => match memory::contents(files, p) {
            Err(fault) if !(fault is NotFound) => (files, Err(Refusal::At(fault, p))),
            present => {
                let changed = match present {
                    Ok(data) => options.force || data != plan.data,
                    Err(_) => true,
                };
                let report = MultiPackIndexReport {
                    packs: plan.names.len() as usize,
                    objects: plan.list.len() as usize,
                    duplicate_objects: (plan.total - plan.list.len()) as usize,
                    bytes: plan.data.len() as usize,
                    changed,
                };
                if changed && !options.dry_run {
                    let (after, refusal) = repository::replaced(files, p, plan.data);
                    match refusal {
                        Some(refusal) => (after, Err(refusal)),
                        None => (after, Ok(report)),
                    }
                } else {
                    (files, Ok(report))
                }
            },
        },
    }
}

impl Repository {
    /// Read and validate the repository's MIDX.
    pub fn read_multi_pack_index(
        &self,
        max_file_size: usize,
        max_packs: usize,
        max_objects: usize,
    ) -> (r: Result<MultiPackIndex>)
        ensures
            match storage::read_at(self.tree(), repository::joined(self.git(), midx_path())) {
                Err(refusal) => fs::declined(r, refusal),
                Ok(data) => if data.len() > max_file_size {
                    r is Err && r->Err_0 == (Error::ObjectTooLarge {
                        declared: data.len() as u64,
                        limit: max_file_size,
                    })
                } else {
                    match multi_pack_index::midx_from(data, max_packs as int, max_objects as int) {
                        Ok((names, list)) => r is Ok && r->Ok_0.names() == names && r->Ok_0.list()
                            == list,
                        Err(error) => r is Err && r->Err_0 == error,
                    }
                },
            },
    {
        proof {
            lemma_midx_path();
        }
        let data = self.read_git_file("objects/pack/multi-pack-index".as_bytes())?;
        if data.len() > max_file_size {
            return Err(
                Error::ObjectTooLarge { declared: data.len() as u64, limit: max_file_size },
            );
        }
        MultiPackIndex::parse(data.as_slice(), max_packs, max_objects)
    }

    /// Where the repository's MIDX says that an object stands: the pack index
    /// and the offset.
    pub fn midx_object_location(&self, id: ObjectId) -> (r: Result<Option<(Vec<u8>, u64)>>)
        ensures
            ({
                let p = repository::joined(self.git(), midx_path());
                if !self.tree().contains_key(p) {
                    r == Ok::<Option<(Vec<u8>, u64)>, Error>(None)
                } else if memory::metadata_of(self.tree()[p]).len > 1024 * 1024 * 1024 {
                    r is Err && r->Err_0 == (Error::ObjectTooLarge {
                        declared: memory::metadata_of(self.tree()[p]).len,
                        limit: 0x4000_0000,
                    })
                } else {
                    match storage::read_at(self.tree(), p) {
                        Err(refusal) => fs::declined(r, refusal),
                        Ok(data) => match multi_pack_index::midx_from(
                            data,
                            1_000_000,
                            100_000_000,
                        ) {
                            Err(error) => r is Err && r->Err_0 == error,
                            Ok((names, list)) => located(r, self.git(), names, list, id@),
                        },
                    }
                }
            }),
    {
        proof {
            lemma_midx_path();
        }
        let at = self.git_path("objects/pack/multi-pack-index".as_bytes());
        let metadata = match self.filesystem().metadata(at.as_slice()) {
            Ok(metadata) => metadata,
            Err(Error::NotFound(_)) => return Ok(None),
            Err(error) => return Err(error),
        };
        if metadata.len() > 1024 * 1024 * 1024 {
            return Err(
                Error::ObjectTooLarge { declared: metadata.len(), limit: 1024 * 1024 * 1024 },
            );
        }
        let data = match self.filesystem().read(at.as_slice()) {
            Ok(data) => data,
            Err(Error::NotFound(_)) => return Ok(None),
            Err(error) => return Err(error),
        };
        let midx = MultiPackIndex::parse(data.as_slice(), 1_000_000, 100_000_000)?;
        let entry = match midx.find(id) {
            Some(entry) => entry,
            None => return Ok(None),
        };
        let ghost k = midx.list().index_of(entry@);
        assert(midx.list()[k] == entry@);
        match midx.pack_name(entry.pack_index()) {
            None => Err(
                Error::InvalidRepository("invalid multi-pack-index: pack ID out of bounds"),
            ),
            Some(name) => {
                let mut relative = bytes::to_vec("objects/pack/".as_bytes());
                bytes::append(&mut relative, name.as_slice());
                Ok(Some((self.git_path(relative.as_slice()), entry.offset())))
            },
        }
    }

    fn pack_index_names(&self, max_packs: usize) -> (r: Result<Vec<Vec<u8>>>)
        ensures
            match storage::listed(
                self.tree(),
                repository::joined(self.git(), storage::pack_directory()),
            ) {
                Err(refusal) => fs::declined(r, refusal),
                Ok(all) => match index_names(
                    self.tree(),
                    self.git(),
                    all,
                    max_packs as int,
                    all.len() as int,
                ) {
                    Err(refusal) => fs::declined(r, refusal),
                    Ok(names) => r is Ok && bytes::deep(r->Ok_0@) == names && names_plain(names),
                },
            },
    {
        proof {
            storage::lemma_pack_directory();
        }
        let children = self.list_directory("objects/pack".as_bytes())?;
        let ghost all = bytes::deep(children@);
        let mut names: Vec<Vec<u8>> = Vec::new();
        let mut n: usize = 0;
        assert(bytes::deep(names@) =~= Seq::empty());
        while n < children.len()
            invariant
                n <= children@.len(),
                all == bytes::deep(children@),
                storage::listed(
                    self.tree(),
                    repository::joined(self.git(), storage::pack_directory()),
                ) == Ok::<Seq<Seq<u8>>, Refusal>(all),
                index_names(self.tree(), self.git(), all, max_packs as int, n as int) == Ok::<
                    Seq<Seq<u8>>,
                    Refusal,
                >(bytes::deep(names@)),
                names_plain(bytes::deep(names@)),
            decreases children@.len() - n,
        {
            proof {
                lemma_index_names_persist(
                    self.tree(),
                    self.git(),
                    all,
                    max_packs as int,
                    n + 1,
                    all.len() as int,
                );
            }
            let name = children[n].as_slice();
            assert(all[n as int] == name@);
            if bytes::text_of(name).is_none() {
                return Err(
                    Error::InvalidRepository(
                        "invalid multi-pack-index: non-UTF-8 pack index name",
                    ),
                );
            }
            if multi_pack_index::is_pack_index_name(name) {
                let mut relative = bytes::to_vec("objects/pack/".as_bytes());
                bytes::append(&mut relative, &name[0..46]);
                bytes::append(&mut relative, "pack".as_bytes());
                proof {
                    lemma_index_name_plain(name@);
                    assert(relative@ =~= storage::pack_file(storage::pack_name_of(name@)));
                    storage::lemma_pack_file(storage::pack_name_of(name@));
                }
                let beside = self.git_path(relative.as_slice());
                if !self.filesystem().is_present(beside.as_slice())? {
                    return Err(
                        Error::InvalidRepository(
                            "invalid multi-pack-index: pack index has no corresponding pack",
                        ),
                    );
                }
                let ghost before = bytes::deep(names@);
                if names.len() >= max_packs {
                    return Err(
                        Error::InvalidRepository(
                            "invalid multi-pack-index: pack count exceeds limit",
                        ),
                    );
                }
                names.push(bytes::to_vec(name));
                assert(bytes::deep(names@) =~= before.push(name@));
                assert(names_plain(before.push(name@)));
            }
            n += 1;
        }
        Ok(names)
    }

    fn collect_locations(&self, names: &Vec<Vec<u8>>, options: &MultiPackIndexOptions) -> (r: Result<
        (Vec<MultiPackIndexEntry>, usize),
    >)
        requires
            names_plain(bytes::deep(names@)),
        ensures
            match collected(
                self.tree(),
                self.git(),
                bytes::deep(names@),
                preferred_name(*options),
                options.max_pack_index_size as int,
                options.max_objects as int,
                names@.len() as int,
            ) {
                Err(refusal) => fs::declined(r, refusal),
                Ok((selected, total)) => {
                    &&& r is Ok
                    &&& multi_pack_index::locations(r->Ok_0.0@) == spread(selected)
                    &&& r->Ok_0.1 == total
                    &&& r->Ok_0.0@.len() <= total
                },
            },
    {
        let ghost all = bytes::deep(names@);
        let ghost preferred = preferred_name(*options);
        let ghost size = options.max_pack_index_size as int;
        let ghost objects = options.max_objects as int;
        let mut slots: ByteMap<MultiPackIndexEntry> = ByteMap::new();
        let mut total: usize = 0;
        let mut n: usize = 0;
        let ghost mut selected: Map<Seq<u8>, Location> = Map::empty();
        while n < names.len()
            invariant
                n <= names@.len(),
                all == bytes::deep(names@),
                names_plain(all),
                preferred == preferred_name(*options),
                size == options.max_pack_index_size as int,
                objects == options.max_objects as int,
                collected(
                    self.tree(),
                    self.git(),
                    all,
                    preferred,
                    size,
                    objects,
                    n as int,
                ) == Ok::<(Map<Seq<u8>, Location>, int), Refusal>((selected, total as int)),
                holds(slots, selected),
            decreases names@.len() - n,
        {
            proof {
                lemma_collected_persists(
                    self.tree(),
                    self.git(),
                    all,
                    preferred,
                    size,
                    objects,
                    n + 1,
                    all.len() as int,
                );
            }
            let name = names[n].as_slice();
            assert(all[n as int] == name@);
            let mut relative = bytes::to_vec("objects/pack/".as_bytes());
            bytes::append(&mut relative, name);
            proof {
                assert(path::plain(all[n as int]) && all[n as int].len() > 0);
                storage::lemma_pack_file(name@);
            }
            let at = self.git_path(relative.as_slice());
            let metadata = self.filesystem().metadata(at.as_slice())?;
            if metadata.len() > options.max_pack_index_size as u64 {
                return Err(
                    Error::ObjectTooLarge {
                        declared: metadata.len(),
                        limit: options.max_pack_index_size,
                    },
                );
            }
            let data = self.filesystem().read(at.as_slice())?;
            let index = PackIndex::parse(data.as_slice())?;
            let ghost list = index.list();
            let count: usize = index.entries().len();
            assert(count == list.len());
            if count > usize::MAX - total {
                return Err(
                    Error::InvalidRepository("invalid multi-pack-index: object count overflow"),
                );
            }
            if total + count > options.max_objects {
                return Err(
                    Error::InvalidRepository(
                        "invalid multi-pack-index: object count exceeds limit",
                    ),
                );
            }
            if count > 0 && n as u64 > u32::MAX as u64 {
                return Err(
                    Error::InvalidRepository("invalid multi-pack-index: pack count overflow"),
                );
            }
            let is_preferred: bool = match &options.preferred_pack {
                Some(wanted) => bytes::bytes_eq(wanted.as_slice(), name),
                None => false,
            };
            if count > 0 {
                take_up(&mut slots, &index, n as u32, is_preferred, Ghost(selected));
            }
            proof {
                selected = taken_up(selected, list, n as u32, is_preferred, list.len() as int);
            }
            total = total + count;
            n += 1;
        }
        proof {
            lemma_collected_size(
                self.tree(),
                self.git(),
                all,
                preferred,
                size,
                objects,
                all.len() as int,
            );
        }
        let entries = spread_out(&slots, Ghost(selected));
        Ok((entries, total))
    }

    /// Index every valid `pack-*.idx` in `objects/pack`.
    ///
    /// Duplicate object IDs are represented once. An explicit preferred pack
    /// wins; otherwise the lexicographically first pack provides the location.
    pub fn write_multi_pack_index(&mut self, options: &MultiPackIndexOptions) -> (r: Result<
        MultiPackIndexReport,
    >)
        ensures
            final(self).git() == old(self).git(),
            final(self).work() == old(self).work(),
            ({
                let (after, outcome) = index_run(old(self).tree(), old(self).git(), *options);
                &&& final(self).tree() == after
                &&& match outcome {
                    Ok(report) => r == Ok::<MultiPackIndexReport, Error>(report),
                    Err(refusal) => fs::declined(r, refusal),
                }
            }),
    {
        proof {
            lemma_midx_path();
            reveal(planned);
            reveal(index_run);
        }
        let names = self.pack_index_names(options.max_packs)?;
        if names.len() == 0 {
            return Err(
                Error::InvalidRepository("invalid multi-pack-index: no pack files to index"),
            );
        }
        if let Some(preferred) = &options.preferred_pack {
            if !holds_name(&names, preferred.as_slice()) {
                return Err(
                    Error::InvalidRepository(
                        "invalid multi-pack-index: preferred pack is not present",
                    ),
                );
            }
        }
        let (entries, total) = self.collect_locations(&names, options)?;
        if entries.len() == 0 {
            return Err(
                Error::InvalidRepository("invalid multi-pack-index: pack files contain no objects"),
            );
        }
        if entries.len() as u64 > u32::MAX as u64 {
            return Err(Error::InvalidRepository("invalid multi-pack-index: object count overflow"));
        }
        let data = multi_pack_index::encode(names.as_slice(), entries.as_slice())?;
        if data.len() > options.max_file_size {
            return Err(
                Error::ObjectTooLarge {
                    declared: data.len() as u64,
                    limit: options.max_file_size,
                },
            );
        }
        let same: bool = match self.read_git_file("objects/pack/multi-pack-index".as_bytes()) {
            Ok(present) => bytes::bytes_eq(present.as_slice(), data.as_slice()),
            Err(Error::NotFound(_)) => false,
            Err(error) => return Err(error),
        };
        let changed: bool = options.force || !same;
        if changed && !options.dry_run {
            self.write_atomic("objects/pack/multi-pack-index".as_bytes(), data.as_slice())?;
        }
        proof {
            let plan = plan_for(old(self).tree(), old(self).git(), *options)->Ok_0;
            assert(plan.list == multi_pack_index::locations(entries@));
        }
        let duplicate_objects: usize = total - entries.len();
        Ok(
            MultiPackIndexReport {
                packs: names.len(),
                objects: entries.len(),
                duplicate_objects,
                bytes: data.len(),
                changed,
            },
        )
    }
}

/// Whether every name can stand in the pack directory.
pub open spec fn names_plain(names: Seq<Seq<u8>>) -> bool {
    forall|i: int| 0 <= i < names.len() ==> path::plain(#[trigger] names[i]) && names[i].len() > 0
}

/// Whether a result is where a multi-pack index says that an object stands.
pub open spec fn located(
    r: Result<Option<(Vec<u8>, u64)>>,
    git: Seq<u8>,
    names: Seq<Seq<u8>>,
    list: Seq<Location>,
    id: Seq<u8>,
) -> bool {
    match r {
        Ok(None) => forall|k: int| 0 <= k < list.len() ==> (#[trigger] list[k]).id != id,
        Ok(Some((p, offset))) => exists|k: int|
            0 <= k < list.len() && (#[trigger] list[k]).id == id && list[k].offset == offset
                && list[k].pack < names.len() && p@ == repository::joined(
                git,
                storage::pack_file(names[list[k].pack as int]),
            ),
        Err(error) => error == Error::InvalidRepository(
            "invalid multi-pack-index: pack ID out of bounds",
        ) && exists|k: int|
            0 <= k < list.len() && (#[trigger] list[k]).id == id && list[k].pack >= names.len(),
    }
}

fn holds_name(names: &Vec<Vec<u8>>, name: &[u8]) -> (r: bool)
    ensures
        r == bytes::deep(names@).contains(name@),
{
    let ghost all = bytes::deep(names@);
    let mut i: usize = 0;
    while i < names.len()
        invariant
            i <= names@.len(),
            all == bytes::deep(names@),
            forall|j: int| 0 <= j < i ==> #[trigger] all[j] != name@,
        decreases names@.len() - i,
    {
        assert(all[i as int] == names@[i as int]@);
        if bytes::bytes_eq(names[i].as_slice(), name) {
            return true;
        }
        i += 1;
    }
    false
}

// ---------------------------------------------------------------------------
// Writing twice

/// Where the multi-pack index stands.
pub proof fn lemma_midx_place(git: Seq<u8>)
    ensures
        ({
            let p = repository::joined(git, midx_path());
            let name = bytes::utf8("multi-pack-index"@);
            &&& memory::parent_of(p) == repository::joined(git, storage::pack_directory())
            &&& memory::name_of(p) == name
            &&& name.len() == 16
            &&& midx_path().len() == 29
            &&& p.len() > 0
            &&& p != memory::parent_of(p)
            &&& memory::last_slash(p) > 0
            &&& memory::parent_of(p).len() > 1
            &&& vstd::utf8::valid_utf8(name)
        }),
{
    reveal_strlit("objects/pack/multi-pack-index");
    reveal_strlit("objects/pack");
    reveal_strlit("multi-pack-index");
    bytes::lemma_ascii("objects/pack/multi-pack-index"@);
    bytes::lemma_ascii("objects/pack"@);
    bytes::lemma_ascii("multi-pack-index"@);
    vstd::utf8::encode_utf8_valid_utf8("multi-pack-index"@);
    let p = repository::joined(git, midx_path());
    let name = bytes::utf8("multi-pack-index"@);
    let dir = storage::pack_directory();
    assert(midx_path() =~= dir.push(47) + name);
    assert(p =~= repository::joined(git, dir).push(47) + name);
    assert forall|i: int| 0 <= i < name.len() implies name[i] != 47 by {}
    let n = repository::joined(git, dir).len() as int;
    memory::lemma_last_slash(p);
    let at = memory::last_slash(p);
    assert(p[n] == 47);
    if at > n {
        assert(p[at] == name[at - n - 1]);
    }
    assert(memory::parent_of(p) =~= repository::joined(git, dir));
    assert(memory::name_of(p) =~= name);
}

/// Files named after a pack stand elsewhere than the multi-pack index.
proof fn lemma_apart(git: Seq<u8>, name: Seq<u8>)
    requires
        multi_pack_index::pack_index_name(name),
    ensures
        repository::joined(git, storage::pack_file(name)) != repository::joined(git, midx_path()),
        pack_beside(git, name) != repository::joined(git, midx_path()),
{
    lemma_midx_place(git);
    reveal_strlit("objects/pack/");
    bytes::lemma_ascii("objects/pack/"@);
    reveal_strlit("pack");
    bytes::lemma_ascii("pack"@);
    assert(storage::pack_file(name).len() == 62);
    assert(storage::pack_file(storage::pack_name_of(name)).len() == 63);
}

proof fn lemma_index_names_sound(
    tree: memory::Tree,
    git: Seq<u8>,
    all: Seq<Seq<u8>>,
    max_packs: int,
    n: int,
)
    requires
        0 <= n <= all.len(),
        index_names(tree, git, all, max_packs, n) is Ok,
    ensures
        ({
            let names = index_names(tree, git, all, max_packs, n)->Ok_0;
            forall|i: int|
                0 <= i < names.len() ==> multi_pack_index::pack_index_name(#[trigger] names[i])
        }),
    decreases n,
{
    if n > 0 {
        lemma_index_names_sound(tree, git, all, max_packs, n - 1);
    }
}

/// A name that belongs to no pack, put anywhere among others, leaves the pack
/// indexes that are found.
proof fn lemma_index_names_skip(
    tree: memory::Tree,
    after: memory::Tree,
    git: Seq<u8>,
    all: Seq<Seq<u8>>,
    more: Seq<Seq<u8>>,
    k: int,
    max_packs: int,
    n: int,
)
    requires
        0 <= k < more.len(),
        more.remove(k) == all,
        vstd::utf8::valid_utf8(more[k]),
        !multi_pack_index::pack_index_name(more[k]),
        0 <= n <= more.len(),
        forall|name: Seq<u8>|
            #![trigger pack_beside(git, name)]
            multi_pack_index::pack_index_name(name) ==> tree.contains_key(pack_beside(git, name))
                == after.contains_key(pack_beside(git, name)),
    ensures
        index_names(after, git, more, max_packs, n) == index_names(
            tree,
            git,
            all,
            max_packs,
            if n <= k {
                n
            } else {
                n - 1
            },
        ),
    decreases n,
{
    if n > 0 {
        lemma_index_names_skip(tree, after, git, all, more, k, max_packs, n - 1);
        if n - 1 < k {
            assert(more[n - 1] == all[n - 1]);
        } else if n - 1 > k {
            assert(more[n - 1] == all[n - 2]);
        }
    }
}

proof fn lemma_index_names_same(
    tree: memory::Tree,
    after: memory::Tree,
    git: Seq<u8>,
    all: Seq<Seq<u8>>,
    max_packs: int,
    n: int,
)
    requires
        0 <= n <= all.len(),
        forall|name: Seq<u8>|
            #![trigger pack_beside(git, name)]
            multi_pack_index::pack_index_name(name) ==> tree.contains_key(pack_beside(git, name))
                == after.contains_key(pack_beside(git, name)),
    ensures
        index_names(after, git, all, max_packs, n) == index_names(tree, git, all, max_packs, n),
    decreases n,
{
    if n > 0 {
        lemma_index_names_same(tree, after, git, all, max_packs, n - 1);
    }
}

proof fn lemma_collected_same(
    tree: memory::Tree,
    after: memory::Tree,
    git: Seq<u8>,
    names: Seq<Seq<u8>>,
    preferred: Option<Seq<u8>>,
    max_size: int,
    max_objects: int,
    n: int,
)
    requires
        0 <= n <= names.len(),
        forall|i: int|
            0 <= i < names.len() ==> ({
                let p = repository::joined(git, storage::pack_file(#[trigger] names[i]));
                tree.contains_key(p) == after.contains_key(p) && (tree.contains_key(p) ==> tree[p]
                    == after[p])
            }),
    ensures
        collected(after, git, names, preferred, max_size, max_objects, n) == collected(
            tree,
            git,
            names,
            preferred,
            max_size,
            max_objects,
            n,
        ),
    decreases n,
{
    if n > 0 {
        lemma_collected_same(
            tree,
            after,
            git,
            names,
            preferred,
            max_size,
            max_objects,
            n - 1,
        );
        let p = repository::joined(git, storage::pack_file(names[n - 1]));
        assert(tree.contains_key(p) == after.contains_key(p));
    }
}

proof fn lemma_children_grow(tree: memory::Tree, after: memory::Tree, dir: Seq<u8>, p: Seq<u8>) -> (k:
    int)
    requires
        tree.dom().finite(),
        p.len() > 0,
        !tree.contains_key(p),
        memory::parent_of(p) == dir,
        after.dom() == tree.dom().insert(p),
        forall|q: Seq<u8>|
            #![trigger memory::is_child(tree, dir, q)]
            memory::is_child(tree, dir, q) ==> memory::name_of(q) != memory::name_of(p),
    ensures
        0 <= k < storage::children(after, dir).len(),
        storage::children(after, dir)[k] == memory::name_of(p),
        storage::children(after, dir).remove(k) == storage::children(tree, dir),
{
    let all = storage::children(tree, dir);
    let more = storage::children(after, dir);
    let name = memory::name_of(p);
    storage::lemma_children_exist(tree, dir);
    storage::lemma_children_exist(after, dir);
    assert(memory::is_child(after, dir, p));
    assert(more.contains(name));
    let k = more.index_of(name);
    let rest = more.remove(k);
    assert(crate::bytemap::ascending(rest)) by {
        assert forall|i: int, j: int| 0 <= i < j < rest.len() implies #[trigger] bytes::lex_lt(
            rest[i],
            rest[j],
        ) by {
            let a = if i < k { i } else { i + 1 };
            let b = if j < k { j } else { j + 1 };
            assert(bytes::lex_lt(more[a], more[b]));
        }
    }
    assert forall|x: Seq<u8>| rest.contains(x) <==> all.contains(x) by {
        if rest.contains(x) {
            let i = rest.index_of(x);
            let a = if i < k { i } else { i + 1 };
            assert(more[a] == x);
            assert(memory::has_child(after, dir, more[a]));
            let q = choose|q: Seq<u8>| #[trigger]
                memory::is_child(after, dir, q) && memory::name_of(q) == x;
            bytes::lemma_lex_irreflexive(name);
            if a < k {
                assert(bytes::lex_lt(more[a], more[k]));
            } else {
                assert(bytes::lex_lt(more[k], more[a]));
            }
            assert(q != p);
            assert(memory::is_child(tree, dir, q));
        }
        if all.contains(x) {
            let i = all.index_of(x);
            assert(memory::has_child(tree, dir, all[i]));
            let q = choose|q: Seq<u8>| #[trigger]
                memory::is_child(tree, dir, q) && memory::name_of(q) == x;
            assert(memory::is_child(after, dir, q));
            assert(more.contains(x));
            let a = more.index_of(x);
            assert(a != k);
            let i = if a < k { a } else { a - 1 };
            assert(rest[i] == x);
        }
    }
    order::lemma_ascending_same(rest, all);
    k
}

proof fn lemma_names_survive(tree: memory::Tree, git: Seq<u8>, node: memory::Node, max: int)
    requires
        tree.dom().finite(),
    ensures
        ({
            let dir = repository::joined(git, storage::pack_directory());
            let after = tree.insert(repository::joined(git, midx_path()), node);
            let all = storage::children(tree, dir);
            let more = storage::children(after, dir);
            index_names(after, git, more, max, more.len() as int) == index_names(
                tree,
                git,
                all,
                max,
                all.len() as int,
            )
        }),
{
    let p = repository::joined(git, midx_path());
    let dir = repository::joined(git, storage::pack_directory());
    let after = tree.insert(p, node);
    lemma_midx_place(git);
    let all = storage::children(tree, dir);
    let more = storage::children(after, dir);
    assert forall|name: Seq<u8>| multi_pack_index::pack_index_name(name) implies tree.contains_key(
        #[trigger] pack_beside(git, name),
    ) == after.contains_key(pack_beside(git, name)) by {
        lemma_apart(git, name);
    }
    if tree.contains_key(p) {
        storage::lemma_children_exist(tree, dir);
        lemma_children_same(tree, after, dir);
        lemma_index_names_same(tree, after, git, all, max, all.len() as int);
    } else {
        assert(after.dom() =~= tree.dom().insert(p));
        assert forall|q: Seq<u8>| #[trigger] memory::is_child(tree, dir, q) implies memory::name_of(q)
            != memory::name_of(p) by {
            if memory::name_of(q) == memory::name_of(p) {
                lemma_same_place(p, q);
            }
        }
        let k = lemma_children_grow(tree, after, dir, p);
        lemma_index_names_skip(tree, after, git, all, more, k, max, more.len() as int);
    }
}

/// The multi-pack index that stands does not change what is to be written.
pub proof fn lemma_plan_survives(
    tree: memory::Tree,
    git: Seq<u8>,
    options: MultiPackIndexOptions,
    node: memory::Node,
)
    requires
        tree.dom().finite(),
        plan_for(tree, git, options) is Ok,
    ensures
        plan_for(tree.insert(repository::joined(git, midx_path()), node), git, options)
            == plan_for(tree, git, options),
{
    reveal(planned);
    let p = repository::joined(git, midx_path());
    let dir = repository::joined(git, storage::pack_directory());
    let after = tree.insert(p, node);
    let max = options.max_packs as int;
    lemma_names_survive(tree, git, node, max);
    lemma_midx_place(git);
    assert(after.contains_key(dir) && after[dir] == tree[dir]);
    let all = storage::children(tree, dir);
    let names = index_names(tree, git, all, max, all.len() as int)->Ok_0;
    lemma_index_names_sound(tree, git, all, max, all.len() as int);
    assert forall|i: int| 0 <= i < names.len() implies ({
        let q = repository::joined(git, storage::pack_file(#[trigger] names[i]));
        tree.contains_key(q) == after.contains_key(q) && (tree.contains_key(q) ==> tree[q]
            == after[q])
    }) by {
        lemma_apart(git, names[i]);
    }
    lemma_collected_same(
        tree,
        after,
        git,
        names,
        preferred_name(options),
        options.max_pack_index_size as int,
        options.max_objects as int,
        names.len() as int,
    );
}

proof fn lemma_children_same(tree: memory::Tree, after: memory::Tree, dir: Seq<u8>)
    requires
        memory::lists_children(tree, dir, storage::children(tree, dir)),
        forall|q: Seq<u8>|
            #![trigger memory::is_child(tree, dir, q)]
            #![trigger memory::is_child(after, dir, q)]
            memory::is_child(after, dir, q) == memory::is_child(tree, dir, q),
    ensures
        storage::children(after, dir) == storage::children(tree, dir),
{
    let all = storage::children(tree, dir);
    assert forall|i: int| 0 <= i < all.len() implies memory::has_child(
        after,
        dir,
        #[trigger] all[i],
    ) by {
        assert(memory::has_child(tree, dir, all[i]));
        let q = choose|q: Seq<u8>| #[trigger]
            memory::is_child(tree, dir, q) && memory::name_of(q) == all[i];
        assert(memory::is_child(after, dir, q));
    }
    assert(memory::lists_children(after, dir, all));
    storage::lemma_children(after, dir, all);
}

/// Two paths in one directory with one name are the same.
proof fn lemma_same_place(p: Seq<u8>, q: Seq<u8>)
    requires
        memory::parent_of(p) == memory::parent_of(q),
        memory::name_of(p) == memory::name_of(q),
        memory::last_slash(p) > 0,
        memory::parent_of(p) != seq![47u8],
        memory::parent_of(p).len() > 0,
    ensures
        p == q,
{
    memory::lemma_last_slash(p);
    memory::lemma_last_slash(q);
    let a = memory::last_slash(p);
    let b = memory::last_slash(q);
    assert(p.take(a).len() == a);
    assert(a == b);
    assert(p =~= p.take(a).push(47) + p.skip(a + 1));
    assert(q =~= q.take(b).push(47) + q.skip(b + 1));
}

/// Writing the index over all packs a second time finds it as it is to be and
/// changes nothing.
pub proof fn lemma_second_index_changes_nothing(
    files: memory::Tree,
    git: Seq<u8>,
    options: MultiPackIndexOptions,
)
    requires
        files.dom().finite(),
        memory::with_directories(
            files,
            repository::joined(git, storage::pack_directory()),
            0,
        ).0 == files,
        !options.force,
        !options.dry_run,
        index_run(files, git, options).1 is Ok,
    ensures
        ({
            let (after, outcome) = index_run(files, git, options);
            index_run(after, git, options) == (
                after,
                Ok::<MultiPackIndexReport, Refusal>(
                    MultiPackIndexReport { changed: false, ..outcome->Ok_0 },
                ),
            )
        }),
{
    reveal(index_run);
    let (after, outcome) = index_run(files, git, options);
    let p = repository::joined(git, midx_path());
    let plan = plan_for(files, git, options)->Ok_0;
    lemma_midx_place(git);
    if (outcome->Ok_0).changed {
        let node = memory::file(plan.data, false);
        assert(after == files.insert(p, node));
        lemma_plan_survives(files, git, options, node);
    }
}

// ---------------------------------------------------------------------------
// Which pack an object is found in

/// The records of the pack index of a name.
pub open spec fn records_of(tree: memory::Tree, git: Seq<u8>, name: Seq<u8>) -> Seq<PackRecord> {
    (pack::index_from(
        storage::read_at(tree, repository::joined(git, storage::pack_file(name)))->Ok_0,
    )->Ok_0).0
}

/// Whether some records place an object at an offset.
pub open spec fn offers(list: Seq<PackRecord>, id: Seq<u8>, offset: u64) -> bool {
    exists|m: int| 0 <= m < list.len() && (#[trigger] list[m]).id == id && list[m].offset == offset
}

/// Whether a location is in the pack that has to provide it: the preferred one
/// where it has the object, or else the first that has it.
pub open spec fn in_place(
    tree: memory::Tree,
    git: Seq<u8>,
    names: Seq<Seq<u8>>,
    preferred: Option<Seq<u8>>,
    at: Location,
    n: int,
) -> bool {
    let i = at.pack as int;
    &&& 0 <= i < n
    &&& offers(records_of(tree, git, names[i]), at.id, at.offset)
    &&& preferred == Some(names[i]) || {
        &&& forall|j: int|
            0 <= j < i ==> !pack::names(records_of(tree, git, #[trigger] names[j]), at.id)
        &&& forall|j: int|
            0 <= j < n && preferred == Some(#[trigger] names[j]) ==> !pack::names(
                records_of(tree, git, names[j]),
                at.id,
            )
    }
}

proof fn lemma_taken_up(
    selected: Map<Seq<u8>, Location>,
    list: Seq<PackRecord>,
    pack: u32,
    preferred: bool,
    k: int,
)
    requires
        0 <= k <= list.len(),
    ensures
        forall|id: Seq<u8>| #[trigger]
            taken_up(selected, list, pack, preferred, k).contains_key(id) <==> selected.contains_key(
                id,
            ) || pack::names(list.take(k), id),
        forall|id: Seq<u8>| #[trigger]
            taken_up(selected, list, pack, preferred, k).contains_key(id) ==> ({
                let at = taken_up(selected, list, pack, preferred, k)[id];
                if pack::names(list.take(k), id) && (preferred || !selected.contains_key(id)) {
                    at.id == id && at.pack == pack && offers(list, id, at.offset)
                } else {
                    at == selected[id]
                }
            }),
        selected.dom().finite() ==> taken_up(selected, list, pack, preferred, k).dom().finite(),
    decreases k,
{
    if k > 0 {
        lemma_taken_up(selected, list, pack, preferred, k - 1);
        let before = taken_up(selected, list, pack, preferred, k - 1);
        let after = taken_up(selected, list, pack, preferred, k);
        let record = list[k - 1];
        assert(list.take(k)[k - 1] == record);
        assert forall|id: Seq<u8>| #[trigger] pack::names(list.take(k), id) <==> pack::names(
            list.take(k - 1),
            id,
        ) || id == record.id by {
            if pack::names(list.take(k - 1), id) {
                let m = choose|m: int|
                    0 <= m < list.take(k - 1).len() && (#[trigger] list.take(k - 1)[m]).id == id;
                assert(list.take(k)[m].id == id);
            }
            if pack::names(list.take(k), id) {
                let m = choose|m: int|
                    0 <= m < list.take(k).len() && (#[trigger] list.take(k)[m]).id == id;
                if m < k - 1 {
                    assert(list.take(k - 1)[m].id == id);
                }
            }
        }
        assert(offers(list, record.id, record.offset));
        assert(pack::names(list.take(k), record.id));
        assert forall|id: Seq<u8>| #[trigger] after.contains_key(id) <==> selected.contains_key(id)
            || pack::names(list.take(k), id) by {
            assert(before.contains_key(id) <==> selected.contains_key(id) || pack::names(
                list.take(k - 1),
                id,
            ));
        }
        assert forall|id: Seq<u8>| #[trigger] after.contains_key(id) implies ({
            let at = after[id];
            if pack::names(list.take(k), id) && (preferred || !selected.contains_key(id)) {
                at.id == id && at.pack == pack && offers(list, id, at.offset)
            } else {
                at == selected[id]
            }
        }) by {
            assert(pack::names(list.take(k), id) <==> pack::names(list.take(k - 1), id) || id
                == record.id);
            if id != record.id {
                assert(before.contains_key(id));
            } else if before.contains_key(id) && !preferred {
                assert(after[id] == before[id]);
            }
        }
    } else {
        assert forall|id: Seq<u8>| !#[trigger] pack::names(list.take(0), id) by {}
    }
}

proof fn lemma_collected_places(
    tree: memory::Tree,
    git: Seq<u8>,
    names: Seq<Seq<u8>>,
    preferred: Option<Seq<u8>>,
    max_size: int,
    max_objects: int,
    n: int,
)
    requires
        0 <= n <= names.len() <= u32::MAX,
        collected(tree, git, names, preferred, max_size, max_objects, n) is Ok,
    ensures
        ({
            let selected = (collected(
                tree,
                git,
                names,
                preferred,
                max_size,
                max_objects,
                n,
            )->Ok_0).0;
            &&& forall|id: Seq<u8>| #[trigger]
                selected.contains_key(id) ==> selected[id].id == id && in_place(
                    tree,
                    git,
                    names,
                    preferred,
                    selected[id],
                    n,
                )
            &&& forall|i: int, id: Seq<u8>|
                0 <= i < n && #[trigger] pack::names(records_of(tree, git, names[i]), id)
                    ==> selected.contains_key(id)
            &&& selected.dom().finite()
        }),
    decreases n,
{
    if n > 0 {
        lemma_collected_places(tree, git, names, preferred, max_size, max_objects, n - 1);
        let before = (collected(
            tree,
            git,
            names,
            preferred,
            max_size,
            max_objects,
            n - 1,
        )->Ok_0).0;
        let selected = (collected(
            tree,
            git,
            names,
            preferred,
            max_size,
            max_objects,
            n,
        )->Ok_0).0;
        let list = records_of(tree, git, names[n - 1]);
        let k = list.len() as int;
        let first = preferred == Some(names[n - 1]);
        lemma_taken_up(before, list, (n - 1) as u32, first, k);
        assert(list.take(k) =~= list);
        assert(selected == taken_up(before, list, (n - 1) as u32, first, k));
        assert forall|id: Seq<u8>| #[trigger] selected.contains_key(id) implies selected[id].id == id
            && in_place(tree, git, names, preferred, selected[id], n) by {
            let at = selected[id];
            if pack::names(list, id) && (first || !before.contains_key(id)) {
                if !first {
                    assert forall|j: int| 0 <= j < n - 1 implies !pack::names(
                        records_of(tree, git, #[trigger] names[j]),
                        id,
                    ) by {
                        if pack::names(records_of(tree, git, names[j]), id) {
                            assert(before.contains_key(id));
                        }
                    }
                }
            } else {
                assert(before.contains_key(id));
                assert(in_place(tree, git, names, preferred, before[id], n - 1));
            }
        }
        assert forall|i: int, id: Seq<u8>|
            0 <= i < n && #[trigger] pack::names(
                records_of(tree, git, names[i]),
                id,
            ) implies selected.contains_key(id) by {
            if i < n - 1 {
                assert(before.contains_key(id));
            }
        }
    }
}

proof fn lemma_spread_exists(selected: Map<Seq<u8>, Location>)
    requires
        selected.dom().finite(),
        forall|id: Seq<u8>| #[trigger] selected.contains_key(id) ==> selected[id].id == id,
    ensures
        lists(selected, spread(selected)),
{
    crate::id_set::lemma_sorted_exists(selected.dom());
    let ids = crate::id_set::sorted(selected.dom());
    let list = Seq::new(ids.len(), |i: int| selected[ids[i]]);
    assert forall|i: int| 0 <= i < ids.len() implies selected.contains_key(#[trigger] ids[i]) by {
        assert(ids.to_set().contains(ids[i]));
    }
    let records = multi_pack_index::places(list);
    assert forall|i: int, j: int| 0 <= i < j < records.len() implies #[trigger] pack::id_before(
        records[i],
        records[j],
    ) by {
        assert(list[i].id == ids[i] && list[j].id == ids[j]);
        assert(bytes::lex_lt(ids[i], ids[j]));
    }
    assert forall|id: Seq<u8>| #[trigger] selected.contains_key(id) implies list.contains(
        selected[id],
    ) && selected[id].id == id by {
        assert(ids.to_set().contains(id));
        let k = ids.index_of(id);
        assert(list[k] == selected[id]);
    }
    assert forall|k: int| 0 <= k < list.len() implies selected.contains_key((#[trigger] list[k]).id)
        && selected[list[k].id] == list[k] by {
        assert(selected.contains_key(ids[k]));
    }
    assert(lists(selected, list));
}

/// The index over all packs finds every object of a pack, and finds it in the
/// preferred pack where that one has it, or else in the first pack that does.
pub proof fn lemma_preferred_pack_provides(
    tree: memory::Tree,
    git: Seq<u8>,
    options: MultiPackIndexOptions,
)
    requires
        plan_for(tree, git, options) is Ok,
    ensures
        ({
            let plan = plan_for(tree, git, options)->Ok_0;
            &&& forall|k: int|
                0 <= k < plan.list.len() ==> in_place(
                    tree,
                    git,
                    plan.names,
                    preferred_name(options),
                    #[trigger] plan.list[k],
                    plan.names.len() as int,
                )
            &&& forall|i: int, id: Seq<u8>|
                0 <= i < plan.names.len() && #[trigger] pack::names(
                    records_of(tree, git, plan.names[i]),
                    id,
                ) ==> exists|k: int|
                    0 <= k < plan.list.len() && (#[trigger] plan.list[k]).id == id
        }),
{
    reveal(planned);
    let plan = plan_for(tree, git, options)->Ok_0;
    let names = plan.names;
    let n = names.len() as int;
    let size = options.max_pack_index_size as int;
    let most = options.max_objects as int;
    let preferred = preferred_name(options);
    lemma_collected_places(tree, git, names, preferred, size, most, n);
    let selected = (collected(tree, git, names, preferred, size, most, n)->Ok_0).0;
    lemma_spread_exists(selected);
    assert forall|k: int| 0 <= k < plan.list.len() implies in_place(
        tree,
        git,
        names,
        preferred,
        #[trigger] plan.list[k],
        n,
    ) by {
        assert(selected.contains_key(plan.list[k].id));
    }
    assert forall|i: int, id: Seq<u8>|
        0 <= i < names.len() && #[trigger] pack::names(
            records_of(tree, git, names[i]),
            id,
        ) implies exists|k: int| 0 <= k < plan.list.len() && (#[trigger] plan.list[k]).id == id by {
        assert(selected.contains_key(id));
        assert(plan.list.contains(selected[id]));
        let k = plan.list.index_of(selected[id]);
        assert(plan.list[k].id == id);
    }
}

} // verus!
