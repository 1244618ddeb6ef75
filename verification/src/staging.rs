//! The index while conflicts stand in it, and the tree of a settled index.

use vstd::prelude::*;

use crate::bytemap;
use crate::bytemap::ByteMap;
use crate::bytes;
use crate::flat_tree;
use crate::flat_tree::{Conflict, ConflictModel, ConflictStage, FlatTree, MergeEntry, StageModel};
use crate::fs;
use crate::fs::memory;
use crate::fs::Refusal;
use crate::id_set;
use crate::index;
use crate::index::{Index, IndexEntry, StatData};
use crate::object;
use crate::object::ObjectId;
use crate::operations;
use crate::repository;
use crate::repository::Repository;
use crate::storage;
use crate::write_tree;
use crate::{Error, Result};

verus! {

// ---------------------------------------------------------------------------
// Putting conflicts in the index

/// A set of paths with those of the first `n` sides.
pub open spec fn with_sides(set: Set<Seq<u8>>, list: Seq<StageModel>, n: int) -> Set<Seq<u8>>
    decreases n,
{
    if n <= 0 {
        set
    } else {
        with_sides(set, list, n - 1).insert(list[n - 1].path)
    }
}

/// A set of paths with the first `n` that a conflict shows.
pub open spec fn with_shown(set: Set<Seq<u8>>, list: Seq<(Seq<u8>, MergeEntry)>, n: int) -> Set<
    Seq<u8>,
>
    decreases n,
{
    if n <= 0 {
        set
    } else {
        with_shown(set, list, n - 1).insert(list[n - 1].0)
    }
}

/// The paths that the first `n` conflicts are about: those of their sides and
/// those that they show.
pub open spec fn paths_before(list: Seq<ConflictModel>, n: int) -> Set<Seq<u8>>
    decreases n,
{
    if n <= 0 {
        Set::empty()
    } else {
        let c = list[n - 1];
        with_shown(
            with_sides(paths_before(list, n - 1), c.stages, c.stages.len() as int),
            c.working,
            c.working.len() as int,
        )
    }
}

/// The paths that some conflicts are about.
pub open spec fn conflict_paths(list: Seq<ConflictModel>) -> Set<Seq<u8>> {
    paths_before(list, list.len() as int)
}

/// The first `n` entries of an index whose paths are outside a set.
pub open spec fn outside(list: Seq<index::EntryModel>, set: Set<Seq<u8>>, n: int) -> Seq<
    index::EntryModel,
>
    decreases n,
{
    if n <= 0 {
        Seq::empty()
    } else if set.contains(list[n - 1].path) {
        outside(list, set, n - 1)
    } else {
        outside(list, set, n - 1).push(list[n - 1])
    }
}

/// Some entries followed by those of the first `n` sides of a conflict.
pub open spec fn with_staged(before: Seq<index::EntryModel>, list: Seq<StageModel>, n: int) -> core::result::Result<
    Seq<index::EntryModel>,
    Error,
>
    decreases n,
{
    if n <= 0 {
        Ok(before)
    } else {
        match with_staged(before, list, n - 1) {
            Err(error) => Err(error),
            Ok(entries) => {
                let s = list[n - 1];
                match index::staged(s.path, s.entry.mode, s.entry.id@, index::no_stat(), s.stage) {
                    Err(error) => Err(error),
                    Ok(entry) => Ok(entries.push(entry)),
                }
            },
        }
    }
}

/// Some entries followed by those of the sides of the first `n` conflicts.
pub open spec fn all_staged(before: Seq<index::EntryModel>, list: Seq<ConflictModel>, n: int) -> core::result::Result<
    Seq<index::EntryModel>,
    Error,
>
    decreases n,
{
    if n <= 0 {
        Ok(before)
    } else {
        match all_staged(before, list, n - 1) {
            Err(error) => Err(error),
            Ok(entries) => with_staged(
                entries,
                list[n - 1].stages,
                list[n - 1].stages.len() as int,
            ),
        }
    }
}

/// The entries of an index in which conflicts stand, with its version: the
/// entries at other paths are kept, and each side of a conflict has its own.
pub open spec fn conflict_entries(files: memory::Tree, git: Seq<u8>, list: Seq<ConflictModel>) -> core::result::Result<
    (index::IndexVersion, Seq<index::EntryModel>),
    Refusal,
> {
    match operations::index_at(files, git) {
        Err(refusal) => Err(refusal),
        Ok(current) => {
            let kept = outside(
                current.entries,
                conflict_paths(list),
                current.entries.len() as int,
            );
            match all_staged(kept, list, list.len() as int) {
                Err(error) => Err(Refusal::Said(error)),
                Ok(entries) => operations::accepted(current.version, entries),
            }
        },
    }
}

/// Whether putting conflicts in the index went as it must. Without conflicts
/// the index stays as it is.
pub open spec fn conflicts_staged(
    before: memory::Tree,
    after: memory::Tree,
    git: Seq<u8>,
    list: Seq<ConflictModel>,
    refusal: Option<Refusal>,
) -> bool {
    if list.len() == 0 {
        after == before && refusal is None
    } else {
        operations::index_becomes(
            before,
            after,
            git,
            conflict_entries(before, git, list),
            refusal,
        )
    }
}

proof fn lemma_with_shown(set: Set<Seq<u8>>, list: Seq<(Seq<u8>, MergeEntry)>, n: int)
    requires
        n <= list.len(),
    ensures
        set.finite() ==> with_shown(set, list, n).finite(),
        forall|p: Seq<u8>| #[trigger]
            with_shown(set, list, n).contains(p) <==> set.contains(p) || exists|j: int|
                0 <= j < n && (#[trigger] list[j]).0 == p,
    decreases n,
{
    if n > 0 {
        lemma_with_shown(set, list, n - 1);
        assert forall|p: Seq<u8>| #[trigger] with_shown(set, list, n).contains(p) <==> set.contains(
            p,
        ) || exists|j: int| 0 <= j < n && (#[trigger] list[j]).0 == p by {
            assert(with_shown(set, list, n - 1).contains(p) || list[n - 1].0 == p <==> with_shown(
                set,
                list,
                n,
            ).contains(p));
        }
    }
}

proof fn lemma_with_sides(set: Set<Seq<u8>>, list: Seq<StageModel>, n: int)
    requires
        n <= list.len(),
    ensures
        set.finite() ==> with_sides(set, list, n).finite(),
        forall|p: Seq<u8>| #[trigger]
            with_sides(set, list, n).contains(p) <==> set.contains(p) || exists|j: int|
                0 <= j < n && (#[trigger] list[j]).path == p,
    decreases n,
{
    if n > 0 {
        lemma_with_sides(set, list, n - 1);
        assert forall|p: Seq<u8>| #[trigger] with_sides(set, list, n).contains(p) <==> set.contains(
            p,
        ) || exists|j: int| 0 <= j < n && (#[trigger] list[j]).path == p by {
            assert(with_sides(set, list, n - 1).contains(p) || list[n - 1].path == p <==> with_sides(
                set,
                list,
                n,
            ).contains(p));
        }
    }
}

/// Whether a conflict is about a path: a side stands there, or it shows it.
pub open spec fn is_about(c: ConflictModel, p: Seq<u8>) -> bool {
    ||| exists|j: int| 0 <= j < c.stages.len() && (#[trigger] c.stages[j]).path == p
    ||| exists|j: int| 0 <= j < c.working.len() && (#[trigger] c.working[j]).0 == p
}

proof fn lemma_paths_before(list: Seq<ConflictModel>, n: int)
    requires
        n <= list.len(),
    ensures
        paths_before(list, n).finite(),
        forall|p: Seq<u8>| #[trigger]
            paths_before(list, n).contains(p) <==> exists|i: int|
                0 <= i < n && #[trigger] is_about(list[i], p),
    decreases n,
{
    if n > 0 {
        let c = list[n - 1];
        lemma_paths_before(list, n - 1);
        let one = paths_before(list, n - 1);
        let two = with_sides(one, c.stages, c.stages.len() as int);
        lemma_with_sides(one, c.stages, c.stages.len() as int);
        lemma_with_shown(two, c.working, c.working.len() as int);
        assert forall|p: Seq<u8>| #[trigger] paths_before(list, n).contains(p) <==> exists|i: int|
            0 <= i < n && #[trigger] is_about(list[i], p) by {
            assert(paths_before(list, n).contains(p) <==> one.contains(p) || is_about(
                list[n - 1],
                p,
            ));
            if paths_before(list, n).contains(p) && one.contains(p) {
                let i = choose|i: int| 0 <= i < n - 1 && #[trigger] is_about(list[i], p);
                assert(0 <= i < n && is_about(list[i], p));
            }
        }
    }
}

/// The paths that conflicts report ascend, name each path once, and are those
/// of the sides and those that the conflicts show.
pub proof fn lemma_conflict_paths(list: Seq<ConflictModel>)
    ensures
        bytemap::ascending(id_set::sorted(conflict_paths(list))),
        forall|p: Seq<u8>| #[trigger]
            id_set::sorted(conflict_paths(list)).contains(p) <==> exists|i: int|
                0 <= i < list.len() && #[trigger] is_about(list[i], p),
{
    lemma_paths_before(list, list.len() as int);
    id_set::lemma_sorted_exists(conflict_paths(list));
    let sorted = id_set::sorted(conflict_paths(list));
    assert forall|p: Seq<u8>| #[trigger] sorted.contains(p) <==> exists|i: int|
        0 <= i < list.len() && #[trigger] is_about(list[i], p) by {
        assert(sorted.to_set().contains(p) <==> sorted.contains(p));
    }
}

proof fn lemma_with_staged_persists(
    before: Seq<index::EntryModel>,
    list: Seq<StageModel>,
    n: int,
    m: int,
)
    requires
        0 <= n <= m,
        with_staged(before, list, n) is Err,
    ensures
        with_staged(before, list, m) == with_staged(before, list, n),
    decreases m - n,
{
    if n < m {
        lemma_with_staged_persists(before, list, n, m - 1);
    }
}

proof fn lemma_all_staged_persists(
    before: Seq<index::EntryModel>,
    list: Seq<ConflictModel>,
    n: int,
    m: int,
)
    requires
        0 <= n <= m,
        all_staged(before, list, n) is Err,
    ensures
        all_staged(before, list, m) == all_staged(before, list, n),
    decreases m - n,
{
    if n < m {
        lemma_all_staged_persists(before, list, n, m - 1);
    }
}

fn add_paths(set: &mut ByteMap<()>, conflict: &Conflict)
    ensures
        final(set).wf(),
        final(set)@.dom() == with_shown(
            with_sides(old(set)@.dom(), conflict@.stages, conflict@.stages.len() as int),
            conflict@.working,
            conflict@.working.len() as int,
        ),
{
    let ghost start = set@.dom();
    let ghost sides = conflict@.stages;
    let ghost shown = conflict@.working;
    let _ = set.len();
    let mut i: usize = 0;
    while i < conflict.stages.len()
        invariant
            i <= conflict.stages@.len(),
            sides == conflict@.stages,
            set.wf(),
            set@.dom() == with_sides(start, sides, i as int),
        decreases conflict.stages@.len() - i,
    {
        assert(sides[i as int] == conflict.stages@[i as int]@);
        let ghost before = set@;
        let _ = set.insert(bytes::to_vec(conflict.stages[i].path.as_slice()), ());
        assert(set@.dom() =~= before.dom().insert(sides[i as int].path));
        i += 1;
    }
    let ghost middle = set@.dom();
    let mut j: usize = 0;
    while j < conflict.working.len()
        invariant
            j <= conflict.working@.len(),
            shown == conflict@.working,
            set.wf(),
            set@.dom() == with_shown(middle, shown, j as int),
        decreases conflict.working@.len() - j,
    {
        assert(shown[j as int] == (conflict.working@[j as int].0@, conflict.working@[j as int].1));
        let ghost before = set@;
        let _ = set.insert(bytes::to_vec(conflict.working[j].0.as_slice()), ());
        assert(set@.dom() =~= before.dom().insert(shown[j as int].0));
        j += 1;
    }
}

fn collect_paths(conflicts: &Vec<Conflict>) -> (r: ByteMap<()>)
    ensures
        r.wf(),
        r@.dom() == conflict_paths(flat_tree::conflict_models(conflicts@)),
{
    let ghost list = flat_tree::conflict_models(conflicts@);
    let mut set: ByteMap<()> = ByteMap::new();
    assert(set@.dom() =~= Set::empty());
    let mut i: usize = 0;
    while i < conflicts.len()
        invariant
            i <= conflicts@.len(),
            list == flat_tree::conflict_models(conflicts@),
            set.wf(),
            set@.dom() == paths_before(list, i as int),
        decreases conflicts@.len() - i,
    {
        assert(list[i as int] == conflicts@[i as int]@);
        add_paths(&mut set, &conflicts[i]);
        i += 1;
    }
    set
}

fn sorted_paths(set: &ByteMap<()>) -> (r: Vec<Vec<u8>>)
    ensures
        bytes::deep(r@) == id_set::sorted(set@.dom()),
{
    let count: usize = set.len();
    let mut out: Vec<Vec<u8>> = Vec::new();
    let mut i: usize = 0;
    while i < count
        invariant
            i <= count,
            count == set.keys().len(),
            bytes::deep(out@) == set.keys().take(i as int),
        decreases count - i,
    {
        let path = bytes::to_vec(set.key_at(i).as_slice());
        let ghost before = out@;
        out.push(path);
        assert(bytes::deep(out@) =~= bytes::deep(before).push(set.keys()[i as int]));
        assert(set.keys().take(i + 1) =~= set.keys().take(i as int).push(set.keys()[i as int]));
        i += 1;
    }
    proof {
        assert(set.keys().take(count as int) =~= set.keys());
        id_set::lemma_sorted(set.keys());
    }
    out
}

fn kept_entries(current: &Index, set: &ByteMap<()>) -> (r: Vec<IndexEntry>)
    ensures
        index::models(r@) == outside(
            current@.entries,
            set@.dom(),
            current@.entries.len() as int,
        ),
{
    let entries = current.entries();
    let ghost list = current@.entries;
    let mut out: Vec<IndexEntry> = Vec::new();
    assert(index::models(out@) =~= Seq::empty());
    let mut i: usize = 0;
    while i < entries.len()
        invariant
            i <= entries@.len(),
            list == index::models(entries@),
            index::models(out@) == outside(list, set@.dom(), i as int),
        decreases entries@.len() - i,
    {
        assert(list[i as int] == entries@[i as int]@);
        if !set.contains(entries[i].path()) {
            let entry = entries[i].clone();
            let ghost before = out@;
            let ghost model = entry@;
            out.push(entry);
            assert(index::models(out@) =~= index::models(before).push(model));
        }
        i += 1;
    }
    out
}

fn stage_sides(entries: &mut Vec<IndexEntry>, stages: &Vec<ConflictStage>) -> (r: Result<()>)
    ensures
        match with_staged(
            index::models(old(entries)@),
            flat_tree::stage_models(stages@),
            stages@.len() as int,
        ) {
            Ok(all) => r is Ok && index::models(final(entries)@) == all,
            Err(error) => r is Err && r->Err_0 == error,
        },
{
    let ghost start = index::models(entries@);
    let ghost list = flat_tree::stage_models(stages@);
    let mut i: usize = 0;
    while i < stages.len()
        invariant
            i <= stages@.len(),
            start == index::models(old(entries)@),
            list == flat_tree::stage_models(stages@),
            with_staged(start, list, i as int) == Ok::<Seq<index::EntryModel>, Error>(
                index::models(entries@),
            ),
        decreases stages@.len() - i,
    {
        proof {
            assert(list[i as int] == stages@[i as int]@);
            if with_staged(start, list, i + 1) is Err {
                lemma_with_staged_persists(start, list, i + 1, stages@.len() as int);
            }
        }
        let entry = IndexEntry::with_stage(
            bytes::to_vec(stages[i].path.as_slice()),
            stages[i].entry.mode,
            stages[i].entry.id,
            StatData::default(),
            stages[i].stage,
        )?;
        let ghost before = entries@;
        let ghost model = entry@;
        entries.push(entry);
        assert(index::models(entries@) =~= index::models(before).push(model));
        i += 1;
    }
    Ok(())
}

fn stage_all(kept: Vec<IndexEntry>, conflicts: &Vec<Conflict>) -> (r: Result<Vec<IndexEntry>>)
    ensures
        match all_staged(
            index::models(kept@),
            flat_tree::conflict_models(conflicts@),
            conflicts@.len() as int,
        ) {
            Ok(all) => r is Ok && index::models(r->Ok_0@) == all,
            Err(error) => r is Err && r->Err_0 == error,
        },
{
    let ghost start = index::models(kept@);
    let ghost list = flat_tree::conflict_models(conflicts@);
    let mut entries = kept;
    let mut i: usize = 0;
    while i < conflicts.len()
        invariant
            i <= conflicts@.len(),
            start == index::models(kept@),
            list == flat_tree::conflict_models(conflicts@),
            all_staged(start, list, i as int) == Ok::<Seq<index::EntryModel>, Error>(
                index::models(entries@),
            ),
        decreases conflicts@.len() - i,
    {
        proof {
            assert(list[i as int] == conflicts@[i as int]@);
            if all_staged(start, list, i + 1) is Err {
                lemma_all_staged_persists(start, list, i + 1, conflicts@.len() as int);
            }
        }
        stage_sides(&mut entries, &conflicts[i].stages)?;
        i += 1;
    }
    Ok(entries)
}

impl Repository {
    /// Puts the sides of some conflicts in the index in place of what stands
    /// at their paths, and gives those paths in ascending order.
    pub fn stage_conflicts(&mut self, conflicts: &Vec<Conflict>) -> (r: Result<Vec<Vec<u8>>>)
        ensures
            final(self).git() == old(self).git(),
            final(self).work() == old(self).work(),
            exists|refusal: Option<Refusal>| #[trigger]
                conflicts_staged(
                    old(self).tree(),
                    final(self).tree(),
                    old(self).git(),
                    flat_tree::conflict_models(conflicts@),
                    refusal,
                ) && (match refusal {
                    Some(refusal) => fs::declined(r, refusal),
                    None => r is Ok && bytes::deep(r->Ok_0@) == id_set::sorted(
                        conflict_paths(flat_tree::conflict_models(conflicts@)),
                    ),
                }),
    {
        let ghost files = self.tree();
        let ghost git = self.git();
        let ghost list = flat_tree::conflict_models(conflicts@);
        let ghost goal = conflict_entries(files, git, list);
        let set = collect_paths(conflicts);
        let paths = sorted_paths(&set);
        if conflicts.len() == 0 {
            assert(conflicts_staged(files, files, git, list, None));
            return Ok(paths);
        }
        let current = match self.read_index() {
            Ok(current) => current,
            Err(error) => {
                assert(conflicts_staged(files, files, git, list, Some(goal->Err_0)));
                return Err(error);
            },
        };
        let kept = kept_entries(&current, &set);
        let entries = match stage_all(kept, conflicts) {
            Ok(entries) => entries,
            Err(error) => {
                assert(conflicts_staged(files, files, git, list, Some(goal->Err_0)));
                return Err(error);
            },
        };
        let made = match Index::new(current.version(), entries) {
            Ok(made) => made,
            Err(error) => {
                assert(conflicts_staged(files, files, git, list, Some(goal->Err_0)));
                return Err(error);
            },
        };
        let ghost model = made@;
        let r = self.write_index(&made);
        proof {
            let version = goal->Ok_0.0;
            let all = goal->Ok_0.1;
            assert(operations::holds_entries(model, version, all));
            let refusal = match storage::index_file(model) {
                Err(error) => Some(Refusal::Said(error)),
                Ok(data) => repository::replaced(
                    files,
                    repository::joined(git, bytes::utf8("index"@)),
                    data,
                ).1,
            };
            assert(operations::index_replaced(files, self.tree(), git, model, refusal));
            assert(conflicts_staged(files, self.tree(), git, list, refusal));
        }
        match r {
            Ok(()) => Ok(paths),
            Err(error) => Err(error),
        }
    }
}

// ---------------------------------------------------------------------------
// The tree of an index

/// The first `n` entries of an index as a flat map.
pub open spec fn flat_index(list: Seq<index::EntryModel>, n: int) -> flat_tree::FlatMap
    decreases n,
{
    if n <= 0 {
        Map::empty()
    } else {
        flat_index(list, n - 1).insert(
            list[n - 1].path,
            MergeEntry { mode: list[n - 1].mode, id: object::id_with(list[n - 1].id) },
        )
    }
}

/// What writing the trees of an index makes of the files, and the identifier
/// of the topmost one.
pub open spec fn index_written(files: memory::Tree, git: Seq<u8>, list: Seq<index::EntryModel>) -> (
    memory::Tree,
    core::result::Result<Seq<u8>, Refusal>,
) {
    write_tree::flat_written(files, git, flat_index(list, list.len() as int))
}

impl Repository {
    /// Writes the trees of an index, and gives the identifier of the topmost
    /// one.
    pub fn write_index_tree(&mut self, index: &Index) -> (r: Result<ObjectId>)
        ensures
            final(self).git() == old(self).git(),
            final(self).work() == old(self).work(),
            ({
                let (after, outcome) = index_written(
                    old(self).tree(),
                    old(self).git(),
                    index@.entries,
                );
                &&& final(self).tree() == after
                &&& match outcome {
                    Ok(id) => r is Ok && r->Ok_0@ == id,
                    Err(refusal) => fs::declined(r, refusal),
                }
            }),
    {
        let entries = index.entries();
        let ghost list = index@.entries;
        let mut flat = FlatTree::new();
        let mut i: usize = 0;
        while i < entries.len()
            invariant
                i <= entries@.len(),
                list == index::models(entries@),
                flat@ == flat_index(list, i as int),
            decreases entries@.len() - i,
        {
            assert(list[i as int] == entries@[i as int]@);
            let id = entries[i].id();
            proof {
                object::lemma_id_with(id);
            }
            let _ = flat.insert(
                bytes::to_vec(entries[i].path()),
                MergeEntry { mode: entries[i].mode(), id },
            );
            i += 1;
        }
        self.write_flat_tree(&flat)
    }
}

// ---------------------------------------------------------------------------
// What the index holds of conflicts

/// Whether an entry of the index is that of a side of a conflict.
pub open spec fn is_side(entry: index::EntryModel, side: StageModel) -> bool {
    &&& entry.path == side.path && entry.stage == side.stage
    &&& entry.mode == side.entry.mode && entry.id == side.entry.id@
}

/// Whether an entry is that of a side of one of the first `n` conflicts.
pub open spec fn is_a_side(entry: index::EntryModel, list: Seq<ConflictModel>, n: int) -> bool {
    exists|i: int, j: int|
        0 <= i < n && 0 <= j < list[i].stages.len() && is_side(
            entry,
            #[trigger] list[i].stages[j],
        )
}

proof fn lemma_outside(list: Seq<index::EntryModel>, set: Set<Seq<u8>>, n: int)
    requires
        0 <= n <= list.len(),
    ensures
        forall|x: index::EntryModel| #[trigger]
            outside(list, set, n).contains(x) <==> !set.contains(x.path) && exists|i: int|
                0 <= i < n && #[trigger] list[i] == x,
    decreases n,
{
    if n > 0 {
        lemma_outside(list, set, n - 1);
        let less = outside(list, set, n - 1);
        let more = outside(list, set, n);
        assert forall|x: index::EntryModel| #[trigger] more.contains(x) <==> !set.contains(x.path)
            && exists|i: int| 0 <= i < n && #[trigger] list[i] == x by {
            if less.contains(x) {
                let k = less.index_of(x);
                assert(more[k] == x);
                let i = choose|i: int| 0 <= i < n - 1 && #[trigger] list[i] == x;
                assert(list[i] == x);
            }
            if more.contains(x) {
                let k = more.index_of(x);
                if k < less.len() {
                    assert(less[k] == x);
                } else {
                    assert(list[n - 1] == x);
                }
            }
            if !set.contains(x.path) && exists|i: int| 0 <= i < n && #[trigger] list[i] == x {
                let i = choose|i: int| 0 <= i < n && #[trigger] list[i] == x;
                if i < n - 1 {
                    assert(less.contains(x));
                } else {
                    assert(more[less.len() as int] == x);
                }
            }
        }
    }
}

proof fn lemma_sides_staged(before: Seq<index::EntryModel>, list: Seq<StageModel>, n: int)
    requires
        0 <= n <= list.len(),
        with_staged(before, list, n) is Ok,
    ensures
        with_staged(before, list, n)->Ok_0.len() == before.len() + n,
        before.is_prefix_of(with_staged(before, list, n)->Ok_0),
        forall|j: int|
            0 <= j < n ==> is_side(
                with_staged(before, list, n)->Ok_0[before.len() + j],
                #[trigger] list[j],
            ),
    decreases n,
{
    if n > 0 {
        lemma_sides_staged(before, list, n - 1);
        let less = with_staged(before, list, n - 1)->Ok_0;
        let more = with_staged(before, list, n)->Ok_0;
        assert(more =~= less.push(more.last()));
        assert(before =~= more.subrange(0, before.len() as int)) by {
            assert(before =~= less.subrange(0, before.len() as int));
        }
        assert forall|j: int| 0 <= j < n implies is_side(
            more[before.len() + j],
            #[trigger] list[j],
        ) by {
            if j < n - 1 {
                assert(more[before.len() + j] == less[before.len() + j]);
            }
        }
    } else {
        assert(before =~= before.subrange(0, before.len() as int));
    }
}

#[verifier::spinoff_prover]
#[verifier::rlimit(60)]
proof fn lemma_all_sides_staged(before: Seq<index::EntryModel>, list: Seq<ConflictModel>, n: int)
    requires
        0 <= n <= list.len(),
        all_staged(before, list, n) is Ok,
    ensures
        ({
            let after = all_staged(before, list, n)->Ok_0;
            &&& before.len() <= after.len()
            &&& forall|k: int| 0 <= k < before.len() ==> #[trigger] after[k] == before[k]
            &&& forall|k: int|
                before.len() <= k < after.len() ==> is_a_side(#[trigger] after[k], list, n)
            &&& forall|i: int, j: int|
                0 <= i < n && 0 <= j < list[i].stages.len() ==> exists|k: int|
                    before.len() <= k < after.len() && is_side(
                        #[trigger] after[k],
                        #[trigger] list[i].stages[j],
                    )
        }),
    decreases n,
{
    if n > 0 {
        lemma_all_sides_staged(before, list, n - 1);
        let less = all_staged(before, list, n - 1)->Ok_0;
        let after = all_staged(before, list, n)->Ok_0;
        let sides = list[n - 1].stages;
        lemma_sides_staged(less, sides, sides.len() as int);
        assert forall|k: int| 0 <= k < less.len() implies #[trigger] after[k] == less[k] by {
            assert(less =~= after.subrange(0, less.len() as int));
        }
        assert forall|k: int| before.len() <= k < after.len() implies is_a_side(
            #[trigger] after[k],
            list,
            n,
        ) by {
            if k < less.len() {
                assert(is_a_side(less[k], list, n - 1));
                let (i, j) = choose|i: int, j: int|
                    0 <= i < n - 1 && 0 <= j < list[i].stages.len() && is_side(
                        less[k],
                        #[trigger] list[i].stages[j],
                    );
                assert(is_side(after[k], list[i].stages[j]));
            } else {
                let j = k - less.len();
                assert(is_side(after[less.len() + j], sides[j]));
                assert(is_side(after[k], list[n - 1].stages[j]));
            }
        }
        assert forall|i: int, j: int| 0 <= i < n && 0 <= j < list[i].stages.len() implies exists|k: int|
            before.len() <= k < after.len() && is_side(
                #[trigger] after[k],
                #[trigger] list[i].stages[j],
            ) by {
            if i < n - 1 {
                let k = choose|k: int|
                    before.len() <= k < less.len() && is_side(
                        #[trigger] less[k],
                        list[i].stages[j],
                    );
                assert(is_side(after[k], list[i].stages[j]));
            } else {
                assert(is_side(after[less.len() + j], sides[j]));
            }
        }
    }
}

/// The index of a merge with conflicts holds each side of each conflict at its
/// stage, and what it held at the paths that no conflict is about, and nothing
/// else.
#[verifier::spinoff_prover]
#[verifier::rlimit(60)]
pub proof fn lemma_index_holds_the_sides(
    files: memory::Tree,
    git: Seq<u8>,
    list: Seq<ConflictModel>,
)
    requires
        conflict_entries(files, git, list) is Ok,
    ensures
        ({
            let before = operations::index_at(files, git)->Ok_0.entries;
            let after = (conflict_entries(files, git, list)->Ok_0).1;
            let n = list.len() as int;
            &&& operations::index_at(files, git) is Ok
            &&& forall|i: int, j: int|
                0 <= i < n && 0 <= j < list[i].stages.len() ==> exists|k: int|
                    0 <= k < after.len() && is_side(
                        #[trigger] after[k],
                        #[trigger] list[i].stages[j],
                    )
            &&& forall|k: int|
                0 <= k < before.len() && (forall|i: int|
                    0 <= i < n ==> !#[trigger] is_about(list[i], before[k].path))
                    ==> after.contains(#[trigger] before[k])
            &&& forall|k: int|
                0 <= k < after.len() ==> is_a_side(#[trigger] after[k], list, n) || (
                before.contains(after[k]) && forall|i: int|
                    0 <= i < n ==> !#[trigger] is_about(list[i], after[k].path))
        }),
{
    let before = operations::index_at(files, git)->Ok_0.entries;
    let after = (conflict_entries(files, git, list)->Ok_0).1;
    let n = list.len() as int;
    let set = conflict_paths(list);
    let kept = outside(before, set, before.len() as int);
    lemma_outside(before, set, before.len() as int);
    lemma_paths_before(list, n);
    lemma_all_sides_staged(kept, list, n);
    assert(after == all_staged(kept, list, n)->Ok_0);
    assert forall|k: int|
        0 <= k < before.len() && (forall|i: int|
            0 <= i < n ==> !#[trigger] is_about(list[i], before[k].path)) implies after.contains(
        #[trigger] before[k],
    ) by {
        assert(!set.contains(before[k].path));
        assert(kept.contains(before[k]));
        let at = kept.index_of(before[k]);
        assert(after[at] == before[k]);
    }
    assert forall|k: int| 0 <= k < after.len() implies is_a_side(#[trigger] after[k], list, n) || (
    before.contains(after[k]) && forall|i: int|
        0 <= i < n ==> !#[trigger] is_about(list[i], after[k].path)) by {
        if k < kept.len() {
            assert(after[k] == kept[k]);
            assert(kept.contains(after[k]));
        }
    }
}

} // verus!
