//! Trees as flat maps from paths to entries, and their three-way merge.

use vstd::prelude::*;

use crate::bytemap;
use crate::bytemap::ByteMap;
use crate::bytes;
use crate::id_set;
use crate::index;
use crate::object::ObjectId;
use crate::{Error, Result};

verus! {

/// What a path of a tree leads to.
#[derive(Clone, Copy, Debug, PartialEq, Eq)]
pub struct MergeEntry {
    pub mode: u32,
    pub id: ObjectId,
}

/// What the paths of a tree lead to.
pub type FlatMap = Map<Seq<u8>, MergeEntry>;

fn same_entry(a: &MergeEntry, b: &MergeEntry) -> (r: bool)
    ensures
        r == (*a == *b),
{
    a.mode == b.mode && a.id.same(&b.id)
}

fn same_option(a: Option<MergeEntry>, b: Option<MergeEntry>) -> (r: bool)
    ensures
        r == (a == b),
{
    match (a, b) {
        (Some(x), Some(y)) => same_entry(&x, &y),
        (None, None) => true,
        _ => false,
    }
}

/// A tree as a flat map from paths to entries.
pub struct FlatTree {
    entries: ByteMap<MergeEntry>,
}

impl View for FlatTree {
    type V = Map<Seq<u8>, MergeEntry>;

    closed spec fn view(&self) -> Map<Seq<u8>, MergeEntry> {
        self.entries@
    }
}

/// The paths of a flat map in ascending order.
pub open spec fn paths_of(map: FlatMap) -> Seq<Seq<u8>> {
    id_set::sorted(map.dom())
}

/// The entry at a path.
pub open spec fn entry_at(map: FlatMap, path: Seq<u8>) -> Option<MergeEntry> {
    if map.contains_key(path) {
        Some(map[path])
    } else {
        None
    }
}

impl FlatTree {
    pub fn new() -> (r: Self)
        ensures
            r@ == Map::<Seq<u8>, MergeEntry>::empty(),
    {
        FlatTree { entries: ByteMap::new() }
    }

    /// How many paths there are.
    pub fn len(&self) -> (r: usize)
        ensures
            r == paths_of(self@).len(),
            bytemap::ascending(paths_of(self@)),
            paths_of(self@).to_set() == self@.dom(),
    {
        let n: usize = self.entries.len();
        proof {
            self.lemma_paths();
        }
        n
    }

    /// The keys of the map are its paths in ascending order.
    proof fn lemma_paths(&self)
        requires
            self.entries.wf(),
        ensures
            paths_of(self@) == self.entries.keys(),
            bytemap::ascending(paths_of(self@)),
            paths_of(self@).to_set() == self@.dom(),
    {
        let keys = self.entries.keys();
        id_set::lemma_sorted(keys);
        assert(keys.to_set() =~= self@.dom());
    }

    /// The path at a place of the ascending order.
    pub fn path_at(&self, i: usize) -> (r: &[u8])
        requires
            i < paths_of(self@).len(),
        ensures
            r@ == paths_of(self@)[i as int],
            self@.contains_key(r@),
    {
        let _ = self.entries.len();
        proof {
            self.lemma_paths();
        }
        self.entries.key_at(i).as_slice()
    }

    pub fn get(&self, path: &[u8]) -> (r: Option<MergeEntry>)
        ensures
            r == entry_at(self@, path@),
    {
        match self.entries.get(path) {
            Some(entry) => Some(*entry),
            None => None,
        }
    }

    /// Puts an entry at a path and gives back the one that it replaces.
    pub fn insert(&mut self, path: Vec<u8>, entry: MergeEntry) -> (r: Option<MergeEntry>)
        ensures
            final(self)@ == old(self)@.insert(path@, entry),
            r == entry_at(old(self)@, path@),
    {
        self.entries.insert(path, entry)
    }

    /// Takes out what stands at a path.
    pub fn remove(&mut self, path: &[u8]) -> (r: Option<MergeEntry>)
        ensures
            final(self)@ == old(self)@.remove(path@),
            r == entry_at(old(self)@, path@),
    {
        self.entries.remove(path)
    }
}

// ---------------------------------------------------------------------------
// Renames

/// How many bytes two paths share at their starts and at their ends.
pub open spec fn similarity(a: Seq<u8>, b: Seq<u8>) -> nat {
    index::shared(a, b) + index::shared(a.reverse(), b.reverse())
}

/// How alike two paths are.
pub fn path_similarity(a: &[u8], b: &[u8]) -> (r: u128)
    ensures
        r == similarity(a@, b@),
{
    let front: usize = index::shared_prefix(a, b);
    proof {
        index::lemma_shared(a@, b@);
        index::lemma_shared(a@.reverse(), b@.reverse());
    }
    let mut back: usize = 0;
    let ghost x = a@.reverse();
    let ghost y = b@.reverse();
    assert(x.skip(0) =~= x);
    assert(y.skip(0) =~= y);
    while back < a.len() && back < b.len() && a[a.len() - 1 - back] == b[b.len() - 1 - back]
        invariant
            back <= a@.len(),
            back <= b@.len(),
            x == a@.reverse(),
            y == b@.reverse(),
            index::shared(x, y) == back + index::shared(x.skip(back as int), y.skip(back as int)),
        decreases a@.len() - back,
    {
        proof {
            assert(x.skip(back as int)[0] == a@[a@.len() - 1 - back]);
            assert(y.skip(back as int)[0] == b@[b@.len() - 1 - back]);
            assert(x.skip(back as int).skip(1) =~= x.skip(back + 1));
            assert(y.skip(back as int).skip(1) =~= y.skip(back + 1));
        }
        back += 1;
    }
    proof {
        if back < a@.len() && back < b@.len() {
            assert(x.skip(back as int)[0] == a@[a@.len() - 1 - back]);
            assert(y.skip(back as int)[0] == b@[b@.len() - 1 - back]);
        }
    }
    front as u128 + back as u128
}

/// Whether a side added a path with an entry and the path is not taken yet.
pub open spec fn is_candidate(
    base: FlatMap,
    side: FlatMap,
    used: Set<Seq<u8>>,
    entry: MergeEntry,
) -> spec_fn(Seq<u8>) -> bool {
    |path: Seq<u8>| !base.contains_key(path) && side[path] == entry && !used.contains(path)
}

/// The paths that a side added with an entry and that are not taken yet.
pub open spec fn candidates(
    base: FlatMap,
    side: FlatMap,
    used: Set<Seq<u8>>,
    entry: MergeEntry,
) -> Seq<Seq<u8>> {
    paths_of(side).filter(is_candidate(base, side, used, entry))
}

/// Whether a path is a better new name than another: more alike, and among
/// equals the greater.
pub open spec fn better(old_path: Seq<u8>, a: Seq<u8>, b: Seq<u8>) -> bool {
    similarity(old_path, a) > similarity(old_path, b) || (similarity(old_path, a) == similarity(
        old_path,
        b,
    ) && bytes::lex_lt(b, a))
}

/// The best of the first `n` candidates.
pub open spec fn best_of(old_path: Seq<u8>, list: Seq<Seq<u8>>, n: int) -> Seq<u8>
    decreases n,
{
    if n <= 1 {
        list[0]
    } else {
        let best = best_of(old_path, list, n - 1);
        if better(old_path, list[n - 1], best) {
            list[n - 1]
        } else {
            best
        }
    }
}

/// Which paths were renamed to which, and how many candidates were compared.
#[verifier::ext_equal]
pub struct RenameModel {
    pub map: Map<Seq<u8>, Seq<u8>>,
    pub used: Set<Seq<u8>>,
    pub comparisons: nat,
}

/// The error of too many comparisons.
pub open spec fn comparison_fault(max: usize) -> Error {
    if max == usize::MAX {
        Error::InvalidRepository("rename comparison count overflow")
    } else {
        Error::InvalidRepository("exact rename detection exceeds its comparisons")
    }
}

/// The exact renames among the first `n` paths of the base.
pub open spec fn renamed(base: FlatMap, side: FlatMap, max: usize, n: int) -> core::result::Result<
    RenameModel,
    Error,
>
    decreases n,
{
    if n <= 0 {
        Ok(RenameModel { map: Map::empty(), used: Set::empty(), comparisons: 0 })
    } else {
        match renamed(base, side, max, n - 1) {
            Err(error) => Err(error),
            Ok(m) => {
                let path = paths_of(base)[n - 1];
                if side.contains_key(path) {
                    Ok(m)
                } else {
                    let list = candidates(base, side, m.used, base[path]);
                    let total = m.comparisons + list.len();
                    if total > max {
                        Err(comparison_fault(max))
                    } else if list.len() == 0 {
                        Ok(m)
                    } else {
                        let new = best_of(path, list, list.len() as int);
                        Ok(
                            RenameModel {
                                map: m.map.insert(path, new),
                                used: m.used.insert(new),
                                comparisons: total,
                            },
                        )
                    }
                }
            },
        }
    }
}

/// The exact renames between a base and a side.
pub open spec fn renames_of(base: FlatMap, side: FlatMap, max: usize) -> core::result::Result<
    Map<Seq<u8>, Seq<u8>>,
    Error,
> {
    match renamed(base, side, max, paths_of(base).len() as int) {
        Err(error) => Err(error),
        Ok(m) => Ok(m.map),
    }
}

proof fn lemma_renamed_persists(base: FlatMap, side: FlatMap, max: usize, n: int, m: int)
    requires
        0 <= n <= m,
        renamed(base, side, max, n) is Err,
    ensures
        renamed(base, side, max, m) == renamed(base, side, max, n),
    decreases m - n,
{
    if n < m {
        lemma_renamed_persists(base, side, max, n, m - 1);
    }
}

proof fn lemma_filter_grows(list: Seq<Seq<u8>>, keep: spec_fn(Seq<u8>) -> bool, n: int)
    requires
        0 <= n <= list.len(),
    ensures
        list.take(n).filter(keep).len() <= list.filter(keep).len(),
    decreases list.len(),
{
    reveal(Seq::filter);
    if n == list.len() {
        assert(list.take(n) =~= list);
    } else {
        lemma_filter_grows(list.drop_last(), keep, n);
        assert(list.drop_last().take(n) =~= list.take(n));
    }
}

/// What the renames of a side are.
pub struct Renames {
    map: ByteMap<Vec<u8>>,
}

impl View for Renames {
    type V = Map<Seq<u8>, Seq<u8>>;

    closed spec fn view(&self) -> Map<Seq<u8>, Seq<u8>> {
        self.map@.map_values(|path: Vec<u8>| path@)
    }
}

impl Renames {
    pub fn get(&self, path: &[u8]) -> (r: Option<&[u8]>)
        ensures
            match r {
                Some(new) => self@.contains_key(path@) && self@[path@] == new@,
                None => !self@.contains_key(path@),
            },
    {
        match self.map.get(path) {
            Some(new) => Some(new.as_slice()),
            None => None,
        }
    }
}

/// Finds the best candidate for a path, and counts the comparisons.
fn best_candidate(
    base: &FlatTree,
    side: &FlatTree,
    used: &ByteMap<bool>,
    path: &[u8],
    entry: &MergeEntry,
    comparisons: usize,
    max: usize,
) -> (r: Result<(Option<Vec<u8>>, usize)>)
    requires
        comparisons <= max,
    ensures
        ({
            let list = candidates(base@, side@, used@.dom(), *entry);
            if comparisons + list.len() > max {
                r is Err && r->Err_0 == comparison_fault(max)
            } else {
                &&& r is Ok && r->Ok_0.1 == comparisons + list.len()
                &&& match r->Ok_0.0 {
                    None => list.len() == 0,
                    Some(new) => list.len() > 0 && new@ == best_of(
                        path@,
                        list,
                        list.len() as int,
                    ),
                }
            }
        }),
{
    let ghost all = paths_of(side@);
    let ghost keep = is_candidate(base@, side@, used@.dom(), *entry);
    let mut best: Option<Vec<u8>> = None;
    let mut best_rank: u128 = 0;
    let mut count: usize = comparisons;
    let n: usize = side.len();
    let mut i: usize = 0;
    proof {
        reveal(Seq::filter);
        assert(all.take(0).filter(keep) =~= Seq::empty());
    }
    while i < n
        invariant
            i <= n,
            n == all.len(),
            all == paths_of(side@),
            keep == is_candidate(base@, side@, used@.dom(), *entry),
            comparisons <= count <= max,
            count == comparisons + all.take(i as int).filter(keep).len(),
            match best {
                None => all.take(i as int).filter(keep).len() == 0,
                Some(new) => {
                    let list = all.take(i as int).filter(keep);
                    list.len() > 0 && new@ == best_of(path@, list, list.len() as int) && best_rank
                        == similarity(path@, new@)
                },
            },
        decreases n - i,
    {
        let candidate = side.path_at(i);
        let ghost before = all.take(i as int).filter(keep);
        proof {
            reveal(Seq::filter);
            assert(all.take(i + 1).drop_last() =~= all.take(i as int));
            assert(all.take(i + 1).last() == all[i as int]);
            lemma_filter_grows(all, keep, i + 1);
        }
        let fits = match side.get(candidate) {
            Some(here) => same_entry(&here, entry),
            None => false,
        };
        if fits && base.get(candidate).is_none() && !used.contains(candidate) {
            let ghost after = all.take(i + 1).filter(keep);
            assert(after =~= before.push(candidate@));
            if count >= max {
                if max == usize::MAX {
                    return Err(Error::InvalidRepository("rename comparison count overflow"));
                }
                return Err(
                    Error::InvalidRepository("exact rename detection exceeds its comparisons"),
                );
            }
            count += 1;
            let rank: u128 = path_similarity(path, candidate);
            let wins = match &best {
                None => true,
                Some(other) => rank > best_rank || (rank == best_rank && bytes::bytes_lt(
                    other.as_slice(),
                    candidate,
                )),
            };
            proof {
                if before.len() > 0 {
                    lemma_best_same(path@, before, after, before.len() as int);
                }
            }
            if wins {
                best = Some(bytes::to_vec(candidate));
                best_rank = rank;
            }
        }
        i += 1;
    }
    assert(all.take(i as int) =~= all);
    Ok((best, count))
}

proof fn lemma_best_same(path: Seq<u8>, a: Seq<Seq<u8>>, b: Seq<Seq<u8>>, n: int)
    requires
        0 <= n <= a.len() <= b.len(),
        a.len() > 0,
        forall|i: int| 0 <= i < a.len() ==> a[i] == b[i],
    ensures
        best_of(path, a, n) == best_of(path, b, n),
    decreases n,
{
    if n > 1 {
        lemma_best_same(path, a, b, n - 1);
    }
}

/// Finds the exact renames between a base and a side.
pub fn exact_renames(base: &FlatTree, side: &FlatTree, max_comparisons: usize) -> (r: Result<
    Renames,
>)
    ensures
        match renames_of(base@, side@, max_comparisons) {
            Ok(map) => r is Ok && r->Ok_0@ == map,
            Err(error) => r is Err && r->Err_0 == error,
        },
{
    let mut used: ByteMap<bool> = ByteMap::new();
    let mut map: ByteMap<Vec<u8>> = ByteMap::new();
    let mut comparisons: usize = 0;
    let n: usize = base.len();
    let ghost all = paths_of(base@);
    let mut i: usize = 0;
    assert(map@.map_values(|path: Vec<u8>| path@) =~= Map::empty());
    assert(used@.dom() =~= Set::empty());
    while i < n
        invariant
            i <= n,
            n == all.len(),
            all == paths_of(base@),
            comparisons <= max_comparisons,
            renamed(base@, side@, max_comparisons, i as int) == Ok::<RenameModel, Error>(
                RenameModel {
                    map: map@.map_values(|path: Vec<u8>| path@),
                    used: used@.dom(),
                    comparisons: comparisons as nat,
                },
            ),
        decreases n - i,
    {
        proof {
            if renamed(base@, side@, max_comparisons, i + 1) is Err {
                lemma_renamed_persists(base@, side@, max_comparisons, i + 1, n as int);
            }
        }
        let path = base.path_at(i);
        if side.get(path).is_none() {
            match base.get(path) {
                None => {},
                Some(entry) => {
                    let (best, count) = best_candidate(
                        base,
                        side,
                        &used,
                        path,
                        &entry,
                        comparisons,
                        max_comparisons,
                    )?;
                    match best {
                        None => {},
                        Some(new) => {
                            let ghost before = map@;
                            let ghost taken = used@;
                            let _ = used.insert(bytes::to_vec(new.as_slice()), true);
                            let _ = map.insert(bytes::to_vec(path), new);
                            proof {
                                assert(used@.dom() =~= taken.dom().insert(new@));
                                assert(map@.map_values(|path: Vec<u8>| path@)
                                    =~= before.map_values(|path: Vec<u8>| path@).insert(
                                    path@,
                                    new@,
                                ));
                            }
                            comparisons = count;
                        },
                    }
                },
            }
        }
        i += 1;
    }
    Ok(Renames { map })
}

// ---------------------------------------------------------------------------
// Conflicts and the alignment of renames

/// One side of a conflict.
#[derive(Debug, PartialEq, Eq)]
pub struct ConflictStage {
    pub path: Vec<u8>,
    pub stage: u8,
    pub entry: MergeEntry,
}

/// A conflict: the sides of a path, and what the working tree shows of it.
#[derive(Debug, PartialEq, Eq)]
pub struct Conflict {
    pub path: Vec<u8>,
    pub stages: Vec<ConflictStage>,
    pub working: Vec<(Vec<u8>, MergeEntry)>,
}

/// What a side of a conflict says.
#[verifier::ext_equal]
pub struct StageModel {
    pub path: Seq<u8>,
    pub stage: u8,
    pub entry: MergeEntry,
}

/// What a conflict says.
#[verifier::ext_equal]
pub struct ConflictModel {
    pub path: Seq<u8>,
    pub stages: Seq<StageModel>,
    pub working: Seq<(Seq<u8>, MergeEntry)>,
}

impl View for ConflictStage {
    type V = StageModel;

    open spec fn view(&self) -> StageModel {
        StageModel { path: self.path@, stage: self.stage, entry: self.entry }
    }
}

pub open spec fn stage_models(list: Seq<ConflictStage>) -> Seq<StageModel> {
    Seq::new(list.len(), |i: int| list[i]@)
}

pub open spec fn working_models(list: Seq<(Vec<u8>, MergeEntry)>) -> Seq<(Seq<u8>, MergeEntry)> {
    Seq::new(list.len(), |i: int| (list[i].0@, list[i].1))
}

impl View for Conflict {
    type V = ConflictModel;

    open spec fn view(&self) -> ConflictModel {
        ConflictModel {
            path: self.path@,
            stages: stage_models(self.stages@),
            working: working_models(self.working@),
        }
    }
}

pub open spec fn conflict_models(list: Seq<Conflict>) -> Seq<ConflictModel> {
    Seq::new(list.len(), |i: int| list[i]@)
}

/// The three sides of a merge and the conflicts found so far.
#[verifier::ext_equal]
pub struct SidesModel {
    pub base: FlatMap,
    pub ours: FlatMap,
    pub theirs: FlatMap,
    pub conflicts: Seq<ConflictModel>,
}

/// A map whose entry at one path stands at another.
pub open spec fn entry_moved(map: FlatMap, from: Seq<u8>, to: Seq<u8>) -> core::result::Result<
    FlatMap,
    Error,
> {
    if !map.contains_key(from) {
        Err(Error::InvalidRepository("rename source disappeared during merge"))
    } else if map.remove(from).contains_key(to) {
        Err(Error::InvalidRepository("rename destination collides with another path"))
    } else {
        Ok(map.remove(from).insert(to, map[from]))
    }
}

/// What a rename on one side alone makes of the base and the two sides: the
/// other side follows, or it has removed the path and there is a conflict.
pub open spec fn one_sided(
    base: FlatMap,
    side: FlatMap,
    other: FlatMap,
    from: Seq<u8>,
    to: Seq<u8>,
    stage: u8,
) -> core::result::Result<(FlatMap, FlatMap, FlatMap, Option<ConflictModel>), Error> {
    if !side.contains_key(to) {
        Err(Error::InvalidRepository("rename destination disappeared during merge"))
    } else if other.contains_key(from) {
        match entry_moved(base, from, to) {
            Err(error) => Err(error),
            Ok(base) => if other.remove(from).contains_key(to) {
                Err(Error::InvalidRepository("rename destination collides with another path"))
            } else {
                Ok((base, side, other.remove(from).insert(to, other[from]), None))
            },
        }
    } else {
        Ok(
            (
                base.remove(from),
                side.remove(to),
                other,
                Some(
                    ConflictModel {
                        path: to,
                        stages: seq![
                            StageModel { path: to, stage: 1, entry: base[from] },
                            StageModel { path: to, stage, entry: side[to] },
                        ],
                        working: seq![(to, side[to])],
                    },
                ),
            ),
        )
    }
}

/// A list with a conflict more, or with none.
pub open spec fn with_conflict(list: Seq<ConflictModel>, more: Option<ConflictModel>) -> Seq<
    ConflictModel,
> {
    match more {
        Some(conflict) => list.push(conflict),
        None => list,
    }
}

/// What the renames of a path make of the sides.
pub open spec fn aligned_one(
    sides: SidesModel,
    from: Seq<u8>,
    ours_to: Option<Seq<u8>>,
    theirs_to: Option<Seq<u8>>,
) -> core::result::Result<SidesModel, Error> {
    if !sides.base.contains_key(from) {
        Err(Error::InvalidRepository("rename source disappeared during merge"))
    } else {
        match (ours_to, theirs_to) {
            (Some(a), Some(b)) => if a == b {
                match entry_moved(sides.base, from, a) {
                    Err(error) => Err(error),
                    Ok(base) => Ok(SidesModel { base, ..sides }),
                }
            } else if !sides.ours.contains_key(a) {
                Err(Error::InvalidRepository("ours rename destination disappeared"))
            } else if !sides.theirs.contains_key(b) {
                Err(Error::InvalidRepository("theirs rename destination disappeared"))
            } else {
                Ok(
                    SidesModel {
                        base: sides.base.remove(from),
                        ours: sides.ours.remove(a),
                        theirs: sides.theirs.remove(b),
                        conflicts: sides.conflicts.push(
                            ConflictModel {
                                path: from,
                                stages: seq![
                                    StageModel { path: from, stage: 1, entry: sides.base[from] },
                                    StageModel { path: a, stage: 2, entry: sides.ours[a] },
                                    StageModel { path: b, stage: 3, entry: sides.theirs[b] },
                                ],
                                working: seq![(a, sides.ours[a]), (b, sides.theirs[b])],
                            },
                        ),
                    },
                )
            },
            (Some(to), None) => match one_sided(
                sides.base,
                sides.ours,
                sides.theirs,
                from,
                to,
                2,
            ) {
                Err(error) => Err(error),
                Ok((base, ours, theirs, more)) => Ok(
                    SidesModel {
                        base,
                        ours,
                        theirs,
                        conflicts: with_conflict(sides.conflicts, more),
                    },
                ),
            },
            (None, Some(to)) => match one_sided(
                sides.base,
                sides.theirs,
                sides.ours,
                from,
                to,
                3,
            ) {
                Err(error) => Err(error),
                Ok((base, theirs, ours, more)) => Ok(
                    SidesModel {
                        base,
                        ours,
                        theirs,
                        conflicts: with_conflict(sides.conflicts, more),
                    },
                ),
            },
            (None, None) => Ok(sides),
        }
    }
}

/// The new name of a path.
pub open spec fn renamed_to(map: Map<Seq<u8>, Seq<u8>>, path: Seq<u8>) -> Option<Seq<u8>> {
    if map.contains_key(path) {
        Some(map[path])
    } else {
        None
    }
}

/// What the renames of the first `n` paths make of the sides.
pub open spec fn aligned(
    sides: SidesModel,
    ours: Map<Seq<u8>, Seq<u8>>,
    theirs: Map<Seq<u8>, Seq<u8>>,
    paths: Seq<Seq<u8>>,
    n: int,
) -> core::result::Result<SidesModel, Error>
    decreases n,
{
    if n <= 0 {
        Ok(sides)
    } else {
        match aligned(sides, ours, theirs, paths, n - 1) {
            Err(error) => Err(error),
            Ok(before) => aligned_one(
                before,
                paths[n - 1],
                renamed_to(ours, paths[n - 1]),
                renamed_to(theirs, paths[n - 1]),
            ),
        }
    }
}

/// The sides of a merge with their exact renames aligned.
pub open spec fn aligned_sides(base: FlatMap, ours: FlatMap, theirs: FlatMap, max: usize) -> core::result::Result<
    SidesModel,
    Error,
> {
    match renames_of(base, ours, max) {
        Err(error) => Err(error),
        Ok(a) => match renames_of(base, theirs, max) {
            Err(error) => Err(error),
            Ok(b) => {
                let paths = id_set::sorted(a.dom().union(b.dom()));
                aligned(
                    SidesModel { base, ours, theirs, conflicts: Seq::empty() },
                    a,
                    b,
                    paths,
                    paths.len() as int,
                )
            },
        },
    }
}

/// The three sides of a merge and the conflicts found so far.
struct Sides {
    base: FlatTree,
    ours: FlatTree,
    theirs: FlatTree,
    conflicts: Vec<Conflict>,
}

impl Sides {
    spec fn model(self) -> SidesModel {
        SidesModel {
            base: self.base@,
            ours: self.ours@,
            theirs: self.theirs@,
            conflicts: conflict_models(self.conflicts@),
        }
    }
}

fn move_entry(map: &mut FlatTree, from: &[u8], to: &[u8]) -> (r: Result<()>)
    ensures
        match entry_moved(old(map)@, from@, to@) {
            Ok(after) => r is Ok && final(map)@ == after,
            Err(error) => r is Err && r->Err_0 == error,
        },
{
    match map.remove(from) {
        None => Err(Error::InvalidRepository("rename source disappeared during merge")),
        Some(entry) => {
            if map.insert(bytes::to_vec(to), entry).is_some() {
                return Err(
                    Error::InvalidRepository("rename destination collides with another path"),
                );
            }
            Ok(())
        },
    }
}

fn stage_of(path: &[u8], stage: u8, entry: MergeEntry) -> (r: ConflictStage)
    ensures
        r@ == (StageModel { path: path@, stage, entry }),
{
    ConflictStage { path: bytes::to_vec(path), stage, entry }
}

fn align_one_sided(
    base: &mut FlatTree,
    side: &mut FlatTree,
    other: &mut FlatTree,
    from: &[u8],
    to: &[u8],
    base_entry: MergeEntry,
    stage: u8,
) -> (r: Result<Option<Conflict>>)
    requires
        entry_at(old(base)@, from@) == Some(base_entry),
    ensures
        match one_sided(old(base)@, old(side)@, old(other)@, from@, to@, stage) {
            Err(error) => r is Err && r->Err_0 == error,
            Ok((b, s, o, more)) => {
                &&& r is Ok && final(base)@ == b && final(side)@ == s && final(other)@ == o
                &&& match r->Ok_0 {
                    Some(conflict) => more == Some(conflict@),
                    None => more is None,
                }
            },
        },
{
    let renamed_entry = match side.get(to) {
        Some(entry) => entry,
        None => return Err(
            Error::InvalidRepository("rename destination disappeared during merge"),
        ),
    };
    match other.get(from) {
        Some(other_entry) => {
            let _ = other.remove(from);
            move_entry(base, from, to)?;
            if other.insert(bytes::to_vec(to), other_entry).is_some() {
                return Err(
                    Error::InvalidRepository("rename destination collides with another path"),
                );
            }
            Ok(None)
        },
        None => {
            let _ = base.remove(from);
            let _ = side.remove(to);
            let mut stages: Vec<ConflictStage> = Vec::new();
            stages.push(stage_of(to, 1, base_entry));
            stages.push(stage_of(to, stage, renamed_entry));
            let mut working: Vec<(Vec<u8>, MergeEntry)> = Vec::new();
            working.push((bytes::to_vec(to), renamed_entry));
            let conflict = Conflict { path: bytes::to_vec(to), stages, working };
            proof {
                assert(stage_models(stages@) =~= seq![
                    StageModel { path: to@, stage: 1, entry: base_entry },
                    StageModel { path: to@, stage, entry: renamed_entry },
                ]);
                assert(working_models(working@) =~= seq![(to@, renamed_entry)]);
            }
            Ok(Some(conflict))
        },
    }
}

fn push_conflict(list: &mut Vec<Conflict>, more: Option<Conflict>)
    ensures
        conflict_models(final(list)@) == with_conflict(
            conflict_models(old(list)@),
            match more {
                Some(conflict) => Some(conflict@),
                None => None,
            },
        ),
{
    match more {
        Some(conflict) => {
            let ghost before = list@;
            list.push(conflict);
            assert(conflict_models(list@) =~= conflict_models(before).push(conflict@));
        },
        None => {},
    }
}

fn align_one(sides: &mut Sides, from: &[u8], ours_to: Option<&[u8]>, theirs_to: Option<&[u8]>) -> (r: Result<
    (),
>)
    ensures
        match aligned_one(
            old(sides).model(),
            from@,
            match ours_to {
                Some(to) => Some(to@),
                None => None,
            },
            match theirs_to {
                Some(to) => Some(to@),
                None => None,
            },
        ) {
            Ok(after) => r is Ok && final(sides).model() == after,
            Err(error) => r is Err && r->Err_0 == error,
        },
{
    let base_entry = match sides.base.get(from) {
        Some(entry) => entry,
        None => return Err(Error::InvalidRepository("rename source disappeared during merge")),
    };
    match (ours_to, theirs_to) {
        (Some(a), Some(b)) => {
            if bytes::bytes_eq(a, b) {
                move_entry(&mut sides.base, from, a)?;
            } else {
                let _ = sides.base.remove(from);
                let ours_entry = match sides.ours.remove(a) {
                    Some(entry) => entry,
                    None => return Err(
                        Error::InvalidRepository("ours rename destination disappeared"),
                    ),
                };
                let theirs_entry = match sides.theirs.remove(b) {
                    Some(entry) => entry,
                    None => return Err(
                        Error::InvalidRepository("theirs rename destination disappeared"),
                    ),
                };
                let mut stages: Vec<ConflictStage> = Vec::new();
                stages.push(stage_of(from, 1, base_entry));
                stages.push(stage_of(a, 2, ours_entry));
                stages.push(stage_of(b, 3, theirs_entry));
                let mut working: Vec<(Vec<u8>, MergeEntry)> = Vec::new();
                working.push((bytes::to_vec(a), ours_entry));
                working.push((bytes::to_vec(b), theirs_entry));
                proof {
                    assert(stage_models(stages@) =~= seq![
                        StageModel { path: from@, stage: 1, entry: base_entry },
                        StageModel { path: a@, stage: 2, entry: ours_entry },
                        StageModel { path: b@, stage: 3, entry: theirs_entry },
                    ]);
                    assert(working_models(working@) =~= seq![(a@, ours_entry), (b@, theirs_entry)]);
                }
                let conflict = Conflict { path: bytes::to_vec(from), stages, working };
                push_conflict(&mut sides.conflicts, Some(conflict));
            }
        },
        (Some(to), None) => {
            let more = align_one_sided(
                &mut sides.base,
                &mut sides.ours,
                &mut sides.theirs,
                from,
                to,
                base_entry,
                2,
            )?;
            push_conflict(&mut sides.conflicts, more);
        },
        (None, Some(to)) => {
            let more = align_one_sided(
                &mut sides.base,
                &mut sides.theirs,
                &mut sides.ours,
                from,
                to,
                base_entry,
                3,
            )?;
            push_conflict(&mut sides.conflicts, more);
        },
        (None, None) => {},
    }
    Ok(())
}

/// The keys of a map are the members of its domain in ascending order.
proof fn lemma_keys<V>(map: ByteMap<V>)
    requires
        map.wf(),
    ensures
        map.keys() == id_set::sorted(map@.dom()),
        map.keys().to_set() == map@.dom(),
{
    id_set::lemma_sorted(map.keys());
    assert(map.keys().to_set() =~= map@.dom());
}

/// Puts the keys of a map into a set.
fn add_keys<V>(set: &mut ByteMap<bool>, map: &ByteMap<V>)
    ensures
        final(set)@.dom() == old(set)@.dom().union(map@.dom()),
{
    let n: usize = map.len();
    proof {
        lemma_keys(*map);
    }
    let ghost keys = map.keys();
    let mut i: usize = 0;
    assert(set@.dom() =~= old(set)@.dom().union(keys.take(0).to_set()));
    while i < n
        invariant
            i <= n,
            n == keys.len(),
            keys == map.keys(),
            set@.dom() == old(set)@.dom().union(keys.take(i as int).to_set()),
        decreases n - i,
    {
        let key = map.key_at(i);
        let ghost before = set@;
        let _ = set.insert(bytes::to_vec(key.as_slice()), true);
        proof {
            assert(set@.dom() =~= before.dom().insert(keys[i as int]));
            let a = keys.take(i as int);
            let b = keys.take(i + 1);
            assert(b =~= a.push(keys[i as int]));
            assert forall|x: Seq<u8>| b.to_set().contains(x) <==> a.to_set().insert(
                keys[i as int],
            ).contains(x) by {
                if a.contains(x) {
                    let k = a.index_of(x);
                    assert(b[k] == x);
                }
                assert(b[i as int] == keys[i as int]);
                if b.contains(x) {
                    let k = b.index_of(x);
                    if k < i {
                        assert(a[k] == x);
                    }
                }
            }
            assert(b.to_set() =~= a.to_set().insert(keys[i as int]));
            assert(set@.dom() =~= old(set)@.dom().union(b.to_set()));
        }
        i += 1;
    }
    assert(keys.take(i as int) =~= keys);
}

proof fn lemma_aligned_persists(
    sides: SidesModel,
    ours: Map<Seq<u8>, Seq<u8>>,
    theirs: Map<Seq<u8>, Seq<u8>>,
    paths: Seq<Seq<u8>>,
    n: int,
    m: int,
)
    requires
        0 <= n <= m,
        aligned(sides, ours, theirs, paths, n) is Err,
    ensures
        aligned(sides, ours, theirs, paths, m) == aligned(sides, ours, theirs, paths, n),
    decreases m - n,
{
    if n < m {
        lemma_aligned_persists(sides, ours, theirs, paths, n, m - 1);
    }
}

fn align_exact_renames(base: FlatTree, ours: FlatTree, theirs: FlatTree, max_comparisons: usize) -> (r: Result<
    Sides,
>)
    ensures
        match aligned_sides(base@, ours@, theirs@, max_comparisons) {
            Ok(model) => r is Ok && r->Ok_0.model() == model,
            Err(error) => r is Err && r->Err_0 == error,
        },
{
    let a = exact_renames(&base, &ours, max_comparisons)?;
    let b = exact_renames(&base, &theirs, max_comparisons)?;
    let mut set: ByteMap<bool> = ByteMap::new();
    add_keys(&mut set, &a.map);
    add_keys(&mut set, &b.map);
    let n: usize = set.len();
    let ghost paths = set.keys();
    proof {
        lemma_keys(set);
        assert(a.map@.dom() =~= a@.dom());
        assert(b.map@.dom() =~= b@.dom());
        assert(set@.dom() =~= a@.dom().union(b@.dom()));
    }
    let mut sides = Sides { base, ours, theirs, conflicts: Vec::new() };
    let ghost start = sides.model();
    assert(conflict_models(sides.conflicts@) =~= Seq::empty());
    assert(start == (SidesModel {
        base: base@,
        ours: ours@,
        theirs: theirs@,
        conflicts: Seq::empty(),
    }));
    let ghost goal = aligned(start, a@, b@, paths, n as int);
    assert(aligned_sides(base@, ours@, theirs@, max_comparisons) == goal);
    let mut i: usize = 0;
    while i < n
        invariant
            i <= n,
            n == paths.len(),
            paths == set.keys(),
            goal == aligned(start, a@, b@, paths, n as int),
            aligned_sides(base@, ours@, theirs@, max_comparisons) == goal,
            aligned(start, a@, b@, paths, i as int) == Ok::<SidesModel, Error>(sides.model()),
        decreases n - i,
    {
        proof {
            if aligned(start, a@, b@, paths, i + 1) is Err {
                lemma_aligned_persists(start, a@, b@, paths, i + 1, n as int);
            }
        }
        let path = set.key_at(i);
        align_one(&mut sides, path.as_slice(), a.get(path.as_slice()), b.get(path.as_slice()))?;
        i += 1;
    }
    Ok(sides)
}

// ---------------------------------------------------------------------------
// The merge

/// The outcome of merging the text of a path: the merged blob, and whether it
/// holds conflict markers.
#[derive(Debug, PartialEq, Eq)]
pub struct ContentMerge {
    pub path: Vec<u8>,
    pub id: ObjectId,
    pub conflicted: bool,
}

/// What a merge of two sides from a base takes: a change that one side alone
/// made, or that both made alike.
pub open spec fn taken<T>(base: T, ours: T, theirs: T) -> Option<T> {
    if ours == theirs {
        Some(ours)
    } else if ours == base {
        Some(theirs)
    } else if theirs == base {
        Some(ours)
    } else {
        None
    }
}

pub open spec fn regular(mode: u32) -> bool {
    mode == 0o100644 || mode == 0o100755
}

/// The first outcome for a path.
pub open spec fn outcome_at(contents: Seq<ContentMerge>, path: Seq<u8>, from: int) -> Option<
    ContentMerge,
>
    decreases contents.len() - from,
{
    if from < 0 || from >= contents.len() {
        None
    } else if contents[from].path@ == path {
        Some(contents[from])
    } else {
        outcome_at(contents, path, from + 1)
    }
}

/// What the working tree shows of a path that both sides changed, and whether
/// the change is a conflict.
pub open spec fn shown(
    base: Option<MergeEntry>,
    ours: Option<MergeEntry>,
    theirs: Option<MergeEntry>,
    outcome: Option<ContentMerge>,
) -> core::result::Result<(MergeEntry, bool), Error> {
    if base is Some && ours is Some && theirs is Some && regular(base->0.mode) && regular(
        ours->0.mode,
    ) && regular(theirs->0.mode) && outcome is Some {
        let mode = taken(base->0.mode, ours->0.mode, theirs->0.mode);
        Ok(
            (
                MergeEntry {
                    mode: match mode {
                        Some(mode) => mode,
                        None => ours->0.mode,
                    },
                    id: outcome->0.id,
                },
                outcome->0.conflicted || mode is None,
            ),
        )
    } else if ours is Some {
        Ok((ours->0, true))
    } else if theirs is Some {
        Ok((theirs->0, true))
    } else {
        Err(Error::InvalidRepository("merge conflict has no materializable side"))
    }
}

/// The stage of an entry, if there is one.
pub open spec fn stage_list(path: Seq<u8>, stage: u8, entry: Option<MergeEntry>) -> Seq<StageModel> {
    match entry {
        Some(entry) => seq![StageModel { path, stage, entry }],
        None => Seq::empty(),
    }
}

/// What is merged so far.
#[verifier::ext_equal]
pub struct MergedModel {
    pub resolved: FlatMap,
    pub conflicts: Seq<ConflictModel>,
}

/// What merging one more path makes.
pub open spec fn merged_one(
    done: MergedModel,
    sides: SidesModel,
    contents: Seq<ContentMerge>,
    path: Seq<u8>,
) -> core::result::Result<MergedModel, Error> {
    let base = entry_at(sides.base, path);
    let ours = entry_at(sides.ours, path);
    let theirs = entry_at(sides.theirs, path);
    match taken(base, ours, theirs) {
        Some(Some(entry)) => Ok(
            MergedModel { resolved: done.resolved.insert(path, entry), ..done },
        ),
        Some(None) => Ok(done),
        None => match shown(base, ours, theirs, outcome_at(contents, path, 0)) {
            Err(error) => Err(error),
            Ok((working, conflicted)) => if conflicted {
                Ok(
                    MergedModel {
                        conflicts: done.conflicts.push(
                            ConflictModel {
                                path,
                                stages: stage_list(path, 1, base) + stage_list(path, 2, ours)
                                    + stage_list(path, 3, theirs),
                                working: seq![(path, working)],
                            },
                        ),
                        ..done
                    },
                )
            } else {
                Ok(MergedModel { resolved: done.resolved.insert(path, working), ..done })
            },
        },
    }
}

/// What merging the first `n` paths makes.
pub open spec fn merged_paths(
    sides: SidesModel,
    contents: Seq<ContentMerge>,
    paths: Seq<Seq<u8>>,
    n: int,
) -> core::result::Result<MergedModel, Error>
    decreases n,
{
    if n <= 0 {
        Ok(MergedModel { resolved: Map::empty(), conflicts: sides.conflicts })
    } else {
        match merged_paths(sides, contents, paths, n - 1) {
            Err(error) => Err(error),
            Ok(done) => merged_one(done, sides, contents, paths[n - 1]),
        }
    }
}

/// The paths that the conflicts show in the working tree.
pub open spec fn shown_paths(list: Seq<ConflictModel>) -> Set<Seq<u8>> {
    Set::new(
        |path: Seq<u8>|
            exists|i: int, j: int|
                0 <= i < list.len() && 0 <= j < list[i].working.len() && (
                #[trigger] list[i].working[j]).0 == path,
    )
}

/// Whether a path of a set is a directory of another.
pub open spec fn collides(set: Set<Seq<u8>>) -> bool {
    exists|path: Seq<u8>, k: int|
        #![trigger set.contains(path), path[k]]
        set.contains(path) && 0 <= k < path.len() && path[k] == 47 && set.contains(path.take(k))
}

/// The merge of two sides from a base, with their exact renames aligned.
#[verifier::opaque]
pub open spec fn merged(
    base: FlatMap,
    ours: FlatMap,
    theirs: FlatMap,
    contents: Seq<ContentMerge>,
    max: usize,
) -> core::result::Result<MergedModel, Error> {
    match aligned_sides(base, ours, theirs, max) {
        Err(error) => Err(error),
        Ok(sides) => {
            let paths = id_set::sorted(
                sides.base.dom().union(sides.ours.dom()).union(sides.theirs.dom()),
            );
            match merged_paths(sides, contents, paths, paths.len() as int) {
                Err(error) => Err(error),
                Ok(done) => if collides(done.resolved.dom().union(shown_paths(done.conflicts))) {
                    Err(Error::InvalidRepository("file/directory merge conflict"))
                } else {
                    Ok(done)
                },
            }
        },
    }
}

/// The result of a merge of trees: what is settled, and the conflicts.
pub struct TreeMerge {
    pub resolved: FlatTree,
    pub conflicts: Vec<Conflict>,
}

impl View for TreeMerge {
    type V = MergedModel;

    open spec fn view(&self) -> MergedModel {
        MergedModel { resolved: self.resolved@, conflicts: conflict_models(self.conflicts@) }
    }
}

fn take_option(
    base: Option<MergeEntry>,
    ours: Option<MergeEntry>,
    theirs: Option<MergeEntry>,
) -> (r: Option<Option<MergeEntry>>)
    ensures
        r == taken(base, ours, theirs),
{
    if same_option(ours, theirs) {
        Some(ours)
    } else if same_option(ours, base) {
        Some(theirs)
    } else if same_option(theirs, base) {
        Some(ours)
    } else {
        None
    }
}

fn find_outcome(contents: &[ContentMerge], path: &[u8]) -> (r: Option<usize>)
    ensures
        match r {
            Some(i) => i < contents@.len() && outcome_at(contents@, path@, 0) == Some(
                contents@[i as int],
            ),
            None => outcome_at(contents@, path@, 0) is None,
        },
{
    let mut i: usize = 0;
    while i < contents.len()
        invariant
            i <= contents@.len(),
            outcome_at(contents@, path@, 0) == outcome_at(contents@, path@, i as int),
        decreases contents@.len() - i,
    {
        if bytes::bytes_eq(contents[i].path.as_slice(), path) {
            return Some(i);
        }
        i += 1;
    }
    None
}

fn is_regular(mode: u32) -> (r: bool)
    ensures
        r == regular(mode),
{
    mode == 0o100644 || mode == 0o100755
}

fn show(
    base: Option<MergeEntry>,
    ours: Option<MergeEntry>,
    theirs: Option<MergeEntry>,
    contents: &[ContentMerge],
    path: &[u8],
) -> (r: Result<(MergeEntry, bool)>)
    ensures
        match shown(base, ours, theirs, outcome_at(contents@, path@, 0)) {
            Ok(value) => r is Ok && r->Ok_0 == value,
            Err(error) => r is Err && r->Err_0 == error,
        },
{
    match (base, ours, theirs) {
        (Some(b), Some(o), Some(t)) => {
            if is_regular(b.mode) && is_regular(o.mode) && is_regular(t.mode) {
                match find_outcome(contents, path) {
                    Some(i) => {
                        let mode: Option<u32> = if o.mode == t.mode {
                            Some(o.mode)
                        } else if o.mode == b.mode {
                            Some(t.mode)
                        } else if t.mode == b.mode {
                            Some(o.mode)
                        } else {
                            None
                        };
                        let outcome = &contents[i];
                        return Ok(
                            (
                                MergeEntry {
                                    mode: match mode {
                                        Some(mode) => mode,
                                        None => o.mode,
                                    },
                                    id: outcome.id,
                                },
                                outcome.conflicted || mode.is_none(),
                            ),
                        );
                    },
                    None => {},
                }
            }
        },
        _ => {},
    }
    match (ours, theirs) {
        (Some(entry), _) => Ok((entry, true)),
        (None, Some(entry)) => Ok((entry, true)),
        (None, None) => Err(Error::InvalidRepository("merge conflict has no materializable side")),
    }
}

fn push_stage(stages: &mut Vec<ConflictStage>, path: &[u8], stage: u8, entry: Option<MergeEntry>)
    ensures
        stage_models(final(stages)@) == stage_models(old(stages)@) + stage_list(path@, stage, entry),
{
    match entry {
        Some(entry) => {
            let ghost before = stages@;
            stages.push(stage_of(path, stage, entry));
            assert(stage_models(stages@) =~= stage_models(before) + stage_list(
                path@,
                stage,
                Some(entry),
            ));
        },
        None => {
            assert(stage_models(stages@) =~= stage_models(stages@) + stage_list(path@, stage, None));
        },
    }
}

fn merge_one(done: &mut TreeMerge, sides: &Sides, contents: &[ContentMerge], path: &[u8]) -> (r: Result<
    (),
>)
    ensures
        match merged_one(old(done)@, sides.model(), contents@, path@) {
            Ok(after) => r is Ok && final(done)@ == after,
            Err(error) => r is Err && r->Err_0 == error,
        },
{
    let base = sides.base.get(path);
    let ours = sides.ours.get(path);
    let theirs = sides.theirs.get(path);
    match take_option(base, ours, theirs) {
        Some(Some(entry)) => {
            let _ = done.resolved.insert(bytes::to_vec(path), entry);
        },
        Some(None) => {},
        None => {
            let (working, conflicted) = show(base, ours, theirs, contents, path)?;
            if conflicted {
                let mut stages: Vec<ConflictStage> = Vec::new();
                assert(stage_models(stages@) =~= Seq::empty());
                push_stage(&mut stages, path, 1, base);
                push_stage(&mut stages, path, 2, ours);
                push_stage(&mut stages, path, 3, theirs);
                assert(stage_models(stages@) =~= stage_list(path@, 1, base) + stage_list(
                    path@,
                    2,
                    ours,
                ) + stage_list(path@, 3, theirs));
                let mut shows: Vec<(Vec<u8>, MergeEntry)> = Vec::new();
                shows.push((bytes::to_vec(path), working));
                assert(working_models(shows@) =~= seq![(path@, working)]);
                let conflict = Conflict { path: bytes::to_vec(path), stages, working: shows };
                push_conflict(&mut done.conflicts, Some(conflict));
            } else {
                let _ = done.resolved.insert(bytes::to_vec(path), working);
            }
        },
    }
    Ok(())
}

proof fn lemma_merged_persists(
    sides: SidesModel,
    contents: Seq<ContentMerge>,
    paths: Seq<Seq<u8>>,
    n: int,
    m: int,
)
    requires
        0 <= n <= m,
        merged_paths(sides, contents, paths, n) is Err,
    ensures
        merged_paths(sides, contents, paths, m) == merged_paths(sides, contents, paths, n),
    decreases m - n,
{
    if n < m {
        lemma_merged_persists(sides, contents, paths, n, m - 1);
    }
}

/// The paths of all sides of a merge.
fn all_paths(sides: &Sides) -> (r: ByteMap<bool>)
    ensures
        r.wf(),
        r.keys() == id_set::sorted(
            sides.model().base.dom().union(sides.model().ours.dom()).union(
                sides.model().theirs.dom(),
            ),
        ),
{
    let mut set: ByteMap<bool> = ByteMap::new();
    add_keys(&mut set, &sides.base.entries);
    add_keys(&mut set, &sides.ours.entries);
    add_keys(&mut set, &sides.theirs.entries);
    let _ = set.len();
    proof {
        lemma_keys(set);
        assert(set@.dom() =~= sides.base@.dom().union(sides.ours@.dom()).union(
            sides.theirs@.dom(),
        ));
    }
    set
}

/// Tells whether a path of a set is a directory of another.
fn has_collision(set: &ByteMap<bool>) -> (r: bool)
    ensures
        r == collides(set@.dom()),
{
    let n: usize = set.len();
    let ghost keys = set.keys();
    let ghost dom = set@.dom();
    proof {
        lemma_keys(*set);
    }
    let mut i: usize = 0;
    while i < n
        invariant
            i <= n,
            n == keys.len(),
            keys == set.keys(),
            dom == set@.dom(),
            keys.to_set() == dom,
            forall|a: int, k: int|
                0 <= a < i && 0 <= k < keys[a].len() && #[trigger] keys[a][k] == 47
                    ==> !dom.contains(keys[a].take(k)),
        decreases n - i,
    {
        let path = set.key_at(i).as_slice();
        let mut k: usize = 0;
        while k < path.len()
            invariant
                i < n,
                n == keys.len(),
                k <= path@.len(),
                dom == set@.dom(),
                path@ == keys[i as int],
                set@.contains_key(path@),
                forall|j: int|
                    0 <= j < k && #[trigger] path@[j] == 47 ==> !dom.contains(path@.take(j)),
            decreases path@.len() - k,
        {
            if path[k] == 47 {
                let front = &path[0..k];
                assert(front@ =~= path@.take(k as int));
                if set.contains(front) {
                    assert(dom.contains(path@) && path@[k as int] == 47 && dom.contains(
                        path@.take(k as int),
                    ));
                    return true;
                }
            }
            k += 1;
        }
        i += 1;
    }
    proof {
        if collides(dom) {
            let (path, k) = choose|path: Seq<u8>, k: int|
                #![trigger dom.contains(path), path[k]]
                dom.contains(path) && 0 <= k < path.len() && path[k] == 47 && dom.contains(
                    path.take(k),
                );
            assert(keys.to_set().contains(path));
            assert(keys.contains(path));
            let a = keys.index_of(path);
            assert(keys[a][k] == 47);
        }
    }
    false
}

/// Puts the paths that conflicts show into a set.
fn add_shown(set: &mut ByteMap<bool>, list: &Vec<Conflict>)
    ensures
        final(set)@.dom() == old(set)@.dom().union(shown_paths(conflict_models(list@))),
{
    let ghost all = conflict_models(list@);
    let ghost start = set@.dom();
    let mut i: usize = 0;
    while i < list.len()
        invariant
            i <= list@.len(),
            all == conflict_models(list@),
            start == old(set)@.dom(),
            forall|x: Seq<u8>| #[trigger]
                set@.dom().contains(x) <==> start.contains(x) || exists|a: int, b: int|
                    0 <= a < i && 0 <= b < all[a].working.len() && (#[trigger] all[a].working[b]).0
                        == x,
        decreases list@.len() - i,
    {
        let working = &list[i].working;
        assert(all[i as int].working == working_models(working@));
        let ghost before = set@.dom();
        let mut j: usize = 0;
        while j < working.len()
            invariant
                i < list@.len(),
                j <= working@.len(),
                all == conflict_models(list@),
                all[i as int].working == working_models(working@),
                forall|x: Seq<u8>| #[trigger]
                    set@.dom().contains(x) <==> before.contains(x) || exists|b: int|
                        0 <= b < j && (#[trigger] all[i as int].working[b]).0 == x,
            decreases working@.len() - j,
        {
            let ghost middle = set@.dom();
            let _ = set.insert(bytes::to_vec(working[j].0.as_slice()), true);
            proof {
                let new = working@[j as int].0@;
                assert(all[i as int].working[j as int].0 == new);
                assert(set@.dom() =~= middle.insert(new));
                assert forall|x: Seq<u8>| #[trigger]
                    set@.dom().contains(x) <==> before.contains(x) || exists|b: int|
                        0 <= b < j + 1 && (#[trigger] all[i as int].working[b]).0 == x by {
                    if before.contains(x) {
                        assert(middle.contains(x));
                    }
                    if exists|b: int|
                        0 <= b < j + 1 && (#[trigger] all[i as int].working[b]).0 == x {
                        let b = choose|b: int|
                            0 <= b < j + 1 && (#[trigger] all[i as int].working[b]).0 == x;
                        if b < j {
                            assert(middle.contains(x));
                        }
                    }
                }
            }
            j += 1;
        }
        proof {
            assert forall|x: Seq<u8>| #[trigger]
                set@.dom().contains(x) <==> start.contains(x) || exists|a: int, b: int|
                    0 <= a < i + 1 && 0 <= b < all[a].working.len() && (
                    #[trigger] all[a].working[b]).0 == x by {
                assert(before.contains(x) <==> start.contains(x) || exists|a: int, b: int|
                    0 <= a < i && 0 <= b < all[a].working.len() && (#[trigger] all[a].working[b]).0
                        == x);
            }
        }
        i += 1;
    }
    assert(set@.dom() =~= start.union(shown_paths(all)));
}

fn merge_aligned(sides: Sides, contents: &[ContentMerge]) -> (r: Result<TreeMerge>)
    ensures
        ({
            let m = sides.model();
            let paths = id_set::sorted(m.base.dom().union(m.ours.dom()).union(m.theirs.dom()));
            match merged_paths(m, contents@, paths, paths.len() as int) {
                Err(error) => r is Err && r->Err_0 == error,
                Ok(done) => r is Ok && r->Ok_0@ == done,
            }
        }),
{
    let set = all_paths(&sides);
    let n: usize = set.len();
    let ghost paths = set.keys();
    let ghost m = sides.model();
    let mut sides = sides;
    let mut conflicts: Vec<Conflict> = Vec::new();
    std::mem::swap(&mut conflicts, &mut sides.conflicts);
    let mut done = TreeMerge { resolved: FlatTree::new(), conflicts };
    let ghost now = sides.model();
    let mut i: usize = 0;
    while i < n
        invariant
            i <= n,
            n == paths.len(),
            paths == set.keys(),
            now == sides.model(),
            now.base == m.base && now.ours == m.ours && now.theirs == m.theirs,
            merged_paths(m, contents@, paths, i as int) == Ok::<MergedModel, Error>(done@),
        decreases n - i,
    {
        proof {
            if merged_paths(m, contents@, paths, i + 1) is Err {
                lemma_merged_persists(m, contents@, paths, i + 1, n as int);
            }
        }
        let path = set.key_at(i);
        assert(merged_one(done@, m, contents@, path@) == merged_one(done@, now, contents@, path@));
        merge_one(&mut done, &sides, contents, path.as_slice())?;
        i += 1;
    }
    Ok(done)
}

/// Merges two sides from a base: exact renames are aligned, changes of one
/// side are taken, and where both changed a text its merged contents decide.
pub fn merge_flat(
    base: FlatTree,
    ours: FlatTree,
    theirs: FlatTree,
    contents: &[ContentMerge],
    max_rename_comparisons: usize,
) -> (r: Result<TreeMerge>)
    ensures
        match merged(base@, ours@, theirs@, contents@, max_rename_comparisons) {
            Ok(done) => r is Ok && r->Ok_0@ == done,
            Err(error) => r is Err && r->Err_0 == error,
        },
{
    reveal(merged);
    let sides = align_exact_renames(base, ours, theirs, max_rename_comparisons)?;
    let done = merge_aligned(sides, contents)?;
    let mut set: ByteMap<bool> = ByteMap::new();
    add_keys(&mut set, &done.resolved.entries);
    add_shown(&mut set, &done.conflicts);
    proof {
        assert(set@.dom() =~= done@.resolved.dom().union(shown_paths(done@.conflicts)));
    }
    if has_collision(&set) {
        return Err(Error::InvalidRepository("file/directory merge conflict"));
    }
    Ok(done)
}

/// A path whose contents have to be merged, with the blobs of the three
/// sides.
#[derive(Debug, PartialEq, Eq)]
pub struct ContentQuestion {
    pub path: Vec<u8>,
    pub base: ObjectId,
    pub ours: ObjectId,
    pub theirs: ObjectId,
}

/// What a question asks.
#[verifier::ext_equal]
pub struct QuestionModel {
    pub path: Seq<u8>,
    pub base: ObjectId,
    pub ours: ObjectId,
    pub theirs: ObjectId,
}

pub open spec fn question_models(list: Seq<ContentQuestion>) -> Seq<QuestionModel> {
    Seq::new(
        list.len(),
        |i: int|
            QuestionModel {
                path: list[i].path@,
                base: list[i].base,
                ours: list[i].ours,
                theirs: list[i].theirs,
            },
    )
}

/// Whether the contents of a path have to be merged.
pub open spec fn asks(sides: SidesModel, path: Seq<u8>) -> bool {
    let base = entry_at(sides.base, path);
    let ours = entry_at(sides.ours, path);
    let theirs = entry_at(sides.theirs, path);
    taken(base, ours, theirs) is None && base is Some && ours is Some && theirs is Some
        && regular(base->0.mode) && regular(ours->0.mode) && regular(theirs->0.mode)
}

/// The questions of the first `n` paths.
pub open spec fn questions(sides: SidesModel, paths: Seq<Seq<u8>>, n: int) -> Seq<QuestionModel>
    decreases n,
{
    if n <= 0 {
        Seq::empty()
    } else {
        let before = questions(sides, paths, n - 1);
        let path = paths[n - 1];
        if asks(sides, path) {
            before.push(
                QuestionModel {
                    path,
                    base: sides.base[path].id,
                    ours: sides.ours[path].id,
                    theirs: sides.theirs[path].id,
                },
            )
        } else {
            before
        }
    }
}

/// Lists the paths whose contents have to be merged before the trees can be.
pub fn content_questions(
    base: FlatTree,
    ours: FlatTree,
    theirs: FlatTree,
    max_rename_comparisons: usize,
) -> (r: Result<Vec<ContentQuestion>>)
    ensures
        match aligned_sides(base@, ours@, theirs@, max_rename_comparisons) {
            Err(error) => r is Err && r->Err_0 == error,
            Ok(sides) => {
                let paths = id_set::sorted(
                    sides.base.dom().union(sides.ours.dom()).union(sides.theirs.dom()),
                );
                r is Ok && question_models(r->Ok_0@) == questions(
                    sides,
                    paths,
                    paths.len() as int,
                )
            },
        },
{
    let sides = align_exact_renames(base, ours, theirs, max_rename_comparisons)?;
    let ghost m = sides.model();
    let set = all_paths(&sides);
    let n: usize = set.len();
    let ghost paths = set.keys();
    let mut out: Vec<ContentQuestion> = Vec::new();
    assert(question_models(out@) =~= Seq::empty());
    let mut i: usize = 0;
    while i < n
        invariant
            i <= n,
            n == paths.len(),
            paths == set.keys(),
            m == sides.model(),
            question_models(out@) == questions(m, paths, i as int),
        decreases n - i,
    {
        let path = set.key_at(i).as_slice();
        let b = sides.base.get(path);
        let o = sides.ours.get(path);
        let t = sides.theirs.get(path);
        if take_option(b, o, t).is_none() {
            match (b, o, t) {
                (Some(b), Some(o), Some(t)) => {
                    if is_regular(b.mode) && is_regular(o.mode) && is_regular(t.mode) {
                        let ghost before = out@;
                        out.push(
                            ContentQuestion {
                                path: bytes::to_vec(path),
                                base: b.id,
                                ours: o.id,
                                theirs: t.id,
                            },
                        );
                        assert(question_models(out@) =~= question_models(before).push(
                            question_models(out@).last(),
                        ));
                    }
                },
                _ => {},
            }
        }
        i += 1;
    }
    Ok(out)
}

// ---------------------------------------------------------------------------
// What merging keeps

/// A merge does not depend on which side is called ours.
pub proof fn lemma_taken_symmetric<T>(base: T, ours: T, theirs: T)
    ensures
        taken(base, ours, theirs) == taken(base, theirs, ours),
{
}

/// Where a side is the base, or both sides are the same, the merge of aligned
/// sides is the side that changed, without a conflict.
pub proof fn lemma_one_side_wins(
    sides: SidesModel,
    winner: FlatMap,
    contents: Seq<ContentMerge>,
    paths: Seq<Seq<u8>>,
)
    requires
        sides.ours == sides.theirs && winner == sides.ours || sides.ours == sides.base && winner
            == sides.theirs || sides.theirs == sides.base && winner == sides.ours,
        paths.to_set() == sides.base.dom().union(sides.ours.dom()).union(sides.theirs.dom()),
    ensures
        merged_paths(sides, contents, paths, paths.len() as int) == Ok::<MergedModel, Error>(
            MergedModel { resolved: winner, conflicts: sides.conflicts },
        ),
{
    lemma_one_side_wins_to(sides, winner, contents, paths, paths.len() as int);
    let done = merged_paths(sides, contents, paths, paths.len() as int)->Ok_0;
    assert(done.resolved =~= winner) by {
        assert forall|path: Seq<u8>| winner.contains_key(path) implies done.resolved.contains_key(
            path,
        ) by {
            assert(paths.to_set().contains(path));
            let k = paths.index_of(path);
            assert(paths[k] == path);
        }
    }
}

proof fn lemma_one_side_wins_to(
    sides: SidesModel,
    winner: FlatMap,
    contents: Seq<ContentMerge>,
    paths: Seq<Seq<u8>>,
    n: int,
)
    requires
        sides.ours == sides.theirs && winner == sides.ours || sides.ours == sides.base && winner
            == sides.theirs || sides.theirs == sides.base && winner == sides.ours,
        0 <= n <= paths.len(),
    ensures
        merged_paths(sides, contents, paths, n) is Ok,
        ({
            let done = merged_paths(sides, contents, paths, n)->Ok_0;
            &&& done.conflicts == sides.conflicts
            &&& forall|path: Seq<u8>| #[trigger]
                done.resolved.contains_key(path) ==> winner.contains_key(path)
                    && done.resolved[path] == winner[path]
            &&& forall|k: int|
                0 <= k < n && winner.contains_key(#[trigger] paths[k])
                    ==> done.resolved.contains_key(paths[k])
        }),
    decreases n,
{
    if n > 0 {
        lemma_one_side_wins_to(sides, winner, contents, paths, n - 1);
        let path = paths[n - 1];
        assert(taken(
            entry_at(sides.base, path),
            entry_at(sides.ours, path),
            entry_at(sides.theirs, path),
        ) == Some(entry_at(winner, path)));
    }
}

} // verus!
