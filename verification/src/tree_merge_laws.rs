//! Laws about merges of trees, path by path: what is settled, what is in
//! conflict and how it is shown, and how renames are followed.

use vstd::prelude::*;

use crate::bytemap;
use crate::flat_tree;
use crate::flat_tree::{
    ConflictModel, ContentMerge, FlatMap, MergeEntry, MergedModel, SidesModel, StageModel,
};
use crate::fs::memory;
use crate::fs::Refusal;
use crate::id_set;
use crate::merge;
use crate::Error;

verus! {

/// What a map has at a path.
pub open spec fn at(map: FlatMap, path: Seq<u8>) -> Option<MergeEntry> {
    if map.contains_key(path) {
        Some(map[path])
    } else {
        None
    }
}

/// Whether an entry is a regular file.
pub open spec fn is_regular(entry: Option<MergeEntry>) -> bool {
    entry matches Some(entry) && (entry.mode == 0o100644 || entry.mode == 0o100755)
}

/// Whether an outcome of merging texts is the first one for a path.
pub open spec fn has_outcome(
    contents: Seq<ContentMerge>,
    path: Seq<u8>,
    outcome: ContentMerge,
) -> bool {
    exists|i: int|
        0 <= i < contents.len() && #[trigger] contents[i] == outcome && outcome.path@ == path
            && forall|j: int| 0 <= j < i ==> (#[trigger] contents[j]).path@ != path
}

pub open spec fn has_no_outcome(contents: Seq<ContentMerge>, path: Seq<u8>) -> bool {
    forall|i: int| 0 <= i < contents.len() ==> (#[trigger] contents[i]).path@ != path
}

/// Whether a conflict has an entry at a stage, or none there.
pub open spec fn has_stage(c: ConflictModel, path: Seq<u8>, stage: u8, entry: Option<MergeEntry>) -> bool {
    match entry {
        Some(entry) => exists|k: int|
            0 <= k < c.stages.len() && #[trigger] c.stages[k] == (StageModel {
                path,
                stage,
                entry,
            }),
        None => forall|k: int| 0 <= k < c.stages.len() ==> (#[trigger] c.stages[k]).stage != stage,
    }
}

/// Whether a conflict is at a path and has a stage for each side that has the
/// path, and whether the working tree shows an entry of it.
pub open spec fn is_conflict(
    c: ConflictModel,
    path: Seq<u8>,
    base: Option<MergeEntry>,
    ours: Option<MergeEntry>,
    theirs: Option<MergeEntry>,
    working: MergeEntry,
) -> bool {
    &&& c.path == path
    &&& has_stage(c, path, 1, base)
    &&& has_stage(c, path, 2, ours)
    &&& has_stage(c, path, 3, theirs)
    &&& c.working == seq![(path, working)]
}

/// Whether a merge found a conflict after some that were known.
pub open spec fn found(
    m: MergedModel,
    known: nat,
    path: Seq<u8>,
    base: Option<MergeEntry>,
    ours: Option<MergeEntry>,
    theirs: Option<MergeEntry>,
    working: MergeEntry,
) -> bool {
    exists|k: int|
        known <= k < m.conflicts.len() && is_conflict(
            #[trigger] m.conflicts[k],
            path,
            base,
            ours,
            theirs,
            working,
        )
}

pub open spec fn found_none(m: MergedModel, known: nat, path: Seq<u8>) -> bool {
    forall|k: int| known <= k < m.conflicts.len() ==> (#[trigger] m.conflicts[k]).path != path
}

/// The mode that two sides leave a file with, where they agree: the one that
/// both have, or that one alone gave it.
pub open spec fn agreed_mode(base: u32, ours: u32, theirs: u32) -> Option<u32> {
    if ours == theirs || theirs == base {
        Some(ours)
    } else if ours == base {
        Some(theirs)
    } else {
        None
    }
}

/// Whether a merge decides rightly of a path, given what the base and the two
/// sides have there.
///
/// Where both sides have the same, that is taken; where one side left the path
/// as it was, what the other made of it. Else three regular files whose texts
/// were merged without a conflict, and whose modes agree, become a file with
/// the merged text. All else is in conflict: the path is not settled, the
/// conflict has a stage for each side that has the path, and the working tree
/// shows the merged text, or else our file, or theirs where we have none.
pub open spec fn is_decided(
    m: MergedModel,
    known: nat,
    contents: Seq<ContentMerge>,
    path: Seq<u8>,
    base: Option<MergeEntry>,
    ours: Option<MergeEntry>,
    theirs: Option<MergeEntry>,
) -> bool {
    let settled = at(m.resolved, path);
    if ours == theirs || theirs == base {
        settled == ours && found_none(m, known, path)
    } else if ours == base {
        settled == theirs && found_none(m, known, path)
    } else if is_regular(base) && is_regular(ours) && is_regular(theirs) && !has_no_outcome(
        contents,
        path,
    ) {
        exists|outcome: ContentMerge|
            #![trigger has_outcome(contents, path, outcome)]
            has_outcome(contents, path, outcome) && match agreed_mode(
                base->0.mode,
                ours->0.mode,
                theirs->0.mode,
            ) {
                Some(mode) if !outcome.conflicted => settled == Some(
                    MergeEntry { mode, id: outcome.id },
                ) && found_none(m, known, path),
                mode => settled is None && found(
                    m,
                    known,
                    path,
                    base,
                    ours,
                    theirs,
                    MergeEntry {
                        mode: match mode {
                            Some(mode) => mode,
                            None => ours->0.mode,
                        },
                        id: outcome.id,
                    },
                ),
            }
    } else {
        settled is None && found(
            m,
            known,
            path,
            base,
            ours,
            theirs,
            if ours is Some {
                ours->0
            } else {
                theirs->0
            },
        )
    }
}

proof fn lemma_outcome(contents: Seq<ContentMerge>, path: Seq<u8>, from: int)
    requires
        0 <= from <= contents.len(),
        forall|j: int| 0 <= j < from ==> (#[trigger] contents[j]).path@ != path,
    ensures
        match flat_tree::outcome_at(contents, path, from) {
            Some(outcome) => has_outcome(contents, path, outcome),
            None => has_no_outcome(contents, path),
        },
    decreases contents.len() - from,
{
    if from < contents.len() {
        if contents[from].path@ == path {
            assert(has_outcome(contents, path, contents[from]));
        } else {
            lemma_outcome(contents, path, from + 1);
        }
    }
}

proof fn lemma_stages(
    path: Seq<u8>,
    base: Option<MergeEntry>,
    ours: Option<MergeEntry>,
    theirs: Option<MergeEntry>,
    working: MergeEntry,
)
    ensures
        is_conflict(
            ConflictModel {
                path,
                stages: flat_tree::stage_list(path, 1, base) + flat_tree::stage_list(
                    path,
                    2,
                    ours,
                ) + flat_tree::stage_list(path, 3, theirs),
                working: seq![(path, working)],
            },
            path,
            base,
            ours,
            theirs,
            working,
        ),
{
    let a = flat_tree::stage_list(path, 1, base);
    let b = flat_tree::stage_list(path, 2, ours);
    let c = flat_tree::stage_list(path, 3, theirs);
    let all = a + b + c;
    let made = ConflictModel { path, stages: all, working: seq![(path, working)] };
    assert forall|k: int| 0 <= k < all.len() implies {
        &&& k < a.len() ==> #[trigger] all[k] == a[k]
        &&& a.len() <= k < a.len() + b.len() ==> all[k] == b[k - a.len()]
        &&& a.len() + b.len() <= k ==> all[k] == c[k - a.len() - b.len()]
    } by {}
    assert(has_stage(made, path, 1, base)) by {
        if base is Some {
            assert(made.stages[0] == a[0]);
        } else {
            assert forall|k: int| 0 <= k < made.stages.len() implies (
            #[trigger] made.stages[k]).stage != 1 by {}
        }
    }
    assert(has_stage(made, path, 2, ours)) by {
        if ours is Some {
            assert(made.stages[a.len() as int] == b[0]);
        } else {
            assert forall|k: int| 0 <= k < made.stages.len() implies (
            #[trigger] made.stages[k]).stage != 2 by {}
        }
    }
    assert(has_stage(made, path, 3, theirs)) by {
        if theirs is Some {
            assert(made.stages[(a.len() + b.len()) as int] == c[0]);
        } else {
            assert forall|k: int| 0 <= k < made.stages.len() implies (
            #[trigger] made.stages[k]).stage != 3 by {}
        }
    }
}

/// One more path is decided, and nothing changes for the others.
#[verifier::spinoff_prover]
proof fn lemma_one_decided(
    done: MergedModel,
    sides: SidesModel,
    contents: Seq<ContentMerge>,
    path: Seq<u8>,
    known: nat,
)
    requires
        known <= done.conflicts.len(),
        at(done.resolved, path) is None,
        found_none(done, known, path),
    ensures
        flat_tree::merged_one(done, sides, contents, path) matches Ok(m) && {
            &&& is_decided(
                m,
                known,
                contents,
                path,
                at(sides.base, path),
                at(sides.ours, path),
                at(sides.theirs, path),
            )
            &&& done.conflicts.len() <= m.conflicts.len()
            &&& m.conflicts.take(done.conflicts.len() as int) == done.conflicts
            &&& forall|k: int|
                done.conflicts.len() <= k < m.conflicts.len() ==> (#[trigger] m.conflicts[k]).path
                    == path
            &&& forall|p: Seq<u8>| p != path ==> #[trigger] at(m.resolved, p) == at(
                done.resolved,
                p,
            )
        },
{
    let base = at(sides.base, path);
    let ours = at(sides.ours, path);
    let theirs = at(sides.theirs, path);
    lemma_outcome(contents, path, 0);
    let m = flat_tree::merged_one(done, sides, contents, path)->Ok_0;
    assert(m.conflicts.take(done.conflicts.len() as int) =~= done.conflicts);
    if m.conflicts.len() > done.conflicts.len() {
        let c = m.conflicts[done.conflicts.len() as int];
        lemma_stages(path, base, ours, theirs, c.working[0].1);
        assert(is_conflict(c, path, base, ours, theirs, c.working[0].1));
        assert(found(m, known, path, base, ours, theirs, c.working[0].1));
    } else {
        assert(found_none(m, known, path));
    }
}

/// What is decided of a path stays as others are decided.
proof fn lemma_decided_stays(
    before: MergedModel,
    after: MergedModel,
    known: nat,
    contents: Seq<ContentMerge>,
    path: Seq<u8>,
    other: Seq<u8>,
    base: Option<MergeEntry>,
    ours: Option<MergeEntry>,
    theirs: Option<MergeEntry>,
)
    requires
        known <= before.conflicts.len() <= after.conflicts.len(),
        after.conflicts.take(before.conflicts.len() as int) == before.conflicts,
        forall|k: int|
            before.conflicts.len() <= k < after.conflicts.len() ==> (
            #[trigger] after.conflicts[k]).path == other,
        path != other,
        at(after.resolved, path) == at(before.resolved, path),
        is_decided(before, known, contents, path, base, ours, theirs),
    ensures
        is_decided(after, known, contents, path, base, ours, theirs),
{
    let n = before.conflicts.len() as int;
    assert forall|k: int| 0 <= k < n implies after.conflicts[k] == before.conflicts[k] by {
        assert(after.conflicts.take(n)[k] == before.conflicts[k]);
    }
    if found_none(before, known, path) {
        assert(found_none(after, known, path));
    }
    assert forall|working: MergeEntry| #[trigger]
        found(before, known, path, base, ours, theirs, working) implies found(
        after,
        known,
        path,
        base,
        ours,
        theirs,
        working,
    ) by {
        let k = choose|k: int|
            known <= k < n && is_conflict(
                #[trigger] before.conflicts[k],
                path,
                base,
                ours,
                theirs,
                working,
            );
        assert(is_conflict(after.conflicts[k], path, base, ours, theirs, working));
    }
    if is_regular(base) && is_regular(ours) && is_regular(theirs) && !has_no_outcome(
        contents,
        path,
    ) && ours != theirs && ours != base && theirs != base {
        let outcome = choose|outcome: ContentMerge|
            #![trigger has_outcome(contents, path, outcome)]
            has_outcome(contents, path, outcome) && match agreed_mode(
                base->0.mode,
                ours->0.mode,
                theirs->0.mode,
            ) {
                Some(mode) if !outcome.conflicted => at(before.resolved, path) == Some(
                    MergeEntry { mode, id: outcome.id },
                ) && found_none(before, known, path),
                mode => at(before.resolved, path) is None && found(
                    before,
                    known,
                    path,
                    base,
                    ours,
                    theirs,
                    MergeEntry {
                        mode: match mode {
                            Some(mode) => mode,
                            None => ours->0.mode,
                        },
                        id: outcome.id,
                    },
                ),
            };
        assert(has_outcome(contents, path, outcome));
    }
}

proof fn lemma_paths_decided(
    sides: SidesModel,
    contents: Seq<ContentMerge>,
    paths: Seq<Seq<u8>>,
    n: int,
)
    requires
        0 <= n <= paths.len(),
        paths.no_duplicates(),
    ensures
        flat_tree::merged_paths(sides, contents, paths, n) matches Ok(m) && {
            let known = sides.conflicts.len();
            &&& known <= m.conflicts.len()
            &&& m.conflicts.take(known as int) == sides.conflicts
            &&& forall|i: int|
                0 <= i < n ==> is_decided(
                    m,
                    known,
                    contents,
                    #[trigger] paths[i],
                    at(sides.base, paths[i]),
                    at(sides.ours, paths[i]),
                    at(sides.theirs, paths[i]),
                )
            &&& forall|p: Seq<u8>|
                !paths.take(n).contains(p) ==> #[trigger] at(m.resolved, p) is None && found_none(
                    m,
                    known,
                    p,
                )
        },
    decreases n,
{
    let known = sides.conflicts.len();
    if n <= 0 {
        assert(sides.conflicts.take(known as int) =~= sides.conflicts);
    } else {
        lemma_paths_decided(sides, contents, paths, n - 1);
        let before = flat_tree::merged_paths(sides, contents, paths, n - 1)->Ok_0;
        let path = paths[n - 1];
        assert(!paths.take(n - 1).contains(path)) by {
            if paths.take(n - 1).contains(path) {
                let k = paths.take(n - 1).index_of(path);
                assert(paths[k] == paths[n - 1]);
            }
        }
        assert(at(before.resolved, path) is None && found_none(before, known, path));
        lemma_one_decided(before, sides, contents, path, known);
        let m = flat_tree::merged_paths(sides, contents, paths, n)->Ok_0;
        assert(m.conflicts.take(known as int) =~= m.conflicts.take(
            before.conflicts.len() as int,
        ).take(known as int));
        assert forall|i: int| 0 <= i < n implies is_decided(
            m,
            known,
            contents,
            #[trigger] paths[i],
            at(sides.base, paths[i]),
            at(sides.ours, paths[i]),
            at(sides.theirs, paths[i]),
        ) by {
            if i < n - 1 {
                lemma_decided_stays(
                    before,
                    m,
                    known,
                    contents,
                    paths[i],
                    path,
                    at(sides.base, paths[i]),
                    at(sides.ours, paths[i]),
                    at(sides.theirs, paths[i]),
                );
            }
        }
        assert forall|p: Seq<u8>| !paths.take(n).contains(p) implies #[trigger] at(
            m.resolved,
            p,
        ) is None && found_none(m, known, p) by {
            assert(paths.take(n)[n - 1] == path);
            assert(!paths.take(n - 1).contains(p)) by {
                if paths.take(n - 1).contains(p) {
                    let k = paths.take(n - 1).index_of(p);
                    assert(paths.take(n)[k] == p);
                }
            }
            assert(at(before.resolved, p) is None && found_none(before, known, p));
            assert forall|k: int| known <= k < m.conflicts.len() implies (
            #[trigger] m.conflicts[k]).path != p by {
                if k < before.conflicts.len() {
                    assert(m.conflicts.take(before.conflicts.len() as int)[k]
                        == before.conflicts[k]);
                }
            }
        }
    }
}

spec fn all_finite(sides: SidesModel) -> bool {
    sides.base.dom().finite() && sides.ours.dom().finite() && sides.theirs.dom().finite()
}

proof fn lemma_aligned_finite(
    sides: SidesModel,
    a: Map<Seq<u8>, Seq<u8>>,
    b: Map<Seq<u8>, Seq<u8>>,
    paths: Seq<Seq<u8>>,
    n: int,
)
    requires
        all_finite(sides),
        flat_tree::aligned(sides, a, b, paths, n) is Ok,
    ensures
        all_finite(flat_tree::aligned(sides, a, b, paths, n)->Ok_0),
    decreases n,
{
    if n > 0 {
        lemma_aligned_finite(sides, a, b, paths, n - 1);
        let before = flat_tree::aligned(sides, a, b, paths, n - 1)->Ok_0;
        let after = flat_tree::aligned(sides, a, b, paths, n)->Ok_0;
        let from = paths[n - 1];
        let x = flat_tree::renamed_to(a, from);
        let y = flat_tree::renamed_to(b, from);
        let u = if x is Some {
            x->0
        } else {
            from
        };
        let v = if y is Some {
            y->0
        } else {
            from
        };
        lemma_within(before.base, after.base, from, u, v);
        lemma_within(before.ours, after.ours, from, u, v);
        lemma_within(before.theirs, after.theirs, from, u, v);
    }
}

proof fn lemma_within(before: FlatMap, after: FlatMap, a: Seq<u8>, b: Seq<u8>, c: Seq<u8>)
    requires
        before.dom().finite(),
        forall|p: Seq<u8>| #[trigger]
            after.contains_key(p) ==> before.contains_key(p) || p == a || p == b || p == c,
    ensures
        after.dom().finite(),
{
    let more = before.dom().insert(a).insert(b).insert(c);
    assert(after.dom().subset_of(more));
    vstd::set_lib::lemma_set_subset_finite(more, after.dom());
}

/// A merge decides rightly of every path, once the renames of the two sides
/// are aligned.
pub proof fn lemma_every_path_is_decided(
    base: FlatMap,
    ours: FlatMap,
    theirs: FlatMap,
    contents: Seq<ContentMerge>,
    max: usize,
    path: Seq<u8>,
)
    requires
        base.dom().finite() && ours.dom().finite() && theirs.dom().finite(),
        flat_tree::merged(base, ours, theirs, contents, max) is Ok,
    ensures
        ({
            let m = flat_tree::merged(base, ours, theirs, contents, max)->Ok_0;
            flat_tree::aligned_sides(base, ours, theirs, max) matches Ok(sides) && {
                &&& is_decided(
                    m,
                    sides.conflicts.len(),
                    contents,
                    path,
                    at(sides.base, path),
                    at(sides.ours, path),
                    at(sides.theirs, path),
                )
                &&& sides.conflicts.len() <= m.conflicts.len()
                &&& m.conflicts.take(sides.conflicts.len() as int) == sides.conflicts
            }
        }),
{
    reveal(flat_tree::merged);
    let m = flat_tree::merged(base, ours, theirs, contents, max)->Ok_0;
    let sides = flat_tree::aligned_sides(base, ours, theirs, max)->Ok_0;
    let a = flat_tree::renames_of(base, ours, max)->Ok_0;
    let b = flat_tree::renames_of(base, theirs, max)->Ok_0;
    let renamed = id_set::sorted(a.dom().union(b.dom()));
    lemma_aligned_finite(
        SidesModel { base, ours, theirs, conflicts: Seq::empty() },
        a,
        b,
        renamed,
        renamed.len() as int,
    );
    let union = sides.base.dom().union(sides.ours.dom()).union(sides.theirs.dom());
    id_set::lemma_sorted_exists(union);
    let paths = id_set::sorted(union);
    id_set::lemma_sorted(paths);
    lemma_paths_decided(sides, contents, paths, paths.len() as int);
    assert(paths.take(paths.len() as int) =~= paths);
    if paths.contains(path) {
        let i = paths.index_of(path);
        assert(paths[i] == path);
    } else {
        assert(!union.contains(path)) by {
            if union.contains(path) {
                assert(paths.to_set().contains(path));
            }
        }
        assert(at(m.resolved, path) is None);
        assert(at(sides.ours, path) is None && at(sides.theirs, path) is None);
    }
}

// ---------------------------------------------------------------------------
// Renames

/// Whether a side removed no path whose entry it added elsewhere.
pub open spec fn renames_nothing(base: FlatMap, side: FlatMap) -> bool {
    forall|p: Seq<u8>, q: Seq<u8>| #[trigger]
        base.contains_key(p) && !side.contains_key(p) && #[trigger] side.contains_key(q)
            && !base.contains_key(q) ==> base[p] != side[q]
}

proof fn lemma_no_candidates(base: FlatMap, side: FlatMap, used: Set<Seq<u8>>, path: Seq<u8>)
    requires
        side.dom().finite(),
        renames_nothing(base, side),
        base.contains_key(path),
        !side.contains_key(path),
    ensures
        flat_tree::candidates(base, side, used, base[path]).len() == 0,
{
    let list = flat_tree::candidates(base, side, used, base[path]);
    let keep = flat_tree::is_candidate(base, side, used, base[path]);
    if list.len() > 0 {
        let q = list[0];
        assert(list.contains(q));
        flat_tree::paths_of(side).lemma_filter_contains_rev(keep, q);
        flat_tree::paths_of(side).lemma_filter_pred(keep, 0);
        assert(keep(q));
        id_set::lemma_sorted_exists(side.dom());
        assert(flat_tree::paths_of(side).to_set().contains(q));
        assert(side.contains_key(q));
    }
}

proof fn lemma_renames_nothing(base: FlatMap, side: FlatMap, max: usize, n: int)
    requires
        base.dom().finite(),
        side.dom().finite(),
        renames_nothing(base, side),
        0 <= n <= flat_tree::paths_of(base).len(),
    ensures
        flat_tree::renamed(base, side, max, n) matches Ok(m) && m.map == Map::<
            Seq<u8>,
            Seq<u8>,
        >::empty() && m.comparisons == 0,
    decreases n,
{
    if n > 0 {
        lemma_renames_nothing(base, side, max, n - 1);
        let m = flat_tree::renamed(base, side, max, n - 1)->Ok_0;
        let path = flat_tree::paths_of(base)[n - 1];
        id_set::lemma_sorted_exists(base.dom());
        assert(flat_tree::paths_of(base).to_set().contains(path));
        if !side.contains_key(path) {
            lemma_no_candidates(base, side, m.used, path);
        }
    }
}

/// Where the sides rename nothing, a merge decides of every path by what the
/// base and the two sides have there. It fails only where a file would stand
/// where a directory has to.
pub proof fn lemma_merge_decides(
    base: FlatMap,
    ours: FlatMap,
    theirs: FlatMap,
    contents: Seq<ContentMerge>,
    max: usize,
)
    requires
        base.dom().finite() && ours.dom().finite() && theirs.dom().finite(),
        renames_nothing(base, ours),
        renames_nothing(base, theirs),
    ensures
        match flat_tree::merged(base, ours, theirs, contents, max) {
            Ok(m) => forall|path: Seq<u8>|
                is_decided(
                    m,
                    0,
                    contents,
                    path,
                    #[trigger] at(base, path),
                    at(ours, path),
                    at(theirs, path),
                ),
            Err(error) => error == Error::InvalidRepository("file/directory merge conflict")
                && flat_tree::collides(ours.dom().union(theirs.dom())),
        },
{
    reveal(flat_tree::merged);
    let none = Map::<Seq<u8>, Seq<u8>>::empty();
    let count = flat_tree::paths_of(base).len() as int;
    lemma_renames_nothing(base, ours, max, count);
    lemma_renames_nothing(base, theirs, max, count);
    assert(none.dom().union(none.dom()) =~= Set::empty());
    let no_paths = Seq::<Seq<u8>>::empty();
    assert(bytemap::ascending(no_paths));
    id_set::lemma_sorted(no_paths);
    assert(no_paths.to_set() =~= Set::empty());
    let sides = SidesModel { base, ours, theirs, conflicts: Seq::empty() };
    assert(flat_tree::aligned_sides(base, ours, theirs, max) == Ok::<SidesModel, Error>(sides));
    let union = base.dom().union(ours.dom()).union(theirs.dom());
    id_set::lemma_sorted_exists(union);
    let paths = id_set::sorted(union);
    id_set::lemma_sorted(paths);
    lemma_paths_decided(sides, contents, paths, paths.len() as int);
    let done = flat_tree::merged_paths(sides, contents, paths, paths.len() as int)->Ok_0;
    if flat_tree::merged(base, ours, theirs, contents, max) is Ok {
        assert forall|path: Seq<u8>|
            is_decided(
                done,
                0,
                contents,
                path,
                #[trigger] at(base, path),
                at(ours, path),
                at(theirs, path),
            ) by {
            lemma_every_path_is_decided(base, ours, theirs, contents, max, path);
        }
    } else {
        let set = done.resolved.dom().union(flat_tree::shown_paths(done.conflicts));
        let both = ours.dom().union(theirs.dom());
        assert(set.subset_of(both)) by {
            assert forall|p: Seq<u8>| set.contains(p) implies both.contains(p) by {
                lemma_shown_is_had(sides, contents, paths, paths.len() as int, p);
            }
        }
        let (path, k) = choose|path: Seq<u8>, k: int|
            #![trigger set.contains(path), path[k]]
            set.contains(path) && 0 <= k < path.len() && path[k] == 47 && set.contains(
                path.take(k),
            );
        assert(both.contains(path) && path[k] == 47 && both.contains(path.take(k)));
    }
}

/// A merge of aligned sides settles and shows only paths that a side has.
proof fn lemma_shown_is_had(
    sides: SidesModel,
    contents: Seq<ContentMerge>,
    paths: Seq<Seq<u8>>,
    n: int,
    p: Seq<u8>,
)
    requires
        0 <= n <= paths.len(),
        sides.conflicts.len() == 0,
        flat_tree::merged_paths(sides, contents, paths, n) is Ok,
        ({
            let m = flat_tree::merged_paths(sides, contents, paths, n)->Ok_0;
            m.resolved.contains_key(p) || flat_tree::shown_paths(m.conflicts).contains(p)
        }),
    ensures
        sides.ours.contains_key(p) || sides.theirs.contains_key(p),
    decreases n,
{
    let m = flat_tree::merged_paths(sides, contents, paths, n)->Ok_0;
    if n <= 0 {
        if flat_tree::shown_paths(m.conflicts).contains(p) {
            let (i, j) = choose|i: int, j: int|
                0 <= i < m.conflicts.len() && 0 <= j < m.conflicts[i].working.len() && (
                #[trigger] m.conflicts[i].working[j]).0 == p;
            assert(false);
        }
    } else {
        let before = flat_tree::merged_paths(sides, contents, paths, n - 1)->Ok_0;
        let path = paths[n - 1];
        if p != path {
            if flat_tree::shown_paths(m.conflicts).contains(p) && !m.resolved.contains_key(p) {
                let (i, j) = choose|i: int, j: int|
                    0 <= i < m.conflicts.len() && 0 <= j < m.conflicts[i].working.len() && (
                    #[trigger] m.conflicts[i].working[j]).0 == p;
                if i < before.conflicts.len() {
                    assert(m.conflicts[i] == before.conflicts[i]);
                    assert(before.conflicts[i].working[j].0 == p);
                    assert(flat_tree::shown_paths(before.conflicts).contains(p));
                } else {
                    assert(m.conflicts[i].working == seq![(path, m.conflicts[i].working[0].1)]);
                }
            }
            lemma_shown_is_had(sides, contents, paths, n - 1, p);
        } else if !(sides.ours.contains_key(p) || sides.theirs.contains_key(p)) {
            assert(m == before);
            lemma_shown_is_had(sides, contents, paths, n - 1, p);
        }
    }
}

/// Whether no candidate is more alike to a path than the one taken.
proof fn lemma_best_is_most_alike(old_path: Seq<u8>, list: Seq<Seq<u8>>, n: int, i: int)
    requires
        0 <= i < n <= list.len(),
    ensures
        flat_tree::similarity(old_path, list[i]) <= flat_tree::similarity(
            old_path,
            flat_tree::best_of(old_path, list, n),
        ),
        list.contains(flat_tree::best_of(old_path, list, n)),
    decreases n,
{
    if n > 1 {
        if i < n - 1 {
            lemma_best_is_most_alike(old_path, list, n - 1, i);
        } else {
            lemma_best_is_most_alike(old_path, list, n - 1, 0);
        }
        assert(list.contains(list[n - 1]));
    } else {
        assert(list.contains(list[0]));
    }
}

/// Whether a path was renamed to another: it was removed, and the other added
/// with the same entry.
pub open spec fn is_rename(base: FlatMap, side: FlatMap, p: Seq<u8>, q: Seq<u8>) -> bool {
    &&& base.contains_key(p) && !side.contains_key(p)
    &&& side.contains_key(q) && !base.contains_key(q)
    &&& side[q] == base[p]
}

/// Whether a path has its new name from some renames.
pub open spec fn is_taken(map: Map<Seq<u8>, Seq<u8>>, q: Seq<u8>) -> bool {
    exists|p: Seq<u8>| #[trigger] map.contains_key(p) && map[p] == q
}

/// Whether renames are exact and complete among some paths: each leads from a
/// removed path to an added one with the same entry, no two to the same. A
/// path that has none has no added path left with its entry, and one that has
/// has no other left that is more alike.
pub open spec fn are_renames(
    base: FlatMap,
    side: FlatMap,
    map: Map<Seq<u8>, Seq<u8>>,
    paths: Seq<Seq<u8>>,
    n: int,
) -> bool {
    &&& forall|p: Seq<u8>| #[trigger]
        map.contains_key(p) ==> is_rename(base, side, p, map[p]) && paths.take(n).contains(p)
    &&& forall|p: Seq<u8>, q: Seq<u8>| #[trigger]
        map.contains_key(p) && #[trigger] map.contains_key(q) && p != q ==> map[p] != map[q]
    &&& forall|i: int, q: Seq<u8>|
        #![trigger paths[i], side.contains_key(q)]
        0 <= i < n && is_rename(base, side, paths[i], q) ==> is_taken(map, q) || (
        map.contains_key(paths[i]) && flat_tree::similarity(paths[i], q)
            <= flat_tree::similarity(paths[i], map[paths[i]]))
}

#[verifier::spinoff_prover]
#[verifier::rlimit(60)]
proof fn lemma_renamed(base: FlatMap, side: FlatMap, max: usize, n: int)
    requires
        base.dom().finite(),
        side.dom().finite(),
        0 <= n <= flat_tree::paths_of(base).len(),
        flat_tree::renamed(base, side, max, n) is Ok,
    ensures
        ({
            let m = flat_tree::renamed(base, side, max, n)->Ok_0;
            &&& are_renames(base, side, m.map, flat_tree::paths_of(base), n)
            &&& m.map.dom().finite()
            &&& forall|q: Seq<u8>| #[trigger] m.used.contains(q) <==> is_taken(m.map, q)
        }),
    decreases n,
{
    let paths = flat_tree::paths_of(base);
    let m = flat_tree::renamed(base, side, max, n)->Ok_0;
    id_set::lemma_sorted_exists(base.dom());
    id_set::lemma_sorted_exists(side.dom());
    id_set::lemma_sorted(paths);
    if n <= 0 {
        assert(m.map.dom() =~= Set::empty());
    } else {
        lemma_renamed(base, side, max, n - 1);
        let less = flat_tree::renamed(base, side, max, n - 1)->Ok_0;
        let path = paths[n - 1];
        assert(paths.to_set().contains(path));
        assert(base.contains_key(path));
        assert(!less.map.contains_key(path)) by {
            if less.map.contains_key(path) {
                let k = paths.take(n - 1).index_of(path);
                assert(paths[k] == paths[n - 1]);
            }
        }
        assert forall|p: Seq<u8>| paths.take(n - 1).contains(p) implies paths.take(n).contains(
            p,
        ) by {
            let k = paths.take(n - 1).index_of(p);
            assert(paths.take(n)[k] == p);
        }
        assert(paths.take(n)[n - 1] == path);
        let keep = flat_tree::is_candidate(base, side, less.used, base[path]);
        let list = flat_tree::candidates(base, side, less.used, base[path]);
        let all = flat_tree::paths_of(side);
        assert forall|q: Seq<u8>| side.contains_key(q) && keep(q) implies list.contains(q) by {
            assert(all.to_set().contains(q));
            let k = all.index_of(q);
            assert(all[k] == q);
            all.lemma_filter_contains(keep, k);
        }
        if !side.contains_key(path) && list.len() > 0 {
            let new = flat_tree::best_of(path, list, list.len() as int);
            lemma_best_is_most_alike(path, list, list.len() as int, 0);
            all.lemma_filter_contains_rev(keep, new);
            let i = list.index_of(new);
            all.lemma_filter_pred(keep, i);
            assert(keep(new));
            assert(all.to_set().contains(new));
            assert(m.map == less.map.insert(path, new));
            assert(m.map.dom() =~= less.map.dom().insert(path));
            assert(is_rename(base, side, path, new));
            assert forall|q: Seq<u8>| #[trigger] m.used.contains(q) <==> is_taken(m.map, q) by {
                if q == new {
                    assert(m.map.contains_key(path));
                }
                if less.used.contains(q) {
                    let p = choose|p: Seq<u8>| #[trigger] less.map.contains_key(p) && less.map[p]
                        == q;
                    assert(m.map.contains_key(p) && m.map[p] == q);
                }
                if is_taken(m.map, q) {
                    let p = choose|p: Seq<u8>| #[trigger] m.map.contains_key(p) && m.map[p] == q;
                    if p != path {
                        assert(less.map.contains_key(p));
                    }
                }
            }
            assert forall|p: Seq<u8>, q: Seq<u8>| #[trigger]
                m.map.contains_key(p) && #[trigger] m.map.contains_key(q) && p != q implies m.map[p]
                != m.map[q] by {
                if p == path {
                    assert(less.map.contains_key(q));
                    assert(is_taken(less.map, less.map[q]));
                    assert(less.used.contains(less.map[q]));
                } else if q == path {
                    assert(less.map.contains_key(p));
                    assert(is_taken(less.map, less.map[p]));
                    assert(less.used.contains(less.map[p]));
                }
            }
            assert forall|j: int, q: Seq<u8>|
                #![trigger paths[j], side.contains_key(q)]
                0 <= j < n && is_rename(base, side, paths[j], q) implies is_taken(m.map, q) || (
            m.map.contains_key(paths[j]) && flat_tree::similarity(paths[j], q)
                <= flat_tree::similarity(paths[j], m.map[paths[j]])) by {
                if is_taken(less.map, q) {
                    assert(less.used.contains(q));
                    assert(m.used.contains(q));
                } else if j == n - 1 {
                    assert(keep(q));
                    assert(list.contains(q));
                    let k = list.index_of(q);
                    lemma_best_is_most_alike(path, list, list.len() as int, k);
                } else {
                    assert(paths[j] != path);
                }
            }
        } else {
            assert(m.map == less.map);
            assert forall|j: int, q: Seq<u8>|
                #![trigger paths[j], side.contains_key(q)]
                0 <= j < n && is_rename(base, side, paths[j], q) implies is_taken(m.map, q) || (
            m.map.contains_key(paths[j]) && flat_tree::similarity(paths[j], q)
                <= flat_tree::similarity(paths[j], m.map[paths[j]])) by {
                if j == n - 1 && !is_taken(less.map, q) {
                    assert(!less.used.contains(q));
                    assert(keep(q));
                    assert(list.contains(q));
                    assert(list.len() > 0);
                }
            }
        }
    }
}

/// The renames of a side are exact, and none is missed.
pub proof fn lemma_renames_are_exact(base: FlatMap, side: FlatMap, max: usize)
    requires
        base.dom().finite(),
        side.dom().finite(),
    ensures
        flat_tree::renames_of(base, side, max) matches Ok(map) ==> {
            &&& are_renames(
                base,
                side,
                map,
                flat_tree::paths_of(base),
                flat_tree::paths_of(base).len() as int,
            )
            &&& map.dom().finite()
        },
{
    if flat_tree::renames_of(base, side, max) is Ok {
        lemma_renamed(base, side, max, flat_tree::paths_of(base).len() as int);
    }
}

/// Whether the renames of a path leave another path alone.
spec fn leaves(
    a: Map<Seq<u8>, Seq<u8>>,
    b: Map<Seq<u8>, Seq<u8>>,
    from: Seq<u8>,
    x: Seq<u8>,
) -> bool {
    &&& from != x
    &&& a.contains_key(from) ==> a[from] != x
    &&& b.contains_key(from) ==> b[from] != x
}

/// What the renames of paths leave alone stays as it was, and conflicts stay.
proof fn lemma_left_alone(
    sides: SidesModel,
    a: Map<Seq<u8>, Seq<u8>>,
    b: Map<Seq<u8>, Seq<u8>>,
    paths: Seq<Seq<u8>>,
    from: int,
    n: int,
    x: Seq<u8>,
)
    requires
        0 <= from <= n <= paths.len(),
        flat_tree::aligned(sides, a, b, paths, n) is Ok,
        forall|i: int| from <= i < n ==> leaves(a, b, #[trigger] paths[i], x),
    ensures
        flat_tree::aligned(sides, a, b, paths, from) is Ok,
        ({
            let before = flat_tree::aligned(sides, a, b, paths, from)->Ok_0;
            let after = flat_tree::aligned(sides, a, b, paths, n)->Ok_0;
            &&& at(after.base, x) == at(before.base, x)
            &&& at(after.ours, x) == at(before.ours, x)
            &&& at(after.theirs, x) == at(before.theirs, x)
            &&& before.conflicts.len() <= after.conflicts.len()
            &&& forall|k: int|
                0 <= k < before.conflicts.len() ==> #[trigger] after.conflicts[k]
                    == before.conflicts[k]
        }),
    decreases n,
{
    if from < n {
        lemma_left_alone(sides, a, b, paths, from, n - 1, x);
        assert(leaves(a, b, paths[n - 1], x));
    }
}

/// What is known where renames are aligned: the renames of both sides, and the
/// place of one path among them.
spec fn is_placed(
    base: FlatMap,
    ours: FlatMap,
    theirs: FlatMap,
    a: Map<Seq<u8>, Seq<u8>>,
    b: Map<Seq<u8>, Seq<u8>>,
    paths: Seq<Seq<u8>>,
    k: int,
) -> bool {
    let all = flat_tree::paths_of(base);
    &&& are_renames(base, ours, a, all, all.len() as int)
    &&& are_renames(base, theirs, b, all, all.len() as int)
    &&& paths.no_duplicates()
    &&& 0 <= k < paths.len()
    &&& forall|i: int|
        0 <= i < paths.len() ==> a.contains_key(#[trigger] paths[i]) || b.contains_key(paths[i])
}

/// A path, and the place it was renamed to by a side alone, are left alone by
/// the renames of all other paths.
proof fn lemma_others_leave(
    base: FlatMap,
    ours: FlatMap,
    theirs: FlatMap,
    a: Map<Seq<u8>, Seq<u8>>,
    b: Map<Seq<u8>, Seq<u8>>,
    paths: Seq<Seq<u8>>,
    k: int,
    q: Seq<u8>,
    flip: bool,
)
    requires
        is_placed(base, ours, theirs, a, b, paths, k),
        if flip {
            b.contains_key(paths[k]) && b[paths[k]] == q && !ours.contains_key(q)
        } else {
            a.contains_key(paths[k]) && a[paths[k]] == q && !theirs.contains_key(q)
        },
    ensures
        forall|i: int|
            0 <= i < paths.len() && i != k ==> leaves(a, b, #[trigger] paths[i], paths[k])
                && leaves(a, b, paths[i], q),
{
    let p = paths[k];
    assert forall|i: int| 0 <= i < paths.len() && i != k implies leaves(
        a,
        b,
        #[trigger] paths[i],
        p,
    ) && leaves(a, b, paths[i], q) by {
        let f = paths[i];
        assert(f != p);
        if a.contains_key(f) {
            assert(is_rename(base, ours, f, a[f]));
        }
        if b.contains_key(f) {
            assert(is_rename(base, theirs, f, b[f]));
        }
        if flip {
            assert(is_rename(base, theirs, p, b[p]));
        } else {
            assert(is_rename(base, ours, p, a[p]));
        }
    }
}

/// A file that one side renamed, and that the other kept or changed, stands at
/// its new name as the other side has it, and no longer at the old one.
#[verifier::spinoff_prover]
#[verifier::rlimit(60)]
pub proof fn lemma_rename_is_followed(
    base: FlatMap,
    ours: FlatMap,
    theirs: FlatMap,
    contents: Seq<ContentMerge>,
    max: usize,
    p: Seq<u8>,
    q: Seq<u8>,
)
    requires
        base.dom().finite() && ours.dom().finite() && theirs.dom().finite(),
        flat_tree::merged(base, ours, theirs, contents, max) is Ok,
    ensures
        ({
            let m = flat_tree::merged(base, ours, theirs, contents, max)->Ok_0;
            &&& (flat_tree::renames_of(base, ours, max) matches Ok(a) && a.contains_key(p) && a[p]
                == q && theirs.contains_key(p) && !theirs.contains_key(q)) ==> at(m.resolved, q)
                == Some(theirs[p]) && at(m.resolved, p) is None
            &&& (flat_tree::renames_of(base, theirs, max) matches Ok(b) && b.contains_key(p)
                && b[p] == q && ours.contains_key(p) && !ours.contains_key(q)) ==> at(
                m.resolved,
                q,
            ) == Some(ours[p]) && at(m.resolved, p) is None
        }),
{
    reveal(flat_tree::merged);
    let m = flat_tree::merged(base, ours, theirs, contents, max)->Ok_0;
    let a = flat_tree::renames_of(base, ours, max)->Ok_0;
    let b = flat_tree::renames_of(base, theirs, max)->Ok_0;
    lemma_renames_are_exact(base, ours, max);
    lemma_renames_are_exact(base, theirs, max);
    let first = a.contains_key(p) && a[p] == q && theirs.contains_key(p) && !theirs.contains_key(
        q,
    );
    let second = b.contains_key(p) && b[p] == q && ours.contains_key(p) && !ours.contains_key(q);
    if first || second {
        let start = SidesModel { base, ours, theirs, conflicts: Seq::empty() };
        let set = a.dom().union(b.dom());
        let paths = id_set::sorted(set);
        lemma_sorted_paths(a, b, p);
        let k = paths.index_of(p);
        assert(paths[k] == p);
        lemma_others_leave(base, ours, theirs, a, b, paths, k, q, second);
        if first {
            assert(is_rename(base, ours, p, a[p]));
            assert(!b.contains_key(p)) by {
                if b.contains_key(p) {
                    assert(is_rename(base, theirs, p, b[p]));
                }
            }
        } else {
            assert(is_rename(base, theirs, p, b[p]));
            assert(!a.contains_key(p)) by {
                if a.contains_key(p) {
                    assert(is_rename(base, ours, p, a[p]));
                }
            }
        }
        let n = paths.len() as int;
        let sides = flat_tree::aligned(start, a, b, paths, n)->Ok_0;
        lemma_left_alone(start, a, b, paths, k + 1, n, p);
        lemma_left_alone(start, a, b, paths, k + 1, n, q);
        lemma_left_alone(start, a, b, paths, 0, k, p);
        lemma_left_alone(start, a, b, paths, 0, k, q);
        let before = flat_tree::aligned(start, a, b, paths, k)->Ok_0;
        let after = flat_tree::aligned(start, a, b, paths, k + 1)->Ok_0;
        assert(flat_tree::aligned_one(
            before,
            p,
            flat_tree::renamed_to(a, p),
            flat_tree::renamed_to(b, p),
        ) == Ok::<SidesModel, Error>(after));
        assert(at(before.base, p) == Some(base[p]) && at(before.base, q) is None);
        assert(at(after.base, p) is None && at(after.base, q) == Some(base[p]));
        assert(at(after.ours, p) is None && at(after.theirs, p) is None);
        lemma_every_path_is_decided(base, ours, theirs, contents, max, p);
        lemma_every_path_is_decided(base, ours, theirs, contents, max, q);
    }
}

proof fn lemma_sorted_paths(a: Map<Seq<u8>, Seq<u8>>, b: Map<Seq<u8>, Seq<u8>>, p: Seq<u8>)
    requires
        a.dom().finite(),
        b.dom().finite(),
        a.contains_key(p) || b.contains_key(p),
    ensures
        ({
            let paths = id_set::sorted(a.dom().union(b.dom()));
            &&& paths.no_duplicates()
            &&& paths.contains(p)
            &&& forall|i: int|
                0 <= i < paths.len() ==> a.contains_key(#[trigger] paths[i]) || b.contains_key(
                    paths[i],
                )
        }),
{
    let set = a.dom().union(b.dom());
    let paths = id_set::sorted(set);
    id_set::lemma_sorted_exists(set);
    id_set::lemma_sorted(paths);
    assert(set.contains(p));
    assert(paths.to_set().contains(p));
    assert forall|i: int| 0 <= i < paths.len() implies a.contains_key(#[trigger] paths[i])
        || b.contains_key(paths[i]) by {
        assert(paths.to_set().contains(paths[i]));
    }
}

/// A file that one side renamed and the other removed is in conflict at its
/// new name, with the base and the side that has it.
#[verifier::spinoff_prover]
#[verifier::rlimit(60)]
pub proof fn lemma_renamed_and_removed_is_a_conflict(
    base: FlatMap,
    ours: FlatMap,
    theirs: FlatMap,
    contents: Seq<ContentMerge>,
    max: usize,
    p: Seq<u8>,
    q: Seq<u8>,
    flip: bool,
)
    requires
        base.dom().finite() && ours.dom().finite() && theirs.dom().finite(),
        flat_tree::merged(base, ours, theirs, contents, max) is Ok,
        flat_tree::renames_of(base, ours, max) matches Ok(a) && flat_tree::renames_of(
            base,
            theirs,
            max,
        ) matches Ok(b) && if flip {
            b.contains_key(p) && b[p] == q && !a.contains_key(p) && !ours.contains_key(p)
                && !ours.contains_key(q)
        } else {
            a.contains_key(p) && a[p] == q && !b.contains_key(p) && !theirs.contains_key(p)
                && !theirs.contains_key(q)
        },
    ensures
        ({
            let m = flat_tree::merged(base, ours, theirs, contents, max)->Ok_0;
            exists|k: int|
                0 <= k < m.conflicts.len() && is_conflict(
                    #[trigger] m.conflicts[k],
                    q,
                    Some(base[p]),
                    if flip {
                        None
                    } else {
                        Some(ours[q])
                    },
                    if flip {
                        Some(theirs[q])
                    } else {
                        None
                    },
                    base[p],
                )
        }),
{
    reveal(flat_tree::merged);
    let m = flat_tree::merged(base, ours, theirs, contents, max)->Ok_0;
    let a = flat_tree::renames_of(base, ours, max)->Ok_0;
    let b = flat_tree::renames_of(base, theirs, max)->Ok_0;
    lemma_renames_are_exact(base, ours, max);
    lemma_renames_are_exact(base, theirs, max);
    let start = SidesModel { base, ours, theirs, conflicts: Seq::empty() };
    let paths = id_set::sorted(a.dom().union(b.dom()));
    lemma_sorted_paths(a, b, p);
    let k = paths.index_of(p);
    assert(paths[k] == p);
    lemma_others_leave(base, ours, theirs, a, b, paths, k, q, flip);
    if flip {
        assert(is_rename(base, theirs, p, b[p]));
    } else {
        assert(is_rename(base, ours, p, a[p]));
    }
    let n = paths.len() as int;
    let sides = flat_tree::aligned(start, a, b, paths, n)->Ok_0;
    lemma_left_alone(start, a, b, paths, k + 1, n, p);
    lemma_left_alone(start, a, b, paths, 0, k, p);
    lemma_left_alone(start, a, b, paths, 0, k, q);
    let before = flat_tree::aligned(start, a, b, paths, k)->Ok_0;
    let after = flat_tree::aligned(start, a, b, paths, k + 1)->Ok_0;
    assert(flat_tree::aligned_one(
        before,
        p,
        flat_tree::renamed_to(a, p),
        flat_tree::renamed_to(b, p),
    ) == Ok::<SidesModel, Error>(after));
    assert(at(before.base, p) == Some(base[p]));
    let j = before.conflicts.len() as int;
    assert(after.conflicts.len() == j + 1);
    let c = after.conflicts[j];
    let stage: u8 = if flip {
        3
    } else {
        2
    };
    assert(c.stages[0] == (StageModel { path: q, stage: 1, entry: base[p] }));
    assert(c.stages[1] == (StageModel { path: q, stage, entry: base[p] }));
    lemma_every_path_is_decided(base, ours, theirs, contents, max, q);
    assert(sides.conflicts[j] == c);
    assert(m.conflicts.take(sides.conflicts.len() as int)[j] == c);
    assert(m.conflicts[j] == c);
}

/// A file that both sides renamed, but not alike, is in conflict, with the
/// base at its old name and each side at its own.
#[verifier::spinoff_prover]
#[verifier::rlimit(60)]
pub proof fn lemma_renamed_apart_is_a_conflict(
    base: FlatMap,
    ours: FlatMap,
    theirs: FlatMap,
    contents: Seq<ContentMerge>,
    max: usize,
    p: Seq<u8>,
    x: Seq<u8>,
    y: Seq<u8>,
)
    requires
        base.dom().finite() && ours.dom().finite() && theirs.dom().finite(),
        flat_tree::merged(base, ours, theirs, contents, max) is Ok,
        x != y && !theirs.contains_key(x) && !ours.contains_key(y),
        flat_tree::renames_of(base, ours, max) matches Ok(a) && a.contains_key(p) && a[p] == x,
        flat_tree::renames_of(base, theirs, max) matches Ok(b) && b.contains_key(p) && b[p] == y,
    ensures
        ({
            let m = flat_tree::merged(base, ours, theirs, contents, max)->Ok_0;
            exists|k: int|
                0 <= k < m.conflicts.len() && {
                    let c = #[trigger] m.conflicts[k];
                    &&& c.path == p
                    &&& has_stage(c, p, 1, Some(base[p]))
                    &&& has_stage(c, x, 2, Some(ours[x]))
                    &&& has_stage(c, y, 3, Some(theirs[y]))
                    &&& c.working == seq![(x, ours[x]), (y, theirs[y])]
                }
        }),
{
    reveal(flat_tree::merged);
    let m = flat_tree::merged(base, ours, theirs, contents, max)->Ok_0;
    let a = flat_tree::renames_of(base, ours, max)->Ok_0;
    let b = flat_tree::renames_of(base, theirs, max)->Ok_0;
    lemma_renames_are_exact(base, ours, max);
    lemma_renames_are_exact(base, theirs, max);
    let start = SidesModel { base, ours, theirs, conflicts: Seq::empty() };
    let paths = id_set::sorted(a.dom().union(b.dom()));
    lemma_sorted_paths(a, b, p);
    let k = paths.index_of(p);
    assert(paths[k] == p);
    lemma_others_leave(base, ours, theirs, a, b, paths, k, x, false);
    lemma_others_leave(base, ours, theirs, a, b, paths, k, y, true);
    assert(is_rename(base, theirs, p, b[p]));
    assert(is_rename(base, ours, p, a[p]));
    let n = paths.len() as int;
    let sides = flat_tree::aligned(start, a, b, paths, n)->Ok_0;
    lemma_left_alone(start, a, b, paths, k + 1, n, p);
    lemma_left_alone(start, a, b, paths, 0, k, p);
    lemma_left_alone(start, a, b, paths, 0, k, x);
    lemma_left_alone(start, a, b, paths, 0, k, y);
    let before = flat_tree::aligned(start, a, b, paths, k)->Ok_0;
    let after = flat_tree::aligned(start, a, b, paths, k + 1)->Ok_0;
    assert(flat_tree::aligned_one(
        before,
        p,
        flat_tree::renamed_to(a, p),
        flat_tree::renamed_to(b, p),
    ) == Ok::<SidesModel, Error>(after));
    assert(at(before.base, p) == Some(base[p]));
    assert(at(before.ours, x) == Some(ours[x]));
    assert(at(before.theirs, y) == Some(theirs[y]));
    let j = before.conflicts.len() as int;
    assert(after.conflicts.len() == j + 1);
    let c = after.conflicts[j];
    assert(c.stages[0] == (StageModel { path: p, stage: 1, entry: base[p] }));
    assert(c.stages[1] == (StageModel { path: x, stage: 2, entry: ours[x] }));
    assert(c.stages[2] == (StageModel { path: y, stage: 3, entry: theirs[y] }));
    lemma_every_path_is_decided(base, ours, theirs, contents, max, p);
    assert(sides.conflicts[j] == c);
    assert(m.conflicts.take(sides.conflicts.len() as int)[j] == c);
    assert(m.conflicts[j] == c);
}

// ---------------------------------------------------------------------------
// The merged tree

/// Whether the conflicts that were found show one path each, and no two the
/// same.
spec fn show_apart(list: Seq<ConflictModel>, known: nat) -> bool {
    &&& forall|k: int|
        known <= k < list.len() ==> (#[trigger] list[k]).working.len() == 1 && list[k].working[0].0
            == list[k].path
    &&& forall|k: int, l: int|
        known <= k < l < list.len() ==> (#[trigger] list[k]).path != (#[trigger] list[l]).path
}

proof fn lemma_show_apart(
    sides: SidesModel,
    contents: Seq<ContentMerge>,
    paths: Seq<Seq<u8>>,
    n: int,
)
    requires
        0 <= n <= paths.len(),
        paths.no_duplicates(),
        flat_tree::merged_paths(sides, contents, paths, n) is Ok,
    ensures
        ({
            let m = flat_tree::merged_paths(sides, contents, paths, n)->Ok_0;
            &&& show_apart(m.conflicts, sides.conflicts.len())
            &&& forall|k: int|
                sides.conflicts.len() <= k < m.conflicts.len() ==> paths.take(n).contains(
                    (#[trigger] m.conflicts[k]).path,
                )
        }),
    decreases n,
{
    if n > 0 {
        lemma_show_apart(sides, contents, paths, n - 1);
        let before = flat_tree::merged_paths(sides, contents, paths, n - 1)->Ok_0;
        let m = flat_tree::merged_paths(sides, contents, paths, n)->Ok_0;
        let path = paths[n - 1];
        assert(paths.take(n)[n - 1] == path);
        assert forall|p: Seq<u8>| paths.take(n - 1).contains(p) implies paths.take(n).contains(p)
            && p != path by {
            let k = paths.take(n - 1).index_of(p);
            assert(paths.take(n)[k] == p);
            assert(paths[k] == p);
        }
        assert forall|k: int| sides.conflicts.len() <= k < m.conflicts.len() implies paths.take(
            n,
        ).contains((#[trigger] m.conflicts[k]).path) && m.conflicts[k].working.len() == 1
            && m.conflicts[k].working[0].0 == m.conflicts[k].path by {
            if k < before.conflicts.len() {
                assert(m.conflicts[k] == before.conflicts[k]);
            }
        }
        assert forall|k: int, l: int| sides.conflicts.len() <= k < l < m.conflicts.len() implies (
        #[trigger] m.conflicts[k]).path != (#[trigger] m.conflicts[l]).path by {
            assert(m.conflicts[k] == before.conflicts[k]);
            if l < before.conflicts.len() {
                assert(m.conflicts[l] == before.conflicts[l]);
            } else {
                assert(paths.take(n - 1).contains(before.conflicts[k].path));
            }
        }
    }
}

proof fn lemma_shown(map: FlatMap, list: Seq<ConflictModel>, n: int, p: Seq<u8>)
    requires
        0 <= n <= list.len(),
        show_apart(list, 0),
    ensures
        (forall|k: int| 0 <= k < n ==> (#[trigger] list[k]).path != p) ==> at(
            merge::with_conflicts(map, list, n),
            p,
        ) == at(map, p),
        forall|k: int|
            0 <= k < n && (#[trigger] list[k]).path == p ==> at(
                merge::with_conflicts(map, list, n),
                p,
            ) == Some(list[k].working[0].1),
    decreases n,
{
    if n > 0 {
        lemma_shown(map, list, n - 1, p);
        let before = merge::with_conflicts(map, list, n - 1);
        let c = list[n - 1];
        assert(merge::with_working(before, c.working, 1) == merge::with_working(
            before,
            c.working,
            0,
        ).insert(c.working[0].0, c.working[0].1));
        assert(merge::with_working(before, c.working, 0) == before);
        assert(merge::with_conflicts(map, list, n) == before.insert(c.path, c.working[0].1));
    }
}

/// Where the sides rename nothing, the merged tree has at every path what both
/// sides have, or what one alone made of it, or the merged text of three
/// regular files; where the sides are in conflict, it shows our file, or
/// theirs where we have none.
pub proof fn lemma_merged_tree_shows(
    base: FlatMap,
    ours: FlatMap,
    theirs: FlatMap,
    contents: Seq<ContentMerge>,
    max: usize,
    path: Seq<u8>,
)
    requires
        base.dom().finite() && ours.dom().finite() && theirs.dom().finite(),
        renames_nothing(base, ours),
        renames_nothing(base, theirs),
        flat_tree::merged(base, ours, theirs, contents, max) is Ok,
    ensures
        ({
            let m = flat_tree::merged(base, ours, theirs, contents, max)->Ok_0;
            let shows = at(merge::material(m), path);
            let (b, o, t) = (at(base, path), at(ours, path), at(theirs, path));
            if o == t || t == b {
                shows == o
            } else if o == b {
                shows == t
            } else if is_regular(b) && is_regular(o) && is_regular(t) && !has_no_outcome(
                contents,
                path,
            ) {
                exists|outcome: ContentMerge| #[trigger]
                    has_outcome(contents, path, outcome) && shows == Some(
                        MergeEntry {
                            mode: match agreed_mode(b->0.mode, o->0.mode, t->0.mode) {
                                Some(mode) => mode,
                                None => o->0.mode,
                            },
                            id: outcome.id,
                        },
                    )
            } else {
                shows == if o is Some {
                    o
                } else {
                    t
                }
            }
        }),
{
    lemma_merge_decides(base, ours, theirs, contents, max);
    let m = flat_tree::merged(base, ours, theirs, contents, max)->Ok_0;
    let (b, o, t) = (at(base, path), at(ours, path), at(theirs, path));
    assert(is_decided(m, 0, contents, path, b, o, t));
    lemma_merged_apart(base, ours, theirs, contents, max);
    lemma_shown(m.resolved, m.conflicts, m.conflicts.len() as int, path);
    assert forall|working: MergeEntry| #[trigger]
        found(m, 0, path, b, o, t, working) implies at(merge::material(m), path) == Some(
        working,
    ) by {
        let k = choose|k: int|
            0 <= k < m.conflicts.len() && is_conflict(
                #[trigger] m.conflicts[k],
                path,
                b,
                o,
                t,
                working,
            );
        assert(m.conflicts[k].path == path);
        assert(m.conflicts[k].working[0] == (path, working));
    }
    if found_none(m, 0, path) {
        assert(at(merge::material(m), path) == at(m.resolved, path));
    }
}

proof fn lemma_merged_apart(
    base: FlatMap,
    ours: FlatMap,
    theirs: FlatMap,
    contents: Seq<ContentMerge>,
    max: usize,
)
    requires
        base.dom().finite() && ours.dom().finite() && theirs.dom().finite(),
        renames_nothing(base, ours),
        renames_nothing(base, theirs),
        flat_tree::merged(base, ours, theirs, contents, max) is Ok,
    ensures
        show_apart((flat_tree::merged(base, ours, theirs, contents, max)->Ok_0).conflicts, 0),
{
    reveal(flat_tree::merged);
    let none = Map::<Seq<u8>, Seq<u8>>::empty();
    let count = flat_tree::paths_of(base).len() as int;
    lemma_renames_nothing(base, ours, max, count);
    lemma_renames_nothing(base, theirs, max, count);
    assert(none.dom().union(none.dom()) =~= Set::empty());
    let no_paths = Seq::<Seq<u8>>::empty();
    assert(bytemap::ascending(no_paths));
    id_set::lemma_sorted(no_paths);
    assert(no_paths.to_set() =~= Set::empty());
    let sides = SidesModel { base, ours, theirs, conflicts: Seq::empty() };
    let union = base.dom().union(ours.dom()).union(theirs.dom());
    id_set::lemma_sorted_exists(union);
    let paths = id_set::sorted(union);
    id_set::lemma_sorted(paths);
    lemma_show_apart(sides, contents, paths, paths.len() as int);
}

// ---------------------------------------------------------------------------
// Stored trees

proof fn lemma_flat_is_finite(list: Seq<crate::ls_tree::Listed>, n: int)
    ensures
        merge::flat_of(list, n).dom().finite(),
    decreases n,
{
    if n > 0 {
        lemma_flat_is_finite(list, n - 1);
    }
}

/// Merging stored trees reads each of the three as it is, decides of every
/// path by what they have there where neither side renames anything, and
/// reports the conflicts that this leads to.
#[verifier::spinoff_prover]
#[verifier::rlimit(60)]
pub proof fn lemma_merging_trees_decides(
    files: memory::Tree,
    git: Seq<u8>,
    base: Seq<u8>,
    ours: Seq<u8>,
    theirs: Seq<u8>,
    contents: Seq<ContentMerge>,
    options: merge::MergeTreeOptions,
) -> (m: MergedModel)
    requires
        merge::three_merged(files, git, base, ours, theirs, contents, options).1 is Ok,
    ensures
        ({
            let size = options.max_object_size;
            let a = merge::flattened(files, git, base, size);
            let b = merge::flattened(files, git, ours, size);
            let c = merge::flattened(files, git, theirs, size);
            &&& a is Ok && b is Ok && c is Ok
            &&& merge::three_merged(
                files,
                git,
                base,
                ours,
                theirs,
                contents,
                options,
            ).1->Ok_0.1 == m.conflicts
            &&& Ok::<Seq<u8>, Refusal>(
                merge::three_merged(
                    files,
                    git,
                    base,
                    ours,
                    theirs,
                    contents,
                    options,
                ).1->Ok_0.0,
            ) == crate::write_tree::flat_written(files, git, merge::material(m)).1
            &&& renames_nothing(a->Ok_0, b->Ok_0) && renames_nothing(a->Ok_0, c->Ok_0) ==> forall|
                path: Seq<u8>,
            |
                is_decided(
                    m,
                    0,
                    contents,
                    path,
                    #[trigger] at(a->Ok_0, path),
                    at(b->Ok_0, path),
                    at(c->Ok_0, path),
                )
        }),
{
    reveal(merge::three_merged);
    let size = options.max_object_size;
    let a = merge::flattened(files, git, base, size)->Ok_0;
    let b = merge::flattened(files, git, ours, size)->Ok_0;
    let c = merge::flattened(files, git, theirs, size)->Ok_0;
    lemma_flattened_is_finite(files, git, base, size);
    lemma_flattened_is_finite(files, git, ours, size);
    lemma_flattened_is_finite(files, git, theirs, size);
    let m = flat_tree::merged(a, b, c, contents, options.max_rename_comparisons)->Ok_0;
    if renames_nothing(a, b) && renames_nothing(a, c) {
        lemma_merge_decides(a, b, c, contents, options.max_rename_comparisons);
    }
    m
}

proof fn lemma_flattened_is_finite(files: memory::Tree, git: Seq<u8>, id: Seq<u8>, size: usize)
    ensures
        merge::flattened(files, git, id, size) matches Ok(map) ==> map.dom().finite(),
{
    if let Ok(list) = crate::ls_tree::tree_listing(
        files,
        git,
        id,
        crate::ls_tree::all_files(size),
    ) {
        lemma_flat_is_finite(list, list.len() as int);
    }
}

} // verus!
