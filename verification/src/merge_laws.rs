//! What holds of merges of whole trees.

use vstd::prelude::*;

use crate::bytemap;
use crate::flat_tree;
use crate::flat_tree::{ConflictModel, ContentMerge, FlatMap, MergedModel, SidesModel};
use crate::fs::memory;
use crate::id_set;
use crate::merge;
use crate::object::{ObjectId, ObjectKind};
use crate::storage;
use crate::tree::TreeItem;
use crate::write_tree;
use crate::Error;

verus! {

// ---------------------------------------------------------------------------
// Renames

proof fn lemma_best_is_listed(old_path: Seq<u8>, list: Seq<Seq<u8>>, n: int)
    requires
        1 <= n <= list.len(),
    ensures
        list.contains(flat_tree::best_of(old_path, list, n)),
    decreases n,
{
    if n > 1 {
        lemma_best_is_listed(old_path, list, n - 1);
        assert(list.contains(list[n - 1]));
    } else {
        assert(list.contains(list[0]));
    }
}

/// Whether a rename leads from a path of the base alone to one of the side
/// alone.
spec fn leads_at(base: FlatMap, side: FlatMap, map: Map<Seq<u8>, Seq<u8>>, p: Seq<u8>) -> bool {
    base.contains_key(p) && !side.contains_key(p) && side.contains_key(map[p])
        && !base.contains_key(map[p])
}

spec fn apart(map: Map<Seq<u8>, Seq<u8>>, p: Seq<u8>, q: Seq<u8>) -> bool {
    p != q ==> map[p] != map[q]
}

/// Whether renames lead from paths of the base alone to paths of the side
/// alone, no two to the same.
spec fn leads_over(base: FlatMap, side: FlatMap, map: Map<Seq<u8>, Seq<u8>>) -> bool {
    &&& forall|p: Seq<u8>| map.contains_key(p) ==> #[trigger] leads_at(base, side, map, p)
    &&& forall|p: Seq<u8>, q: Seq<u8>|
        map.contains_key(p) && map.contains_key(q) ==> #[trigger] apart(map, p, q)
}

spec fn is_used(used: Set<Seq<u8>>, map: Map<Seq<u8>, Seq<u8>>, p: Seq<u8>) -> bool {
    used.contains(map[p])
}

proof fn lemma_renamed_leads(base: FlatMap, side: FlatMap, max: usize, n: int)
    requires
        base.dom().finite(),
        side.dom().finite(),
        0 <= n <= flat_tree::paths_of(base).len(),
        flat_tree::renamed(base, side, max, n) is Ok,
    ensures
        ({
            let m = flat_tree::renamed(base, side, max, n)->Ok_0;
            &&& leads_over(base, side, m.map)
            &&& m.map.dom().finite()
            &&& forall|p: Seq<u8>| m.map.contains_key(p) ==> #[trigger] is_used(m.used, m.map, p)
        }),
    decreases n,
{
    if n > 0 {
        lemma_renamed_leads(base, side, max, n - 1);
        let m = flat_tree::renamed(base, side, max, n - 1)->Ok_0;
        let path = flat_tree::paths_of(base)[n - 1];
        id_set::lemma_sorted_exists(base.dom());
        id_set::lemma_sorted_exists(side.dom());
        assert(flat_tree::paths_of(base).to_set().contains(path));
        let list = flat_tree::candidates(base, side, m.used, base[path]);
        if !side.contains_key(path) && list.len() > 0 {
            let new = flat_tree::best_of(path, list, list.len() as int);
            lemma_best_is_listed(path, list, list.len() as int);
            let keep = flat_tree::is_candidate(base, side, m.used, base[path]);
            flat_tree::paths_of(side).lemma_filter_contains_rev(keep, new);
            let i = list.index_of(new);
            flat_tree::paths_of(side).lemma_filter_pred(keep, i);
            assert(keep(new));
            assert(flat_tree::paths_of(side).to_set().contains(new));
            let next = flat_tree::renamed(base, side, max, n)->Ok_0;
            assert(next.map == m.map.insert(path, new));
            assert(next.map.dom() =~= m.map.dom().insert(path));
            assert(leads_at(base, side, next.map, path));
            assert forall|p: Seq<u8>| next.map.contains_key(p) implies #[trigger] leads_at(
                base,
                side,
                next.map,
                p,
            ) by {
                if p != path {
                    assert(leads_at(base, side, m.map, p));
                }
            }
            assert forall|p: Seq<u8>| next.map.contains_key(p) implies #[trigger] is_used(
                next.used,
                next.map,
                p,
            ) by {
                if p != path {
                    assert(is_used(m.used, m.map, p));
                }
            }
            assert forall|p: Seq<u8>, q: Seq<u8>|
                next.map.contains_key(p) && next.map.contains_key(q) implies #[trigger] apart(
                next.map,
                p,
                q,
            ) by {
                if p != path && q != path {
                    assert(apart(m.map, p, q));
                } else if p != path {
                    assert(is_used(m.used, m.map, p));
                } else if q != path {
                    assert(is_used(m.used, m.map, q));
                }
            }
        }
    } else {
        assert(flat_tree::renamed(base, side, max, n)->Ok_0.map.dom() =~= Set::empty());
    }
}

proof fn lemma_no_renames_from_itself(base: FlatMap, max: usize, n: int)
    requires
        base.dom().finite(),
        0 <= n <= flat_tree::paths_of(base).len(),
    ensures
        flat_tree::renamed(base, base, max, n) matches Ok(m) && m.map == Map::<
            Seq<u8>,
            Seq<u8>,
        >::empty(),
    decreases n,
{
    if n > 0 {
        lemma_no_renames_from_itself(base, max, n - 1);
        id_set::lemma_sorted_exists(base.dom());
        assert(flat_tree::paths_of(base).to_set().contains(flat_tree::paths_of(base)[n - 1]));
    }
}

// ---------------------------------------------------------------------------
// Alignment

/// Which side of a merge follows the other.
enum Shape {
    TheirsIsBase,
    OursIsBase,
    Same,
}

/// Whether the base, after the renames of the first `n` paths, is the original
/// base with the entries moved.
spec fn moved_along(
    base: FlatMap,
    now: FlatMap,
    map: Map<Seq<u8>, Seq<u8>>,
    paths: Seq<Seq<u8>>,
    n: int,
) -> bool {
    &&& now.dom().finite()
    &&& forall|i: int| n <= i < paths.len() ==> now.contains_key(#[trigger] paths[i])
    &&& forall|i: int|
        n <= i < paths.len() && map.contains_key(paths[i]) ==> !now.contains_key(
            map[#[trigger] paths[i]],
        )
}

proof fn lemma_aligned(
    shape: Shape,
    base: FlatMap,
    side: FlatMap,
    map: Map<Seq<u8>, Seq<u8>>,
    paths: Seq<Seq<u8>>,
    n: int,
)
    requires
        0 <= n <= paths.len(),
        base.dom().finite(),
        leads_over(base, side, map),
        bytemap::ascending(paths),
        forall|i: int| 0 <= i < paths.len() ==> map.contains_key(#[trigger] paths[i]),
    ensures
        ({
            let none = Map::<Seq<u8>, Seq<u8>>::empty();
            let (ours, theirs, a, b) = match shape {
                Shape::TheirsIsBase => (side, base, map, none),
                Shape::OursIsBase => (base, side, none, map),
                Shape::Same => (side, side, map, map),
            };
            let start = SidesModel { base, ours, theirs, conflicts: Seq::empty() };
            flat_tree::aligned(start, a, b, paths, n) matches Ok(done) && {
                &&& moved_along(base, done.base, map, paths, n)
                &&& done.conflicts == Seq::<ConflictModel>::empty()
                &&& match shape {
                    Shape::TheirsIsBase => done.ours == side && done.theirs == done.base,
                    Shape::OursIsBase => done.theirs == side && done.ours == done.base,
                    Shape::Same => done.ours == side && done.theirs == side,
                }
            }
        }),
    decreases n,
{
    if n <= 0 {
        assert forall|i: int| 0 <= i < paths.len() implies base.contains_key(#[trigger] paths[i])
            && !base.contains_key(map[paths[i]]) by {
            assert(leads_at(base, side, map, paths[i]));
        }
    } else {
        lemma_aligned(shape, base, side, map, paths, n - 1);
        let none = Map::<Seq<u8>, Seq<u8>>::empty();
        let (ours, theirs, a, b) = match shape {
            Shape::TheirsIsBase => (side, base, map, none),
            Shape::OursIsBase => (base, side, none, map),
            Shape::Same => (side, side, map, map),
        };
        let start = SidesModel { base, ours, theirs, conflicts: Seq::empty() };
        let before = flat_tree::aligned(start, a, b, paths, n - 1)->Ok_0;
        let from = paths[n - 1];
        let to = map[from];
        assert(leads_at(base, side, map, from));
        assert(before.base.contains_key(from) && !before.base.contains_key(to));
        let next = before.base.remove(from).insert(to, before.base[from]);
        assert(flat_tree::entry_moved(before.base, from, to) == Ok::<FlatMap, Error>(next));
        assert(next.dom() =~= before.base.dom().remove(from).insert(to));
        assert forall|i: int| n <= i < paths.len() implies next.contains_key(#[trigger] paths[i])
            && !next.contains_key(map[paths[i]]) by {
            assert(map.contains_key(paths[i]));
            assert(crate::bytes::lex_lt(paths[n - 1], paths[i]));
            crate::bytes::lemma_lex_irreflexive(paths[i]);
            assert(before.base.contains_key(paths[i]));
            assert(!before.base.contains_key(map[paths[i]]));
            assert(apart(map, paths[i], from));
        }
    }
}

proof fn lemma_settled(
    shape: Shape,
    base: FlatMap,
    side: FlatMap,
    contents: Seq<ContentMerge>,
    max: usize,
)
    requires
        base.dom().finite(),
        side.dom().finite(),
        flat_tree::renames_of(base, side, max) is Ok,
        !flat_tree::collides(side.dom()),
    ensures
        ({
            let (ours, theirs) = match shape {
                Shape::TheirsIsBase => (side, base),
                Shape::OursIsBase => (base, side),
                Shape::Same => (side, side),
            };
            flat_tree::merged(base, ours, theirs, contents, max) == Ok::<MergedModel, Error>(
                MergedModel { resolved: side, conflicts: Seq::empty() },
            )
        }),
{
    reveal(flat_tree::merged);
    let none = Map::<Seq<u8>, Seq<u8>>::empty();
    let count = flat_tree::paths_of(base).len() as int;
    let map = flat_tree::renames_of(base, side, max)->Ok_0;
    lemma_renamed_leads(base, side, max, count);
    lemma_no_renames_from_itself(base, max, count);
    let set = match shape {
        Shape::TheirsIsBase => map.dom().union(none.dom()),
        Shape::OursIsBase => none.dom().union(map.dom()),
        Shape::Same => map.dom().union(map.dom()),
    };
    assert(set =~= map.dom());
    id_set::lemma_sorted_exists(map.dom());
    let paths = id_set::sorted(map.dom());
    assert forall|i: int| 0 <= i < paths.len() implies map.contains_key(#[trigger] paths[i]) by {
        assert(paths.to_set().contains(paths[i]));
    }
    lemma_aligned(shape, base, side, map, paths, paths.len() as int);
    let (ours, theirs) = match shape {
        Shape::TheirsIsBase => (side, base),
        Shape::OursIsBase => (base, side),
        Shape::Same => (side, side),
    };
    let sides = flat_tree::aligned_sides(base, ours, theirs, max)->Ok_0;
    let union = sides.base.dom().union(sides.ours.dom()).union(sides.theirs.dom());
    id_set::lemma_sorted_exists(union);
    flat_tree::lemma_one_side_wins(sides, side, contents, id_set::sorted(union));
    let none_shown = flat_tree::shown_paths(Seq::<ConflictModel>::empty());
    assert(side.dom().union(none_shown) =~= side.dom());
}

/// Where one side of a merge is the base, the merge is the other side, without
/// a conflict, whatever that side renamed.
pub proof fn lemma_unchanged_side_yields(
    base: FlatMap,
    side: FlatMap,
    contents: Seq<ContentMerge>,
    max: usize,
)
    requires
        base.dom().finite(),
        side.dom().finite(),
        flat_tree::renames_of(base, side, max) is Ok,
        !flat_tree::collides(side.dom()),
    ensures
        flat_tree::merged(base, side, base, contents, max) == Ok::<MergedModel, Error>(
            MergedModel { resolved: side, conflicts: Seq::empty() },
        ),
        flat_tree::merged(base, base, side, contents, max) == Ok::<MergedModel, Error>(
            MergedModel { resolved: side, conflicts: Seq::empty() },
        ),
{
    lemma_settled(Shape::TheirsIsBase, base, side, contents, max);
    lemma_settled(Shape::OursIsBase, base, side, contents, max);
}

/// Where both sides of a merge are the same, the merge is that side, without a
/// conflict, whatever it renamed.
pub proof fn lemma_same_sides_agree(
    base: FlatMap,
    side: FlatMap,
    contents: Seq<ContentMerge>,
    max: usize,
)
    requires
        base.dom().finite(),
        side.dom().finite(),
        flat_tree::renames_of(base, side, max) is Ok,
        !flat_tree::collides(side.dom()),
    ensures
        flat_tree::merged(base, side, side, contents, max) == Ok::<MergedModel, Error>(
            MergedModel { resolved: side, conflicts: Seq::empty() },
        ),
{
    lemma_settled(Shape::Same, base, side, contents, max);
}

// ---------------------------------------------------------------------------
// Stages

/// Whether the sides of a conflict ascend by their stages, from one to three.
pub open spec fn is_staged(c: ConflictModel) -> bool {
    &&& c.stages.len() > 0
    &&& c.working.len() > 0
    &&& forall|i: int| 0 <= i < c.stages.len() ==> 1 <= (#[trigger] c.stages[i]).stage <= 3
    &&& forall|i: int, j: int|
        0 <= i < j < c.stages.len() ==> (#[trigger] c.stages[i]).stage < (
        #[trigger] c.stages[j]).stage
}

pub open spec fn all_staged(list: Seq<ConflictModel>) -> bool {
    forall|k: int| 0 <= k < list.len() ==> is_staged(#[trigger] list[k])
}

proof fn lemma_push_staged(list: Seq<ConflictModel>, c: ConflictModel)
    requires
        all_staged(list),
        is_staged(c),
    ensures
        all_staged(list.push(c)),
{
    assert forall|k: int| 0 <= k < list.push(c).len() implies is_staged(
        #[trigger] list.push(c)[k],
    ) by {
        if k < list.len() {
            assert(list.push(c)[k] == list[k]);
        }
    }
}

proof fn lemma_aligned_staged(
    sides: SidesModel,
    a: Map<Seq<u8>, Seq<u8>>,
    b: Map<Seq<u8>, Seq<u8>>,
    paths: Seq<Seq<u8>>,
    n: int,
)
    requires
        all_staged(sides.conflicts),
        flat_tree::aligned(sides, a, b, paths, n) is Ok,
    ensures
        all_staged((flat_tree::aligned(sides, a, b, paths, n)->Ok_0).conflicts),
    decreases n,
{
    if n > 0 {
        lemma_aligned_staged(sides, a, b, paths, n - 1);
        let before = flat_tree::aligned(sides, a, b, paths, n - 1)->Ok_0;
        let after = flat_tree::aligned(sides, a, b, paths, n)->Ok_0;
        if after.conflicts != before.conflicts {
            let c = after.conflicts.last();
            assert(after.conflicts =~= before.conflicts.push(c));
            lemma_push_staged(before.conflicts, c);
        }
    }
}

proof fn lemma_merged_staged(
    sides: SidesModel,
    contents: Seq<ContentMerge>,
    paths: Seq<Seq<u8>>,
    n: int,
)
    requires
        all_staged(sides.conflicts),
        flat_tree::merged_paths(sides, contents, paths, n) is Ok,
    ensures
        all_staged((flat_tree::merged_paths(sides, contents, paths, n)->Ok_0).conflicts),
    decreases n,
{
    if n > 0 {
        lemma_merged_staged(sides, contents, paths, n - 1);
        let before = flat_tree::merged_paths(sides, contents, paths, n - 1)->Ok_0;
        let after = flat_tree::merged_paths(sides, contents, paths, n)->Ok_0;
        if after.conflicts != before.conflicts {
            let c = after.conflicts.last();
            assert(after.conflicts =~= before.conflicts.push(c));
            lemma_push_staged(before.conflicts, c);
        }
    }
}

/// Each conflict of a merge has a side, its sides ascend by their stages
/// from one to three, and it shows something.
pub proof fn lemma_conflicts_are_staged(
    base: FlatMap,
    ours: FlatMap,
    theirs: FlatMap,
    contents: Seq<ContentMerge>,
    max: usize,
)
    ensures
        flat_tree::merged(base, ours, theirs, contents, max) matches Ok(m) ==> all_staged(
            m.conflicts,
        ),
{
    reveal(flat_tree::merged);
    if flat_tree::merged(base, ours, theirs, contents, max) is Ok {
        let a = flat_tree::renames_of(base, ours, max)->Ok_0;
        let b = flat_tree::renames_of(base, theirs, max)->Ok_0;
        let paths = id_set::sorted(a.dom().union(b.dom()));
        lemma_aligned_staged(
            SidesModel { base, ours, theirs, conflicts: Seq::empty() },
            a,
            b,
            paths,
            paths.len() as int,
        );
        let sides = flat_tree::aligned_sides(base, ours, theirs, max)->Ok_0;
        let all = id_set::sorted(
            sides.base.dom().union(sides.ours.dom()).union(sides.theirs.dom()),
        );
        lemma_merged_staged(sides, contents, all, all.len() as int);
    }
}

// ---------------------------------------------------------------------------
// What stands

/// Whether everything that stands in one tree stands in another as it was.
pub open spec fn keeps(before: memory::Tree, after: memory::Tree) -> bool {
    forall|p: Seq<u8>| #[trigger]
        before.contains_key(p) ==> after.contains_key(p) && after[p] == before[p]
}

/// Writing an object changes nothing that stands.
pub proof fn lemma_put_keeps(
    files: memory::Tree,
    git: Seq<u8>,
    kind: ObjectKind,
    data: Seq<u8>,
)
    ensures
        keeps(files, storage::put_object(files, git, kind, data).0),
{
    let p = storage::loose_at(git, crate::object::object_id(kind, data));
    if !files.contains_key(p) {
        memory::lemma_directories_keep(files, memory::parent_of(p), 0);
    }
}

proof fn lemma_level_keeps(
    files: memory::Tree,
    git: Seq<u8>,
    map: FlatMap,
    from: int,
    to: int,
    skip: int,
    items: Seq<TreeItem>,
)
    ensures
        keeps(files, write_tree::level_written(files, git, map, from, to, skip, items).0),
    decreases to - from, flat_tree::paths_of(map)[from].len() - skip,
{
    let paths = flat_tree::paths_of(map);
    let path = paths[from];
    if !(0 <= from < to && 0 <= skip <= path.len()) {
        lemma_put_keeps(files, git, ObjectKind::Tree, crate::tree::tree_bytes(items));
    } else {
        let slash = crate::bytes::index_from(path, 47, skip);
        crate::bytes::lemma_index_from(path, 47, skip);
        write_tree::lemma_group_end(paths, path.take(slash + 1), from + 1, to);
        if slash >= path.len() {
            let name = path.skip(skip);
            match crate::tree::mode_of(map[path].mode) {
                None => {},
                Some(mode) => {
                    lemma_level_keeps(
                        files,
                        git,
                        map,
                        from + 1,
                        to,
                        skip,
                        items.push(TreeItem { mode, name, id: map[path].id@ }),
                    );
                },
            }
        } else {
            let end = write_tree::group_end(paths, path.take(slash + 1), from + 1, to);
            let name = path.subrange(skip, slash);
            lemma_level_keeps(files, git, map, from, end, slash + 1, Seq::empty());
            let (after, outcome) = write_tree::level_written(
                files,
                git,
                map,
                from,
                end,
                slash + 1,
                Seq::empty(),
            );
            if outcome is Ok {
                lemma_level_keeps(
                    after,
                    git,
                    map,
                    end,
                    to,
                    skip,
                    items.push(
                        TreeItem { mode: crate::tree::EntryMode::Tree, name, id: outcome->Ok_0 },
                    ),
                );
            }
        }
    }
}

proof fn lemma_flat_keeps(files: memory::Tree, git: Seq<u8>, map: FlatMap)
    ensures
        keeps(files, write_tree::flat_written(files, git, map).0),
{
    reveal(write_tree::flat_written);
    lemma_level_keeps(
        files,
        git,
        map,
        0,
        flat_tree::paths_of(map).len() as int,
        0,
        Seq::empty(),
    );
}

proof fn lemma_three_keeps(
    files: memory::Tree,
    git: Seq<u8>,
    base: Seq<u8>,
    ours: Seq<u8>,
    theirs: Seq<u8>,
    contents: Seq<ContentMerge>,
    options: merge::MergeTreeOptions,
)
    ensures
        keeps(
            files,
            merge::three_merged(files, git, base, ours, theirs, contents, options).0,
        ),
{
    reveal(merge::three_merged);
    match merge::flat_three(files, git, base, ours, theirs, options.max_object_size) {
        Err(_) => {},
        Ok((a, b, c)) => match flat_tree::merged(
            a,
            b,
            c,
            contents,
            options.max_rename_comparisons,
        ) {
            Err(_) => {},
            Ok(m) => {
                lemma_flat_keeps(files, git, merge::material(m));
            },
        },
    }
}

proof fn lemma_combined_keeps(
    files: memory::Tree,
    git: Seq<u8>,
    bases: Seq<ObjectId>,
    ancestor: Option<ObjectId>,
    steps: Seq<Vec<ContentMerge>>,
    options: merge::MergeTreeOptions,
    n: int,
)
    ensures
        keeps(files, merge::combined(files, git, bases, ancestor, steps, options, n).0),
    decreases n,
{
    let size = options.max_object_size as nat;
    if n > 1 {
        lemma_combined_keeps(files, git, bases, ancestor, steps, options, n - 1);
        let (next, before) = merge::combined(files, git, bases, ancestor, steps, options, n - 1);
        if before is Ok {
            reveal(merge::step_combined);
            let other = merge::commit_tree(next, git, bases[n - 1]@, size);
            let (ready, from) = merge::step_base(next, git, ancestor, size, n);
            lemma_flat_keeps(next, git, Map::empty());
            assert(keeps(next, ready));
            if other is Ok && from is Ok {
                lemma_three_keeps(
                    ready,
                    git,
                    from->Ok_0,
                    before->Ok_0,
                    other->Ok_0,
                    merge::contents_of(steps, n - 2),
                    options,
                );
            }
        }
    }
}

/// Merging trees changes nothing that stands: no reference, no entry of the
/// index and no file of the working tree.
pub proof fn lemma_merging_trees_touches_nothing(
    files: memory::Tree,
    git: Seq<u8>,
    ours: Seq<u8>,
    theirs: Seq<u8>,
    bases: Seq<ObjectId>,
    ancestor: Option<ObjectId>,
    steps: Seq<Vec<ContentMerge>>,
    contents: Seq<ContentMerge>,
    options: merge::MergeTreeOptions,
)
    ensures
        keeps(
            files,
            merge::trees_merged(
                files,
                git,
                ours,
                theirs,
                bases,
                ancestor,
                steps,
                contents,
                options,
            ).0,
        ),
{
    let (ready, inputs) = merge::merge_inputs(
        files,
        git,
        ours,
        theirs,
        bases,
        ancestor,
        steps,
        options,
    );
    lemma_flat_keeps(files, git, Map::empty());
    lemma_combined_keeps(files, git, bases, ancestor, steps, options, bases.len() as int);
    assert(keeps(files, ready));
    if inputs is Ok {
        let (a, b, c) = inputs->Ok_0;
        lemma_three_keeps(ready, git, a, b, c, contents, options);
    }
}

} // verus!
