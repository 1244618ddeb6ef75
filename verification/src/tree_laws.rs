//! Laws about stored trees: what a listing of their files holds, and what a
//! tree holds that was written for a flat map.

use vstd::prelude::*;

use crate::bytes;
use crate::flat_tree;
use crate::flat_tree::{ContentMerge, FlatMap, MergeEntry};
use crate::fs::memory;
use crate::fs::Refusal;
use crate::id_set;
use crate::ls_tree;
use crate::ls_tree::{Listed, Walk};
use crate::merge;
use crate::merge::MergeTreeOptions;
use crate::object;
use crate::object::{ObjectId, ObjectKind};
use crate::sha1;
use crate::storage;
use crate::tree;
use crate::tree::{EntryMode, TreeItem};
use crate::write_tree;

verus! {

/// Whether an entry stands at some level of a tree.
pub open spec fn stands(
    files: memory::Tree,
    git: Seq<u8>,
    id: Seq<u8>,
    prefix: Seq<u8>,
    entry: Listed,
    size: nat,
) -> bool {
    exists|steps: nat| #[trigger] ls_tree::holds(files, git, id, prefix, entry, size, steps)
}

/// Whether an entry is one of a tree, or stands below it.
pub open spec fn leads(
    files: memory::Tree,
    git: Seq<u8>,
    item: TreeItem,
    prefix: Seq<u8>,
    entry: Listed,
    size: nat,
) -> bool {
    let at = ls_tree::extended(prefix, item.name);
    ||| at == entry.path && item.mode == entry.mode && item.id == entry.id
    ||| item.mode is Tree && ls_tree::stands_below(entry.path, at) && stands(
        files,
        git,
        item.id,
        at,
        entry,
        size,
    )
}

/// Whether one of some entries leads to an entry.
pub open spec fn led(
    files: memory::Tree,
    git: Seq<u8>,
    list: Seq<TreeItem>,
    prefix: Seq<u8>,
    entry: Listed,
    size: nat,
) -> bool {
    exists|i: int|
        0 <= i < list.len() && leads(files, git, #[trigger] list[i], prefix, entry, size)
}

proof fn lemma_stands(
    files: memory::Tree,
    git: Seq<u8>,
    id: Seq<u8>,
    prefix: Seq<u8>,
    entry: Listed,
    size: nat,
)
    requires
        tree::stored_tree(files, git, id, size) is Ok,
    ensures
        stands(files, git, id, prefix, entry, size) <==> led(
            files,
            git,
            tree::stored_tree(files, git, id, size)->Ok_0,
            prefix,
            entry,
            size,
        ),
{
    let list = tree::stored_tree(files, git, id, size)->Ok_0;
    if stands(files, git, id, prefix, entry, size) {
        let steps = choose|steps: nat| #[trigger]
            ls_tree::holds(files, git, id, prefix, entry, size, steps);
        let i = choose|i: int|
            #![trigger list[i]]
            0 <= i < list.len() && {
                let at = ls_tree::extended(prefix, list[i].name);
                ||| at == entry.path && list[i].mode == entry.mode && list[i].id == entry.id
                ||| list[i].mode is Tree && ls_tree::stands_below(entry.path, at) && steps > 0
                    && ls_tree::holds(
                    files,
                    git,
                    list[i].id,
                    at,
                    entry,
                    size,
                    (steps - 1) as nat,
                )
            };
        assert(leads(files, git, list[i], prefix, entry, size));
    }
    if led(files, git, list, prefix, entry, size) {
        let i = choose|i: int|
            0 <= i < list.len() && leads(files, git, #[trigger] list[i], prefix, entry, size);
        let at = ls_tree::extended(prefix, list[i].name);
        if at == entry.path && list[i].mode == entry.mode && list[i].id == entry.id {
            assert(ls_tree::holds(files, git, id, prefix, entry, size, 0));
        } else {
            let steps = choose|steps: nat| #[trigger]
                ls_tree::holds(files, git, list[i].id, at, entry, size, steps);
            let more = steps + 1;
            assert((more - 1) as nat == steps);
            assert(ls_tree::holds(files, git, id, prefix, entry, size, more));
        }
    }
}

// ---------------------------------------------------------------------------
// A listing of all files

/// What a walk added stands in the tree, below its prefix.
spec fn added_stand(
    files: memory::Tree,
    git: Seq<u8>,
    list: Seq<TreeItem>,
    prefix: Seq<u8>,
    size: nat,
    before: Walk,
    after: Walk,
) -> bool {
    &&& before.out.len() <= after.out.len()
    &&& forall|k: int|
        0 <= k < after.out.len() ==> #[trigger] after.out[k] == before.out[k] && k
            < before.out.len() || (k >= before.out.len() && !(after.out[k].mode is Tree) && led(
            files,
            git,
            list,
            prefix,
            after.out[k],
            size,
        ) && (prefix.len() == 0 || ls_tree::stands_below(after.out[k].path, prefix)))
}

proof fn lemma_tree_walk_stands(
    files: memory::Tree,
    git: Seq<u8>,
    id: Seq<u8>,
    prefix: Seq<u8>,
    depth: int,
    size: usize,
    walk: Walk,
)
    requires
        ls_tree::walk_tree(files, git, id, prefix, depth, ls_tree::all_files(size), walk) is Ok,
    ensures
        added_stand(
            files,
            git,
            tree::stored_tree(files, git, id, size as nat)->Ok_0,
            prefix,
            size as nat,
            walk,
            ls_tree::walk_tree(files, git, id, prefix, depth, ls_tree::all_files(size), walk)->Ok_0,
        ),
    decreases usize::MAX + 1 - depth, 1int, 0int,
{
    let list = tree::stored_tree(files, git, id, size as nat)->Ok_0;
    tree::lemma_stored_names(files, git, id, size as nat);
    lemma_item_walk_stands(files, git, list, 0, prefix, depth, size, walk);
}

proof fn lemma_item_walk_stands(
    files: memory::Tree,
    git: Seq<u8>,
    list: Seq<TreeItem>,
    i: int,
    prefix: Seq<u8>,
    depth: int,
    size: usize,
    walk: Walk,
)
    requires
        0 <= i,
        forall|j: int| 0 <= j < list.len() ==> (#[trigger] list[j]).name.len() > 0,
        ls_tree::walk_items(files, git, list, i, prefix, depth, ls_tree::all_files(size), walk) is Ok,
    ensures
        added_stand(
            files,
            git,
            list,
            prefix,
            size as nat,
            walk,
            ls_tree::walk_items(
                files,
                git,
                list,
                i,
                prefix,
                depth,
                ls_tree::all_files(size),
                walk,
            )->Ok_0,
        ),
    decreases usize::MAX + 1 - depth, 0int, list.len() - i,
{
    let options = ls_tree::all_files(size);
    let last = ls_tree::walk_items(files, git, list, i, prefix, depth, options, walk)->Ok_0;
    if i < list.len() && depth <= options.max_depth {
        reveal(ls_tree::emits);
        reveal(ls_tree::listed_entry);
        let item = list[i];
        let path = ls_tree::extended(prefix, item.name);
        let entry = Listed {
            path,
            mode: item.mode,
            kind: tree::kind_of_mode(item.mode),
            id: item.id,
            object_size: None,
        };
        let next = if item.mode is Tree {
            Walk { visited: walk.visited + 1, out: walk.out }
        } else {
            Walk { visited: walk.visited + 1, out: walk.out.push(entry) }
        };
        assert(prefix.len() > 0 ==> ls_tree::stands_below(path, prefix)) by {
            if prefix.len() > 0 {
                assert(path.take(prefix.len() as int) =~= prefix);
            }
        }
        assert(added_stand(files, git, list, prefix, size as nat, walk, next)) by {
            assert(leads(files, git, item, prefix, entry, size as nat));
        }
        let middle = if item.mode is Tree {
            lemma_tree_walk_stands(files, git, item.id, path, depth + 1, size, next);
            ls_tree::walk_tree(files, git, item.id, path, depth + 1, options, next)->Ok_0
        } else {
            next
        };
        assert(added_stand(files, git, list, prefix, size as nat, next, middle)) by {
            if item.mode is Tree {
                assert forall|k: int| next.out.len() <= k < middle.out.len() implies led(
                    files,
                    git,
                    list,
                    prefix,
                    #[trigger] middle.out[k],
                    size as nat,
                ) && (prefix.len() == 0 || ls_tree::stands_below(middle.out[k].path, prefix)) by {
                    let found = middle.out[k];
                    lemma_stands(files, git, item.id, path, found, size as nat);
                    assert(leads(files, git, item, prefix, found, size as nat));
                    if prefix.len() > 0 {
                        lemma_below_transitive(found.path, path, prefix);
                    }
                }
            }
        }
        lemma_item_walk_stands(files, git, list, i + 1, prefix, depth, size, middle);
        assert(added_stand(files, git, list, prefix, size as nat, middle, last));
        assert forall|k: int| 0 <= k < last.out.len() implies #[trigger] last.out[k] == walk.out[k]
            && k < walk.out.len() || (k >= walk.out.len() && !(last.out[k].mode is Tree) && led(
            files,
            git,
            list,
            prefix,
            last.out[k],
            size as nat,
        ) && (prefix.len() == 0 || ls_tree::stands_below(last.out[k].path, prefix))) by {
            if k < middle.out.len() {
                assert(last.out[k] == middle.out[k]);
                if k < next.out.len() {
                    assert(middle.out[k] == next.out[k]);
                }
            }
        }
    }
}

proof fn lemma_below_transitive(a: Seq<u8>, b: Seq<u8>, c: Seq<u8>)
    requires
        ls_tree::stands_below(a, b),
        ls_tree::stands_below(b, c),
    ensures
        ls_tree::stands_below(a, c),
{
    assert(a.take(c.len() as int) =~= a.take(b.len() as int).take(c.len() as int));
    assert(a[c.len() as int] == a.take(b.len() as int)[c.len() as int]);
}

/// A listing of all files of a tree lists the files that stand in it, at
/// whatever level, and nothing else.
pub proof fn lemma_all_files_are_listed(
    files: memory::Tree,
    git: Seq<u8>,
    id: Seq<u8>,
    size: usize,
    entry: Listed,
)
    requires
        !(entry.mode is Tree),
    ensures
        ls_tree::tree_listing(files, git, id, ls_tree::all_files(size)) matches Ok(list) ==> {
            &&& ls_tree::lists(list, entry) <==> stands(
                files,
                git,
                id,
                Seq::empty(),
                entry,
                size as nat,
            )
            &&& forall|k: int| 0 <= k < list.len() ==> !((#[trigger] list[k]).mode is Tree)
        },
{
    let options = ls_tree::all_files(size);
    if ls_tree::tree_listing(files, git, id, options) is Ok {
        let none = Seq::<u8>::empty();
        let start = Walk { visited: 0, out: Seq::empty() };
        let out = (ls_tree::walk_tree(files, git, id, none, 0, options, start)->Ok_0).out;
        lemma_tree_walk_stands(files, git, id, none, 0, size, start);
        if stands(files, git, id, none, entry, size as nat) {
            let steps = choose|steps: nat| #[trigger]
                ls_tree::holds(files, git, id, none, entry, size as nat, steps);
            ls_tree::lemma_tree_walk_reaches(
                files,
                git,
                id,
                none,
                0,
                options,
                start,
                entry,
                steps,
            );
        }
        if ls_tree::lists(out, entry) {
            let k = choose|k: int|
                0 <= k < out.len() && (#[trigger] out[k]).path == entry.path && out[k].mode
                    == entry.mode && out[k].id == entry.id;
            let list = tree::stored_tree(files, git, id, size as nat)->Ok_0;
            assert(led(files, git, list, none, out[k], size as nat));
            lemma_stands(files, git, id, none, out[k], size as nat);
            let steps = choose|steps: nat| #[trigger]
                ls_tree::holds(files, git, id, none, out[k], size as nat, steps);
            lemma_holds_alike(files, git, id, none, out[k], entry, size as nat, steps);
        }
    }
}

/// Which entry a tree holds does not depend on the kind or size noted for it.
proof fn lemma_holds_alike(
    files: memory::Tree,
    git: Seq<u8>,
    id: Seq<u8>,
    prefix: Seq<u8>,
    a: Listed,
    b: Listed,
    size: nat,
    steps: nat,
)
    requires
        a.path == b.path && a.mode == b.mode && a.id == b.id,
        ls_tree::holds(files, git, id, prefix, a, size, steps),
    ensures
        ls_tree::holds(files, git, id, prefix, b, size, steps),
    decreases steps,
{
    let list = tree::stored_tree(files, git, id, size)->Ok_0;
    let i = choose|i: int|
        #![trigger list[i]]
        0 <= i < list.len() && {
            let at = ls_tree::extended(prefix, list[i].name);
            ||| at == a.path && list[i].mode == a.mode && list[i].id == a.id
            ||| list[i].mode is Tree && ls_tree::stands_below(a.path, at) && steps > 0
                && ls_tree::holds(files, git, list[i].id, at, a, size, (steps - 1) as nat)
        };
    let at = ls_tree::extended(prefix, list[i].name);
    if !(at == a.path && list[i].mode == a.mode && list[i].id == a.id) {
        lemma_holds_alike(files, git, list[i].id, at, a, b, size, (steps - 1) as nat);
    }
}

// ---------------------------------------------------------------------------
// A written tree

/// The identifier of the tree that one directory of a flat map is written as.
pub open spec fn level_id(
    map: FlatMap,
    from: int,
    to: int,
    skip: int,
    items: Seq<TreeItem>,
) -> Seq<u8>
    decreases to - from, flat_tree::paths_of(map)[from].len() - skip,
{
    let paths = flat_tree::paths_of(map);
    let path = paths[from];
    if !(0 <= from < to && 0 <= skip <= path.len()) {
        object::object_id(ObjectKind::Tree, tree::tree_bytes(items))
    } else {
        let slash = bytes::index_from(path, 47, skip);
        proof {
            bytes::lemma_index_from(path, 47, skip);
            write_tree::lemma_group_end(paths, path.take(slash + 1), from + 1, to);
        }
        if slash >= path.len() {
            level_id(map, from + 1, to, skip, items.push(file_item(map, path, skip)))
        } else {
            let end = write_tree::group_end(paths, path.take(slash + 1), from + 1, to);
            let id = level_id(map, from, end, slash + 1, Seq::empty());
            level_id(
                map,
                end,
                to,
                skip,
                items.push(
                    TreeItem { mode: EntryMode::Tree, name: path.subrange(skip, slash), id },
                ),
            )
        }
    }
}

/// The entry that a file is written as, in the directory whose paths share
/// their first `skip` bytes.
pub open spec fn file_item(map: FlatMap, path: Seq<u8>, skip: int) -> TreeItem {
    TreeItem {
        mode: tree::mode_of(map[path].mode)->0,
        name: path.skip(skip),
        id: map[path].id@,
    }
}

/// Whether the trees that one directory of a flat map is written as are read
/// as they were written.
pub open spec fn level_reads(
    files: memory::Tree,
    git: Seq<u8>,
    size: nat,
    map: FlatMap,
    from: int,
    to: int,
    skip: int,
    items: Seq<TreeItem>,
) -> bool
    decreases to - from, flat_tree::paths_of(map)[from].len() - skip,
{
    let paths = flat_tree::paths_of(map);
    let path = paths[from];
    if !(0 <= from < to && 0 <= skip <= path.len()) {
        let body = tree::tree_bytes(items);
        storage::stored_object(files, git, object::object_id(ObjectKind::Tree, body), size) == Ok::<
            (ObjectKind, Seq<u8>),
            Refusal,
        >((ObjectKind::Tree, body))
    } else {
        let slash = bytes::index_from(path, 47, skip);
        proof {
            bytes::lemma_index_from(path, 47, skip);
            write_tree::lemma_group_end(paths, path.take(slash + 1), from + 1, to);
        }
        if slash >= path.len() {
            level_reads(
                files,
                git,
                size,
                map,
                from + 1,
                to,
                skip,
                items.push(file_item(map, path, skip)),
            )
        } else {
            let end = write_tree::group_end(paths, path.take(slash + 1), from + 1, to);
            let id = level_id(map, from, end, slash + 1, Seq::empty());
            &&& level_reads(files, git, size, map, from, end, slash + 1, Seq::empty())
            &&& level_reads(
                files,
                git,
                size,
                map,
                end,
                to,
                skip,
                items.push(
                    TreeItem { mode: EntryMode::Tree, name: path.subrange(skip, slash), id },
                ),
            )
        }
    }
}

/// Whether an entry is the file that a flat map has at a path.
pub open spec fn is_file(map: FlatMap, path: Seq<u8>, entry: Listed) -> bool {
    &&& entry.path == path
    &&& tree::mode_of(map[path].mode) == Some(entry.mode)
    &&& entry.id == map[path].id@
}

/// Whether an entry is a file that a flat map has at one of its paths from
/// `from` to `to`.
pub open spec fn among(map: FlatMap, from: int, to: int, entry: Listed) -> bool {
    exists|j: int|
        from <= j < to && is_file(map, #[trigger] flat_tree::paths_of(map)[j], entry)
}

/// Whether every entry of a flat map is a file, with a mode that trees keep.
pub open spec fn all_are_files(map: FlatMap) -> bool {
    forall|p: Seq<u8>| #[trigger]
        map.contains_key(p) ==> (tree::mode_of(map[p].mode) matches Some(mode) && !(mode is Tree)
            && tree::mode_value(mode) == map[p].mode)
}

/// Whether the paths from `from` to `to` stand in a directory, and share their
/// first `skip` bytes with it.
spec fn within(map: FlatMap, from: int, to: int, skip: int, prefix: Seq<u8>) -> bool {
    if prefix.len() == 0 {
        skip == 0
    } else {
        &&& skip == prefix.len() + 1
        &&& forall|k: int|
            from <= k < to ==> bytes::has_prefix(
                #[trigger] flat_tree::paths_of(map)[k],
                prefix.push(47),
            )
    }
}

/// Whether entries lead to just the files at some paths.
spec fn covers(
    files: memory::Tree,
    git: Seq<u8>,
    size: nat,
    map: FlatMap,
    from: int,
    to: int,
    prefix: Seq<u8>,
    items: Seq<TreeItem>,
) -> bool {
    forall|entry: Listed|
        !(entry.mode is Tree) ==> (#[trigger] led(files, git, items, prefix, entry, size)
            <==> among(map, from, to, entry))
}

proof fn lemma_led_push(
    files: memory::Tree,
    git: Seq<u8>,
    list: Seq<TreeItem>,
    item: TreeItem,
    prefix: Seq<u8>,
    entry: Listed,
    size: nat,
)
    ensures
        led(files, git, list.push(item), prefix, entry, size) <==> led(
            files,
            git,
            list,
            prefix,
            entry,
            size,
        ) || leads(files, git, item, prefix, entry, size),
{
    let more = list.push(item);
    if led(files, git, list, prefix, entry, size) {
        let i = choose|i: int|
            0 <= i < list.len() && leads(files, git, #[trigger] list[i], prefix, entry, size);
        assert(more[i] == list[i]);
    }
    if leads(files, git, item, prefix, entry, size) {
        assert(more[list.len() as int] == item);
    }
    if led(files, git, more, prefix, entry, size) {
        let i = choose|i: int|
            0 <= i < more.len() && leads(files, git, #[trigger] more[i], prefix, entry, size);
        if i < list.len() {
            assert(list[i] == more[i]);
        }
    }
}

proof fn lemma_among_split(map: FlatMap, from: int, mid: int, to: int, entry: Listed)
    requires
        from <= mid <= to,
    ensures
        among(map, from, to, entry) <==> among(map, from, mid, entry) || among(map, mid, to, entry),
{
    let paths = flat_tree::paths_of(map);
    if among(map, from, to, entry) {
        let j = choose|j: int| from <= j < to && is_file(map, #[trigger] paths[j], entry);
        assert(is_file(map, paths[j], entry));
    }
    if among(map, from, mid, entry) {
        let j = choose|j: int| from <= j < mid && is_file(map, #[trigger] paths[j], entry);
        assert(is_file(map, paths[j], entry));
    }
    if among(map, mid, to, entry) {
        let j = choose|j: int| mid <= j < to && is_file(map, #[trigger] paths[j], entry);
        assert(is_file(map, paths[j], entry));
    }
}

/// The path of a directory's entry.
proof fn lemma_entry_path(path: Seq<u8>, prefix: Seq<u8>, skip: int, end: int)
    requires
        skip < end <= path.len(),
        prefix.len() == 0 ==> skip == 0,
        prefix.len() > 0 ==> skip == prefix.len() + 1 && bytes::has_prefix(path, prefix.push(47)),
    ensures
        ls_tree::extended(prefix, path.subrange(skip, end)) == path.take(end),
{
    if prefix.len() > 0 {
        assert(path.take(skip) == prefix.push(47));
        assert(prefix.push(47) + path.subrange(skip, end) =~= path.take(end)) by {
            assert forall|i: int| 0 <= i < skip implies path[i] == prefix.push(47)[i] by {
                assert(path.take(skip)[i] == path[i]);
            }
        }
    } else {
        assert(path.subrange(skip, end) =~= path.take(end));
    }
}

#[verifier::spinoff_prover]
#[verifier::rlimit(60)]
proof fn lemma_file_step(
    files: memory::Tree,
    git: Seq<u8>,
    size: nat,
    map: FlatMap,
    lo: int,
    from: int,
    to: int,
    skip: int,
    prefix: Seq<u8>,
    items: Seq<TreeItem>,
)
    requires
        0 <= lo <= from < to <= flat_tree::paths_of(map).len(),
        all_are_files(map),
        map.contains_key(flat_tree::paths_of(map)[from]),
        within(map, lo, to, skip, prefix),
        skip < flat_tree::paths_of(map)[from].len(),
        covers(files, git, size, map, lo, from, prefix, items),
    ensures
        covers(
            files,
            git,
            size,
            map,
            lo,
            from + 1,
            prefix,
            items.push(file_item(map, flat_tree::paths_of(map)[from], skip)),
        ),
{
    let paths = flat_tree::paths_of(map);
    let path = paths[from];
    let item = file_item(map, path, skip);
    let more = items.push(item);
    assert(path.skip(skip) =~= path.subrange(skip, path.len() as int));
    lemma_entry_path(path, prefix, skip, path.len() as int);
    assert(path.take(path.len() as int) =~= path);
    assert(ls_tree::extended(prefix, item.name) == path);
    assert forall|entry: Listed| !(entry.mode is Tree) implies (#[trigger] led(
        files,
        git,
        more,
        prefix,
        entry,
        size,
    ) <==> among(map, lo, from + 1, entry)) by {
        lemma_led_push(files, git, items, item, prefix, entry, size);
        lemma_among_split(map, lo, from, from + 1, entry);
        assert(led(files, git, items, prefix, entry, size) <==> among(map, lo, from, entry));
        assert(leads(files, git, item, prefix, entry, size) <==> is_file(map, path, entry));
        assert(among(map, from, from + 1, entry) <==> is_file(map, path, entry)) by {
            if is_file(map, path, entry) {
                assert(is_file(map, paths[from], entry));
            }
        }
    }
}

#[verifier::spinoff_prover]
#[verifier::rlimit(60)]
proof fn lemma_directory_step(
    files: memory::Tree,
    git: Seq<u8>,
    size: nat,
    map: FlatMap,
    lo: int,
    from: int,
    end: int,
    to: int,
    skip: int,
    slash: int,
    id: Seq<u8>,
    prefix: Seq<u8>,
    items: Seq<TreeItem>,
)
    requires
        0 <= lo <= from < end <= to <= flat_tree::paths_of(map).len(),
        within(map, lo, to, skip, prefix),
        skip < slash < flat_tree::paths_of(map)[from].len(),
        flat_tree::paths_of(map)[from][slash] == 47,
        within(map, from, end, slash + 1, flat_tree::paths_of(map)[from].take(slash)),
        covers(files, git, size, map, lo, from, prefix, items),
        forall|entry: Listed|
            !(entry.mode is Tree) ==> (#[trigger] stands(
                files,
                git,
                id,
                flat_tree::paths_of(map)[from].take(slash),
                entry,
                size,
            ) <==> among(map, from, end, entry)),
    ensures
        covers(
            files,
            git,
            size,
            map,
            lo,
            end,
            prefix,
            items.push(
                TreeItem {
                    mode: EntryMode::Tree,
                    name: flat_tree::paths_of(map)[from].subrange(skip, slash),
                    id,
                },
            ),
        ),
{
    let paths = flat_tree::paths_of(map);
    let path = paths[from];
    let at = path.take(slash);
    let item = TreeItem { mode: EntryMode::Tree, name: path.subrange(skip, slash), id };
    let more = items.push(item);
    lemma_entry_path(path, prefix, skip, slash);
    assert(ls_tree::extended(prefix, item.name) == at);
    assert forall|entry: Listed| !(entry.mode is Tree) implies (#[trigger] led(
        files,
        git,
        more,
        prefix,
        entry,
        size,
    ) <==> among(map, lo, end, entry)) by {
        lemma_led_push(files, git, items, item, prefix, entry, size);
        lemma_among_split(map, lo, from, end, entry);
        assert(led(files, git, items, prefix, entry, size) <==> among(map, lo, from, entry));
        assert(stands(files, git, id, at, entry, size) <==> among(map, from, end, entry));
        if among(map, from, end, entry) {
            let j = choose|j: int| from <= j < end && is_file(map, #[trigger] paths[j], entry);
            assert(bytes::has_prefix(paths[j], at.push(47)));
            assert(paths[j].take(slash + 1) == at.push(47));
            assert(paths[j].take(at.len() as int) =~= paths[j].take(slash + 1).take(
                at.len() as int,
            ));
            assert(at.push(47).take(at.len() as int) =~= at);
            assert(paths[j][at.len() as int] == paths[j].take(slash + 1)[at.len() as int]);
            assert(ls_tree::stands_below(entry.path, at));
        }
    }
}

/// Reading the trees that one directory was written as finds just its files.
#[verifier::spinoff_prover]
#[verifier::rlimit(60)]
proof fn lemma_level_stands(
    before: memory::Tree,
    files: memory::Tree,
    git: Seq<u8>,
    size: nat,
    map: FlatMap,
    lo: int,
    from: int,
    to: int,
    skip: int,
    prefix: Seq<u8>,
    items: Seq<TreeItem>,
)
    requires
        0 <= lo <= from <= to <= flat_tree::paths_of(map).len(),
        all_are_files(map),
        forall|k: int|
            0 <= k < flat_tree::paths_of(map).len() ==> map.contains_key(
                #[trigger] flat_tree::paths_of(map)[k],
            ),
        within(map, lo, to, skip, prefix),
        forall|i: int| 0 <= i < items.len() ==> tree::sound_item(#[trigger] items[i]),
        covers(files, git, size, map, lo, from, prefix, items),
        write_tree::level_written(before, git, map, from, to, skip, items).1 is Ok,
        level_reads(files, git, size, map, from, to, skip, items),
    ensures
        write_tree::level_written(before, git, map, from, to, skip, items).1 == Ok::<
            Seq<u8>,
            Refusal,
        >(level_id(map, from, to, skip, items)),
        forall|entry: Listed|
            !(entry.mode is Tree) ==> (#[trigger] stands(
                files,
                git,
                level_id(map, from, to, skip, items),
                prefix,
                entry,
                size,
            ) <==> among(map, lo, to, entry)),
    decreases to - from, flat_tree::paths_of(map)[from].len() - skip,
{
    let paths = flat_tree::paths_of(map);
    let path = paths[from];
    if from < to && prefix.len() > 0 {
        assert(bytes::has_prefix(path, prefix.push(47)));
    }
    if from >= to {
        let id = level_id(map, from, to, skip, items);
        tree::lemma_tree_round_trip(items);
        assert(tree::stored_tree(files, git, id, size) == Ok::<Seq<TreeItem>, Refusal>(items)) by {
            reveal(tree::stored_tree);
        }
        assert forall|entry: Listed| !(entry.mode is Tree) implies (#[trigger] stands(
            files,
            git,
            id,
            prefix,
            entry,
            size,
        ) <==> among(map, lo, to, entry)) by {
            lemma_stands(files, git, id, prefix, entry, size);
            assert(led(files, git, items, prefix, entry, size) <==> among(map, lo, from, entry));
        }
    } else {
        assert(0 <= skip <= path.len());
        let slash = bytes::index_from(path, 47, skip);
        bytes::lemma_index_from(path, 47, skip);
        write_tree::lemma_group_end(paths, path.take(slash + 1), from + 1, to);
        if slash >= path.len() {
            let item = file_item(map, path, skip);
            let more = items.push(item);
            assert(tree::sound_item(item)) by {
                ObjectId::lemma_view(map[path].id, map[path].id);
            }
            assert forall|i: int| 0 <= i < more.len() implies tree::sound_item(
                #[trigger] more[i],
            ) by {
                if i < items.len() {
                    assert(more[i] == items[i]);
                }
            }
            assert(skip < path.len());
            lemma_file_step(files, git, size, map, lo, from, to, skip, prefix, items);
            lemma_level_stands(
                before,
                files,
                git,
                size,
                map,
                lo,
                from + 1,
                to,
                skip,
                prefix,
                more,
            );
        } else {
            let end = write_tree::group_end(paths, path.take(slash + 1), from + 1, to);
            let name = path.subrange(skip, slash);
            let at = path.take(slash);
            assert(at.push(47) =~= path.take(slash + 1));
            assert(name.len() > 0);
            assert(within(map, from, end, slash + 1, at));
            assert(covers(files, git, size, map, from, from, at, Seq::empty()));
            lemma_level_stands(
                before,
                files,
                git,
                size,
                map,
                from,
                from,
                end,
                slash + 1,
                at,
                Seq::empty(),
            );
            let id = level_id(map, from, end, slash + 1, Seq::empty());
            let next = write_tree::level_written(
                before,
                git,
                map,
                from,
                end,
                slash + 1,
                Seq::empty(),
            ).0;
            let item = TreeItem { mode: EntryMode::Tree, name, id };
            let more = items.push(item);
            lemma_level_id_len(map, from, end, slash + 1, Seq::empty());
            assert forall|i: int| 0 <= i < more.len() implies tree::sound_item(
                #[trigger] more[i],
            ) by {
                if i < items.len() {
                    assert(more[i] == items[i]);
                }
            }
            lemma_directory_step(
                files,
                git,
                size,
                map,
                lo,
                from,
                end,
                to,
                skip,
                slash,
                id,
                prefix,
                items,
            );
            lemma_level_stands(next, files, git, size, map, lo, end, to, skip, prefix, more);
        }
    }
}

proof fn lemma_level_id_len(map: FlatMap, from: int, to: int, skip: int, items: Seq<TreeItem>)
    ensures
        level_id(map, from, to, skip, items).len() == 20,
    decreases to - from, flat_tree::paths_of(map)[from].len() - skip,
{
    let paths = flat_tree::paths_of(map);
    let path = paths[from];
    if !(0 <= from < to && 0 <= skip <= path.len()) {
        sha1::lemma_sha1_len(object::framed(ObjectKind::Tree, tree::tree_bytes(items)));
    } else {
        let slash = bytes::index_from(path, 47, skip);
        bytes::lemma_index_from(path, 47, skip);
        write_tree::lemma_group_end(paths, path.take(slash + 1), from + 1, to);
        if slash >= path.len() {
            lemma_level_id_len(map, from + 1, to, skip, items.push(file_item(map, path, skip)));
        } else {
            let end = write_tree::group_end(paths, path.take(slash + 1), from + 1, to);
            let id = level_id(map, from, end, slash + 1, Seq::empty());
            let item = TreeItem { mode: EntryMode::Tree, name: path.subrange(skip, slash), id };
            lemma_level_id_len(map, end, to, skip, items.push(item));
        }
    }
}

/// The flat map of a list holds an entry of the list at each of its paths.
proof fn lemma_flat_of(list: Seq<Listed>, n: int)
    requires
        0 <= n <= list.len(),
    ensures
        forall|p: Seq<u8>| #[trigger]
            merge::flat_of(list, n).contains_key(p) ==> exists|k: int|
                0 <= k < n && (#[trigger] list[k]).path == p && merge::flat_of(list, n)[p] == (
                MergeEntry {
                    mode: tree::mode_value(list[k].mode),
                    id: object::id_with(list[k].id),
                }),
        forall|k: int| 0 <= k < n ==> merge::flat_of(list, n).contains_key((#[trigger] list[k]).path),
    decreases n,
{
    if n > 0 {
        lemma_flat_of(list, n - 1);
        let less = merge::flat_of(list, n - 1);
        let more = merge::flat_of(list, n);
        assert forall|p: Seq<u8>| #[trigger] more.contains_key(p) implies exists|k: int|
            0 <= k < n && (#[trigger] list[k]).path == p && more[p] == (MergeEntry {
                mode: tree::mode_value(list[k].mode),
                id: object::id_with(list[k].id),
            }) by {
            if p == list[n - 1].path {
                assert(list[n - 1].path == p);
            } else {
                assert(less.contains_key(p));
                let k = choose|k: int|
                    0 <= k < n - 1 && (#[trigger] list[k]).path == p && less[p] == (MergeEntry {
                        mode: tree::mode_value(list[k].mode),
                        id: object::id_with(list[k].id),
                    });
                assert(list[k].path == p);
            }
        }
    }
}

/// The tree that was written for a flat map of files is read as that map, by
/// files where each of its trees is read as it was written: a tree that was
/// not there before is, as long as nothing else takes its place.
pub proof fn lemma_written_map_is_read(
    before: memory::Tree,
    files: memory::Tree,
    git: Seq<u8>,
    map: FlatMap,
    size: usize,
)
    requires
        map.dom().finite(),
        all_are_files(map),
        level_reads(
            files,
            git,
            size as nat,
            map,
            0,
            flat_tree::paths_of(map).len() as int,
            0,
            Seq::empty(),
        ),
    ensures
        write_tree::flat_written(before, git, map).1 matches Ok(id) ==> (merge::flattened(
            files,
            git,
            id,
            size,
        ) matches Ok(read) ==> read == map),
{
    reveal(write_tree::flat_written);
    let paths = flat_tree::paths_of(map);
    let count = paths.len() as int;
    let none = Seq::<u8>::empty();
    id_set::lemma_sorted_exists(map.dom());
    assert forall|k: int| 0 <= k < paths.len() implies map.contains_key(#[trigger] paths[k]) by {
        assert(paths.to_set().contains(paths[k]));
    }
    if write_tree::flat_written(before, git, map).1 is Ok {
        let id = write_tree::flat_written(before, git, map).1->Ok_0;
        assert(covers(files, git, size as nat, map, 0, 0, none, Seq::empty()));
        lemma_level_stands(
            before,
            files,
            git,
            size as nat,
            map,
            0,
            0,
            count,
            0,
            none,
            Seq::empty(),
        );
        if merge::flattened(files, git, id, size) is Ok {
            let list = ls_tree::tree_listing(files, git, id, ls_tree::all_files(size))->Ok_0;
            let read = merge::flattened(files, git, id, size)->Ok_0;
            lemma_flat_of(list, list.len() as int);
            assert forall|k: int| 0 <= k < list.len() implies among(
                map,
                0,
                count,
                #[trigger] list[k],
            ) by {
                let some = Listed { mode: EntryMode::Blob, ..list[k] };
                lemma_all_files_are_listed(files, git, id, size, some);
                lemma_all_files_are_listed(files, git, id, size, list[k]);
                assert(ls_tree::lists(list, list[k]));
                assert(stands(files, git, id, none, list[k], size as nat));
            }
            assert forall|p: Seq<u8>| #[trigger] map.contains_key(p) implies read.contains_key(
                p,
            ) by {
                assert(paths.to_set().contains(p));
                let j = choose|j: int| 0 <= j < paths.len() && paths[j] == p;
                let mode = tree::mode_of(map[p].mode)->0;
                let entry = Listed {
                    path: p,
                    mode,
                    kind: tree::kind_of_mode(mode),
                    id: map[p].id@,
                    object_size: None,
                };
                assert(is_file(map, paths[j], entry));
                assert(among(map, 0, count, entry));
                assert(stands(files, git, id, none, entry, size as nat));
                lemma_all_files_are_listed(files, git, id, size, entry);
                let k = choose|k: int|
                    0 <= k < list.len() && (#[trigger] list[k]).path == entry.path
                        && list[k].mode == entry.mode && list[k].id == entry.id;
                assert(read.contains_key(list[k].path));
            }
            assert forall|p: Seq<u8>| #[trigger] read.contains_key(p) implies map.contains_key(p)
                && read[p] == map[p] by {
                let k = choose|k: int|
                    0 <= k < list.len() && (#[trigger] list[k]).path == p && read[p] == (
                    MergeEntry {
                        mode: tree::mode_value(list[k].mode),
                        id: object::id_with(list[k].id),
                    });
                assert(among(map, 0, count, list[k]));
                let j = choose|j: int| 0 <= j < count && is_file(map, #[trigger] paths[j], list[k]);
                assert(map.contains_key(paths[j]));
                object::lemma_id_with(map[p].id);
            }
            assert(read =~= map);
        }
    }
}

/// The tree that a merge of three trees wrote is read as what the merge made
/// of them: the settled paths, and what the conflicts show.
pub proof fn lemma_merged_tree_is_read(
    before: memory::Tree,
    files: memory::Tree,
    git: Seq<u8>,
    base: Seq<u8>,
    ours: Seq<u8>,
    theirs: Seq<u8>,
    contents: Seq<ContentMerge>,
    options: MergeTreeOptions,
)
    requires
        merge::flat_three(before, git, base, ours, theirs, options.max_object_size) matches Ok((
            a,
            b,
            c,
        )) && (flat_tree::merged(a, b, c, contents, options.max_rename_comparisons) matches Ok(m)
            && merge::material(m).dom().finite() && all_are_files(merge::material(m))
            && level_reads(
            files,
            git,
            options.max_object_size as nat,
            merge::material(m),
            0,
            flat_tree::paths_of(merge::material(m)).len() as int,
            0,
            Seq::empty(),
        )),
    ensures
        merge::three_merged(before, git, base, ours, theirs, contents, options).1 matches Ok((
            id,
            conflicts,
        )) ==> (merge::flattened(files, git, id, options.max_object_size) matches Ok(read) ==> ({
            let (a, b, c) = merge::flat_three(
                before,
                git,
                base,
                ours,
                theirs,
                options.max_object_size,
            )->Ok_0;
            let m = flat_tree::merged(a, b, c, contents, options.max_rename_comparisons)->Ok_0;
            read == merge::material(m) && conflicts == m.conflicts
        })),
{
    reveal(merge::three_merged);
    let (a, b, c) = merge::flat_three(
        before,
        git,
        base,
        ours,
        theirs,
        options.max_object_size,
    )->Ok_0;
    let m = flat_tree::merged(a, b, c, contents, options.max_rename_comparisons)->Ok_0;
    lemma_written_map_is_read(before, files, git, merge::material(m), options.max_object_size);
}

} // verus!
