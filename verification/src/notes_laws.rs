//! Laws about written notes: what the commit that keeps them is read as.

use vstd::prelude::*;

use crate::fs::memory;
use crate::fs::Refusal;
use crate::id_set;
use crate::merge;
use crate::notes;
use crate::notes::{NoteModel, NotesOptions, Stored};
use crate::object;
use crate::object::ObjectKind;
use crate::sha1;
use crate::storage;
use crate::tree;
use crate::tree::TreeItem;

verus! {

/// Whether trees are read as they were written.
pub open spec fn trees_read(
    files: memory::Tree,
    git: Seq<u8>,
    size: nat,
    trees: Seq<Seq<u8>>,
) -> bool {
    forall|i: int|
        0 <= i < trees.len() ==> storage::stored_object(
            files,
            git,
            object::object_id(ObjectKind::Tree, #[trigger] trees[i]),
            size,
        ) == Ok::<(ObjectKind, Seq<u8>), Refusal>((ObjectKind::Tree, trees[i]))
}

/// Whether all files are such that a tree can name them.
pub open spec fn are_files(list: Seq<Stored>) -> bool {
    forall|i: int|
        0 <= i < list.len() ==> !((#[trigger] list[i]).mode is Tree) && list[i].id.len() == 20
}

/// A file with its path below a prefix.
spec fn placed(prefix: Seq<Seq<u8>>, entry: Stored) -> Stored {
    Stored { path: prefix + entry.path, mode: entry.mode, id: entry.id }
}

/// Whether a file is one of a list, below a prefix.
spec fn comes(list: Seq<Stored>, prefix: Seq<Seq<u8>>, found: Stored) -> bool {
    exists|i: int| 0 <= i < list.len() && found == placed(prefix, #[trigger] list[i])
}

/// Whether a file is one of those in a list that begin with a name, below a
/// prefix.
spec fn comes_from(
    list: Seq<Stored>,
    prefix: Seq<Seq<u8>>,
    name: Seq<u8>,
    found: Stored,
) -> bool {
    exists|i: int|
        0 <= i < list.len() && (#[trigger] list[i]).path.len() > 0 && list[i].path[0] == name
            && found == placed(prefix, list[i])
}

/// Whether an entry stands for the files of a list that begin with its name.
spec fn item_for(
    files: memory::Tree,
    git: Seq<u8>,
    size: nat,
    list: Seq<Stored>,
    left: nat,
    item: TreeItem,
) -> bool {
    let below = notes::under(list, item.name, list.len() as int);
    &&& tree::sound_item(item)
    &&& if notes::has_nameless(below) {
        below.len() == 1 && item.mode == below[0].mode && item.id == below[0].id
    } else {
        &&& item.mode is Tree
        &&& notes::planned(below, left) matches Ok(plan) && item.id == plan.id && trees_read(
            files,
            git,
            size,
            plan.trees,
        )
    }
}

spec fn tail(entry: Stored) -> Stored {
    Stored { path: entry.path.skip(1), mode: entry.mode, id: entry.id }
}

proof fn lemma_under(list: Seq<Stored>, name: Seq<u8>, n: int)
    requires
        0 <= n <= list.len(),
    ensures
        forall|j: int|
            0 <= j < notes::under(list, name, n).len() ==> exists|i: int|
                0 <= i < n && (#[trigger] list[i]).path.len() > 0 && list[i].path[0] == name
                    && #[trigger] notes::under(list, name, n)[j] == tail(list[i]),
        forall|i: int|
            0 <= i < n && (#[trigger] list[i]).path.len() > 0 && list[i].path[0] == name
                ==> notes::under(list, name, n).contains(tail(list[i])),
    decreases n,
{
    if n > 0 {
        lemma_under(list, name, n - 1);
        let less = notes::under(list, name, n - 1);
        let more = notes::under(list, name, n);
        assert forall|j: int| 0 <= j < more.len() implies exists|i: int|
            0 <= i < n && (#[trigger] list[i]).path.len() > 0 && list[i].path[0] == name
                && #[trigger] more[j] == tail(list[i]) by {
            if j < less.len() {
                assert(more[j] == less[j]);
                let i = choose|i: int|
                    0 <= i < n - 1 && (#[trigger] list[i]).path.len() > 0 && list[i].path[0]
                        == name && less[j] == tail(list[i]);
                assert(more[j] == tail(list[i]));
            } else {
                assert(more[j] == tail(list[n - 1]));
            }
        }
        assert forall|i: int|
            0 <= i < n && (#[trigger] list[i]).path.len() > 0 && list[i].path[0]
                == name implies more.contains(tail(list[i])) by {
            if i < n - 1 {
                assert(less.contains(tail(list[i])));
                let j = less.index_of(tail(list[i]));
                assert(more[j] == less[j]);
            } else {
                assert(more[more.len() - 1] == tail(list[i]));
            }
        }
    }
}

/// The files that begin with a name are those below it.
proof fn lemma_comes_under(list: Seq<Stored>, prefix: Seq<Seq<u8>>, name: Seq<u8>, found: Stored)
    ensures
        comes_from(list, prefix, name, found) <==> comes(
            notes::under(list, name, list.len() as int),
            prefix.push(name),
            found,
        ),
        are_files(list) ==> are_files(notes::under(list, name, list.len() as int)),
{
    let below = notes::under(list, name, list.len() as int);
    lemma_under(list, name, list.len() as int);
    if comes_from(list, prefix, name, found) {
        let i = choose|i: int|
            0 <= i < list.len() && (#[trigger] list[i]).path.len() > 0 && list[i].path[0] == name
                && found == placed(prefix, list[i]);
        assert(below.contains(tail(list[i])));
        let j = below.index_of(tail(list[i]));
        assert(prefix.push(name) + list[i].path.skip(1) =~= prefix + list[i].path);
        assert(found == placed(prefix.push(name), below[j]));
    }
    if comes(below, prefix.push(name), found) {
        let j = choose|j: int|
            0 <= j < below.len() && found == placed(prefix.push(name), #[trigger] below[j]);
        let i = choose|i: int|
            0 <= i < list.len() && (#[trigger] list[i]).path.len() > 0 && list[i].path[0] == name
                && below[j] == tail(list[i]);
        assert(prefix.push(name) + list[i].path.skip(1) =~= prefix + list[i].path);
        assert(found == placed(prefix, list[i]));
    }
    if are_files(list) {
        assert forall|j: int| 0 <= j < below.len() implies !((#[trigger] below[j]).mode is Tree)
            && below[j].id.len() == 20 by {
            let i = choose|i: int|
                0 <= i < list.len() && (#[trigger] list[i]).path.len() > 0 && list[i].path[0]
                    == name && below[j] == tail(list[i]);
            assert(!(list[i].mode is Tree));
        }
    }
}

proof fn lemma_tops(list: Seq<Stored>, name: Seq<u8>)
    ensures
        notes::tops(list).contains(name) <==> notes::has_first(list, name),
{
    let set = Set::new(|name: Seq<u8>| notes::has_first(list, name));
    let firsts = Seq::new(list.len(), |i: int| list[i].path[0]);
    vstd::seq_lib::seq_to_set_is_finite(firsts);
    assert(set.subset_of(firsts.to_set())) by {
        assert forall|x: Seq<u8>| set.contains(x) implies firsts.to_set().contains(x) by {
            let i = choose|i: int|
                0 <= i < list.len() && (#[trigger] list[i]).path.len() > 0 && list[i].path[0] == x;
            assert(firsts[i] == x);
            assert(firsts.contains(x));
        }
    }
    vstd::set_lib::lemma_set_subset_finite(firsts.to_set(), set);
    id_set::lemma_sorted_exists(set);
    assert(id_set::sorted(set).to_set().contains(name) <==> set.contains(name));
}

proof fn lemma_with_item(list: Seq<TreeItem>, item: TreeItem, x: TreeItem)
    ensures
        tree::with_item(list, item).contains(x) <==> list.contains(x) || x == item,
{
    let at = tree::item_place(list, tree::item_key(item), 0);
    lemma_place(list, tree::item_key(item), 0);
    let more = list.insert(at, item);
    if more.contains(x) {
        let i = more.index_of(x);
        if i < at {
            assert(list[i] == x);
        } else if i > at {
            assert(list[i - 1] == x);
        }
    }
    if list.contains(x) {
        let i = list.index_of(x);
        if i < at {
            assert(more[i] == x);
        } else {
            assert(more[i + 1] == x);
        }
    }
    assert(more[at] == item);
}

proof fn lemma_place(list: Seq<TreeItem>, key: Seq<u8>, from: int)
    ensures
        0 <= tree::item_place(list, key, from) <= list.len(),
    decreases list.len() - from,
{
    if 0 <= from < list.len() {
        lemma_place(list, key, from + 1);
    }
}

/// The entries that are planned stand for the files that begin with their
/// names.
#[verifier::spinoff_prover]
#[verifier::rlimit(60)]
proof fn lemma_part_items(
    files: memory::Tree,
    git: Seq<u8>,
    size: nat,
    list: Seq<Stored>,
    names: Seq<Seq<u8>>,
    left: nat,
    n: int,
)
    requires
        0 <= n <= names.len(),
        are_files(list),
        notes::planned_part(list, names, left, n) is Ok,
        trees_read(files, git, size, (notes::planned_part(list, names, left, n)->Ok_0).trees),
    ensures
        ({
            let items = (notes::planned_part(list, names, left, n)->Ok_0).items;
            &&& forall|x: TreeItem| #[trigger]
                items.contains(x) ==> item_for(files, git, size, list, left, x)
            &&& forall|m: int|
                0 <= m < n ==> exists|x: TreeItem| #[trigger]
                    items.contains(x) && x.name == #[trigger] names[m]
        }),
    decreases n,
{
    if n > 0 {
        let part = notes::planned_part(list, names, left, n)->Ok_0;
        let less = notes::planned_part(list, names, left, n - 1)->Ok_0;
        let name = names[n - 1];
        let below = notes::under(list, name, list.len() as int);
        lemma_comes_under(list, Seq::empty(), name, list[0]);
        assert(trees_read(files, git, size, less.trees)) by {
            assert forall|i: int| 0 <= i < less.trees.len() implies storage::stored_object(
                files,
                git,
                object::object_id(ObjectKind::Tree, #[trigger] less.trees[i]),
                size,
            ) == Ok::<(ObjectKind, Seq<u8>), Refusal>((ObjectKind::Tree, less.trees[i])) by {
                assert(part.trees[i] == less.trees[i]);
            }
        }
        lemma_part_items(files, git, size, list, names, left, n - 1);
        let item = if notes::has_nameless(below) {
            TreeItem { mode: below[0].mode, name, id: below[0].id }
        } else {
            TreeItem {
                mode: tree::EntryMode::Tree,
                name,
                id: (notes::planned(below, left)->Ok_0).id,
            }
        };
        assert(part.items == tree::with_item(less.items, item));
        if !notes::has_nameless(below) {
            let plan = notes::planned(below, left)->Ok_0;
            assert(trees_read(files, git, size, plan.trees)) by {
                assert forall|i: int| 0 <= i < plan.trees.len() implies storage::stored_object(
                    files,
                    git,
                    object::object_id(ObjectKind::Tree, #[trigger] plan.trees[i]),
                    size,
                ) == Ok::<(ObjectKind, Seq<u8>), Refusal>((ObjectKind::Tree, plan.trees[i])) by {
                    assert(part.trees[less.trees.len() + i] == plan.trees[i]);
                }
            }
            lemma_plan_id_len(below, left);
        } else {
            assert(!(below[0].mode is Tree));
        }
        assert(item_for(files, git, size, list, left, item));
        assert forall|x: TreeItem| #[trigger] part.items.contains(x) implies item_for(
            files,
            git,
            size,
            list,
            left,
            x,
        ) by {
            lemma_with_item(less.items, item, x);
        }
        assert forall|m: int| 0 <= m < n implies exists|x: TreeItem| #[trigger]
            part.items.contains(x) && x.name == #[trigger] names[m] by {
            if m < n - 1 {
                let x = choose|x: TreeItem| #[trigger]
                    less.items.contains(x) && x.name == names[m];
                lemma_with_item(less.items, item, x);
                assert(part.items.contains(x));
            } else {
                lemma_with_item(less.items, item, item);
                assert(part.items.contains(item));
            }
        }
    }
}

proof fn lemma_plan_id_len(list: Seq<Stored>, left: nat)
    requires
        notes::planned(list, left) is Ok,
    ensures
        (notes::planned(list, left)->Ok_0).id.len() == 20,
{
    let names = notes::tops(list);
    let part = notes::planned_part(list, names, (left - 1) as nat, names.len() as int)->Ok_0;
    sha1::lemma_sha1_len(object::framed(ObjectKind::Tree, tree::tree_bytes(part.items)));
}

/// Collecting the trees that were planned for some files finds those files.
#[verifier::spinoff_prover]
#[verifier::rlimit(60)]
proof fn lemma_collected_tree(
    files: memory::Tree,
    git: Seq<u8>,
    list: Seq<Stored>,
    left: nat,
    prefix: Seq<Seq<u8>>,
    depth: int,
    options: NotesOptions,
    out: Seq<Stored>,
)
    requires
        are_files(list),
        notes::planned(list, left) is Ok,
        trees_read(
            files,
            git,
            options.max_object_size as nat,
            (notes::planned(list, left)->Ok_0).trees,
        ),
        notes::collect_tree(
            files,
            git,
            (notes::planned(list, left)->Ok_0).id,
            prefix,
            depth,
            options,
            out,
        ) is Ok,
    ensures
        forall|found: Stored| #[trigger]
            (notes::collect_tree(
                files,
                git,
                (notes::planned(list, left)->Ok_0).id,
                prefix,
                depth,
                options,
                out,
            )->Ok_0).contains(found) <==> out.contains(found) || comes(list, prefix, found),
    decreases left, 1int, 0int,
{
    let size = options.max_object_size as nat;
    let names = notes::tops(list);
    let less = (left - 1) as nat;
    let part = notes::planned_part(list, names, less, names.len() as int)->Ok_0;
    let plan = notes::planned(list, left)->Ok_0;
    let body = tree::tree_bytes(part.items);
    assert(trees_read(files, git, size, part.trees)) by {
        assert forall|i: int| 0 <= i < part.trees.len() implies storage::stored_object(
            files,
            git,
            object::object_id(ObjectKind::Tree, #[trigger] part.trees[i]),
            size,
        ) == Ok::<(ObjectKind, Seq<u8>), Refusal>((ObjectKind::Tree, part.trees[i])) by {
            assert(plan.trees[i] == part.trees[i]);
        }
    }
    lemma_part_items(files, git, size, list, names, less, names.len() as int);
    assert forall|i: int| 0 <= i < part.items.len() implies item_for(
        files,
        git,
        size,
        list,
        less,
        #[trigger] part.items[i],
    ) by {
        assert(part.items.contains(part.items[i]));
    }
    assert forall|i: int| 0 <= i < part.items.len() implies tree::sound_item(
        #[trigger] part.items[i],
    ) by {
        assert(item_for(files, git, size, list, less, part.items[i]));
    }
    tree::lemma_tree_round_trip(part.items);
    assert(plan.trees[part.trees.len() as int] == body);
    assert(tree::stored_tree(files, git, plan.id, size) == Ok::<Seq<TreeItem>, Refusal>(
        part.items,
    )) by {
        reveal(tree::stored_tree);
    }
    lemma_collected_items(files, git, list, less, part.items, 0, prefix, depth, options, out);
    let after = notes::collect_tree(files, git, plan.id, prefix, depth, options, out)->Ok_0;
    assert forall|found: Stored| #[trigger] after.contains(found) <==> out.contains(found)
        || comes(list, prefix, found) by {
        if comes(list, prefix, found) {
            let i = choose|i: int|
                0 <= i < list.len() && found == placed(prefix, #[trigger] list[i]);
            assert(list[i].path.len() > 0);
            let name = list[i].path[0];
            assert(notes::has_first(list, name));
            lemma_tops(list, name);
            let m = names.index_of(name);
            assert(names[m] == name);
            let x = choose|x: TreeItem| #[trigger]
                part.items.contains(x) && x.name == names[m];
            let k = part.items.index_of(x);
            assert(part.items[k].name == name);
            assert(comes_from(list, prefix, name, found));
            assert(comes_from(list, prefix, part.items[k].name, found));
        }
        if exists|k: int|
            0 <= k < part.items.len() && comes_from(
                list,
                prefix,
                (#[trigger] part.items[k]).name,
                found,
            ) {
            let k = choose|k: int|
                0 <= k < part.items.len() && comes_from(
                    list,
                    prefix,
                    (#[trigger] part.items[k]).name,
                    found,
                );
            let i = choose|i: int|
                0 <= i < list.len() && (#[trigger] list[i]).path.len() > 0 && list[i].path[0]
                    == part.items[k].name && found == placed(prefix, list[i]);
            assert(found == placed(prefix, list[i]));
        }
    }
}

#[verifier::spinoff_prover]
#[verifier::rlimit(60)]
proof fn lemma_collected_items(
    files: memory::Tree,
    git: Seq<u8>,
    list: Seq<Stored>,
    left: nat,
    items: Seq<TreeItem>,
    i: int,
    prefix: Seq<Seq<u8>>,
    depth: int,
    options: NotesOptions,
    out: Seq<Stored>,
)
    requires
        0 <= i <= items.len(),
        depth <= options.max_depth,
        are_files(list),
        forall|k: int|
            0 <= k < items.len() ==> item_for(
                files,
                git,
                options.max_object_size as nat,
                list,
                left,
                #[trigger] items[k],
            ),
        notes::collect_items(files, git, items, i, prefix, depth, options, out) is Ok,
    ensures
        forall|found: Stored| #[trigger]
            (notes::collect_items(
                files,
                git,
                items,
                i,
                prefix,
                depth,
                options,
                out,
            )->Ok_0).contains(found) <==> out.contains(found) || exists|k: int|
                i <= k < items.len() && comes_from(
                    list,
                    prefix,
                    (#[trigger] items[k]).name,
                    found,
                ),
    decreases left + 1, 0int, items.len() - i,
{
    if i < items.len() {
        let item = items[i];
        let name = item.name;
        let path = prefix.push(name);
        let below = notes::under(list, name, list.len() as int);
        let last = notes::collect_items(files, git, items, i, prefix, depth, options, out)->Ok_0;
        assert(item_for(files, git, options.max_object_size as nat, list, left, item));
        lemma_comes_under(list, prefix, name, list[0]);
        let next = if item.mode is Tree {
            notes::collect_tree(files, git, item.id, path, depth + 1, options, out)->Ok_0
        } else {
            out.push(Stored { path, mode: item.mode, id: item.id })
        };
        assert forall|found: Stored| #[trigger] next.contains(found) <==> out.contains(found)
            || comes_from(list, prefix, name, found) by {
            lemma_comes_under(list, prefix, name, found);
            if item.mode is Tree {
                assert(!notes::has_nameless(below)) by {
                    if notes::has_nameless(below) {
                        assert(!(below[0].mode is Tree));
                    }
                }
                lemma_collected_tree(files, git, below, left, path, depth + 1, options, out);
            } else {
                assert(notes::has_nameless(below));
                let only = Stored { path, mode: item.mode, id: item.id };
                assert(below[0].path.len() == 0);
                assert(path + below[0].path =~= path);
                assert(comes(below, path, found) <==> found == only) by {
                    if found == only {
                        assert(found == placed(path, below[0]));
                    }
                }
                assert(next[out.len() as int] == only);
                if out.contains(found) {
                    let k = out.index_of(found);
                    assert(next[k] == found);
                }
                if next.contains(found) {
                    let k = next.index_of(found);
                    if k < out.len() {
                        assert(out[k] == found);
                    }
                }
            }
        }
        lemma_collected_items(
            files,
            git,
            list,
            left,
            items,
            i + 1,
            prefix,
            depth,
            options,
            next,
        );
        assert forall|found: Stored| #[trigger] last.contains(found) <==> out.contains(found)
            || exists|k: int|
            i <= k < items.len() && comes_from(list, prefix, (#[trigger] items[k]).name, found) by {
            assert(last.contains(found) <==> next.contains(found) || exists|k: int|
                i + 1 <= k < items.len() && comes_from(
                    list,
                    prefix,
                    (#[trigger] items[k]).name,
                    found,
                ));
            if comes_from(list, prefix, name, found) {
                assert(comes_from(list, prefix, items[i].name, found));
            }
        }
    }
}

/// The commit that keeps some files as notes is read as those files, by
/// files of the repository where its trees are read as they were written.
pub proof fn lemma_kept_files_are_read(
    files: memory::Tree,
    git: Seq<u8>,
    list: Seq<Stored>,
    commit: Seq<u8>,
    options: NotesOptions,
)
    requires
        are_files(list),
        notes::planned(list, notes::plan_depth(options)) matches Ok(plan) && trees_read(
            files,
            git,
            options.max_object_size as nat,
            plan.trees,
        ) && (merge::stored_commit(
            files,
            git,
            commit,
            options.max_object_size as nat,
        ) matches Ok(model) && model.tree == plan.id),
    ensures
        notes::loaded(files, git, Some(commit), options) matches Ok(read) ==> forall|
            found: Stored,
        | #[trigger] read.contains(found) <==> list.contains(found),
{
    if notes::loaded(files, git, Some(commit), options) is Ok {
        let read = notes::loaded(files, git, Some(commit), options)->Ok_0;
        let none = Seq::<Seq<u8>>::empty();
        lemma_collected_tree(
            files,
            git,
            list,
            notes::plan_depth(options),
            none,
            0,
            options,
            Seq::empty(),
        );
        assert forall|found: Stored| #[trigger] read.contains(found) <==> list.contains(
            found,
        ) by {
            if list.contains(found) {
                let i = list.index_of(found);
                assert(none + list[i].path =~= list[i].path);
                assert(found == placed(none, list[i]));
                assert(comes(list, none, found));
            }
            if comes(list, none, found) {
                let i = choose|i: int|
                    0 <= i < list.len() && found == placed(none, #[trigger] list[i]);
                assert(none + list[i].path =~= list[i].path);
                assert(found == list[i]);
            }
            assert(!Seq::<Stored>::empty().contains(found));
        }
    }
}

/// Once a note was added or replaced and its commit written, a listing of the
/// commit shows it as the one note on its object, and the same notes on all
/// other objects as before.
pub proof fn lemma_added_note_is_listed(
    files: memory::Tree,
    git: Seq<u8>,
    list: Seq<Stored>,
    target: Seq<u8>,
    blob: Seq<u8>,
    force: bool,
    commit: Seq<u8>,
    options: NotesOptions,
)
    requires
        target.len() == 20,
        blob.len() == 20,
        are_files(list),
        notes::changed(list, target, Some(blob), force) matches Ok(next) && (notes::planned(
            next,
            notes::plan_depth(options),
        ) matches Ok(plan) && trees_read(
            files,
            git,
            options.max_object_size as nat,
            plan.trees,
        ) && (merge::stored_commit(
            files,
            git,
            commit,
            options.max_object_size as nat,
        ) matches Ok(model) && model.tree == plan.id)),
    ensures
        notes::notes_of(files, git, Some(commit), options) matches Ok(shown) ==> {
            &&& exists|note: NoteModel| #[trigger]
                shown.contains(note) && note.target == target && note.blob == blob
            &&& forall|note: NoteModel| #[trigger]
                shown.contains(note) && note.target == target ==> note.blob == blob
            &&& notes::notes_among(
                files,
                git,
                list,
                options.max_object_size as nat,
                list.len() as int,
            ) matches Ok(before) ==> forall|note: NoteModel|
                note.target != target ==> (#[trigger] shown.contains(note) <==> before.contains(
                    note,
                ))
        },
{
    let next = notes::changed(list, target, Some(blob), force)->Ok_0;
    let limit = options.max_object_size as nat;
    notes::lemma_added_reads_back(list, target, blob, force);
    let kept = notes::others(list, target, list.len() as int);
    assert(are_files(next)) by {
        notes::lemma_others_are(list, target, list.len() as int);
        assert(list.take(list.len() as int) =~= list);
        assert forall|i: int| 0 <= i < next.len() implies !((#[trigger] next[i]).mode is Tree)
            && next[i].id.len() == 20 by {
            if i < kept.len() {
                assert(next[i] == next.drop_last()[i]);
                assert(kept.contains(kept[i]));
                assert(list.contains(kept[i]));
                let j = list.index_of(kept[i]);
                assert(list[j] == kept[i]);
            } else {
                assert(next[i] == next.last());
            }
        }
    }
    lemma_kept_files_are_read(files, git, next, commit, options);
    if notes::notes_of(files, git, Some(commit), options) is Ok {
        let read = notes::loaded(files, git, Some(commit), options)->Ok_0;
        let shown = notes::notes_of(files, git, Some(commit), options)->Ok_0;
        let n = read.len() as int;
        notes::lemma_shown(files, git, read, limit, n);
        if notes::notes_among(files, git, list, limit, list.len() as int) is Ok {
            notes::lemma_others_are(list, target, list.len() as int);
            assert(list.take(list.len() as int) =~= list);
            assert forall|x: Stored| notes::target_of(x.path) != Some(target) implies (
            #[trigger] read.contains(x) <==> list.contains(x)) by {
                assert(read.contains(x) <==> next.contains(x));
                if next.contains(x) {
                    let j = next.index_of(x);
                    assert(j < next.len() - 1);
                    assert(next[j] == next.drop_last()[j]);
                    assert(kept.contains(x));
                }
                if kept.contains(x) {
                    let j = kept.index_of(x);
                    assert(next.drop_last()[j] == x);
                    assert(next[j] == x);
                }
            }
            notes::lemma_others_shown(files, git, list, read, target, limit);
        }
        assert(next[next.len() - 1] == next.last());
        assert(next.contains(next.last()));
        assert(read.contains(next.last()));
        let i = read.index_of(next.last());
        lemma_shown_each(files, git, read, limit, n, i);
        let note = notes::note_in(files, git, read[i], target, limit)->Ok_0;
        assert(notes::is_shown(files, git, read[i], limit, note));
        assert(shown.contains(note));
        assert forall|note: NoteModel| #[trigger]
            shown.contains(note) && note.target == target implies note.blob == blob by {
            let k = choose|k: int|
                0 <= k < n && #[trigger] notes::is_shown(files, git, read[k], limit, note);
            assert(read.contains(read[k]));
            assert(next.contains(read[k]));
            let j = next.index_of(read[k]);
            if j < next.len() - 1 {
                assert(next[j] == next.drop_last()[j]);
                assert(next[j] == kept[j]);
            }
        }
    }
}

/// Once a note was removed and its commit written, a listing of the commit
/// shows no note on its object, and the same notes on all other objects as
/// before.
pub proof fn lemma_removed_note_is_not_listed(
    files: memory::Tree,
    git: Seq<u8>,
    list: Seq<Stored>,
    target: Seq<u8>,
    commit: Seq<u8>,
    options: NotesOptions,
)
    requires
        are_files(list),
        notes::changed(list, target, None, false) matches Ok(next) && (notes::planned(
            next,
            notes::plan_depth(options),
        ) matches Ok(plan) && trees_read(
            files,
            git,
            options.max_object_size as nat,
            plan.trees,
        ) && (merge::stored_commit(
            files,
            git,
            commit,
            options.max_object_size as nat,
        ) matches Ok(model) && model.tree == plan.id)),
    ensures
        notes::notes_of(files, git, Some(commit), options) matches Ok(shown) ==> {
            &&& forall|note: NoteModel| #[trigger] shown.contains(note) ==> note.target != target
            &&& notes::notes_among(
                files,
                git,
                list,
                options.max_object_size as nat,
                list.len() as int,
            ) matches Ok(before) ==> forall|note: NoteModel|
                note.target != target ==> (#[trigger] shown.contains(note) <==> before.contains(
                    note,
                ))
        },
{
    let next = notes::changed(list, target, None, false)->Ok_0;
    let limit = options.max_object_size as nat;
    notes::lemma_removed_is_gone(list, target);
    notes::lemma_others_are(list, target, list.len() as int);
    assert(list.take(list.len() as int) =~= list);
    assert forall|i: int| 0 <= i < next.len() implies !((#[trigger] next[i]).mode is Tree)
        && next[i].id.len() == 20 by {
        assert(next.contains(next[i]));
        assert(list.contains(next[i]));
        let j = list.index_of(next[i]);
        assert(list[j] == next[i]);
    }
    lemma_kept_files_are_read(files, git, next, commit, options);
    if notes::notes_of(files, git, Some(commit), options) is Ok {
        let read = notes::loaded(files, git, Some(commit), options)->Ok_0;
        let shown = notes::notes_of(files, git, Some(commit), options)->Ok_0;
        let n = read.len() as int;
        notes::lemma_shown(files, git, read, limit, n);
        assert forall|note: NoteModel| #[trigger] shown.contains(note) implies note.target
            != target by {
            let k = choose|k: int|
                0 <= k < n && #[trigger] notes::is_shown(files, git, read[k], limit, note);
            assert(read.contains(read[k]));
            assert(next.contains(read[k]));
            let j = next.index_of(read[k]);
            assert(notes::target_of(next[j].path) != Some(target));
        }
        if notes::notes_among(files, git, list, limit, list.len() as int) is Ok {
            assert forall|x: Stored| notes::target_of(x.path) != Some(target) implies (
            #[trigger] read.contains(x) <==> list.contains(x)) by {
                assert(read.contains(x) <==> next.contains(x));
            }
            notes::lemma_others_shown(files, git, list, read, target, limit);
        }
    }
}

/// Where notes are listed, each file that is named for an object was read.
proof fn lemma_shown_each(
    files: memory::Tree,
    git: Seq<u8>,
    entries: Seq<Stored>,
    limit: nat,
    n: int,
    i: int,
)
    requires
        0 <= i < n <= entries.len(),
        notes::notes_among(files, git, entries, limit, n) is Ok,
        notes::target_of(entries[i].path) is Some,
    ensures
        notes::note_in(
            files,
            git,
            entries[i],
            notes::target_of(entries[i].path)->0,
            limit,
        ) is Ok,
    decreases n,
{
    if i < n - 1 {
        lemma_shown_each(files, git, entries, limit, n - 1, i);
    }
}

} // verus!
