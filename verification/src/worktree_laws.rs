//! What holds of linked worktrees across calls.

use vstd::prelude::*;

use crate::bytes;
use crate::fs::memory;
use crate::fs::path;
use crate::fs::{Fault, Refusal};
use crate::gc;
use crate::linked_worktree;
use crate::linked_worktree::{
    Registration, TargetModel, WorktreePruneOptions, WorktreePruneReason, WorktreeFormat,
};
use crate::object;
use crate::repository;
use crate::storage;
use crate::worktree_path;
use crate::Error;

verus! {

// ---------------------------------------------------------------------------
// Locks

proof fn lemma_newline_encoded(text: Seq<char>)
    ensures
        bytes::utf8(text.push('\n')) == bytes::utf8(text).push(10),
    decreases text.len(),
{
    let longer = text.push('\n');
    if text.len() == 0 {
        bytes::lemma_ascii(longer);
        assert(bytes::utf8(text) =~= Seq::empty());
        assert(bytes::utf8(longer) =~= bytes::utf8(text).push(10));
    } else {
        lemma_newline_encoded(text.drop_first());
        assert(longer.drop_first() =~= text.drop_first().push('\n'));
        assert(bytes::utf8(longer) =~= bytes::utf8(text).push(10));
    }
}

proof fn lemma_newline_trimmed(text: Seq<char>)
    ensures
        bytes::trimmed_end(bytes::trimmed_start(text.push('\n'))) == bytes::trimmed_end(
            bytes::trimmed_start(text),
        ),
    decreases text.len(),
{
    let longer = text.push('\n');
    if text.len() == 0 {
        assert(longer.skip(1) =~= text);
    } else if bytes::is_white(text[0]) {
        lemma_newline_trimmed(text.skip(1));
        assert(longer.skip(1) =~= text.skip(1).push('\n'));
    } else {
        assert(longer.drop_last() =~= text);
    }
}

/// Locking a worktree with a reason and asking for the reason gives the
/// reason without the white space around it, and an empty text where there is
/// none; once the worktree is unlocked there is no reason.
pub proof fn lemma_lock_states_its_reason(
    tree: memory::Tree,
    admin: Seq<u8>,
    reason: Option<Seq<char>>,
)
    requires
        !tree.contains_key(linked_worktree::within(admin, "locked"@)),
    ensures
        ({
            let p = linked_worktree::within(admin, "locked"@);
            let said = match reason {
                Some(text) => Some(bytes::utf8(text)),
                None => None,
            };
            let stated = match reason {
                Some(text) => bytes::utf8(bytes::trimmed_end(bytes::trimmed_start(text))),
                None => Seq::empty(),
            };
            let locked = tree.insert(
                p,
                memory::file(linked_worktree::lock_text(said), false),
            );
            &&& linked_worktree::lock_reason(locked, admin) == Ok::<Option<Seq<u8>>, Refusal>(
                Some(stated),
            )
            &&& linked_worktree::lock_reason(locked.remove(p), admin) == Ok::<
                Option<Seq<u8>>,
                Refusal,
            >(None)
        }),
{
    let text = match reason {
        Some(text) => text,
        None => Seq::empty(),
    };
    lemma_newline_encoded(text);
    lemma_newline_trimmed(text);
    vstd::utf8::encode_utf8_valid_utf8(text.push('\n'));
    vstd::utf8::encode_utf8_decode_utf8(text.push('\n'));
    assert(bytes::utf8(Seq::<char>::empty()) =~= Seq::empty());
    assert(Seq::<u8>::empty().push(10) =~= seq![10u8]);
}

// ---------------------------------------------------------------------------
// Pruning

proof fn lemma_surveyed(
    tree: memory::Tree,
    root: Seq<u8>,
    names: Seq<Seq<u8>>,
    expire_before: u64,
    n: int,
)
    requires
        0 <= n <= names.len(),
        linked_worktree::surveyed(tree, root, names, expire_before, n) is Ok,
    ensures
        ({
            let list = linked_worktree::surveyed(tree, root, names, expire_before, n)->Ok_0;
            &&& list.len() == n
            &&& forall|i: int|
                0 <= i < n ==> path::normalized(repository::joined(root, #[trigger] names[i])) is Some
                    && linked_worktree::standing(
                    tree,
                    path::normalized(repository::joined(root, names[i]))->0,
                    expire_before,
                ) == Ok::<(Option<WorktreePruneReason>, Option<Seq<u8>>), Refusal>(list[i])
        }),
    decreases n,
{
    if n > 0 {
        lemma_surveyed(tree, root, names, expire_before, n - 1);
    }
}

proof fn lemma_doomed(
    root: Seq<u8>,
    names: Seq<Seq<u8>>,
    list: Seq<(Option<WorktreePruneReason>, Option<Seq<u8>>)>,
    common: Seq<u8>,
    n: int,
) -> (at: Seq<int>)
    requires
        0 <= n <= names.len(),
    ensures
        ({
            let out = linked_worktree::doomed(root, names, list, common, n);
            &&& at.len() == out.len()
            &&& forall|i: int|
                0 <= i < at.len() ==> 0 <= #[trigger] at[i] < n && out[i].name == names[at[i]]
                    && out[i].path == path::normalized(repository::joined(root, names[at[i]]))->0
                    && linked_worktree::verdict(list, common, at[i]) == Some(out[i].reason)
            &&& forall|i: int, j: int| 0 <= i < j < at.len() ==> #[trigger] at[i] < #[trigger] at[j]
        }),
    decreases n,
{
    if n <= 0 {
        Seq::empty()
    } else {
        let before = lemma_doomed(root, names, list, common, n - 1);
        if linked_worktree::verdict(list, common, n - 1) is Some {
            before.push(n - 1)
        } else {
            before
        }
    }
}

/// A dry run of pruning changes nothing, and a run that follows it gives the
/// same list. The list ascends by name, and no locked registration is in it.
pub proof fn lemma_pruning_keeps_its_word(
    tree: memory::Tree,
    git: Seq<u8>,
    options: WorktreePruneOptions,
)
    requires
        tree.dom().finite(),
    ensures
        ({
            let dry = gc::worktrees_pruned(
                tree,
                git,
                WorktreePruneOptions { dry_run: true, ..options },
            );
            let earnest = gc::worktrees_pruned(
                tree,
                git,
                WorktreePruneOptions { dry_run: false, ..options },
            );
            &&& dry.0 == tree
            &&& dry.1 is Ok && earnest.1 is Ok ==> earnest.1 == dry.1
            &&& dry.1 matches Ok(list) ==> {
                &&& forall|i: int, j: int|
                    0 <= i < j < list.len() ==> #[trigger] bytes::lex_lt(list[i].name, list[j].name)
                &&& forall|i: int|
                    0 <= i < list.len() ==> !(tree.contains_key((#[trigger] list[i]).path)
                        && tree[list[i].path] is Directory && tree.contains_key(
                        linked_worktree::within(list[i].path, "locked"@),
                    ))
            }
        }),
{
    let dry = WorktreePruneOptions { dry_run: true, ..options };
    let earnest = WorktreePruneOptions { dry_run: false, ..options };
    assert(linked_worktree::selected(tree, git, dry) == linked_worktree::selected(tree, git, earnest));
    let root = linked_worktree::registry(git);
    let outcome = linked_worktree::selected(tree, git, dry);
    if outcome is Ok && storage::listed(tree, root) is Ok {
        let out = outcome->Ok_0;
        let names = storage::children(tree, root);
        storage::lemma_children_exist(tree, root);
        let n = names.len() as int;
        lemma_surveyed(tree, root, names, options.expire_before, n);
        let list = linked_worktree::surveyed(tree, root, names, options.expire_before, n)->Ok_0;
        let at = lemma_doomed(root, names, list, git, n);
        assert forall|i: int, j: int| 0 <= i < j < out.len() implies #[trigger] bytes::lex_lt(
            out[i].name,
            out[j].name,
        ) by {
            assert(at[i] < at[j]);
            assert(bytes::lex_lt(names[at[i]], names[at[j]]));
        }
        assert forall|i: int| 0 <= i < out.len() implies !(tree.contains_key(
            (#[trigger] out[i]).path,
        ) && tree[out[i].path] is Directory && tree.contains_key(
            linked_worktree::within(out[i].path, "locked"@),
        )) by {
            let k = at[i];
            assert(out[i].path == path::normalized(repository::joined(root, names[k]))->0);
            if tree.contains_key(out[i].path) && tree[out[i].path] is Directory
                && tree.contains_key(linked_worktree::within(out[i].path, "locked"@)) {
                linked_worktree::lemma_lock_protects(tree, out[i].path, options.expire_before);
                assert(list[k] == (None::<WorktreePruneReason>, None::<Seq<u8>>));
                assert(linked_worktree::verdict(list, git, k) is None);
            }
        }
    }
}

/// Whether a path stands in the tree of one of the selected registrations.
pub open spec fn is_doomed(list: Seq<linked_worktree::Doomed>, p: Seq<u8>) -> bool {
    exists|i: int| 0 <= i < list.len() && memory::stands_in(p, (#[trigger] list[i]).path)
}

proof fn lemma_swept(tree: memory::Tree, list: Seq<linked_worktree::Doomed>, n: int)
    requires
        0 <= n <= list.len(),
        linked_worktree::swept(tree, list, n).1 is None,
    ensures
        ({
            let left = linked_worktree::swept(tree, list, n).0;
            &&& forall|p: Seq<u8>| #[trigger]
                left.contains_key(p) <==> tree.contains_key(p) && !is_doomed(list.take(n), p)
            &&& forall|p: Seq<u8>| #[trigger] left.contains_key(p) ==> left[p] == tree[p]
        }),
    decreases n,
{
    if n > 0 {
        lemma_swept(tree, list, n - 1);
        let before = linked_worktree::swept(tree, list, n - 1).0;
        let left = linked_worktree::swept(tree, list, n).0;
        assert forall|p: Seq<u8>| #[trigger] left.contains_key(p) <==> tree.contains_key(p)
            && !is_doomed(list.take(n), p) by {
            assert(left.contains_key(p) == (before.contains_key(p) && !memory::stands_in(
                p,
                list[n - 1].path,
            )));
            if is_doomed(list.take(n), p) {
                let i = choose|i: int|
                    0 <= i < list.take(n).len() && memory::stands_in(
                        p,
                        (#[trigger] list.take(n)[i]).path,
                    );
                if i < n - 1 {
                    assert(list.take(n - 1)[i] == list[i]);
                    assert(is_doomed(list.take(n - 1), p));
                }
            }
            if is_doomed(list.take(n - 1), p) {
                let i = choose|i: int|
                    0 <= i < list.take(n - 1).len() && memory::stands_in(
                        p,
                        (#[trigger] list.take(n - 1)[i]).path,
                    );
                assert(list.take(n)[i] == list[i]);
                assert(is_doomed(list.take(n), p));
            }
            if memory::stands_in(p, list[n - 1].path) {
                assert(list.take(n)[n - 1] == list[n - 1]);
                assert(is_doomed(list.take(n), p));
            }
        }
    }
}

/// Pruning removes exactly the trees of the registrations that a dry run
/// names, and the directory of the registrations where it is left empty;
/// everything else stays as it was.
pub proof fn lemma_pruning_removes_what_was_named(
    tree: memory::Tree,
    git: Seq<u8>,
    options: WorktreePruneOptions,
)
    ensures
        ({
            let dry = gc::worktrees_pruned(
                tree,
                git,
                WorktreePruneOptions { dry_run: true, ..options },
            );
            let (after, outcome) = gc::worktrees_pruned(
                tree,
                git,
                WorktreePruneOptions { dry_run: false, ..options },
            );
            let root = linked_worktree::registry(git);
            outcome matches Ok(list) ==> {
                &&& dry.1 == Ok::<Seq<linked_worktree::Doomed>, Refusal>(list)
                &&& forall|p: Seq<u8>| #[trigger]
                    after.contains_key(p) ==> tree.contains_key(p) && after[p] == tree[p] && (
                    tree.contains_key(root) ==> !is_doomed(list, p))
                &&& forall|p: Seq<u8>| #[trigger]
                    tree.contains_key(p) && !is_doomed(list, p) && p != root
                        ==> after.contains_key(p)
                &&& tree.contains_key(root) && !is_doomed(list, root) && !after.contains_key(root)
                    ==> !exists|q: Seq<u8>| memory::is_child(after, root, q)
            }
        }),
{
    let dry = WorktreePruneOptions { dry_run: true, ..options };
    let earnest = WorktreePruneOptions { dry_run: false, ..options };
    assert(linked_worktree::selected(tree, git, dry) == linked_worktree::selected(tree, git, earnest));
    let root = linked_worktree::registry(git);
    let (after, outcome) = gc::worktrees_pruned(tree, git, earnest);
    if outcome is Ok && tree.contains_key(root) {
        let list = outcome->Ok_0;
        lemma_swept(tree, list, list.len() as int);
        assert(list.take(list.len() as int) =~= list);
        let left = linked_worktree::swept(tree, list, list.len() as int).0;
        if !after.contains_key(root) && left.contains_key(root) {
            assert forall|q: Seq<u8>| !memory::is_child(after, root, q) by {
                if memory::is_child(after, root, q) {
                    assert(memory::is_child(left, root, q));
                }
            }
        }
    }
}

// ---------------------------------------------------------------------------
// Repair

/// A second repair of a worktree changes nothing, and says so.
pub proof fn lemma_second_repair_changes_nothing(
    tree: memory::Tree,
    git: Seq<u8>,
    name: Seq<u8>,
    value: Seq<u8>,
    format: WorktreeFormat,
)
    requires
        linked_worktree::repaired(tree, git, name, value, format).1 is Ok,
    ensures
        ({
            let after = linked_worktree::repaired(tree, git, name, value, format).0;
            linked_worktree::repaired(after, git, name, value, format) == (
                after,
                Ok::<(bool, Seq<(Seq<u8>, Seq<u8>)>), Refusal>((false, Seq::empty())),
            )
        }),
{
    let admin = linked_worktree::admin_of(tree, git, name)->Ok_0;
    let worktree = path::normalized(value)->0;
    let after = linked_worktree::repaired(tree, git, name, value, format).0;
    lemma_last_bytes(admin, worktree);
    assert(after.contains_key(admin) && after[admin] is Directory);
    assert(after.contains_key(worktree) && after[worktree] is Directory);
}

/// The files of a registration and of a worktree differ by their last bytes.
proof fn lemma_last_bytes(admin: Seq<u8>, worktree: Seq<u8>)
    ensures
        linked_worktree::within(admin, "gitdir"@).last() == 114,
        linked_worktree::within(admin, "HEAD"@).last() == 68,
        linked_worktree::within(admin, "HEAD"@) != linked_worktree::within(admin, "commondir"@),
        linked_worktree::within(admin, "gitdir"@) != linked_worktree::within(admin, "commondir"@),
        linked_worktree::within(worktree, ".git"@).last() == 116,
        linked_worktree::within(worktree, ".git"@) != worktree,
        linked_worktree::within(admin, "gitdir"@) != admin,
        linked_worktree::within(admin, "gitdir"@).len() > 0,
        linked_worktree::within(admin, "HEAD"@).len() > 0,
        linked_worktree::within(worktree, ".git"@).len() > 0,
{
    reveal_strlit("gitdir");
    reveal_strlit("HEAD");
    reveal_strlit(".git");
    reveal_strlit("commondir");
    bytes::lemma_ascii("gitdir"@);
    bytes::lemma_ascii("HEAD"@);
    bytes::lemma_ascii(".git"@);
    bytes::lemma_ascii("commondir"@);
    let a = linked_worktree::within(admin, "gitdir"@);
    let b = linked_worktree::within(admin, "HEAD"@);
    let c = linked_worktree::within(worktree, ".git"@);
    let d = linked_worktree::within(admin, "commondir"@);
    assert(a.last() == bytes::utf8("gitdir"@).last());
    assert(b.last() == bytes::utf8("HEAD"@).last());
    assert(c.last() == bytes::utf8(".git"@).last());
    assert(a.len() != d.len() && b.len() != d.len());
    assert(c.len() > worktree.len());
    assert(a.len() > admin.len());
}

// ---------------------------------------------------------------------------
// Listing after creation

proof fn lemma_head_prefixes()
    ensures
        bytes::utf8("ref: refs/heads/"@) == bytes::utf8("ref: "@) + bytes::utf8("refs/heads/"@),
        bytes::utf8("ref: "@).len() == 5,
        bytes::utf8("ref: "@)[0] == 114,
{
    reveal_strlit("ref: ");
    reveal_strlit("ref: refs/heads/");
    reveal_strlit("refs/heads/");
    bytes::lemma_ascii("ref: "@);
    bytes::lemma_ascii("ref: refs/heads/"@);
    bytes::lemma_ascii("refs/heads/"@);
    assert(bytes::utf8("ref: refs/heads/"@) =~= bytes::utf8("ref: "@) + bytes::utf8(
        "refs/heads/"@,
    ));
}

proof fn lemma_prefix_of_sum(a: Seq<u8>, b: Seq<u8>)
    ensures
        bytes::has_prefix(a + b, a),
        (a + b).skip(a.len() as int) == b,
{
    assert((a + b).take(a.len() as int) =~= a);
    assert((a + b).skip(a.len() as int) =~= b);
}

proof fn lemma_head_reads_back(target: TargetModel)
    requires
        linked_worktree::head_target(linked_worktree::head_text(target)) is Ok,
        target matches TargetModel::Detached(id) ==> id.len() == 20,
    ensures
        linked_worktree::head_target(linked_worktree::head_text(target)) == Ok::<
            TargetModel,
            Refusal,
        >(target),
{
    let text = linked_worktree::head_text(target);
    let line = worktree_path::line_of(text);
    let mark = bytes::utf8("ref: "@);
    let heads = bytes::utf8("refs/heads/"@);
    lemma_head_prefixes();
    match target {
        TargetModel::Branch(name) => {
            assert(line =~= (mark + heads) + name);
            assert((mark + heads) + name =~= mark + (heads + name));
            lemma_prefix_of_sum(mark, heads + name);
            lemma_prefix_of_sum(heads, name);
        },
        TargetModel::Detached(id) => {
            assert(line =~= object::hex_of(id));
            object::lemma_unhex_of_hex(id);
            let b = id[0] as int;
            assert(0 <= b / 16 < 16 && 0 <= b % 16 < 16);
            assert(line[0] != 114);
            assert(!bytes::has_prefix(line, mark));
        },
    }
}

proof fn lemma_registered_at(
    tree: memory::Tree,
    root: Seq<u8>,
    names: Seq<Seq<u8>>,
    n: int,
    i: int,
)
    requires
        0 <= i < n <= names.len(),
        linked_worktree::registered(tree, root, names, n) is Ok,
    ensures
        ({
            let list = linked_worktree::registered(tree, root, names, n)->Ok_0;
            let admin = repository::joined(root, names[i]);
            let head = storage::read_at(tree, linked_worktree::within(admin, "HEAD"@));
            &&& list.len() == n
            &&& list[i].name == names[i]
            &&& worktree_path::valid_name(names[i])
            &&& linked_worktree::worktree_of(tree, admin) == Ok::<Seq<u8>, Refusal>(list[i].path)
            &&& head is Ok
            &&& linked_worktree::head_target(head->Ok_0) == Ok::<TargetModel, Refusal>(
                list[i].target,
            )
        }),
    decreases n,
{
    if i < n - 1 {
        lemma_registered_at(tree, root, names, n - 1, i);
    } else if n > 1 {
        lemma_registered_at(tree, root, names, n - 1, 0);
    }
}

proof fn lemma_registration_stands(
    tree: memory::Tree,
    git: Seq<u8>,
    worktree: Seq<u8>,
    root: Seq<u8>,
    name: Seq<u8>,
    target: TargetModel,
)
    requires
        tree.dom().finite(),
        root.len() > 0,
        linked_worktree::created(
            tree,
            git,
            worktree,
            repository::joined(root, name),
            target,
        ).1 is None,
    ensures
        ({
            let admin = repository::joined(root, name);
            let after = linked_worktree::created(tree, git, worktree, admin, target).0;
            &&& after.dom().finite()
            &&& after.contains_key(admin)
            &&& after.contains_key(root)
            &&& memory::contents(after, linked_worktree::within(admin, "gitdir"@)) == Ok::<
                Seq<u8>,
                Fault,
            >(linked_worktree::link_text(admin, linked_worktree::within(worktree, ".git"@)))
            &&& memory::contents(after, linked_worktree::within(admin, "HEAD"@)) == Ok::<
                Seq<u8>,
                Fault,
            >(linked_worktree::head_text(target))
        }),
{
    let admin = repository::joined(root, name);
    let files = linked_worktree::registration_files(git, admin, worktree, target);
    let one = memory::with_directories(tree, admin, 0).0;
    let two = memory::with_directories(one, worktree, 0).0;
    lemma_last_bytes(admin, worktree);
    memory::lemma_directories_finite(tree, admin, 0);
    memory::lemma_directories_finite(one, worktree, 0);
    memory::lemma_directories_made(tree, admin, 0);
    assert(admin[root.len() as int] == 47);
    assert(admin.take(root.len() as int) =~= root);
    memory::lemma_directories_above(tree, admin, 0, root.len() as int);
    memory::lemma_directories_keep(one, worktree, 0);
    assert(two.contains_key(root));
    assert(two.contains_key(admin) && two.dom().finite());
    let a = linked_worktree::wrote_all(two, files, 1).0;
    let b = linked_worktree::wrote_all(two, files, 2).0;
    let c = linked_worktree::wrote_all(two, files, 3).0;
    let d = linked_worktree::wrote_all(two, files, 4).0;
    reveal_with_fuel(linked_worktree::wrote_all, 5);
    assert(linked_worktree::wrote_all(two, files, 3).1 is None);
    assert(linked_worktree::wrote_all(two, files, 2).1 is None);
    assert(linked_worktree::wrote_all(two, files, 1).1 is None);
    assert(a.contains_key(admin) && a.contains_key(root) && a.dom().finite());
    assert(b.contains_key(admin) && b.contains_key(root) && b.dom().finite());
    assert(c.contains_key(admin) && c.contains_key(root) && c.dom().finite());
    assert(d.contains_key(admin) && d.contains_key(root) && d.dom().finite());
}

proof fn lemma_way_back(git: Seq<u8>, value: Seq<u8>, name: Seq<u8>)
    requires
        path::plain(git),
        git.len() > 0,
        worktree_path::valid_name(name),
        path::normalized(value) is Some,
    ensures
        ({
            let root = linked_worktree::registry(git);
            let admin = repository::joined(root, name);
            let worktree = path::normalized(value)->0;
            let dot = linked_worktree::within(worktree, ".git"@);
            let text = linked_worktree::link_text(admin, dot);
            &&& worktree_path::line_of(text) == worktree_path::relative(admin, dot)
            &&& worktree_path::relative_target(admin, worktree_path::relative(admin, dot)) == Ok::<
                Seq<u8>,
                Error,
            >(dot)
            &&& dot.len() > 0
            &&& memory::parent_of(dot) == worktree
            &&& memory::parent_of(admin) == root
            &&& memory::name_of(admin) == name
            &&& admin.len() > 0
            &&& root.len() > 0
        }),
{
    let root = linked_worktree::registry(git);
    let admin = repository::joined(root, name);
    let worktree = path::normalized(value)->0;
    let dot = linked_worktree::within(worktree, ".git"@);
    linked_worktree::lemma_file_names();
    repository::lemma_joined_plain(git, bytes::utf8("worktrees"@));
    lemma_valid_name(name);
    linked_worktree::lemma_parent_within(root, name);
    lemma_name_of_joined(root, name);
    path::lemma_normalized_plain(value);
    repository::lemma_joined_plain(root, name);
    repository::lemma_joined_plain(worktree, bytes::utf8(".git"@));
    worktree_path::lemma_relative_leads(admin, dot);
    linked_worktree::lemma_parent_within(worktree, bytes::utf8(".git"@));
    assert(worktree_path::line_of(linked_worktree::link_text(admin, dot)) =~= worktree_path::relative(
        admin,
        dot,
    ));
}

/// A worktree that was added is among the linked worktrees, under its name,
/// at its path and with its target, wherever they can be listed.
pub proof fn lemma_added_worktree_is_listed(
    tree: memory::Tree,
    git: Seq<u8>,
    value: Seq<u8>,
    name: Seq<u8>,
    target: TargetModel,
    tip: Option<Seq<u8>>,
    size: nat,
    format: WorktreeFormat,
)
    requires
        tree.dom().finite(),
        path::plain(git),
        git.len() > 0,
        target matches TargetModel::Detached(id) ==> id.len() == 20,
        linked_worktree::creatable(tree, git, value, name, target, tip, size, format) is Ok,
    ensures
        ({
            let (worktree, admin) = linked_worktree::creatable(
                tree,
                git,
                value,
                name,
                target,
                tip,
                size,
                format,
            )->Ok_0;
            let (after, refusal) = linked_worktree::created(tree, git, worktree, admin, target);
            refusal is None ==> (linked_worktree::all_registered(after, git) matches Ok(list)
                ==> list.contains(Registration { name, path: worktree, target }))
        }),
{
    let (worktree, admin) = linked_worktree::creatable(
        tree,
        git,
        value,
        name,
        target,
        tip,
        size,
        format,
    )->Ok_0;
    let root = linked_worktree::registry(git);
    assert(worktree_path::valid_name(name) && path::normalized(value) == Some(worktree) && admin
        == repository::joined(root, name));
    if linked_worktree::created(tree, git, worktree, admin, target).1 is None {
        let after = linked_worktree::created(tree, git, worktree, admin, target).0;
        lemma_way_back(git, value, name);
        lemma_registration_stands(tree, git, worktree, root, name, target);
        lemma_listed_where_it_stands(after, git, worktree, name, target);
    }
}

proof fn lemma_listed_where_it_stands(
    after: memory::Tree,
    git: Seq<u8>,
    worktree: Seq<u8>,
    name: Seq<u8>,
    target: TargetModel,
)
    requires
        after.dom().finite(),
        target matches TargetModel::Detached(id) ==> id.len() == 20,
        ({
            let root = linked_worktree::registry(git);
            let admin = repository::joined(root, name);
            let dot = linked_worktree::within(worktree, ".git"@);
            let text = linked_worktree::link_text(admin, dot);
            &&& memory::contents(after, linked_worktree::within(admin, "gitdir"@)) == Ok::<
                Seq<u8>,
                Fault,
            >(text)
            &&& memory::contents(after, linked_worktree::within(admin, "HEAD"@)) == Ok::<
                Seq<u8>,
                Fault,
            >(linked_worktree::head_text(target))
            &&& worktree_path::line_of(text) == worktree_path::relative(admin, dot)
            &&& worktree_path::relative_target(admin, worktree_path::relative(admin, dot)) == Ok::<
                Seq<u8>,
                Error,
            >(dot)
            &&& dot.len() > 0
            &&& memory::parent_of(dot) == worktree
            &&& memory::is_child(after, root, admin)
            &&& after.contains_key(root)
            &&& memory::name_of(admin) == name
        }),
    ensures
        linked_worktree::all_registered(after, git) matches Ok(list) ==> list.contains(
            Registration { name, path: worktree, target },
        ),
{
    let root = linked_worktree::registry(git);
    let admin = repository::joined(root, name);
    if linked_worktree::all_registered(after, git) is Ok {
        let list = linked_worktree::all_registered(after, git)->Ok_0;
        let names = storage::children(after, root);
        storage::lemma_children_exist(after, root);
        assert(names.contains(name));
        let i = names.index_of(name);
        assert(after.contains_key(admin));
        assert(storage::listed(after, root) is Ok);
        lemma_registered_at(after, root, names, names.len() as int, i);
        lemma_head_reads_back(target);
        assert(list[i] == (Registration { name, path: worktree, target }));
    }
}

proof fn lemma_valid_name(name: Seq<u8>)
    requires
        worktree_path::valid_name(name),
    ensures
        name.len() > 0,
        path::plain(name),
        forall|i: int| 0 <= i < name.len() ==> name[i] != 47,
{
    assert forall|i: int| 0 <= i < name.len() implies name[i] != 47 by {
        assert(worktree_path::name_byte(name[i]));
    }
    path::lemma_plain_name(name);
}

proof fn lemma_name_of_joined(directory: Seq<u8>, name: Seq<u8>)
    requires
        name.len() > 0,
        directory.len() > 0,
        forall|i: int| 0 <= i < name.len() ==> name[i] != 47,
    ensures
        memory::name_of(repository::joined(directory, name)) == name,
{
    let p = repository::joined(directory, name);
    memory::lemma_last_slash(p);
    let at = memory::last_slash(p);
    let n = directory.len() as int;
    assert(p[n] == 47);
    if at > n {
        assert(p[at] == name[at - n - 1]);
    }
    assert(memory::name_of(p) =~= name);
}

// ---------------------------------------------------------------------------
// The list after creation

proof fn lemma_created_nodes(
    tree: memory::Tree,
    git: Seq<u8>,
    worktree: Seq<u8>,
    admin: Seq<u8>,
    target: TargetModel,
)
    requires
        linked_worktree::created(tree, git, worktree, admin, target).1 is None,
        memory::rooted(tree),
        !tree.contains_key(admin) && !tree.contains_key(worktree),
    ensures
        ({
            let after = linked_worktree::created(tree, git, worktree, admin, target).0;
            &&& grown(tree, after, worktree, admin)
            &&& after.contains_key(worktree)
            &&& after.contains_key(admin)
        }),
{
    let files = linked_worktree::registration_files(git, admin, worktree, target);
    let one = memory::with_directories(tree, admin, 0).0;
    let two = memory::with_directories(one, worktree, 0).0;
    linked_worktree::lemma_file_names();
    linked_worktree::lemma_parent_within(worktree, bytes::utf8(".git"@));
    linked_worktree::lemma_parent_within(admin, bytes::utf8("gitdir"@));
    linked_worktree::lemma_parent_within(admin, bytes::utf8("commondir"@));
    linked_worktree::lemma_parent_within(admin, bytes::utf8("HEAD"@));
    lemma_last_bytes(admin, worktree);
    assert(linked_worktree::within(admin, "commondir"@).len() > 0) by {
        reveal_strlit("commondir");
        bytes::lemma_ascii("commondir"@);
    }
    assert(!tree.contains_key(files[0].0) && !tree.contains_key(files[1].0) && !tree.contains_key(
        files[2].0,
    ) && !tree.contains_key(files[3].0));
    memory::lemma_directories_keep(tree, admin, 0);
    memory::lemma_directories_keep(one, worktree, 0);
    memory::lemma_directories_new(tree, admin, 0);
    memory::lemma_directories_new(one, worktree, 0);
    memory::lemma_directories_made(tree, admin, 0);
    memory::lemma_directories_made(one, worktree, 0);
    reveal_with_fuel(linked_worktree::wrote_all, 5);
    assert(linked_worktree::wrote_all(two, files, 3).1 is None);
    assert(linked_worktree::wrote_all(two, files, 2).1 is None);
    assert(linked_worktree::wrote_all(two, files, 1).1 is None);
    let after = linked_worktree::created(tree, git, worktree, admin, target).0;
    assert(after.dom() =~= two.dom().insert(files[0].0).insert(files[1].0).insert(
        files[2].0,
    ).insert(files[3].0));
    assert forall|q: Seq<u8>| #[trigger] after.contains_key(q) && q != files[0].0 && q
        != files[1].0 && q != files[2].0 && q != files[3].0 implies two.contains_key(q) && after[q]
        == two[q] by {}
    assert forall|q: Seq<u8>| #[trigger] tree.contains_key(q) implies after.contains_key(q)
        && after[q] == tree[q] by {
        assert(one.contains_key(q));
        assert(two.contains_key(q));
        assert(after.dom().contains(q));
    }
    assert forall|q: Seq<u8>| #[trigger] after.contains_key(q) && !tree.contains_key(
        q,
    ) implies after[q] is Directory || q == files[0].0 || q == files[1].0 || q == files[2].0 || q
        == files[3].0 by {
        if q != files[0].0 && q != files[1].0 && q != files[2].0 && q != files[3].0 {
            assert(two.contains_key(q));
            if one.contains_key(q) {
                assert(one[q] is Directory);
            }
        }
    }
    assert(two.contains_key(admin) && two.contains_key(worktree));
    assert(after.dom().contains(admin) && after.dom().contains(worktree));
}

/// Whether a tree is another with directories and the files of a new
/// registration.
spec fn grown(
    tree: memory::Tree,
    after: memory::Tree,
    worktree: Seq<u8>,
    admin: Seq<u8>,
) -> bool {
    &&& forall|q: Seq<u8>| #[trigger]
        tree.contains_key(q) ==> after.contains_key(q) && after[q] == tree[q]
    &&& forall|q: Seq<u8>| #[trigger]
        after.contains_key(q) && !tree.contains_key(q) ==> after[q] is Directory || q
            == linked_worktree::within(worktree, ".git"@) || q == linked_worktree::within(
            admin,
            "gitdir"@,
        ) || q == linked_worktree::within(admin, "commondir"@) || q == linked_worktree::within(
            admin,
            "HEAD"@,
        )
}

/// What the files of a registration say of it.
spec fn says(tree: memory::Tree, root: Seq<u8>, x: Registration) -> bool {
    let admin = repository::joined(root, x.name);
    let head = storage::read_at(tree, linked_worktree::within(admin, "HEAD"@));
    &&& linked_worktree::worktree_of(tree, admin) == Ok::<Seq<u8>, Refusal>(x.path)
    &&& head is Ok
    &&& linked_worktree::head_target(head->Ok_0) == Ok::<TargetModel, Refusal>(x.target)
}

proof fn lemma_list_members(tree: memory::Tree, git: Seq<u8>)
    requires
        tree.dom().finite(),
        path::plain(git),
        linked_worktree::all_registered(tree, git) is Ok,
        tree.contains_key(linked_worktree::registry(git)),
    ensures
        ({
            let list = linked_worktree::all_registered(tree, git)->Ok_0;
            let root = linked_worktree::registry(git);
            &&& forall|x: Registration| #[trigger]
                list.contains(x) ==> says(tree, root, x) && worktree_path::valid_name(x.name)
                    && memory::has_child(tree, root, x.name)
            &&& forall|x: Registration| #[trigger]
                says(tree, root, x) && memory::has_child(tree, root, x.name) ==> list.contains(x)
            &&& forall|i: int, j: int|
                0 <= i < j < list.len() ==> #[trigger] bytes::lex_lt(list[i].name, list[j].name)
        }),
{
    let list = linked_worktree::all_registered(tree, git)->Ok_0;
    let root = linked_worktree::registry(git);
    let names = storage::children(tree, root);
    let n = names.len() as int;
    storage::lemma_children_exist(tree, root);
    assert(list.len() == n) by {
        if n > 0 {
            lemma_registered_at(tree, root, names, n, 0);
        }
    }
    assert forall|x: Registration| #[trigger] list.contains(x) implies says(tree, root, x)
        && worktree_path::valid_name(x.name) && memory::has_child(tree, root, x.name) by {
        let i = list.index_of(x);
        lemma_registered_at(tree, root, names, n, i);
        assert(memory::has_child(tree, root, names[i]));
    }
    assert forall|x: Registration| #[trigger] says(tree, root, x) && memory::has_child(
        tree,
        root,
        x.name,
    ) implies list.contains(x) by {
        let p = choose|p: Seq<u8>| #[trigger]
            memory::is_child(tree, root, p) && memory::name_of(p) == x.name;
        assert(names.contains(x.name));
        let i = names.index_of(x.name);
        lemma_registered_at(tree, root, names, n, i);
        assert(list[i] == x);
    }
    assert forall|i: int, j: int| 0 <= i < j < list.len() implies #[trigger] bytes::lex_lt(
        list[i].name,
        list[j].name,
    ) by {
        lemma_registered_at(tree, root, names, n, i);
        lemma_registered_at(tree, root, names, n, j);
        assert(bytes::lex_lt(names[i], names[j]));
    }
}

proof fn lemma_registry_is_no_slash(git: Seq<u8>)
    ensures
        linked_worktree::registry(git).len() > 1,
        linked_worktree::registry(git).last() != 47,
{
    reveal_strlit("worktrees");
    bytes::lemma_ascii("worktrees"@);
    let root = linked_worktree::registry(git);
    assert(root.last() == bytes::utf8("worktrees"@).last());
}

/// The list of linked worktrees after one was added is the list before with
/// the new one, in order of the names, wherever both can be listed.
pub proof fn lemma_added_worktree_joins_the_list(
    tree: memory::Tree,
    git: Seq<u8>,
    value: Seq<u8>,
    name: Seq<u8>,
    target: TargetModel,
    tip: Option<Seq<u8>>,
    size: nat,
    format: WorktreeFormat,
)
    requires
        tree.dom().finite(),
        memory::rooted(tree),
        path::plain(git),
        git.len() > 0,
        target matches TargetModel::Detached(id) ==> id.len() == 20,
        linked_worktree::creatable(tree, git, value, name, target, tip, size, format) is Ok,
    ensures
        ({
            let (worktree, admin) = linked_worktree::creatable(
                tree,
                git,
                value,
                name,
                target,
                tip,
                size,
                format,
            )->Ok_0;
            let (after, refusal) = linked_worktree::created(tree, git, worktree, admin, target);
            let new = Registration { name, path: worktree, target };
            refusal is None && linked_worktree::all_registered(tree, git) is Ok
                && linked_worktree::all_registered(after, git) is Ok ==> {
                let before = linked_worktree::all_registered(tree, git)->Ok_0;
                let list = linked_worktree::all_registered(after, git)->Ok_0;
                &&& forall|x: Registration| #[trigger]
                    list.contains(x) <==> before.contains(x) || x == new
                &&& forall|i: int, j: int|
                    0 <= i < j < list.len() ==> #[trigger] bytes::lex_lt(list[i].name, list[j].name)
            }
        }),
{
    let (worktree, admin) = linked_worktree::creatable(
        tree,
        git,
        value,
        name,
        target,
        tip,
        size,
        format,
    )->Ok_0;
    let root = linked_worktree::registry(git);
    let (after, refusal) = linked_worktree::created(tree, git, worktree, admin, target);
    let new = Registration { name, path: worktree, target };
    if refusal is None && linked_worktree::all_registered(tree, git) is Ok
        && linked_worktree::all_registered(after, git) is Ok {
        let before = linked_worktree::all_registered(tree, git)->Ok_0;
        let list = linked_worktree::all_registered(after, git)->Ok_0;
        lemma_way_back(git, value, name);
        lemma_registration_stands(tree, git, worktree, root, name, target);
        lemma_added_worktree_is_listed(tree, git, value, name, target, tip, size, format);
        lemma_created_nodes(tree, git, worktree, admin, target);
        lemma_new_list_from_old(tree, after, git, worktree, name, new);
        lemma_old_list_in_new(tree, after, git, worktree, admin);
        lemma_list_members(after, git);
        assert(list == linked_worktree::all_registered(after, git)->Ok_0);
        assert(before == linked_worktree::all_registered(tree, git)->Ok_0);
    }
}

proof fn lemma_new_list_from_old(
    tree: memory::Tree,
    after: memory::Tree,
    git: Seq<u8>,
    worktree: Seq<u8>,
    name: Seq<u8>,
    new: Registration,
)
    requires
        tree.dom().finite() && after.dom().finite(),
        memory::rooted(tree),
        path::plain(git),
        linked_worktree::all_registered(tree, git) is Ok,
        linked_worktree::all_registered(after, git) is Ok,
        after.contains_key(linked_worktree::registry(git)),
        new.name == name,
        linked_worktree::all_registered(after, git)->Ok_0.contains(new),
        grown(tree, after, worktree, repository::joined(linked_worktree::registry(git), name)),
    ensures
        forall|x: Registration| #[trigger]
            linked_worktree::all_registered(after, git)->Ok_0.contains(x)
                ==> linked_worktree::all_registered(tree, git)->Ok_0.contains(x) || x == new,
{
    let list = linked_worktree::all_registered(after, git)->Ok_0;
    lemma_list_members(after, git);
    assert forall|x: Registration| #[trigger] list.contains(
        x,
    ) implies linked_worktree::all_registered(tree, git)->Ok_0.contains(x) || x == new by {
        if x.name == name {
            let i = list.index_of(x);
            let j = list.index_of(new);
            bytes::lemma_lex_irreflexive(name);
            if i < j {
                assert(bytes::lex_lt(list[i].name, list[j].name));
            } else if j < i {
                assert(bytes::lex_lt(list[j].name, list[i].name));
            }
        } else {
            lemma_listed_was_there(tree, after, git, worktree, name, x);
        }
    }
}

proof fn lemma_old_list_in_new(
    tree: memory::Tree,
    after: memory::Tree,
    git: Seq<u8>,
    worktree: Seq<u8>,
    admin: Seq<u8>,
)
    requires
        tree.dom().finite() && after.dom().finite(),
        path::plain(git),
        linked_worktree::all_registered(tree, git) is Ok,
        linked_worktree::all_registered(after, git) is Ok,
        after.contains_key(linked_worktree::registry(git)),
        grown(tree, after, worktree, admin),
    ensures
        forall|x: Registration| #[trigger]
            linked_worktree::all_registered(tree, git)->Ok_0.contains(x)
                ==> linked_worktree::all_registered(after, git)->Ok_0.contains(x),
{
    let root = linked_worktree::registry(git);
    let before = linked_worktree::all_registered(tree, git)->Ok_0;
    lemma_list_members(after, git);
    if tree.contains_key(root) {
        lemma_list_members(tree, git);
        assert forall|x: Registration| #[trigger] before.contains(
            x,
        ) implies linked_worktree::all_registered(after, git)->Ok_0.contains(x) by {
            let q = choose|q: Seq<u8>| #[trigger]
                memory::is_child(tree, root, q) && memory::name_of(q) == x.name;
            assert(memory::is_child(after, root, q));
            assert(memory::has_child(after, root, x.name));
            let mine = repository::joined(root, x.name);
            assert(tree.contains_key(linked_worktree::within(mine, "gitdir"@)));
            assert(tree.contains_key(linked_worktree::within(mine, "HEAD"@)));
            assert(says(after, root, x));
        }
    }
}

/// A registration that is listed after another was added was listed before.
proof fn lemma_listed_was_there(
    tree: memory::Tree,
    after: memory::Tree,
    git: Seq<u8>,
    worktree: Seq<u8>,
    name: Seq<u8>,
    x: Registration,
)
    requires
        tree.dom().finite(),
        memory::rooted(tree),
        path::plain(git),
        linked_worktree::all_registered(tree, git) is Ok,
        says(after, linked_worktree::registry(git), x),
        worktree_path::valid_name(x.name),
        x.name != name,
        grown(tree, after, worktree, repository::joined(linked_worktree::registry(git), name)),
    ensures
        linked_worktree::all_registered(tree, git)->Ok_0.contains(x),
{
    let root = linked_worktree::registry(git);
    let admin = repository::joined(root, name);
    let mine = repository::joined(root, x.name);
    let link = linked_worktree::within(mine, "gitdir"@);
    let head = linked_worktree::within(mine, "HEAD"@);
    linked_worktree::lemma_file_names();
    lemma_valid_name(x.name);
    lemma_registry_is_no_slash(git);
    lemma_last_bytes(mine, worktree);
    lemma_last_bytes(admin, worktree);
    linked_worktree::lemma_parent_within(mine, bytes::utf8("gitdir"@));
    linked_worktree::lemma_parent_within(admin, bytes::utf8("gitdir"@));
    linked_worktree::lemma_parent_within(mine, bytes::utf8("HEAD"@));
    linked_worktree::lemma_parent_within(admin, bytes::utf8("HEAD"@));
    linked_worktree::lemma_parent_within(mine, bytes::utf8("commondir"@));
    linked_worktree::lemma_parent_within(admin, bytes::utf8("commondir"@));
    linked_worktree::lemma_parent_within(root, x.name);
    lemma_name_of_joined(root, x.name);
    assert(mine != admin) by {
        let n = root.len() as int;
        assert(mine.skip(n + 1) =~= x.name);
        assert(admin.skip(n + 1) =~= name);
    }
    assert(after.contains_key(link) && after[link] is File);
    assert(after.contains_key(head) && after[head] is File);
    assert(link != linked_worktree::within(admin, "HEAD"@));
    assert(head != linked_worktree::within(admin, "gitdir"@));
    assert(tree.contains_key(link));
    assert(tree.contains_key(head));
    assert(tree.contains_key(mine));
    assert(tree.contains_key(root));
    assert(memory::is_child(tree, root, mine));
    assert(memory::has_child(tree, root, x.name));
    assert(says(tree, root, x));
    lemma_list_members(tree, git);
}

/// Once a worktree was added, adding another of the same name, at the same
/// path, or on the same branch is refused.
pub proof fn lemma_second_add_is_refused(
    tree: memory::Tree,
    git: Seq<u8>,
    value: Seq<u8>,
    name: Seq<u8>,
    target: TargetModel,
    tip: Option<Seq<u8>>,
    size: nat,
    format: WorktreeFormat,
    other_value: Seq<u8>,
    other_name: Seq<u8>,
    other_target: TargetModel,
    other_tip: Option<Seq<u8>>,
)
    requires
        tree.dom().finite(),
        memory::rooted(tree),
        path::plain(git),
        git.len() > 0,
        target matches TargetModel::Detached(id) ==> id.len() == 20,
        linked_worktree::creatable(tree, git, value, name, target, tip, size, format) is Ok,
        other_name == name || path::normalized(other_value) == path::normalized(value) || (
        target is Branch && other_target == target),
    ensures
        ({
            let (worktree, admin) = linked_worktree::creatable(
                tree,
                git,
                value,
                name,
                target,
                tip,
                size,
                format,
            )->Ok_0;
            let (after, refusal) = linked_worktree::created(tree, git, worktree, admin, target);
            refusal is None ==> linked_worktree::creatable(
                after,
                git,
                other_value,
                other_name,
                other_target,
                other_tip,
                size,
                format,
            ) is Err
        }),
{
    let (worktree, admin) = linked_worktree::creatable(
        tree,
        git,
        value,
        name,
        target,
        tip,
        size,
        format,
    )->Ok_0;
    let (after, refusal) = linked_worktree::created(tree, git, worktree, admin, target);
    if refusal is None {
        lemma_created_nodes(tree, git, worktree, admin, target);
        lemma_added_worktree_is_listed(tree, git, value, name, target, tip, size, format);
        if target is Branch && linked_worktree::all_registered(after, git) is Ok {
            let list = linked_worktree::all_registered(after, git)->Ok_0;
            let new = Registration { name, path: worktree, target };
            let i = list.index_of(new);
            assert(list[i].target == target);
        }
    }
}

} // verus!
