//! Laws about verification: what objects name, and what is kept for it.

use vstd::prelude::*;

use crate::bytes;
use crate::commit;
use crate::fs::memory;
use crate::fs::Refusal;
use crate::fsck;
use crate::fsck::{FactModel, FsckOptions, FsckReport, LinkModel, Retention};
use crate::id_set;
use crate::index;
use crate::object;
use crate::object::ObjectKind;
use crate::pack;
use crate::repository;
use crate::storage;
use crate::tree;
use crate::tree::{EntryMode, TreeItem};
use crate::{Error, Result};

verus! {

// ---------------------------------------------------------------------------
// Links

/// Whether a link leads to an object of a kind.
pub open spec fn links_to(links: Seq<LinkModel>, id: Seq<u8>, kind: ObjectKind) -> bool {
    exists|k: int|
        0 <= k < links.len() && (#[trigger] links[k]).id == id && links[k].expected == kind
}

/// A commit links to its tree and, unless its history is cut off there, to
/// each of its parents as commits, and to nothing else.
pub proof fn lemma_commit_links(data: Seq<u8>, shallow: bool)
    requires
        commit::commit_from(data) is Ok,
    ensures
        ({
            let m = commit::commit_from(data)->Ok_0;
            fsck::links_of(ObjectKind::Commit, data, shallow) matches Ok(links) && {
                &&& links_to(links, m.tree, ObjectKind::Tree)
                &&& !shallow ==> forall|i: int|
                    0 <= i < m.parents.len() ==> links_to(
                        links,
                        #[trigger] m.parents[i],
                        ObjectKind::Commit,
                    )
                &&& forall|k: int|
                    0 <= k < links.len() ==> ((#[trigger] links[k]).id == m.tree
                        && links[k].expected is Tree) || (!shallow && m.parents.contains(
                        links[k].id,
                    ) && links[k].expected is Commit)
            }
        }),
{
    let m = commit::commit_from(data)->Ok_0;
    let links = fsck::links_of(ObjectKind::Commit, data, shallow)->Ok_0;
    assert(links[0] == (LinkModel { id: m.tree, expected: ObjectKind::Tree }));
    if !shallow {
        assert forall|i: int| 0 <= i < m.parents.len() implies links_to(
            links,
            #[trigger] m.parents[i],
            ObjectKind::Commit,
        ) by {
            assert(links[1 + i].id == m.parents[i]);
        }
        assert forall|k: int| 0 <= k < links.len() implies ((#[trigger] links[k]).id == m.tree
            && links[k].expected is Tree) || (m.parents.contains(links[k].id)
            && links[k].expected is Commit) by {
            if k > 0 {
                assert(links[k].id == m.parents[k - 1]);
            }
        }
    }
}

/// What an entry of a tree leads to: a tree, or a blob.
pub open spec fn kind_below(mode: EntryMode) -> ObjectKind {
    if mode is Tree {
        ObjectKind::Tree
    } else {
        ObjectKind::Blob
    }
}

proof fn lemma_item_links(list: Seq<TreeItem>, n: int)
    requires
        0 <= n <= list.len(),
    ensures
        ({
            let links = fsck::tree_links(list, n);
            &&& forall|i: int|
                0 <= i < n && !((#[trigger] list[i]).mode is Gitlink) ==> links_to(
                    links,
                    list[i].id,
                    kind_below(list[i].mode),
                )
            &&& forall|k: int|
                0 <= k < links.len() ==> exists|i: int|
                    0 <= i < n && !((#[trigger] list[i]).mode is Gitlink) && list[i].id == (
                    #[trigger] links[k]).id && kind_below(list[i].mode) == links[k].expected
        }),
    decreases n,
{
    if n > 0 {
        lemma_item_links(list, n - 1);
        let less = fsck::tree_links(list, n - 1);
        let links = fsck::tree_links(list, n);
        assert forall|i: int| 0 <= i < n && !((#[trigger] list[i]).mode is Gitlink) implies links_to(
            links,
            list[i].id,
            kind_below(list[i].mode),
        ) by {
            if i < n - 1 {
                assert(links_to(less, list[i].id, kind_below(list[i].mode)));
                let k = choose|k: int|
                    0 <= k < less.len() && (#[trigger] less[k]).id == list[i].id
                        && less[k].expected == kind_below(list[i].mode);
                assert(links[k] == less[k]);
            } else {
                assert(links[less.len() as int].id == list[i].id);
            }
        }
        assert forall|k: int| 0 <= k < links.len() implies exists|i: int|
            0 <= i < n && !((#[trigger] list[i]).mode is Gitlink) && list[i].id == (
            #[trigger] links[k]).id && kind_below(list[i].mode) == links[k].expected by {
            if k < less.len() {
                assert(links[k] == less[k]);
                let i = choose|i: int|
                    0 <= i < n - 1 && !((#[trigger] list[i]).mode is Gitlink) && list[i].id
                        == less[k].id && kind_below(list[i].mode) == less[k].expected;
                assert(list[i].id == links[k].id);
            } else {
                assert(list[n - 1].id == links[k].id);
            }
        }
    }
}

/// A tree links to what each of its entries names, a tree or a blob, but not
/// to commits of other repositories.
pub proof fn lemma_tree_links(data: Seq<u8>, shallow: bool)
    requires
        tree::items_from(data, 0) is Ok,
    ensures
        ({
            let list = tree::items_from(data, 0)->Ok_0;
            fsck::links_of(ObjectKind::Tree, data, shallow) matches Ok(links) && {
                &&& forall|i: int|
                    0 <= i < list.len() && !((#[trigger] list[i]).mode is Gitlink) ==> links_to(
                        links,
                        list[i].id,
                        kind_below(list[i].mode),
                    )
                &&& forall|k: int|
                    0 <= k < links.len() ==> exists|i: int|
                        0 <= i < list.len() && !((#[trigger] list[i]).mode is Gitlink)
                            && list[i].id == (#[trigger] links[k]).id && kind_below(list[i].mode)
                            == links[k].expected
            }
        }),
{
    let list = tree::items_from(data, 0)->Ok_0;
    lemma_item_links(list, list.len() as int);
}

/// A tag links to its target as what the tag says it is, and a blob to
/// nothing.
pub proof fn lemma_tag_and_blob_links(data: Seq<u8>, shallow: bool)
    ensures
        commit::tag_from(data) matches Ok(tag) ==> (fsck::links_of(
            ObjectKind::Tag,
            data,
            shallow,
        ) matches Ok(links) && links.len() == 1 && links_to(links, tag.target, tag.target_kind)),
        fsck::links_of(ObjectKind::Blob, data, shallow) matches Ok(links) && links.len() == 0,
{
    if commit::tag_from(data) is Ok {
        let tag = commit::tag_from(data)->Ok_0;
        let links = fsck::links_of(ObjectKind::Tag, data, shallow)->Ok_0;
        assert(links[0].id == tag.target);
    }
}

// ---------------------------------------------------------------------------
// What is kept

/// Whether a stored object names another as one of a kind: a commit its tree
/// and, unless its history is cut off there, its parents; a tree what its
/// entries name in this repository; a tag its target.
pub open spec fn names(
    files: memory::Tree,
    git: Seq<u8>,
    size: nat,
    shallow: Set<Seq<u8>>,
    from: Seq<u8>,
    to: Seq<u8>,
    kind: ObjectKind,
) -> bool {
    storage::stored_object(files, git, from, size) matches Ok((found, data)) && match found {
        ObjectKind::Blob => false,
        ObjectKind::Commit => commit::commit_from(data) matches Ok(m) && ((to == m.tree
            && kind is Tree) || (!shallow.contains(from) && m.parents.contains(to)
            && kind is Commit)),
        ObjectKind::Tree => tree::items_from(data, 0) matches Ok(list) && exists|i: int|
            0 <= i < list.len() && !((#[trigger] list[i]).mode is Gitlink) && list[i].id == to
                && kind_below(list[i].mode) == kind,
        ObjectKind::Tag => commit::tag_from(data) matches Ok(tag) && to == tag.target && kind
            == tag.target_kind,
    }
}

/// Whether an object is kept for its own sake: a reference names it, or a log
/// or the index where they count, or the caller.
pub open spec fn is_root(
    files: memory::Tree,
    git: Seq<u8>,
    options: FsckOptions,
    retention: Retention,
    id: Seq<u8>,
) -> bool {
    ||| commit::raw_ids(options.additional_roots@).contains(id)
    ||| commit::raw_ids(retention.references@).contains(id)
    ||| options.include_reflogs && commit::raw_ids(retention.reflogs@).contains(id)
    ||| options.include_index && (fsck::index_of(files, git) matches Ok(model) && exists|i: int|
        0 <= i < model.entries.len() && (#[trigger] model.entries[i]).mode != 0o160000
            && model.entries[i].id == id)
}

/// The identifier of no object has only zeros.
pub open spec fn is_nobody(id: Seq<u8>) -> bool {
    id.len() == 20 && forall|i: int| 0 <= i < 20 ==> #[trigger] id[i] == 0
}

/// Whether an object is among all that were found.
pub open spec fn is_found(report: FsckReport, id: Seq<u8>) -> bool {
    report.kept().contains(id) || report.lost().contains(id)
}

/// Whether a set holds what is kept for its own sake, and what its objects
/// name.
pub open spec fn is_closed(
    files: memory::Tree,
    git: Seq<u8>,
    options: FsckOptions,
    retention: Retention,
    set: Set<Seq<u8>>,
) -> bool {
    let shallow = commit::raw_ids(retention.shallow@).to_set();
    &&& forall|id: Seq<u8>| #[trigger]
        is_root(files, git, options, retention, id) && !is_nobody(id) ==> set.contains(id)
    &&& forall|from: Seq<u8>, to: Seq<u8>, kind: ObjectKind| #[trigger]
        names(files, git, options.max_object_size as nat, shallow, from, to, kind)
            && set.contains(from) && !is_nobody(to) ==> set.contains(to)
}

/// Whether a report tells what is kept, what is lost and what dangles.
///
/// What is kept is the least set that holds what is kept for its own sake and
/// what its objects name. All other objects are lost, and those among them
/// that no object names dangle. Each object that another names was found.
#[verifier::opaque]
pub open spec fn tells(
    files: memory::Tree,
    git: Seq<u8>,
    options: FsckOptions,
    retention: Retention,
    report: FsckReport,
) -> bool {
    let shallow = commit::raw_ids(retention.shallow@).to_set();
    let size = options.max_object_size as nat;
    let kept = report.kept().to_set();
    &&& is_closed(files, git, options, retention, kept)
    &&& forall|set: Set<Seq<u8>>| #[trigger]
        is_closed(files, git, options, retention, set) ==> kept.subset_of(set)
    &&& forall|id: Seq<u8>| !(report.kept().contains(id) && #[trigger] report.lost().contains(id))
    &&& report.objects == report.kept().len() + report.lost().len()
    &&& report.reachable == report.kept().len()
    &&& report.objects == report.blobs + report.trees + report.commits + report.tags
    &&& forall|id: Seq<u8>| #[trigger]
        report.loose_ends().contains(id) <==> report.lost().contains(id) && !exists|
            from: Seq<u8>,
            kind: ObjectKind,
        |
            is_found(report, from) && #[trigger] names(files, git, size, shallow, from, id, kind)
    &&& forall|from: Seq<u8>, to: Seq<u8>, kind: ObjectKind| #[trigger]
        names(files, git, size, shallow, from, to, kind) && is_found(report, from) ==> is_found(
            report,
            to,
        ) && (storage::stored_object(files, git, to, size) matches Ok((found, _)) && found == kind)
}

/// What is known of each object is what is stored.
proof fn lemma_facts(
    files: memory::Tree,
    git: Seq<u8>,
    ids: Seq<Seq<u8>>,
    shallow: Set<Seq<u8>>,
    size: nat,
    n: int,
)
    requires
        0 <= n <= ids.len(),
        fsck::facts_of(files, git, ids, shallow, size, n) is Ok,
    ensures
        ({
            let facts = fsck::facts_of(files, git, ids, shallow, size, n)->Ok_0;
            &&& facts.len() == n
            &&& forall|i: int|
                0 <= i < n ==> (storage::stored_object(files, git, #[trigger] ids[i], size) matches Ok((
                    kind,
                    data,
                )) && kind == facts[i].kind && fsck::links_of(
                    kind,
                    data,
                    shallow.contains(ids[i]),
                ) == Ok::<Seq<LinkModel>, Error>(facts[i].links))
        }),
    decreases n,
{
    if n > 0 {
        lemma_facts(files, git, ids, shallow, size, n - 1);
        let less = fsck::facts_of(files, git, ids, shallow, size, n - 1)->Ok_0;
        let facts = fsck::facts_of(files, git, ids, shallow, size, n)->Ok_0;
        assert forall|i: int| 0 <= i < n - 1 implies facts[i] == less[i] by {}
    }
}

/// An object has a link just where it names another.
proof fn lemma_names(
    files: memory::Tree,
    git: Seq<u8>,
    size: nat,
    shallow: Set<Seq<u8>>,
    from: Seq<u8>,
    kind: ObjectKind,
    data: Seq<u8>,
    links: Seq<LinkModel>,
)
    requires
        storage::stored_object(files, git, from, size) == Ok::<(ObjectKind, Seq<u8>), Refusal>(
            (kind, data),
        ),
        fsck::links_of(kind, data, shallow.contains(from)) == Ok::<Seq<LinkModel>, Error>(links),
    ensures
        forall|to: Seq<u8>, k: ObjectKind| #[trigger]
            names(files, git, size, shallow, from, to, k) <==> links_to(links, to, k),
{
    let cut = shallow.contains(from);
    match kind {
        ObjectKind::Commit => {
            lemma_commit_links(data, cut);
            let m = commit::commit_from(data)->Ok_0;
            assert forall|to: Seq<u8>, k: ObjectKind| #[trigger]
                names(files, git, size, shallow, from, to, k) <==> links_to(links, to, k) by {
                if !cut && m.parents.contains(to) && k is Commit {
                    let i = m.parents.index_of(to);
                    assert(links_to(links, m.parents[i], ObjectKind::Commit));
                }
            }
        },
        ObjectKind::Tree => {
            lemma_tree_links(data, cut);
            let list = tree::items_from(data, 0)->Ok_0;
            assert forall|to: Seq<u8>, k: ObjectKind| #[trigger]
                names(files, git, size, shallow, from, to, k) <==> links_to(links, to, k) by {
                if links_to(links, to, k) {
                    let j = choose|j: int|
                        0 <= j < links.len() && (#[trigger] links[j]).id == to
                            && links[j].expected == k;
                    let i = choose|i: int|
                        0 <= i < list.len() && !((#[trigger] list[i]).mode is Gitlink)
                            && list[i].id == links[j].id && kind_below(list[i].mode)
                            == links[j].expected;
                    assert(list[i].id == to);
                }
            }
        },
        _ => {
            lemma_tag_and_blob_links(data, cut);
        },
    }
}

proof fn lemma_count(facts: Seq<FactModel>, n: int)
    requires
        0 <= n <= facts.len(),
    ensures
        n == fsck::count_of(facts, ObjectKind::Blob, n) + fsck::count_of(
            facts,
            ObjectKind::Tree,
            n,
        ) + fsck::count_of(facts, ObjectKind::Commit, n) + fsck::count_of(
            facts,
            ObjectKind::Tag,
            n,
        ),
    decreases n,
{
    if n > 0 {
        lemma_count(facts, n - 1);
    }
}

proof fn lemma_indexed(list: Seq<index::EntryModel>, n: int, id: Seq<u8>)
    requires
        0 <= n <= list.len(),
    ensures
        fsck::indexed(list, n).contains(id) <==> exists|i: int|
            0 <= i < n && (#[trigger] list[i]).mode != 0o160000 && list[i].id == id,
    decreases n,
{
    if n > 0 {
        lemma_indexed(list, n - 1, id);
        let less = fsck::indexed(list, n - 1);
        let more = fsck::indexed(list, n);
        if less.contains(id) {
            let k = less.index_of(id);
            assert(more[k] == id);
        }
        if list[n - 1].mode != 0o160000 && list[n - 1].id == id {
            assert(more[less.len() as int] == id);
        }
        if more.contains(id) {
            let k = more.index_of(id);
            if k < less.len() {
                assert(less[k] == id);
            }
        }
    }
}

proof fn lemma_joined<A>(a: Seq<A>, b: Seq<A>, x: A)
    ensures
        (a + b).contains(x) <==> a.contains(x) || b.contains(x),
{
    if a.contains(x) {
        let k = a.index_of(x);
        assert((a + b)[k] == x);
    }
    if b.contains(x) {
        let k = b.index_of(x);
        assert((a + b)[a.len() + k] == x);
    }
    if (a + b).contains(x) {
        let k = (a + b).index_of(x);
        if k < a.len() {
            assert(a[k] == x);
        } else {
            assert(b[k - a.len()] == x);
        }
    }
}

proof fn lemma_roots(
    files: memory::Tree,
    git: Seq<u8>,
    options: FsckOptions,
    retention: Retention,
    roots: Seq<Seq<u8>>,
    id: Seq<u8>,
)
    requires
        fsck::roots_of(files, git, options, retention) == Ok::<Seq<Seq<u8>>, Refusal>(roots),
    ensures
        roots.contains(id) <==> is_root(files, git, options, retention, id),
{
    let a = commit::raw_ids(options.additional_roots@);
    let b = commit::raw_ids(retention.references@);
    let logged = if options.include_reflogs {
        commit::raw_ids(retention.reflogs@)
    } else {
        Seq::empty()
    };
    lemma_joined(a, b, id);
    if options.include_index {
        let model = fsck::index_of(files, git)->Ok_0;
        let all = fsck::indexed(model.entries, model.entries.len() as int);
        lemma_indexed(model.entries, model.entries.len() as int, id);
        lemma_joined(a + b, all, id);
        lemma_joined(a + b + all, logged, id);
    } else {
        lemma_joined(a + b, logged, id);
    }
}

proof fn lemma_null(id: Seq<u8>)
    ensures
        is_nobody(id) <==> id == fsck::null_id(),
{
    if is_nobody(id) {
        assert(id =~= fsck::null_id());
    }
}

proof fn lemma_filtered<A>(list: Seq<A>, keep: spec_fn(A) -> bool, x: A)
    ensures
        list.filter(keep).contains(x) <==> list.contains(x) && keep(x),
{
    if list.filter(keep).contains(x) {
        let k = list.filter(keep).index_of(x);
        list.lemma_filter_contains_rev(keep, x);
        list.lemma_filter_pred(keep, k);
    }
    if list.contains(x) && keep(x) {
        let k = list.index_of(x);
        list.lemma_filter_contains(keep, k);
    }
}

proof fn lemma_parted<A>(list: Seq<A>, keep: spec_fn(A) -> bool, drop: spec_fn(A) -> bool)
    requires
        forall|x: A| #[trigger] keep(x) == !drop(x),
    ensures
        list.filter(keep).len() + list.filter(drop).len() == list.len(),
    decreases list.len(),
{
    reveal(Seq::filter);
    if list.len() > 0 {
        lemma_parted(list.drop_last(), keep, drop);
        assert(keep(list.last()) == !drop(list.last()));
    }
}

/// What a chain of links reaches from the roots, a closed set holds.
proof fn lemma_chain_closed(
    files: memory::Tree,
    git: Seq<u8>,
    options: FsckOptions,
    retention: Retention,
    ids: Seq<Seq<u8>>,
    facts: Seq<FactModel>,
    roots: Seq<Seq<u8>>,
    chain: Seq<Seq<u8>>,
    set: Set<Seq<u8>>,
    n: int,
)
    requires
        0 <= n < chain.len(),
        fsck::is_chain(ids, facts, roots, chain),
        is_closed(files, git, options, retention, set),
        fsck::roots_of(files, git, options, retention) == Ok::<Seq<Seq<u8>>, Refusal>(roots),
        fsck::facts_of(
            files,
            git,
            ids,
            commit::raw_ids(retention.shallow@).to_set(),
            options.max_object_size as nat,
            ids.len() as int,
        ) == Ok::<Seq<FactModel>, Refusal>(facts),
    ensures
        set.contains(chain[n]),
    decreases n,
{
    let shallow = commit::raw_ids(retention.shallow@).to_set();
    let size = options.max_object_size as nat;
    lemma_null(chain[n]);
    assert(chain[n] != fsck::null_id());
    if n == 0 {
        lemma_roots(files, git, options, retention, roots, chain[0]);
        assert(is_root(files, git, options, retention, chain[0]));
    } else {
        lemma_chain_closed(
            files,
            git,
            options,
            retention,
            ids,
            facts,
            roots,
            chain,
            set,
            n - 1,
        );
        let from = chain[n - 1];
        assert(ids.contains(from));
        let i = ids.index_of(from);
        assert(fsck::names_id(facts[ids.index_of(chain[n - 1])], chain[n]));
        let k = choose|k: int|
            0 <= k < facts[i].links.len() && (#[trigger] facts[i].links[k]).id == chain[n];
        lemma_facts(files, git, ids, shallow, size, ids.len() as int);
        assert(ids[i] == from);
        let (kind, data) = storage::stored_object(files, git, ids[i], size)->Ok_0;
        lemma_names(files, git, size, shallow, from, kind, data, facts[i].links);
        assert(links_to(facts[i].links, chain[n], facts[i].links[k].expected));
        assert(names(files, git, size, shallow, from, chain[n], facts[i].links[k].expected));
    }
}

/// A verification that succeeds tells what is kept, what is lost and what
/// dangles.
#[verifier::spinoff_prover]
#[verifier::rlimit(60)]
pub proof fn lemma_verification_tells(
    files: memory::Tree,
    git: Seq<u8>,
    options: FsckOptions,
    retention: Retention,
    r: Result<FsckReport>,
)
    requires
        fsck::verified(files, git, options, retention, r),
        r is Ok,
    ensures
        tells(files, git, options, retention, r->Ok_0),
{
    reveal(tells);
    let report = r->Ok_0;
    let size = options.max_object_size as nat;
    let shallow = commit::raw_ids(retention.shallow@).to_set();
    let all = fsck::all_ids(files, git, size, options.max_objects as nat)->Ok_0.0;
    let ids = id_set::sorted(all);
    let facts = fsck::facts_of(files, git, ids, shallow, size, ids.len() as int)->Ok_0;
    let roots = fsck::roots_of(files, git, options, retention)->Ok_0;
    let keep = |id: Seq<u8>| fsck::is_kept(ids, facts, roots, id);
    let drop = |id: Seq<u8>| !fsck::is_kept(ids, facts, roots, id);
    let lone = |id: Seq<u8>| !fsck::is_named(facts, id);
    let kept = report.kept();
    let lost = report.lost();
    assert(kept == ids.filter(keep));
    assert(lost == ids.filter(drop));
    assert(report.loose_ends() == lost.filter(lone));
    lemma_facts(files, git, ids, shallow, size, ids.len() as int);
    lemma_count(facts, facts.len() as int);
    lemma_parted(ids, keep, drop);
    assert forall|id: Seq<u8>| #[trigger] kept.contains(id) <==> ids.contains(id) && keep(id) by {
        lemma_filtered(ids, keep, id);
    }
    assert forall|id: Seq<u8>| #[trigger] lost.contains(id) <==> ids.contains(id) && drop(id) by {
        lemma_filtered(ids, drop, id);
    }
    assert forall|id: Seq<u8>| is_found(report, id) <==> #[trigger] ids.contains(id) by {
        assert(kept.contains(id) <==> ids.contains(id) && keep(id));
        assert(lost.contains(id) <==> ids.contains(id) && drop(id));
    }
    lemma_named_are_found(files, git, options, retention, ids, facts);
    lemma_kept_is_closed(files, git, options, retention, ids, facts, roots, kept.to_set());
    assert forall|set: Set<Seq<u8>>| #[trigger]
        is_closed(files, git, options, retention, set) implies kept.to_set().subset_of(set) by {
        assert forall|id: Seq<u8>| kept.to_set().contains(id) implies set.contains(id) by {
            assert(kept.contains(id));
            assert(keep(id));
            let chain = choose|chain: Seq<Seq<u8>>| #[trigger]
                fsck::is_chain(ids, facts, roots, chain) && chain.last() == id;
            lemma_chain_closed(
                files,
                git,
                options,
                retention,
                ids,
                facts,
                roots,
                chain,
                set,
                chain.len() - 1,
            );
        }
    }
    assert forall|id: Seq<u8>| #[trigger] report.loose_ends().contains(id) <==> lost.contains(id)
        && !exists|from: Seq<u8>, kind: ObjectKind|
        is_found(report, from) && #[trigger] names(files, git, size, shallow, from, id, kind) by {
        lemma_filtered(lost, lone, id);
        lemma_is_named(files, git, size, shallow, ids, facts, id);
        if exists|from: Seq<u8>, kind: ObjectKind|
            is_found(report, from) && #[trigger] names(files, git, size, shallow, from, id, kind) {
            let (from, kind) = choose|from: Seq<u8>, kind: ObjectKind|
                is_found(report, from) && #[trigger] names(
                    files,
                    git,
                    size,
                    shallow,
                    from,
                    id,
                    kind,
                );
            assert(ids.contains(from));
            assert(fsck::is_named(facts, id));
        }
        if fsck::is_named(facts, id) {
            let (from, kind) = choose|from: Seq<u8>, kind: ObjectKind|
                ids.contains(from) && #[trigger] names(files, git, size, shallow, from, id, kind);
            assert(is_found(report, from));
        }
    }
    assert forall|from: Seq<u8>, to: Seq<u8>, kind: ObjectKind| #[trigger]
        names(files, git, size, shallow, from, to, kind) && is_found(report, from) implies is_found(
        report,
        to,
    ) && (storage::stored_object(files, git, to, size) matches Ok((found, _)) && found == kind) by {
        assert(ids.contains(from));
        assert(ids.contains(to));
    }
}

/// An object is named by a link just where a found object names it.
proof fn lemma_is_named(
    files: memory::Tree,
    git: Seq<u8>,
    size: nat,
    shallow: Set<Seq<u8>>,
    ids: Seq<Seq<u8>>,
    facts: Seq<FactModel>,
    id: Seq<u8>,
)
    requires
        fsck::facts_of(files, git, ids, shallow, size, ids.len() as int) == Ok::<
            Seq<FactModel>,
            Refusal,
        >(facts),
    ensures
        fsck::is_named(facts, id) <==> exists|from: Seq<u8>, kind: ObjectKind|
            ids.contains(from) && #[trigger] names(files, git, size, shallow, from, id, kind),
{
    lemma_facts(files, git, ids, shallow, size, ids.len() as int);
    if fsck::is_named(facts, id) {
        let i = choose|i: int| 0 <= i < facts.len() && fsck::names_id(#[trigger] facts[i], id);
        let k = choose|k: int|
            0 <= k < facts[i].links.len() && (#[trigger] facts[i].links[k]).id == id;
        let (kind, data) = storage::stored_object(files, git, ids[i], size)->Ok_0;
        lemma_names(files, git, size, shallow, ids[i], kind, data, facts[i].links);
        assert(links_to(facts[i].links, id, facts[i].links[k].expected));
        assert(ids.contains(ids[i]));
        assert(names(files, git, size, shallow, ids[i], id, facts[i].links[k].expected));
    }
    if exists|from: Seq<u8>, kind: ObjectKind|
        ids.contains(from) && #[trigger] names(files, git, size, shallow, from, id, kind) {
        let (from, kind) = choose|from: Seq<u8>, kind: ObjectKind|
            ids.contains(from) && #[trigger] names(files, git, size, shallow, from, id, kind);
        let i = ids.index_of(from);
        assert(ids[i] == from);
        let (found, data) = storage::stored_object(files, git, ids[i], size)->Ok_0;
        lemma_names(files, git, size, shallow, from, found, data, facts[i].links);
        assert(links_to(facts[i].links, id, kind));
        let k = choose|k: int|
            0 <= k < facts[i].links.len() && (#[trigger] facts[i].links[k]).id == id
                && facts[i].links[k].expected == kind;
        assert(facts[i].links[k].id == id);
        assert(fsck::names_id(facts[i], id));
    }
}

/// Where no link is at fault, what a found object names was found, of the
/// kind that it should have.
proof fn lemma_named_are_found(
    files: memory::Tree,
    git: Seq<u8>,
    options: FsckOptions,
    retention: Retention,
    ids: Seq<Seq<u8>>,
    facts: Seq<FactModel>,
)
    requires
        fsck::facts_of(
            files,
            git,
            ids,
            commit::raw_ids(retention.shallow@).to_set(),
            options.max_object_size as nat,
            ids.len() as int,
        ) == Ok::<Seq<FactModel>, Refusal>(facts),
        fsck::all_links_fault(ids, facts, facts.len() as int) is None,
    ensures
        ({
            let shallow = commit::raw_ids(retention.shallow@).to_set();
            let size = options.max_object_size as nat;
            forall|from: Seq<u8>, to: Seq<u8>, kind: ObjectKind| #[trigger]
                names(files, git, size, shallow, from, to, kind) && ids.contains(from)
                    ==> ids.contains(to) && (storage::stored_object(files, git, to, size) matches Ok((
                    found,
                    _,
                )) && found == kind)
        }),
{
    let shallow = commit::raw_ids(retention.shallow@).to_set();
    let size = options.max_object_size as nat;
    lemma_facts(files, git, ids, shallow, size, ids.len() as int);
    assert forall|from: Seq<u8>, to: Seq<u8>, kind: ObjectKind| #[trigger]
        names(files, git, size, shallow, from, to, kind) && ids.contains(from) implies ids.contains(
        to,
    ) && (storage::stored_object(files, git, to, size) matches Ok((found, _)) && found == kind) by {
        let i = ids.index_of(from);
        assert(ids[i] == from);
        let (found, data) = storage::stored_object(files, git, ids[i], size)->Ok_0;
        lemma_names(files, git, size, shallow, from, found, data, facts[i].links);
        assert(links_to(facts[i].links, to, kind));
        let k = choose|k: int|
            0 <= k < facts[i].links.len() && (#[trigger] facts[i].links[k]).id == to
                && facts[i].links[k].expected == kind;
        fsck::lemma_all_links_sound(ids, facts, facts.len() as int, i, k);
        let j = ids.index_of(to);
        assert(ids[j] == to);
    }
}

/// What is kept is closed.
proof fn lemma_kept_is_closed(
    files: memory::Tree,
    git: Seq<u8>,
    options: FsckOptions,
    retention: Retention,
    ids: Seq<Seq<u8>>,
    facts: Seq<FactModel>,
    roots: Seq<Seq<u8>>,
    kept: Set<Seq<u8>>,
)
    requires
        fsck::facts_of(
            files,
            git,
            ids,
            commit::raw_ids(retention.shallow@).to_set(),
            options.max_object_size as nat,
            ids.len() as int,
        ) == Ok::<Seq<FactModel>, Refusal>(facts),
        fsck::all_links_fault(ids, facts, facts.len() as int) is None,
        fsck::roots_of(files, git, options, retention) == Ok::<Seq<Seq<u8>>, Refusal>(roots),
        !fsck::root_missing(ids, roots),
        forall|id: Seq<u8>| #[trigger]
            kept.contains(id) <==> ids.contains(id) && fsck::is_kept(ids, facts, roots, id),
    ensures
        is_closed(files, git, options, retention, kept),
{
    let shallow = commit::raw_ids(retention.shallow@).to_set();
    let size = options.max_object_size as nat;
    assert forall|id: Seq<u8>| #[trigger]
        is_root(files, git, options, retention, id) && !is_nobody(id) implies kept.contains(
        id,
    ) by {
        lemma_roots(files, git, options, retention, roots, id);
        lemma_null(id);
        let k = roots.index_of(id);
        assert(roots[k] == id);
        fsck::lemma_root_kept(ids, facts, roots, id);
    }
    lemma_named_are_found(files, git, options, retention, ids, facts);
    lemma_facts(files, git, ids, shallow, size, ids.len() as int);
    assert forall|from: Seq<u8>, to: Seq<u8>, kind: ObjectKind| #[trigger]
        names(files, git, size, shallow, from, to, kind) && kept.contains(from) && !is_nobody(
            to,
        ) implies kept.contains(to) by {
        lemma_null(to);
        let i = ids.index_of(from);
        assert(ids[i] == from);
        let (found, data) = storage::stored_object(files, git, ids[i], size)->Ok_0;
        lemma_names(files, git, size, shallow, from, found, data, facts[i].links);
        assert(links_to(facts[i].links, to, kind));
        let k = choose|k: int|
            0 <= k < facts[i].links.len() && (#[trigger] facts[i].links[k]).id == to
                && facts[i].links[k].expected == kind;
        assert(facts[i].links[k].id == to);
        assert(fsck::names_id(facts[i], to));
        fsck::lemma_next_kept(ids, facts, roots, from, to);
    }
}

// ---------------------------------------------------------------------------
// Which objects are looked at

/// Whether a file of a directory for loose objects is that of an object.
pub open spec fn is_file_of(fanout: Seq<u8>, name: Seq<u8>, id: Seq<u8>) -> bool {
    name.len() == 38 && object::all_hex(name) && object::unhex(fanout + name) == id
}

/// Whether a directory for loose objects holds a file of an object.
pub open spec fn holds_file(files: memory::Tree, objects: Seq<u8>, fanout: Seq<u8>, id: Seq<u8>) -> bool {
    &&& fanout.len() == 2 && object::all_hex(fanout)
    &&& storage::listed(files, repository::joined(objects, fanout)) matches Ok(list) && exists|k: int|
        0 <= k < list.len() && is_file_of(fanout, #[trigger] list[k], id)
}

/// Whether a pack that is named by its index is sound and names an object.
pub open spec fn pack_names(
    files: memory::Tree,
    git: Seq<u8>,
    name: Seq<u8>,
    id: Seq<u8>,
    size: nat,
) -> bool {
    &&& storage::has_extension(name, bytes::utf8("idx"@))
    &&& fsck::sound_pack(files, git, name, size) matches Ok(list) && exists|k: int|
        0 <= k < list.len() && (#[trigger] list[k]).id == id
}

proof fn lemma_files(
    fanout: Seq<u8>,
    names: Seq<Seq<u8>>,
    set: Set<Seq<u8>>,
    limit: nat,
    n: int,
    id: Seq<u8>,
)
    requires
        0 <= n <= names.len(),
        fsck::with_files(fanout, names, set, limit, n) is Ok,
    ensures
        fsck::with_files(fanout, names, set, limit, n)->Ok_0.contains(id) <==> set.contains(id)
            || exists|k: int| 0 <= k < n && is_file_of(fanout, #[trigger] names[k], id),
    decreases n,
{
    if n > 0 {
        lemma_files(fanout, names, set, limit, n - 1, id);
        if exists|k: int| 0 <= k < n && is_file_of(fanout, #[trigger] names[k], id) {
            let k = choose|k: int| 0 <= k < n && is_file_of(fanout, #[trigger] names[k], id);
            if k < n - 1 {
                assert(is_file_of(fanout, names[k], id));
            }
        }
        if is_file_of(fanout, names[n - 1], id) {
            assert(0 <= n - 1 < n);
        }
    }
}

proof fn lemma_loose(
    files: memory::Tree,
    objects: Seq<u8>,
    names: Seq<Seq<u8>>,
    limit: nat,
    n: int,
    id: Seq<u8>,
)
    requires
        0 <= n <= names.len(),
        fsck::loose_ids(files, objects, names, limit, n) is Ok,
    ensures
        fsck::loose_ids(files, objects, names, limit, n)->Ok_0.contains(id) <==> exists|k: int|
            0 <= k < n && holds_file(files, objects, #[trigger] names[k], id),
    decreases n,
{
    if n > 0 {
        lemma_loose(files, objects, names, limit, n - 1, id);
        let less = fsck::loose_ids(files, objects, names, limit, n - 1)->Ok_0;
        let more = fsck::loose_ids(files, objects, names, limit, n)->Ok_0;
        let name = names[n - 1];
        if name.len() == 2 && object::all_hex(name) {
            let list = storage::listed(files, repository::joined(objects, name))->Ok_0;
            lemma_files(name, list, less, limit, list.len() as int, id);
        }
        assert(more.contains(id) <==> less.contains(id) || holds_file(
            files,
            objects,
            names[n - 1],
            id,
        ));
        if less.contains(id) {
            let k = choose|k: int|
                0 <= k < n - 1 && holds_file(files, objects, #[trigger] names[k], id);
            assert(0 <= k < n && holds_file(files, objects, names[k], id));
        }
        if exists|k: int| 0 <= k < n && holds_file(files, objects, #[trigger] names[k], id) {
            let k = choose|k: int| 0 <= k < n && holds_file(files, objects, #[trigger] names[k], id);
            if k < n - 1 {
                assert(holds_file(files, objects, names[k], id));
            }
        }
    }
}

proof fn lemma_records(
    list: Seq<pack::PackRecord>,
    sets: (Set<Seq<u8>>, Set<Seq<u8>>),
    limit: nat,
    n: int,
    id: Seq<u8>,
)
    requires
        0 <= n <= list.len(),
        fsck::with_records(list, sets, limit, n) is Ok,
    ensures
        ({
            let (all, packed) = fsck::with_records(list, sets, limit, n)->Ok_0;
            let here = exists|k: int| 0 <= k < n && (#[trigger] list[k]).id == id;
            &&& all.contains(id) <==> sets.0.contains(id) || here
            &&& packed.contains(id) <==> sets.1.contains(id) || here
        }),
    decreases n,
{
    if n > 0 {
        lemma_records(list, sets, limit, n - 1, id);
        if exists|k: int| 0 <= k < n && (#[trigger] list[k]).id == id {
            let k = choose|k: int| 0 <= k < n && (#[trigger] list[k]).id == id;
            if k < n - 1 {
                assert(list[k].id == id);
            }
        }
        if list[n - 1].id == id {
            assert(0 <= n - 1 < n);
        }
    }
}

proof fn lemma_packs(
    files: memory::Tree,
    git: Seq<u8>,
    names: Seq<Seq<u8>>,
    loose: Set<Seq<u8>>,
    size: nat,
    limit: nat,
    n: int,
    id: Seq<u8>,
)
    requires
        0 <= n <= names.len(),
        fsck::with_packs(files, git, names, loose, size, limit, n) is Ok,
    ensures
        ({
            let (all, packed) = fsck::with_packs(files, git, names, loose, size, limit, n)->Ok_0;
            let here = exists|k: int|
                0 <= k < n && pack_names(files, git, #[trigger] names[k], id, size);
            &&& all.contains(id) <==> loose.contains(id) || here
            &&& packed.contains(id) <==> here
        }),
    decreases n,
{
    if n > 0 {
        lemma_packs(files, git, names, loose, size, limit, n - 1, id);
        let name = names[n - 1];
        let sets = fsck::with_packs(files, git, names, loose, size, limit, n - 1)->Ok_0;
        let more = fsck::with_packs(files, git, names, loose, size, limit, n)->Ok_0;
        if storage::has_extension(name, bytes::utf8("idx"@)) {
            let list = fsck::sound_pack(files, git, name, size)->Ok_0;
            lemma_records(list, sets, limit, list.len() as int, id);
        }
        let last = pack_names(files, git, names[n - 1], id, size);
        assert(more.0.contains(id) <==> sets.0.contains(id) || last);
        assert(more.1.contains(id) <==> sets.1.contains(id) || last);
        if sets.1.contains(id) {
            let k = choose|k: int|
                0 <= k < n - 1 && pack_names(files, git, #[trigger] names[k], id, size);
            assert(0 <= k < n && pack_names(files, git, names[k], id, size));
        }
        if exists|k: int| 0 <= k < n && pack_names(files, git, #[trigger] names[k], id, size) {
            let k = choose|k: int|
                0 <= k < n && pack_names(files, git, #[trigger] names[k], id, size);
            if k < n - 1 {
                assert(0 <= k < n - 1 && pack_names(files, git, names[k], id, size));
            }
        }
    }
}

/// A verification looks at every object of the repository: at each that has a
/// file of its own, and at each that a pack names. Those of the packs are told
/// apart.
pub proof fn lemma_every_object_is_looked_at(
    files: memory::Tree,
    git: Seq<u8>,
    size: nat,
    limit: nat,
    id: Seq<u8>,
)
    requires
        fsck::all_ids(files, git, size, limit) is Ok,
    ensures
        ({
            let (all, packed) = fsck::all_ids(files, git, size, limit)->Ok_0;
            let objects = repository::joined(git, bytes::utf8("objects"@));
            let tops = storage::listed(files, objects)->Ok_0;
            let packs = storage::listed(files, repository::joined(git, storage::pack_directory()));
            let loose = exists|k: int|
                0 <= k < tops.len() && holds_file(files, objects, #[trigger] tops[k], id);
            let named = packs is Ok && exists|k: int|
                0 <= k < packs->Ok_0.len() && pack_names(
                    files,
                    git,
                    #[trigger] packs->Ok_0[k],
                    id,
                    size,
                );
            &&& storage::listed(files, objects) is Ok
            &&& all.contains(id) <==> loose || named
            &&& packed.contains(id) <==> named
        }),
{
    let objects = repository::joined(git, bytes::utf8("objects"@));
    let tops = storage::listed(files, objects)->Ok_0;
    lemma_loose(files, objects, tops, limit, tops.len() as int, id);
    let loose = fsck::loose_ids(files, objects, tops, limit, tops.len() as int)->Ok_0;
    if let Ok(packs) = storage::listed(files, repository::joined(git, storage::pack_directory())) {
        lemma_packs(files, git, packs, loose, size, limit, packs.len() as int, id);
    }
}

} // verus!
