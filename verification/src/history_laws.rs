//! What holds of merges and replays of commits, from the first step to the
//! last, and of resets.

use vstd::prelude::*;

use crate::bytes;
use crate::commit;
use crate::commit::{CommitModel, SignatureModel};
use crate::flat_tree::ConflictModel;
use crate::fs::memory;
use crate::fs::Refusal;
use crate::ls_tree;
use crate::merge;
use crate::merge::{
    FastForwardMode, MergeFacts, MergeOptions, MergeResult, ReplayKind, ReplayOptions, StepModel,
};
use crate::object;
use crate::object::{ObjectId, ObjectKind};
use crate::operations;
use crate::operations::{Head, HeadLog, ResetMode, ResetPlan};
use crate::repository;
use crate::staging;
use crate::Result;

verus! {

// ---------------------------------------------------------------------------
// The first step

/// Whether a merge may move the head along without a commit of its own.
pub open spec fn may_move(facts: MergeFacts, options: MergeOptions) -> bool {
    facts.ours_is_ancestor && !(options.fast_forward is Never)
}

/// A merge of what the head holds already does nothing; one of what only goes
/// on from the head moves it there, unless a commit is asked for; every other
/// merges trees, which needs a clean working tree and a common ancestor, and
/// is refused where only a move is allowed.
pub proof fn lemma_first_step(
    files: memory::Tree,
    git: Seq<u8>,
    has_work_tree: bool,
    facts: MergeFacts,
    target: Seq<u8>,
    options: MergeOptions,
)
    ensures
        ({
            let size = options.max_object_size as nat;
            let step = merge::merge_step(files, git, has_work_tree, facts, target, options);
            let busy = files.contains_key(repository::joined(git, bytes::utf8("MERGE_HEAD"@)));
            let known = merge::stored_commit(files, git, facts.ours@, size) is Ok
                && merge::stored_commit(files, git, target, size) is Ok;
            let can_merge = facts.clean && facts.bases@.len() > 0 && !(options.fast_forward is Only);
            &&& step matches Ok(step) ==> {
                &&& has_work_tree && !busy && known
                &&& step is UpToDate <==> facts.target_is_ancestor
                &&& step is FastForward <==> !facts.target_is_ancestor && may_move(facts, options)
                &&& step is ThreeWay ==> can_merge
                &&& step matches StepModel::UpToDate(id) ==> id == facts.ours@
                &&& step matches StepModel::FastForward(from, to, tree) ==> from == facts.ours@ && to
                    == target && merge::stored_commit(files, git, target, size)->Ok_0.tree == tree
            }
            &&& has_work_tree && !busy && known && !options.message@.contains(0) && (
            facts.target_is_ancestor || may_move(facts, options) || can_merge) ==> step is Ok
        }),
{
}

// ---------------------------------------------------------------------------
// Commits that are made

/// One parent.
pub open spec fn one(parent: Seq<u8>) -> Seq<Seq<u8>> {
    seq![parent]
}

/// Two parents in their order.
pub open spec fn two(first: Seq<u8>, second: Seq<u8>) -> Seq<Seq<u8>> {
    seq![first, second]
}

/// Whether an identifier is that of a commit with a tree, some parents, a
/// message, an author and a committer.
#[verifier::opaque]
pub open spec fn is_commit(
    id: Seq<u8>,
    tree: Seq<u8>,
    parents: Seq<Seq<u8>>,
    message: Seq<u8>,
    author: SignatureModel,
    committer: SignatureModel,
) -> bool {
    exists|model: CommitModel| #[trigger]
        object::object_id(ObjectKind::Commit, commit::commit_text(model)) == id && model.tree == tree
            && model.parents == parents && model.message == message && model.author == author
            && model.committer == committer
}

/// Whether one of some conflicts is about a path.
pub open spec fn touch(conflicts: Seq<ConflictModel>, p: Seq<u8>) -> bool {
    exists|i: int| 0 <= i < conflicts.len() && #[trigger] staging::is_about(conflicts[i], p)
}

proof fn lemma_conflicted(conflicts: Seq<ConflictModel>)
    ensures
        forall|p: Seq<u8>| #[trigger]
            merge::conflicted_paths(conflicts).contains(p) <==> touch(conflicts, p),
        merge::conflicted_paths(conflicts).len() > 0 <==> exists|p: Seq<u8>| #[trigger]
            touch(conflicts, p),
{
    staging::lemma_conflict_paths(conflicts);
    let list = merge::conflicted_paths(conflicts);
    assert forall|p: Seq<u8>| #[trigger] list.contains(p) <==> touch(conflicts, p) by {}
    if list.len() > 0 {
        assert(list.contains(list[0]));
        assert(touch(conflicts, list[0]));
    }
    if exists|p: Seq<u8>| #[trigger] touch(conflicts, p) {
        let p = choose|p: Seq<u8>| #[trigger] touch(conflicts, p);
        assert(list.contains(p));
    }
}

/// A finished merge is a commit of the merged tree whose first parent is the
/// old head and whose second is the target. The head moves from the one to
/// the other. With conflicts there is none, and they are told of.
#[verifier::spinoff_prover]
#[verifier::rlimit(60)]
pub proof fn lemma_merge_joins(
    before: memory::Tree,
    after: memory::Tree,
    git: Seq<u8>,
    ours: Seq<u8>,
    target: Seq<u8>,
    tree: ObjectId,
    conflicts: Seq<ConflictModel>,
    options: MergeOptions,
    committer: SignatureModel,
    r: Result<(MergeResult, Option<HeadLog>)>,
)
    requires
        merge::merge_ends(
            before,
            after,
            git,
            ours,
            target,
            tree,
            conflicts,
            options,
            committer,
            r,
        ),
        r is Ok,
    ensures
        ({
            let (result, moved) = r->Ok_0;
            let clean = forall|p: Seq<u8>| !#[trigger] touch(conflicts, p);
            &&& result is Conflicted <==> !clean
            &&& result is Merged <==> clean && !options.no_commit
            &&& result is Prepared <==> clean && options.no_commit
            &&& result matches MergeResult::Merged { commit: id, .. } ==> is_commit(
                id@,
                tree@,
                two(ours, target),
                options.message@,
                committer,
                committer,
            ) && moved is Some && moved->0@.before == ours && moved->0@.after == id@
            &&& result matches MergeResult::Prepared { tree: made } ==> made@ == tree@
            &&& !(result is Merged) ==> moved is None
            &&& result matches MergeResult::Conflicted { paths } ==> forall|p: Seq<u8>|
                #[trigger] bytes::deep(paths@).contains(p) <==> touch(conflicts, p)
        }),
{
    lemma_conflicted(conflicts);
    let model = merge::merge_commit(ours, target, tree@, options.message@, committer);
    lemma_is_commit(model);
    assert(model.parents =~= two(ours, target));
}

/// Whether an operation in progress may go on from a head: the head is the
/// noted one, and the index holds no conflict.
#[verifier::opaque]
pub open spec fn may_go_on(files: memory::Tree, git: Seq<u8>, head: Seq<u8>) -> bool {
    &&& merge::orig_head(files, git) == Ok::<Seq<u8>, Refusal>(head)
    &&& crate::fsck::index_of(files, git) matches Ok(index) && forall|i: int|
        0 <= i < index.entries.len() ==> (#[trigger] index.entries[i]).stage == 0
}

proof fn lemma_blocked(
    files: memory::Tree,
    git: Seq<u8>,
    head: Seq<u8>,
    moved: crate::Error,
    conflicts: crate::Error,
)
    ensures
        merge::blocked(files, git, head, moved, conflicts) is None <==> may_go_on(files, git, head),
{
    reveal(may_go_on);
}

#[verifier::spinoff_prover]
#[verifier::rlimit(60)]
proof fn lemma_merge_goes_on(
    files: memory::Tree,
    git: Seq<u8>,
    head: Seq<u8>,
    message: Option<Seq<u8>>,
    committer: SignatureModel,
) -> (text: Seq<u8>)
    requires
        merge::continued_merge(files, git, head, message, committer).1 is Ok,
    ensures
        may_go_on(files, git, head),
        merge::merge_head(files, git) is Ok,
        merge::settled(files, git).1 is Ok,
        message is Some ==> text == message->0,
        merge::continued_merge(files, git, head, message, committer).1->Ok_0 == merge::commit_id(
            merge::merge_commit(
                head,
                merge::merge_head(files, git)->Ok_0,
                merge::settled(files, git).1->Ok_0,
                text,
                committer,
            ),
        ),
{
    lemma_blocked(
        files,
        git,
        head,
        crate::Error::ReferenceConflict("HEAD changed during the merge"),
        crate::Error::InvalidRepository("cannot continue with unresolved merge entries"),
    );
    merge::merge_message(merge::settled(files, git).0, git, message)->Ok_0
}

/// Going on with a merge makes a commit of the old head and the noted target,
/// with the tree of the index. It does so only where the head is the noted one
/// and the index holds no conflict.
#[verifier::spinoff_prover]
#[verifier::rlimit(60)]
pub proof fn lemma_going_on_joins(
    files: memory::Tree,
    git: Seq<u8>,
    head: Seq<u8>,
    message: Option<Seq<u8>>,
    committer: SignatureModel,
) -> (text: Seq<u8>)
    requires
        merge::continued_merge(files, git, head, message, committer).1 is Ok,
    ensures
        may_go_on(files, git, head),
        merge::merge_head(files, git) is Ok,
        merge::settled(files, git).1 is Ok,
        message is Some ==> text == message->0,
        is_commit(
            merge::continued_merge(files, git, head, message, committer).1->Ok_0,
            merge::settled(files, git).1->Ok_0,
            two(head, merge::merge_head(files, git)->Ok_0),
            text,
            committer,
            committer,
        ),
{
    let text = lemma_merge_goes_on(files, git, head, message, committer);
    lemma_merge_commit(
        head,
        merge::merge_head(files, git)->Ok_0,
        merge::settled(files, git).1->Ok_0,
        text,
        committer,
    );
    text
}

proof fn lemma_merge_commit(
    ours: Seq<u8>,
    target: Seq<u8>,
    tree: Seq<u8>,
    text: Seq<u8>,
    committer: SignatureModel,
)
    ensures
        is_commit(
            merge::commit_id(merge::merge_commit(ours, target, tree, text, committer)),
            tree,
            two(ours, target),
            text,
            committer,
            committer,
        ),
{
    let model = merge::merge_commit(ours, target, tree, text, committer);
    lemma_is_commit(model);
    assert(model.parents =~= two(ours, target));
}

proof fn lemma_is_commit(model: CommitModel)
    ensures
        is_commit(
            merge::commit_id(model),
            model.tree,
            model.parents,
            model.message,
            model.author,
            model.committer,
        ),
{
    reveal(is_commit);
    assert(object::object_id(ObjectKind::Commit, commit::commit_text(model))
        == merge::commit_id(model));
}

// ---------------------------------------------------------------------------
// Giving up

proof fn lemma_joined_apart(git: Seq<u8>, a: Seq<u8>, b: Seq<u8>)
    requires
        repository::joined(git, a) == repository::joined(git, b),
    ensures
        a == b,
{
    if git.len() > 0 {
        let p = repository::joined(git, a);
        let q = repository::joined(git, b);
        assert(p.skip(git.len() as int + 1) =~= a);
        assert(q.skip(git.len() as int + 1) =~= b);
    }
}

proof fn lemma_replaced(files: memory::Tree, p: Seq<u8>, data: Seq<u8>, q: Seq<u8>)
    requires
        repository::replaced(files, p, data).1 is None,
    ensures
        memory::contents(repository::replaced(files, p, data).0, p) == Ok::<
            Seq<u8>,
            crate::fs::Fault,
        >(data),
        q != p && files.contains_key(q) ==> memory::contents(
            repository::replaced(files, p, data).0,
            q,
        ) == memory::contents(files, q),
{
    memory::lemma_directories_keep(files, memory::parent_of(p), 0);
}

proof fn lemma_note_names_differ()
    ensures
        bytes::utf8("ORIG_HEAD"@) != bytes::utf8("MERGE_HEAD"@),
        bytes::utf8("ORIG_HEAD"@) != bytes::utf8("MERGE_MSG"@),
        bytes::utf8("MERGE_HEAD"@) != bytes::utf8("MERGE_MSG"@),
        bytes::utf8("CHERRY_PICK_HEAD"@) != bytes::utf8("MERGE_MSG"@),
        bytes::utf8("REVERT_HEAD"@) != bytes::utf8("MERGE_MSG"@),
        bytes::utf8("ORIG_HEAD"@) != bytes::utf8("CHERRY_PICK_HEAD"@),
        bytes::utf8("ORIG_HEAD"@) != bytes::utf8("REVERT_HEAD"@),
{
    reveal_strlit("ORIG_HEAD");
    reveal_strlit("MERGE_HEAD");
    reveal_strlit("MERGE_MSG");
    reveal_strlit("CHERRY_PICK_HEAD");
    reveal_strlit("REVERT_HEAD");
    bytes::lemma_ascii("ORIG_HEAD"@);
    bytes::lemma_ascii("MERGE_HEAD"@);
    bytes::lemma_ascii("MERGE_MSG"@);
    bytes::lemma_ascii("CHERRY_PICK_HEAD"@);
    bytes::lemma_ascii("REVERT_HEAD"@);
    assert(bytes::utf8("ORIG_HEAD"@).len() == 9);
    assert(bytes::utf8("MERGE_HEAD"@).len() == 10);
    assert(bytes::utf8("MERGE_MSG"@).len() == 9);
    assert(bytes::utf8("CHERRY_PICK_HEAD"@).len() == 16);
    assert(bytes::utf8("REVERT_HEAD"@).len() == 11);
    assert(bytes::utf8("ORIG_HEAD"@)[0] == 'O' as u8);
    assert(bytes::utf8("MERGE_MSG"@)[0] == 'M' as u8);
}

proof fn lemma_three_notes(files: memory::Tree, git: Seq<u8>, list: Seq<(Seq<u8>, Seq<u8>)>)
    requires
        list.len() == 3,
        list[0].0 != list[1].0,
        list[0].0 != list[2].0,
        list[1].0 != list[2].0,
        merge::noted(files, git, list, 3).1 is None,
    ensures
        forall|i: int|
            0 <= i < 3 ==> memory::contents(
                merge::noted(files, git, list, 3).0,
                repository::joined(git, (#[trigger] list[i]).0),
            ) == Ok::<Seq<u8>, crate::fs::Fault>(list[i].1),
{
    let one = merge::noted(files, git, list, 1).0;
    let two = merge::noted(files, git, list, 2).0;
    let three = merge::noted(files, git, list, 3).0;
    let p0 = repository::joined(git, list[0].0);
    let p1 = repository::joined(git, list[1].0);
    let p2 = repository::joined(git, list[2].0);
    if p0 == p1 {
        lemma_joined_apart(git, list[0].0, list[1].0);
    }
    if p0 == p2 {
        lemma_joined_apart(git, list[0].0, list[2].0);
    }
    if p1 == p2 {
        lemma_joined_apart(git, list[1].0, list[2].0);
    }
    assert(merge::noted(files, git, list, 2).1 is None);
    assert(merge::noted(files, git, list, 1).1 is None);
    assert(merge::noted(files, git, list, 0) == (files, None::<Refusal>));
    lemma_replaced(files, p0, list[0].1, p0);
    lemma_replaced(one, p1, list[1].1, p0);
    assert(one.contains_key(p0));
    lemma_replaced(two, p2, list[2].1, p0);
    assert(two.contains_key(p0));
    lemma_replaced(two, p2, list[2].1, p1);
    assert(two.contains_key(p1));
    assert forall|i: int| 0 <= i < 3 implies memory::contents(
        three,
        repository::joined(git, (#[trigger] list[i]).0),
    ) == Ok::<Seq<u8>, crate::fs::Fault>(list[i].1) by {
        assert(i == 0 || i == 1 || i == 2);
    }
}

proof fn lemma_id_reads_back(id: ObjectId)
    ensures
        crate::worktree_path::line_of(merge::id_line(id@)) == object::hex_of(id@),
        vstd::utf8::valid_utf8(object::hex_of(id@)),
        object::id_of_hex(object::hex_of(id@)) == Some(id@),
{
    object::lemma_hex_reads_back(id);
    object::lemma_hex_is_text(id@);
    let line = merge::id_line(id@);
    assert(line.last() == 10);
    assert(line.drop_last() =~= object::hex_of(id@));
}

/// A merge that waits for its conflicts to be settled, or for a commit, notes
/// the old head, the target and the message as they are. So giving it up leads
/// back to the old head, and going on is not kept by the head.
#[verifier::spinoff_prover]
#[verifier::rlimit(60)]
pub proof fn lemma_waiting_merge_is_noted(
    before: memory::Tree,
    after: memory::Tree,
    git: Seq<u8>,
    ours: ObjectId,
    target: ObjectId,
    tree: ObjectId,
    conflicts: Seq<ConflictModel>,
    options: MergeOptions,
    committer: SignatureModel,
    r: Result<(MergeResult, Option<HeadLog>)>,
    size: nat,
    current: Seq<u8>,
)
    requires
        merge::merge_ends(
            before,
            after,
            git,
            ours@,
            target@,
            tree,
            conflicts,
            options,
            committer,
            r,
        ),
        r is Ok,
        !(r->Ok_0.0 is Merged),
    ensures
        merge::orig_head(after, git) == Ok::<Seq<u8>, Refusal>(ours@),
        merge::merge_head(after, git) == Ok::<Seq<u8>, Refusal>(target@),
        merge::merge_message(after, git, None) == Ok::<Seq<u8>, Refusal>(options.message@),
        merge::head_before(after, git, size) matches Ok((id, top)) ==> {
            let plan = merge::abort_plan(current, id, top);
            &&& plan.commit == ours@
            &&& merge::stored_commit(after, git, ours@, size)->Ok_0.tree == plan.tree
            &&& plan.moved is None <==> current == ours@
            &&& plan.moved matches Some(log) ==> log.before == current && log.after == ours@
        },
{
    lemma_merge_joins(
        before,
        after,
        git,
        ours@,
        target@,
        tree,
        conflicts,
        options,
        committer,
        r,
    );
    let notes = seq![
        (bytes::utf8("ORIG_HEAD"@), merge::id_line(ours@)),
        (bytes::utf8("MERGE_HEAD"@), merge::id_line(target@)),
        (bytes::utf8("MERGE_MSG"@), options.message@),
    ];
    lemma_note_names_differ();
    assert(merge::noted(before, git, notes, 3) == (after, None::<Refusal>));
    lemma_three_notes(before, git, notes);
    assert(notes[0].0 == bytes::utf8("ORIG_HEAD"@));
    assert(notes[1].0 == bytes::utf8("MERGE_HEAD"@));
    assert(notes[2].0 == bytes::utf8("MERGE_MSG"@));
    lemma_id_reads_back(ours);
    lemma_id_reads_back(target);
}

// ---------------------------------------------------------------------------
// Replays

/// Picking a commit merges what it changed since its parent into the current
/// tree, under its own author and message. Reverting it merges the same change
/// backwards: the commit and its parent change places.
pub proof fn lemma_revert_is_a_pick_backwards(
    files: memory::Tree,
    git: Seq<u8>,
    has_work_tree: bool,
    head: Seq<u8>,
    clean: bool,
    target: Seq<u8>,
    options: ReplayOptions,
    committer: SignatureModel,
)
    ensures
        ({
            let size = options.max_object_size as nat;
            let (after, pick) = merge::replay_plan(
                files,
                git,
                has_work_tree,
                head,
                clean,
                target,
                ReplayKind::CherryPick,
                options,
                committer,
            );
            let (reverted, revert) = merge::replay_plan(
                files,
                git,
                has_work_tree,
                head,
                clean,
                target,
                ReplayKind::Revert,
                options,
                committer,
            );
            &&& after == reverted && pick is Ok == revert is Ok
            &&& pick is Err ==> pick->Err_0 == revert->Err_0
            &&& pick is Ok ==> {
                let picked = merge::stored_commit(files, git, target, size)->Ok_0;
                let current = merge::stored_commit(files, git, head, size)->Ok_0;
                let (p, q) = (pick->Ok_0, revert->Ok_0);
                &&& has_work_tree && clean && !merge::busy(files, git)
                &&& merge::stored_commit(files, git, target, size) is Ok && merge::stored_commit(
                    files,
                    git,
                    head,
                    size,
                ) is Ok
                &&& p.theirs == picked.tree && p.ours == current.tree
                &&& q.base == p.theirs && q.theirs == p.base && q.ours == p.ours
                &&& p.author == picked.author && p.message == picked.message
                &&& q.author == committer
                &&& picked.parents.len() == 1 ==> options.mainline is None && merge::stored_commit(
                    files,
                    git,
                    picked.parents[0],
                    size,
                ) is Ok && merge::stored_commit(files, git, picked.parents[0], size)->Ok_0.tree
                    == p.base
                &&& picked.parents.len() > 1 ==> options.mainline is Some && 1
                    <= options.mainline->0 <= picked.parents.len() && merge::stored_commit(
                    files,
                    git,
                    picked.parents[options.mainline->0 - 1],
                    size,
                ) is Ok && merge::stored_commit(
                    files,
                    git,
                    picked.parents[options.mainline->0 - 1],
                    size,
                )->Ok_0.tree == p.base
            }
        }),
{
}

/// A finished replay is a commit of the merged tree on top of the head alone,
/// by the author of its plan. The head moves there. A replay with conflicts
/// notes the head and the commit that is replayed.
#[verifier::spinoff_prover]
#[verifier::rlimit(60)]
pub proof fn lemma_replay_goes_on_top(
    before: memory::Tree,
    after: memory::Tree,
    git: Seq<u8>,
    head: ObjectId,
    target: ObjectId,
    kind: ReplayKind,
    plan: merge::ReplayPlan,
    tree: ObjectId,
    conflicts: Seq<ConflictModel>,
    options: ReplayOptions,
    committer: SignatureModel,
    r: Result<(merge::ReplayResult, Option<HeadLog>)>,
)
    requires
        merge::replay_ends(
            before,
            after,
            git,
            head@,
            target@,
            kind,
            plan,
            tree,
            conflicts,
            options,
            committer,
            r,
        ),
        r is Ok,
    ensures
        ({
            let (result, moved) = r->Ok_0;
            let clean = forall|p: Seq<u8>| !#[trigger] touch(conflicts, p);
            &&& result is Conflicted <==> !clean
            &&& result is Committed <==> clean && !options.no_commit
            &&& result is Prepared ==> clean && options.no_commit && after == before
            &&& clean ==> options.allow_empty || tree@ != plan.ours@
            &&& result matches merge::ReplayResult::Committed { commit: id, .. } ==> is_commit(
                id@,
                tree@,
                one(head@),
                plan.message@,
                plan.author@,
                committer,
            ) && moved is Some && moved->0@.before == head@ && moved->0@.after == id@
            &&& !(result is Committed) ==> moved is None
            &&& result is Conflicted ==> merge::orig_head(after, git) == Ok::<Seq<u8>, Refusal>(
                head@,
            ) && merge::merge_message(after, git, None) == Ok::<Seq<u8>, Refusal>(plan.message@)
            &&& result is Conflicted && kind is CherryPick ==> merge::replay_head(after, git)
                == Ok::<(ReplayKind, Seq<u8>), Refusal>((ReplayKind::CherryPick, target@))
        }),
{
    lemma_conflicted(conflicts);
    if merge::conflicted_paths(conflicts).len() > 0 {
        let notes = merge::replay_files(head@, target@, kind, plan.message@);
        lemma_note_names_differ();
        lemma_three_notes(before, git, notes);
        assert(notes[0].0 == bytes::utf8("ORIG_HEAD"@));
        assert(notes[1].0 == merge::replay_note(kind));
        assert(notes[2].0 == bytes::utf8("MERGE_MSG"@));
        lemma_id_reads_back(head);
        lemma_id_reads_back(target);
    }
    let model = merge::replayed_commit(head@, tree@, plan.message@, plan.author@, committer);
    lemma_is_commit(model);
    assert(model.parents =~= one(head@));
}

/// Who a replayed commit is by: that of a picked one, or who reverts.
pub open spec fn author_of(
    kind: ReplayKind,
    picked: CommitModel,
    committer: SignatureModel,
) -> SignatureModel {
    if kind is CherryPick {
        picked.author
    } else {
        committer
    }
}

#[verifier::spinoff_prover]
#[verifier::rlimit(60)]
proof fn lemma_replay_goes_on(
    files: memory::Tree,
    git: Seq<u8>,
    head: Seq<u8>,
    size: nat,
    committer: SignatureModel,
) -> (text: Seq<u8>)
    requires
        merge::continued_replay(files, git, head, size, committer).1 is Ok,
    ensures
        may_go_on(files, git, head),
        merge::replay_head(files, git) is Ok,
        merge::settled(files, git).1 is Ok,
        picked_commit(files, git, size) is Ok,
        merge::continued_replay(files, git, head, size, committer).1->Ok_0.before == head,
        merge::continued_replay(files, git, head, size, committer).1->Ok_0.after
            == merge::commit_id(
            merge::replayed_commit(
                head,
                merge::settled(files, git).1->Ok_0,
                text,
                author_of(
                    merge::replay_head(files, git)->Ok_0.0,
                    picked_commit(files, git, size)->Ok_0,
                    committer,
                ),
                committer,
            ),
        ),
{
    lemma_blocked(
        files,
        git,
        head,
        crate::Error::ReferenceConflict("HEAD changed during commit replay"),
        crate::Error::InvalidRepository("cannot continue with unresolved replay entries"),
    );
    merge::merge_message(merge::settled(files, git).0, git, None)->Ok_0
}

/// The commit that a replay in progress replays, as it is read once the index
/// is written.
pub open spec fn picked_commit(files: memory::Tree, git: Seq<u8>, size: nat) -> core::result::Result<
    CommitModel,
    Refusal,
> {
    merge::stored_commit(
        merge::settled(files, git).0,
        git,
        merge::replay_head(files, git)->Ok_0.1,
        size,
    )
}

/// Going on with a replay makes a commit on top of the head alone, with the
/// tree of the index. That of a picked commit keeps its author.
#[verifier::spinoff_prover]
#[verifier::rlimit(60)]
pub proof fn lemma_going_on_replays(
    files: memory::Tree,
    git: Seq<u8>,
    head: Seq<u8>,
    size: nat,
    committer: SignatureModel,
) -> (text: Seq<u8>)
    requires
        merge::continued_replay(files, git, head, size, committer).1 is Ok,
    ensures
        may_go_on(files, git, head),
        merge::replay_head(files, git) is Ok,
        merge::settled(files, git).1 is Ok,
        picked_commit(files, git, size) is Ok,
        merge::continued_replay(files, git, head, size, committer).1->Ok_0.before == head,
        is_commit(
            merge::continued_replay(files, git, head, size, committer).1->Ok_0.after,
            merge::settled(files, git).1->Ok_0,
            one(head),
            text,
            author_of(
                merge::replay_head(files, git)->Ok_0.0,
                picked_commit(files, git, size)->Ok_0,
                committer,
            ),
            committer,
        ),
{
    let text = lemma_replay_goes_on(files, git, head, size, committer);
    lemma_replayed_commit(
        head,
        merge::settled(files, git).1->Ok_0,
        text,
        author_of(
            merge::replay_head(files, git)->Ok_0.0,
            picked_commit(files, git, size)->Ok_0,
            committer,
        ),
        committer,
    );
    text
}

proof fn lemma_replayed_commit(
    head: Seq<u8>,
    tree: Seq<u8>,
    text: Seq<u8>,
    author: SignatureModel,
    committer: SignatureModel,
)
    ensures
        is_commit(
            merge::commit_id(merge::replayed_commit(head, tree, text, author, committer)),
            tree,
            one(head),
            text,
            author,
            committer,
        ),
{
    let model = merge::replayed_commit(head, tree, text, author, committer);
    lemma_is_commit(model);
    assert(model.parents =~= one(head));
}

// ---------------------------------------------------------------------------
// Resets

/// The files of a commit become the index of a mixed reset one for one: each
/// with its path, its mode and its object, settled, and nothing else.
pub proof fn lemma_reset_index_is_the_tree(list: Seq<ls_tree::Listed>, n: int)
    requires
        0 <= n <= list.len(),
        operations::entries_of(list, n) is Ok,
    ensures
        ({
            let entries = operations::entries_of(list, n)->Ok_0;
            &&& entries.len() == n
            &&& forall|i: int|
                0 <= i < n ==> (#[trigger] entries[i]).path == list[i].path && entries[i].id
                    == list[i].id && entries[i].mode == crate::tree::mode_value(list[i].mode)
                    && entries[i].stage == 0 && !entries[i].intent_to_add
                    && !entries[i].skip_worktree
        }),
    decreases n,
{
    if n > 0 {
        lemma_reset_index_is_the_tree(list, n - 1);
        let before = operations::entries_of(list, n - 1)->Ok_0;
        let entries = operations::entries_of(list, n)->Ok_0;
        assert forall|i: int| 0 <= i < n - 1 implies #[trigger] entries[i] == before[i] by {}
    }
}

/// What a head file names.
pub open spec fn head_names(files: memory::Tree, git: Seq<u8>) -> Option<Seq<u8>> {
    match memory::contents(files, repository::joined(git, bytes::utf8("HEAD"@))) {
        Ok(data) => object::id_of_hex(crate::worktree_path::line_of(data)),
        Err(_) => None,
    }
}

/// A reset leads to its target. A branch that the head names moves there, from
/// where it stood, and the files of the repository stay. A detached head names
/// the target: at once, or once the tree is checked out where the reset is
/// hard, and only then is a checkout asked for.
#[verifier::spinoff_prover]
#[verifier::rlimit(60)]
pub proof fn lemma_reset_leads_to_the_target(
    before: memory::Tree,
    after: memory::Tree,
    git: Seq<u8>,
    model: CommitModel,
    target: ObjectId,
    head: Head,
    mode: ResetMode,
    r: Result<ResetPlan>,
)
    requires
        operations::reset_ends(before, after, git, model, target@, head, mode, r),
        r is Ok,
    ensures
        ({
            let plan = r->Ok_0;
            &&& plan.tree@ == model.tree
            &&& plan.checkout <==> mode is Hard
            &&& plan.log.after@ == target@
            &&& head.id matches Some(id) ==> plan.log.before@ == id@
            &&& head.branch matches Some(name) ==> {
                &&& after == before
                &&& plan.head is None
                &&& plan.edit matches Some(edit) && edit@.name == name@ && edit@.id == target@
                    && match head.id {
                    Some(id) => edit@.previous == Some(id@),
                    None => edit@.previous is None,
                }
            }
            &&& head.branch is None && !(mode is Hard) ==> head_names(after, git) == Some(target@)
                && plan.head is None && plan.edit is None
            &&& head.branch is None && mode is Hard ==> after == before && plan.edit is None && (
            plan.head matches Some(text) && object::id_of_hex(
                crate::worktree_path::line_of(text@),
            ) == Some(target@))
        }),
{
    lemma_id_reads_back(target);
    let text = operations::detached_text(target@);
    assert(text =~= merge::id_line(target@));
    if head.branch is None && !(mode is Hard) {
        let p = repository::joined(git, bytes::utf8("HEAD"@));
        lemma_replaced(before, p, text, p);
    }
}

/// Moving the head along a logged line puts the branch that it names, or the
/// detached head itself, at the end of the line, and only one of them.
pub proof fn lemma_head_moves_to_the_end(
    r: operations::HeadMove,
    branch: Option<Seq<u8>>,
    from: ObjectId,
    to: ObjectId,
    message: Seq<u8>,
)
    requires
        operations::moves_head(r, branch, merge::head_move(from@, to@, message)),
    ensures
        branch matches Some(name) ==> r.head is None && (r.edit matches Some(edit) && edit@.name
            == name && edit@.id == to@ && edit@.previous == Some(from@)),
        branch is None ==> r.edit is None && (r.head matches Some(text) && object::id_of_hex(
            crate::worktree_path::line_of(text@),
        ) == Some(to@)),
{
    lemma_id_reads_back(to);
    assert(operations::detached_text(to@) =~= merge::id_line(to@));
}

// ---------------------------------------------------------------------------
// What a merge starts from

/// A merge of two commits starts from the tree of each side as its own, and,
/// where they have one common ancestor, from the tree of that. Where they have
/// none it is refused, unless such histories are allowed; a base that is named
/// takes the place of the ancestors.
pub proof fn lemma_merge_starts_from_its_sides(
    files: memory::Tree,
    git: Seq<u8>,
    ours: Seq<u8>,
    theirs: Seq<u8>,
    bases: Seq<ObjectId>,
    ancestor: Option<ObjectId>,
    steps: Seq<Vec<crate::flat_tree::ContentMerge>>,
    options: merge::MergeTreeOptions,
)
    ensures
        merge::merge_inputs(
            files,
            git,
            ours,
            theirs,
            bases,
            ancestor,
            steps,
            options,
        ).1 matches Ok((a, b, c)) ==> {
            let size = options.max_object_size as nat;
            &&& options.merge_base is None ==> {
                &&& merge::stored_commit(files, git, ours, size) is Ok
                &&& merge::stored_commit(files, git, theirs, size) is Ok
                &&& b == merge::stored_commit(files, git, ours, size)->Ok_0.tree
                &&& c == merge::stored_commit(files, git, theirs, size)->Ok_0.tree
                &&& bases.len() == 0 ==> options.allow_unrelated_histories
                &&& bases.len() == 1 ==> merge::stored_commit(files, git, bases[0]@, size) is Ok
                    && a == merge::stored_commit(files, git, bases[0]@, size)->Ok_0.tree
            }
            &&& options.merge_base matches Some(base) ==> merge::input_tree(
                files,
                git,
                base@,
                size,
            ) == Ok::<Seq<u8>, Refusal>(a) && merge::input_tree(files, git, ours, size) == Ok::<
                Seq<u8>,
                Refusal,
            >(b) && merge::input_tree(files, git, theirs, size) == Ok::<Seq<u8>, Refusal>(c)
        },
{
}

/// The texts that are merged for a path are the contents of its three blobs,
/// each on its own side; they are merged as texts just where none of them
/// holds a zero byte.
pub proof fn lemma_texts_of_the_sides(
    files: memory::Tree,
    git: Seq<u8>,
    base: Seq<u8>,
    ours: Seq<u8>,
    theirs: Seq<u8>,
    label: Option<ObjectId>,
    target: Seq<u8>,
    size: nat,
)
    ensures
        merge::text_question(files, git, base, ours, theirs, label, target, size) matches Ok(
            question,
        ) ==> {
            let a = crate::storage::stored_object(files, git, base, size);
            let b = crate::storage::stored_object(files, git, ours, size);
            let c = crate::storage::stored_object(files, git, theirs, size);
            &&& a is Ok && a->Ok_0.0 is Blob
            &&& b is Ok && b->Ok_0.0 is Blob
            &&& c is Ok && c->Ok_0.0 is Blob
            &&& question is Text <==> !a->Ok_0.1.contains(0) && !b->Ok_0.1.contains(0)
                && !c->Ok_0.1.contains(0)
            &&& question matches merge::TextModel::Text {
                base: x,
                ours: y,
                theirs: z,
                theirs_label: named,
                ..
            } ==> x == a->Ok_0.1 && y == b->Ok_0.1 && z == c->Ok_0.1 && named == object::hex_of(
                target,
            )
        },
{
}

// ---------------------------------------------------------------------------
// Forgetting

proof fn lemma_unnoted(files: memory::Tree, git: Seq<u8>, names: Seq<Seq<u8>>, n: int)
    requires
        0 <= n <= names.len(),
        merge::unnoted(files, git, names, n).1 is None,
    ensures
        ({
            let after = merge::unnoted(files, git, names, n).0;
            &&& forall|k: int|
                0 <= k < n ==> !after.contains_key(repository::joined(git, #[trigger] names[k]))
            &&& forall|p: Seq<u8>| #[trigger]
                after.contains_key(p) ==> files.contains_key(p) && after[p] == files[p]
            &&& forall|p: Seq<u8>|
                #![trigger after.contains_key(p)]
                files.contains_key(p) && (forall|k: int|
                    0 <= k < n ==> p != repository::joined(git, #[trigger] names[k]))
                    ==> after.contains_key(p)
        }),
    decreases n,
{
    if n > 0 {
        lemma_unnoted(files, git, names, n - 1);
    }
}

/// A merge that is forgotten is no longer in progress: what it noted is gone,
/// and nothing else is.
pub proof fn lemma_merge_is_forgotten(files: memory::Tree, git: Seq<u8>, p: Seq<u8>)
    requires
        merge::unnoted(files, git, merge::merge_notes(), 2).1 is None,
    ensures
        ({
            let after = merge::unnoted(files, git, merge::merge_notes(), 2).0;
            let head = repository::joined(git, bytes::utf8("MERGE_HEAD"@));
            let message = repository::joined(git, bytes::utf8("MERGE_MSG"@));
            &&& !after.contains_key(head) && !after.contains_key(message)
            &&& p != head && p != message ==> after.contains_key(p) == files.contains_key(p) && (
            files.contains_key(p) ==> after[p] == files[p])
        }),
{
    let names = merge::merge_notes();
    lemma_unnoted(files, git, names, 2);
    assert(names[0] == bytes::utf8("MERGE_HEAD"@));
    assert(names[1] == bytes::utf8("MERGE_MSG"@));
}

/// A replay that is forgotten is no longer in progress: what it noted is gone,
/// and nothing else is.
pub proof fn lemma_replay_is_forgotten(files: memory::Tree, git: Seq<u8>, p: Seq<u8>)
    requires
        merge::unnoted(files, git, merge::replay_notes(), 3).1 is None,
    ensures
        ({
            let after = merge::unnoted(files, git, merge::replay_notes(), 3).0;
            let pick = repository::joined(git, bytes::utf8("CHERRY_PICK_HEAD"@));
            let revert = repository::joined(git, bytes::utf8("REVERT_HEAD"@));
            let message = repository::joined(git, bytes::utf8("MERGE_MSG"@));
            &&& !after.contains_key(pick) && !after.contains_key(revert) && !after.contains_key(
                message,
            )
            &&& p != pick && p != revert && p != message ==> after.contains_key(p)
                == files.contains_key(p) && (files.contains_key(p) ==> after[p] == files[p])
        }),
{
    let names = merge::replay_notes();
    lemma_unnoted(files, git, names, 3);
    assert(names[0] == bytes::utf8("CHERRY_PICK_HEAD"@));
    assert(names[1] == bytes::utf8("REVERT_HEAD"@));
    assert(names[2] == bytes::utf8("MERGE_MSG"@));
}

} // verus!
