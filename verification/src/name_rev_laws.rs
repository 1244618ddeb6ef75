//! Laws about names of commits: which name goes before another, that a name
//! leads to its commit, and that no closer one is passed over.

use vstd::prelude::*;

use crate::bytes;
use crate::for_each_ref::ResolvedReference;
use crate::fs::memory;
use crate::fs::Refusal;
use crate::merge;
use crate::name_rev;
use crate::name_rev::{NameModel, NameRevOptions, Named, Names, TipModel};
use crate::object;
use crate::object::ObjectKind;

verus! {

// ---------------------------------------------------------------------------
// Which name goes before

/// How far a name leads: its distance, and as much as a merge weighs where it
/// goes along first parents.
pub open spec fn farness(name: NameModel) -> nat {
    name.distance + if name.generation > 0 {
        65_535nat
    } else {
        0nat
    }
}

/// A name from a tag goes before one that is from none. Of two that both come
/// from tags, or both from none, the closer goes before, and of two equally
/// close ones from no tag the older.
pub proof fn lemma_closer_goes_before(existing: NameModel, candidate: NameModel)
    requires
        farness(existing) <= usize::MAX,
        farness(candidate) <= usize::MAX,
    ensures
        existing.from_tag && !candidate.from_tag ==> !name_rev::is_better(existing, candidate),
        !existing.from_tag && candidate.from_tag ==> name_rev::is_better(existing, candidate),
        existing.from_tag == candidate.from_tag && farness(candidate) < farness(existing)
            ==> name_rev::is_better(existing, candidate),
        existing.from_tag == candidate.from_tag && farness(candidate) > farness(existing)
            ==> !name_rev::is_better(existing, candidate),
        existing.from_tag && candidate.from_tag && farness(candidate) == farness(existing)
            ==> !name_rev::is_better(existing, candidate),
        !existing.from_tag && !candidate.from_tag && farness(candidate) == farness(existing) ==> (
        name_rev::is_better(existing, candidate) <==> candidate.tagger_date
            < existing.tagger_date),
{
}

/// Whether a name is at least as good as another.
#[verifier::opaque]
pub open spec fn holds_up(name: NameModel, other: NameModel) -> bool {
    !name_rev::is_better(name, other)
}

proof fn lemma_holds_up(a: NameModel, b: NameModel, c: NameModel)
    requires
        holds_up(a, b),
        holds_up(b, c),
    ensures
        holds_up(a, c),
{
    reveal(holds_up);
}

proof fn lemma_holds_itself(a: NameModel)
    ensures
        holds_up(a, a),
{
    reveal(holds_up);
}

/// Whether names only get better.
pub open spec fn improves(before: Names, after: Names) -> bool {
    forall|id: Seq<u8>| #[trigger]
        before.contains_key(id) ==> after.contains_key(id) && holds_up(after[id], before[id])
}

proof fn lemma_improves(a: Names, b: Names, c: Names)
    requires
        improves(a, b),
        improves(b, c),
    ensures
        improves(a, c),
{
    assert forall|id: Seq<u8>| #[trigger] a.contains_key(id) implies c.contains_key(id)
        && holds_up(c[id], a[id]) by {
        assert(b.contains_key(id));
        lemma_holds_up(c[id], b[id], a[id]);
    }
}

proof fn lemma_improves_itself(names: Names)
    ensures
        improves(names, names),
{
    assert forall|x: Seq<u8>| #[trigger] names.contains_key(x) implies holds_up(
        names[x],
        names[x],
    ) by {
        lemma_holds_itself(names[x]);
    }
}

proof fn lemma_updated(names: Names, id: Seq<u8>, candidate: NameModel)
    ensures
        match name_rev::updated(names, id, candidate) {
            Some(after) => improves(names, after) && after == names.insert(id, candidate),
            None => names.contains_key(id) && holds_up(names[id], candidate),
        },
{
    reveal(holds_up);
    if names.contains_key(id) && name_rev::is_better(names[id], candidate) {
        name_rev::lemma_better_asymmetric(names[id], candidate);
    }
    if name_rev::updated(names, id, candidate) is Some {
        assert forall|x: Seq<u8>| #[trigger] names.contains_key(x) implies holds_up(
            names[x],
            names[x],
        ) by {
            lemma_holds_itself(names[x]);
        }
    }
}

// ---------------------------------------------------------------------------
// Ways

/// The parents of a stored commit and when it was committed.
#[verifier::opaque]
pub open spec fn parents_of(files: memory::Tree, git: Seq<u8>, size: nat, id: Seq<u8>) -> Seq<
    Seq<u8>,
> {
    match merge::stored_commit(files, git, id, size) {
        Ok(model) => model.parents,
        Err(_) => Seq::empty(),
    }
}

#[verifier::opaque]
pub open spec fn time_of(files: memory::Tree, git: Seq<u8>, size: nat, id: Seq<u8>) -> Option<i64> {
    match merge::stored_commit(files, git, id, size) {
        Ok(model) => Some(model.committer.timestamp),
        Err(_) => None,
    }
}

/// The commit so many first parents back.
pub open spec fn back(files: memory::Tree, git: Seq<u8>, size: nat, id: Seq<u8>, n: nat) -> Option<
    Seq<u8>,
>
    decreases n,
{
    if n == 0 {
        Some(id)
    } else {
        match back(files, git, size, id, (n - 1) as nat) {
            Some(x) if parents_of(files, git, size, x).len() > 0 => Some(
                parents_of(files, git, size, x)[0],
            ),
            _ => None,
        }
    }
}

/// A text that says how many first parents to go back.
pub open spec fn back_text(n: nat) -> Seq<u8> {
    if n == 0 {
        Seq::empty()
    } else {
        bytes::utf8("~"@) + bytes::decimal(n)
    }
}

/// A step aside: back along first parents from where a text leads, then to
/// another parent than the first.
pub struct Aside {
    pub text: Seq<u8>,
    pub from: Seq<u8>,
    pub generation: nat,
    pub merge: Seq<u8>,
    pub parent: int,
}

/// Whether a step aside leads to a commit, and a text spells it.
pub open spec fn goes_aside(
    files: memory::Tree,
    git: Seq<u8>,
    size: nat,
    step: Aside,
    text: Seq<u8>,
    id: Seq<u8>,
) -> bool {
    let parents = parents_of(files, git, size, step.merge);
    &&& back(files, git, size, step.from, step.generation) == Some(step.merge)
    &&& 1 <= step.parent < parents.len()
    &&& parents[step.parent] == id
    &&& text == name_rev::base_of(step.text) + back_text(step.generation) + bytes::utf8("^"@)
        + bytes::decimal((step.parent + 1) as nat)
}

/// Whether a reference begins with a commit under a text.
pub open spec fn is_tip(tip: TipModel, text: Seq<u8>, id: Seq<u8>) -> bool {
    &&& tip.commit_id == Some(id)
    &&& text == if tip.dereferenced {
        tip.name + bytes::utf8("^0"@)
    } else {
        tip.name
    }
}

/// Whether a text spells a commit: as a reference, or by so many steps aside.
pub open spec fn spells(
    files: memory::Tree,
    git: Seq<u8>,
    size: nat,
    tips: Seq<TipModel>,
    text: Seq<u8>,
    id: Seq<u8>,
    steps: nat,
) -> bool
    decreases steps,
{
    ||| exists|t: int| 0 <= t < tips.len() && is_tip(#[trigger] tips[t], text, id)
    ||| steps > 0 && exists|step: Aside| #[trigger]
        goes_aside(files, git, size, step, text, id) && spells(
            files,
            git,
            size,
            tips,
            step.text,
            step.from,
            (steps - 1) as nat,
        )
}

/// Whether a name leads to a commit: its text spells a commit, and the named
/// one stands so many first parents back.
#[verifier::opaque]
pub open spec fn leads(
    files: memory::Tree,
    git: Seq<u8>,
    size: nat,
    tips: Seq<TipModel>,
    name: NameModel,
    id: Seq<u8>,
) -> bool {
    exists|from: Seq<u8>, steps: nat| #[trigger]
        spells(files, git, size, tips, name.tip_name, from, steps) && back(
            files,
            git,
            size,
            from,
            name.generation,
        ) == Some(id)
}

/// Whether a name that is no way at all is that of a reference to the commit.
pub open spec fn is_direct(tips: Seq<TipModel>, name: NameModel, id: Seq<u8>) -> bool {
    name.distance == 0 ==> name.generation == 0 && exists|t: int|
        0 <= t < tips.len() && is_tip(#[trigger] tips[t], name.tip_name, id)
}

/// Whether a name has its date from a reference, and comes from a tag where
/// that is one.
pub open spec fn stems(tips: Seq<TipModel>, name: NameModel) -> bool {
    exists|t: int|
        0 <= t < tips.len() && (#[trigger] tips[t]).from_tag == name.from_tag
            && tips[t].tagger_date == name.tagger_date
}

/// Whether all names lead to their commits.
pub open spec fn all_lead(
    files: memory::Tree,
    git: Seq<u8>,
    size: nat,
    tips: Seq<TipModel>,
    names: Names,
) -> bool {
    forall|id: Seq<u8>| #[trigger]
        names.contains_key(id) ==> leads(files, git, size, tips, names[id], id) && is_direct(
            tips,
            names[id],
            id,
        ) && stems(tips, names[id])
}

/// The text of a parent goes on from that of the commit.
proof fn lemma_parent_text(name: NameModel, parent: nat)
    ensures
        name_rev::parent_text(name, parent) == name_rev::base_of(name.tip_name) + back_text(
            name.generation,
        ) + bytes::utf8("^"@) + bytes::decimal(parent),
        name_rev::rendered(name) == (if name.generation == 0 {
            name.tip_name
        } else {
            name_rev::base_of(name.tip_name) + back_text(name.generation)
        }),
{
    reveal_strlit("^");
    reveal_strlit("~");
    bytes::lemma_ascii("^"@);
    bytes::lemma_ascii("~"@);
    assert(bytes::utf8("^"@) =~= seq![94u8]);
    assert(bytes::utf8("~"@) =~= seq![126u8]);
}

/// The mark of a peeled tag is cut off, and nothing else.
pub proof fn lemma_mark_is_cut(name: Seq<u8>)
    ensures
        name_rev::base_of(name + bytes::utf8("^0"@)) == name,
        !bytes::has_suffix(name, bytes::utf8("^0"@)) ==> name_rev::base_of(name) == name,
{
    let mark = bytes::utf8("^0"@);
    let whole = name + mark;
    assert(whole.skip(whole.len() - mark.len()) =~= mark);
    assert(whole.take(whole.len() - mark.len()) =~= name);
}

/// What is offered to a parent leads to the parent.
proof fn lemma_offered_leads(
    files: memory::Tree,
    git: Seq<u8>,
    size: nat,
    tips: Seq<TipModel>,
    current: NameModel,
    id: Seq<u8>,
    index: int,
)
    requires
        leads(files, git, size, tips, current, id),
        0 <= index < parents_of(files, git, size, id).len(),
    ensures
        leads(
            files,
            git,
            size,
            tips,
            name_rev::offered(current, index as nat),
            parents_of(files, git, size, id)[index],
        ),
        name_rev::offered(current, index as nat).distance > 0,
{
    reveal(leads);
    let parent = parents_of(files, git, size, id)[index];
    let name = name_rev::offered(current, index as nat);
    let (from, steps) = choose|from: Seq<u8>, steps: nat| #[trigger]
        spells(files, git, size, tips, current.tip_name, from, steps) && back(
            files,
            git,
            size,
            from,
            current.generation,
        ) == Some(id);
    if index == 0 {
        assert(back(files, git, size, from, current.generation + 1) == Some(parent));
        assert(spells(files, git, size, tips, name.tip_name, from, steps));
    } else {
        lemma_parent_text(current, (index + 1) as nat);
        let step = Aside {
            text: current.tip_name,
            from,
            generation: current.generation,
            merge: id,
            parent: index,
        };
        assert(goes_aside(files, git, size, step, name.tip_name, parent));
        let more = steps + 1;
        assert((more - 1) as nat == steps);
        assert(spells(files, git, size, tips, name.tip_name, parent, more));
        assert(back(files, git, size, parent, 0) == Some(parent));
    }
}

proof fn lemma_facts(files: memory::Tree, git: Seq<u8>, size: nat, id: Seq<u8>)
    ensures
        match name_rev::commit_facts(files, git, id, size) {
            Ok((time, parents)) => parents_of(files, git, size, id) == parents && time_of(
                files,
                git,
                size,
                id,
            ) == Some(time),
            Err(_) => parents_of(files, git, size, id).len() == 0 && time_of(
                files,
                git,
                size,
                id,
            ) is None,
        },
{
    reveal(name_rev::commit_facts);
    reveal(parents_of);
    reveal(time_of);
}

// ---------------------------------------------------------------------------
// Spreading

/// Whether a commit passed its name on to its parents: each that is young
/// enough has a name at least as good as the one by way of the commit.
pub open spec fn passed_on(
    files: memory::Tree,
    git: Seq<u8>,
    size: nat,
    cutoff: i64,
    names: Names,
    current: NameModel,
    parents: Seq<Seq<u8>>,
    n: int,
) -> bool {
    forall|k: int|
        0 <= k < n ==> has_at_least(
            files,
            git,
            size,
            cutoff,
            names,
            #[trigger] parents[k],
            by_way_of(current, k),
        )
}

/// The name by way of a commit: of a first parent one generation and one step
/// more, of another parent a step aside, which weighs as much as a merge.
#[verifier::opaque]
pub open spec fn by_way_of(current: NameModel, index: int) -> NameModel {
    let reach = |more: nat|
        if current.distance + more > usize::MAX {
            usize::MAX as nat
        } else {
            current.distance + more
        };
    if index == 0 {
        NameModel { generation: current.generation + 1, distance: reach(1), ..current }
    } else {
        NameModel {
            tip_name: name_rev::base_of(current.tip_name) + back_text(current.generation)
                + bytes::utf8("^"@) + bytes::decimal((index + 1) as nat),
            generation: 0,
            distance: reach(65_535),
            ..current
        }
    }
}

pub open spec fn has_at_least(
    files: memory::Tree,
    git: Seq<u8>,
    size: nat,
    cutoff: i64,
    names: Names,
    id: Seq<u8>,
    name: NameModel,
) -> bool {
    time_of(files, git, size, id) matches Some(time) && (time >= cutoff ==> names.contains_key(id)
        && holds_up(names[id], name))
}

proof fn lemma_offered(current: NameModel, index: int)
    requires
        0 <= index,
    ensures
        name_rev::offered(current, index as nat) == by_way_of(current, index),
{
    reveal(by_way_of);
    lemma_parent_text(current, (index + 1) as nat);
}

/// What offering names to parents makes.
#[verifier::spinoff_prover]
#[verifier::rlimit(60)]
proof fn lemma_with_parents(
    files: memory::Tree,
    git: Seq<u8>,
    size: nat,
    cutoff: i64,
    tips: Seq<TipModel>,
    names: Names,
    id: Seq<u8>,
    n: int,
)
    requires
        all_lead(files, git, size, tips, names),
        names.contains_key(id),
        0 <= n <= parents_of(files, git, size, id).len(),
        name_rev::with_parents(
            files,
            git,
            size,
            cutoff,
            names,
            names[id],
            parents_of(files, git, size, id),
            n,
        ) is Ok,
    ensures
        ({
            let parents = parents_of(files, git, size, id);
            let (after, queued) = name_rev::with_parents(
                files,
                git,
                size,
                cutoff,
                names,
                names[id],
                parents,
                n,
            )->Ok_0;
            &&& improves(names, after)
            &&& all_lead(files, git, size, tips, after)
            &&& passed_on(files, git, size, cutoff, after, names[id], parents, n)
            &&& forall|x: Seq<u8>| #[trigger]
                after.contains_key(x) ==> queued.contains(x) || (names.contains_key(x) && after[x]
                    == names[x])
        }),
    decreases n,
{
    let parents = parents_of(files, git, size, id);
    let current = names[id];
    if n <= 0 {
        lemma_improves_itself(names);
    } else {
        lemma_with_parents(files, git, size, cutoff, tips, names, id, n - 1);
        let (before, queue) = name_rev::with_parents(
            files,
            git,
            size,
            cutoff,
            names,
            current,
            parents,
            n - 1,
        )->Ok_0;
        let (after, queued) = name_rev::with_parents(
            files,
            git,
            size,
            cutoff,
            names,
            current,
            parents,
            n,
        )->Ok_0;
        let parent = parents[n - 1];
        let offer = name_rev::offered(current, (n - 1) as nat);
        lemma_facts(files, git, size, parent);
        lemma_offered(current, n - 1);
        lemma_offered_leads(files, git, size, tips, current, id, n - 1);
        lemma_updated(before, parent, offer);
        let (time, _) = name_rev::commit_facts(files, git, parent, size)->Ok_0;
        let changed = time >= cutoff && name_rev::updated(before, parent, offer) is Some;
        assert(improves(before, after)) by {
            if !changed {
                assert(after == before);
                assert forall|x: Seq<u8>| #[trigger] before.contains_key(x) implies holds_up(
                    after[x],
                    before[x],
                ) by {
                    lemma_holds_itself(before[x]);
                }
            }
        }
        lemma_improves(names, before, after);
        if changed {
            lemma_holds_itself(offer);
        }
        assert(has_at_least(files, git, size, cutoff, after, parent, by_way_of(current, n - 1)));
        assert forall|k: int| 0 <= k < n implies has_at_least(
            files,
            git,
            size,
            cutoff,
            after,
            #[trigger] parents[k],
            by_way_of(current, k),
        ) by {
            if k < n - 1 {
                assert(has_at_least(
                    files,
                    git,
                    size,
                    cutoff,
                    before,
                    parents[k],
                    by_way_of(current, k),
                ));
                if before.contains_key(parents[k]) && time_of(files, git, size, parents[k])->0
                    >= cutoff {
                    lemma_holds_up(
                        after[parents[k]],
                        before[parents[k]],
                        by_way_of(current, k),
                    );
                }
            }
        }
        assert forall|x: Seq<u8>| #[trigger] after.contains_key(x) implies queued.contains(x) || (
        names.contains_key(x) && after[x] == names[x]) by {
            if changed {
                assert(queued == queue.push(parent));
                if x == parent {
                    assert(queued[queue.len() as int] == x);
                } else {
                    assert(before.contains_key(x));
                    if queue.contains(x) {
                        let j = queue.index_of(x);
                        assert(queued[j] == x);
                    }
                }
            }
        }
        assert forall|x: Seq<u8>| #[trigger] after.contains_key(x) implies leads(
            files,
            git,
            size,
            tips,
            after[x],
            x,
        ) && is_direct(tips, after[x], x) && stems(tips, after[x]) by {
            if !(changed && x == parent) {
                assert(before.contains_key(x));
            } else {
                assert(stems(tips, current));
                let t = choose|t: int|
                    0 <= t < tips.len() && (#[trigger] tips[t]).from_tag == current.from_tag
                        && tips[t].tagger_date == current.tagger_date;
                assert(tips[t].from_tag == offer.from_tag);
            }
        }
    }
}

/// Whether every commit but those that wait passed its name on.
pub open spec fn all_passed_on(
    files: memory::Tree,
    git: Seq<u8>,
    size: nat,
    cutoff: i64,
    names: Names,
    waiting: Seq<Seq<u8>>,
) -> bool {
    forall|id: Seq<u8>| #[trigger]
        names.contains_key(id) && !waiting.contains(id) ==> passed_on(
            files,
            git,
            size,
            cutoff,
            names,
            names[id],
            parents_of(files, git, size, id),
            parents_of(files, git, size, id).len() as int,
        )
}

/// What was passed on stays so as names get better.
proof fn lemma_still_passed_on(
    files: memory::Tree,
    git: Seq<u8>,
    size: nat,
    cutoff: i64,
    before: Names,
    after: Names,
    current: NameModel,
    parents: Seq<Seq<u8>>,
    n: int,
)
    requires
        improves(before, after),
        passed_on(files, git, size, cutoff, before, current, parents, n),
    ensures
        passed_on(files, git, size, cutoff, after, current, parents, n),
{
    assert forall|k: int| 0 <= k < n implies has_at_least(
        files,
        git,
        size,
        cutoff,
        after,
        #[trigger] parents[k],
        by_way_of(current, k),
    ) by {
        let p = parents[k];
        assert(has_at_least(files, git, size, cutoff, before, p, by_way_of(current, k)));
        if time_of(files, git, size, p)->0 >= cutoff {
            assert(before.contains_key(p));
            lemma_holds_up(after[p], before[p], by_way_of(current, k));
        }
    }
}

#[verifier::spinoff_prover]
#[verifier::rlimit(60)]
proof fn lemma_spread(
    files: memory::Tree,
    git: Seq<u8>,
    cutoff: i64,
    options: NameRevOptions,
    tips: Seq<TipModel>,
    stack: Seq<Seq<u8>>,
    names: Names,
    updates: nat,
)
    requires
        all_lead(files, git, options.max_object_size as nat, tips, names),
        all_passed_on(files, git, options.max_object_size as nat, cutoff, names, stack),
        forall|k: int| 0 <= k < stack.len() ==> names.contains_key(#[trigger] stack[k]),
        name_rev::spread(files, git, cutoff, options, stack, names, updates) is Ok,
    ensures
        ({
            let (after, _) = name_rev::spread(
                files,
                git,
                cutoff,
                options,
                stack,
                names,
                updates,
            )->Ok_0;
            let size = options.max_object_size as nat;
            &&& improves(names, after)
            &&& all_lead(files, git, size, tips, after)
            &&& all_passed_on(files, git, size, cutoff, after, Seq::empty())
        }),
    decreases options.max_traversal_updates - updates,
{
    let size = options.max_object_size as nat;
    if stack.len() == 0 {
        assert(stack =~= Seq::empty());
        lemma_improves_itself(names);
    } else {
        let id = stack.last();
        assert(stack[stack.len() - 1] == id);
        lemma_facts(files, git, size, id);
        let parents = parents_of(files, git, size, id);
        let (middle, queued) = name_rev::with_parents(
            files,
            git,
            size,
            cutoff,
            names,
            names[id],
            parents,
            parents.len() as int,
        )->Ok_0;
        lemma_with_parents(files, git, size, cutoff, tips, names, id, parents.len() as int);
        let next = stack.drop_last() + queued.reverse();
        assert forall|k: int| 0 <= k < next.len() implies middle.contains_key(
            #[trigger] next[k],
        ) by {
            if k < stack.len() - 1 {
                assert(next[k] == stack[k]);
                assert(names.contains_key(stack[k]));
            } else {
                let j = queued.len() - 1 - (k - (stack.len() - 1));
                assert(next[k] == queued[j]);
                lemma_queued_named(
                    files,
                    git,
                    size,
                    cutoff,
                    names,
                    names[id],
                    parents,
                    parents.len() as int,
                    j,
                );
            }
        }
        assert forall|x: Seq<u8>| #[trigger]
            middle.contains_key(x) && !next.contains(x) implies passed_on(
            files,
            git,
            size,
            cutoff,
            middle,
            middle[x],
            parents_of(files, git, size, x),
            parents_of(files, git, size, x).len() as int,
        ) by {
            assert(!queued.contains(x)) by {
                if queued.contains(x) {
                    let j = queued.index_of(x);
                    let k = stack.len() - 1 + (queued.len() - 1 - j);
                    assert(next[k] == queued[j]);
                }
            }
            assert(names.contains_key(x) && middle[x] == names[x]);
            if x != id {
                assert(!stack.contains(x)) by {
                    if stack.contains(x) {
                        let j = stack.index_of(x);
                        assert(next[j] == x);
                    }
                }
                lemma_still_passed_on(
                    files,
                    git,
                    size,
                    cutoff,
                    names,
                    middle,
                    names[x],
                    parents_of(files, git, size, x),
                    parents_of(files, git, size, x).len() as int,
                );
            }
        }
        lemma_spread(files, git, cutoff, options, tips, next, middle, updates + 1);
        let (after, _) = name_rev::spread(
            files,
            git,
            cutoff,
            options,
            next,
            middle,
            updates + 1,
        )->Ok_0;
        lemma_improves(names, middle, after);
    }
}

proof fn lemma_queued_named(
    files: memory::Tree,
    git: Seq<u8>,
    size: nat,
    cutoff: i64,
    names: Names,
    current: NameModel,
    parents: Seq<Seq<u8>>,
    n: int,
    j: int,
)
    requires
        name_rev::with_parents(files, git, size, cutoff, names, current, parents, n) is Ok,
        0 <= j < (name_rev::with_parents(
            files,
            git,
            size,
            cutoff,
            names,
            current,
            parents,
            n,
        )->Ok_0).1.len(),
    ensures
        ({
            let (after, queued) = name_rev::with_parents(
                files,
                git,
                size,
                cutoff,
                names,
                current,
                parents,
                n,
            )->Ok_0;
            after.contains_key(queued[j])
        }),
    decreases n,
{
    if n > 0 {
        let (before, queue) = name_rev::with_parents(
            files,
            git,
            size,
            cutoff,
            names,
            current,
            parents,
            n - 1,
        )->Ok_0;
        if j < queue.len() {
            lemma_queued_named(files, git, size, cutoff, names, current, parents, n - 1, j);
        }
    }
}

/// Whether the tips that are young enough gave their commits names.
pub open spec fn all_begun(
    files: memory::Tree,
    git: Seq<u8>,
    size: nat,
    cutoff: i64,
    tips: Seq<TipModel>,
    names: Names,
    n: int,
) -> bool {
    forall|t: int|
        0 <= t < n ==> ((#[trigger] tips[t]).commit_id matches Some(id) ==> has_at_least(
            files,
            git,
            size,
            cutoff,
            names,
            id,
            begun(tips[t]),
        ))
}

/// The name at a tip: no way at all.
pub open spec fn begun(tip: TipModel) -> NameModel {
    NameModel {
        tip_name: if tip.dereferenced {
            tip.name + bytes::utf8("^0"@)
        } else {
            tip.name
        },
        tagger_date: tip.tagger_date,
        generation: 0,
        distance: 0,
        from_tag: tip.from_tag,
    }
}

proof fn lemma_begun_leads(
    files: memory::Tree,
    git: Seq<u8>,
    size: nat,
    tips: Seq<TipModel>,
    t: int,
    id: Seq<u8>,
)
    requires
        0 <= t < tips.len(),
        tips[t].commit_id == Some(id),
    ensures
        leads(files, git, size, tips, begun(tips[t]), id),
        is_direct(tips, begun(tips[t]), id),
        stems(tips, begun(tips[t])),
{
    reveal(leads);
    let name = begun(tips[t]);
    assert(is_tip(tips[t], name.tip_name, id));
    assert(spells(files, git, size, tips, name.tip_name, id, 0));
    assert(back(files, git, size, id, 0) == Some(id));
    assert(tips[t].from_tag == name.from_tag);
}

/// Names spread from references to all that they lead to: every name leads to
/// its commit, each commit that a reference stands at has a name at least as
/// good as that of the reference, and each parent one at least as good as the
/// one by way of the commit. So no closer name is passed over.
#[verifier::spinoff_prover]
#[verifier::rlimit(60)]
pub proof fn lemma_names_spread(
    files: memory::Tree,
    git: Seq<u8>,
    cutoff: i64,
    options: NameRevOptions,
    tips: Seq<TipModel>,
    n: int,
)
    requires
        0 <= n <= tips.len(),
        name_rev::spread_tips(files, git, cutoff, options, tips, n) is Ok,
    ensures
        ({
            let (names, _) = name_rev::spread_tips(files, git, cutoff, options, tips, n)->Ok_0;
            let size = options.max_object_size as nat;
            &&& all_lead(files, git, size, tips, names)
            &&& all_begun(files, git, size, cutoff, tips, names, n)
            &&& all_passed_on(files, git, size, cutoff, names, Seq::empty())
        }),
    decreases n,
{
    let size = options.max_object_size as nat;
    if n > 0 {
        lemma_names_spread(files, git, cutoff, options, tips, n - 1);
        let (before, updates) = name_rev::spread_tips(
            files,
            git,
            cutoff,
            options,
            tips,
            n - 1,
        )->Ok_0;
        let (after, _) = name_rev::spread_tips(files, git, cutoff, options, tips, n)->Ok_0;
        let tip = tips[n - 1];
        if tip.commit_id is Some {
            let id = tip.commit_id->0;
            lemma_facts(files, git, size, id);
            let (time, _) = name_rev::commit_facts(files, git, id, size)->Ok_0;
            assert(name_rev::name_at(tip) == begun(tip));
            lemma_updated(before, id, begun(tip));
            if time >= cutoff && name_rev::updated(before, id, begun(tip)) is Some {
                let start = before.insert(id, begun(tip));
                lemma_begun_leads(files, git, size, tips, n - 1, id);
                let stack = seq![id];
                assert(stack[0] == id);
                assert forall|x: Seq<u8>| #[trigger]
                    start.contains_key(x) && !stack.contains(x) implies passed_on(
                    files,
                    git,
                    size,
                    cutoff,
                    start,
                    start[x],
                    parents_of(files, git, size, x),
                    parents_of(files, git, size, x).len() as int,
                ) by {
                    assert(x != id);
                    assert(before.contains_key(x) && !Seq::<Seq<u8>>::empty().contains(x));
                    lemma_still_passed_on(
                        files,
                        git,
                        size,
                        cutoff,
                        before,
                        start,
                        before[x],
                        parents_of(files, git, size, x),
                        parents_of(files, git, size, x).len() as int,
                    );
                }
                lemma_spread(files, git, cutoff, options, tips, stack, start, updates);
                lemma_improves(before, start, after);
                assert(start.contains_key(id));
            } else {
                assert(after == before);
                assert forall|x: Seq<u8>| #[trigger] before.contains_key(x) implies holds_up(
                    after[x],
                    before[x],
                ) by {
                    lemma_holds_itself(before[x]);
                }
                assert(improves(before, after));
            }
            assert forall|t: int| 0 <= t < n implies ((#[trigger] tips[t]).commit_id matches Some(
                x,
            ) ==> has_at_least(files, git, size, cutoff, after, x, begun(tips[t]))) by {
                if t < n - 1 && tips[t].commit_id is Some {
                    let x = tips[t].commit_id->0;
                    assert(has_at_least(files, git, size, cutoff, before, x, begun(tips[t])));
                    if time_of(files, git, size, x)->0 >= cutoff {
                        assert(before.contains_key(x));
                        lemma_holds_up(after[x], before[x], begun(tips[t]));
                    }
                }
            }
        }
    }
}

// ---------------------------------------------------------------------------
// What is asked for

proof fn lemma_tip_place(list: Seq<TipModel>, tip: TipModel, from: int)
    requires
        0 <= from <= list.len(),
    ensures
        from <= name_rev::tip_place(list, tip, from) <= list.len(),
    decreases list.len() - from,
{
    if from < list.len() {
        lemma_tip_place(list, tip, from + 1);
    }
}

proof fn lemma_commit_is_stored(files: memory::Tree, git: Seq<u8>, size: nat, id: Seq<u8>)
    requires
        time_of(files, git, size, id) is Some,
    ensures
        merge::stored_commit(files, git, id, size) is Ok,
{
    reveal(time_of);
}

/// There is a tip for each reference that gives a name, and for no other.
#[verifier::spinoff_prover]
#[verifier::rlimit(60)]
pub proof fn lemma_tips_are_of_references(
    files: memory::Tree,
    git: Seq<u8>,
    refs: Seq<ResolvedReference>,
    options: NameRevOptions,
    n: int,
)
    requires
        0 <= n <= refs.len(),
        name_rev::tips_of(files, git, refs, options, n) is Ok,
    ensures
        ({
            let tips = name_rev::tips_of(files, git, refs, options, n)->Ok_0;
            &&& forall|t: int|
                0 <= t < tips.len() ==> exists|j: int|
                    0 <= j < n && is_tip_of(
                        files,
                        git,
                        #[trigger] refs[j],
                        options,
                        #[trigger] tips[t],
                    )
            &&& forall|j: int|
                0 <= j < n && name_rev::gives_name((#[trigger] refs[j]).name@, options)
                    ==> exists|t: int|
                    0 <= t < tips.len() && is_tip_of(
                        files,
                        git,
                        refs[j],
                        options,
                        #[trigger] tips[t],
                    )
        }),
    decreases n,
{
    if n > 0 {
        lemma_tips_are_of_references(files, git, refs, options, n - 1);
        let less = name_rev::tips_of(files, git, refs, options, n - 1)->Ok_0;
        let tips = name_rev::tips_of(files, git, refs, options, n)->Ok_0;
        let reference = refs[n - 1];
        if name_rev::gives_name(reference.name@, options) {
            let tip = name_rev::tip_of(
                files,
                git,
                reference.name@,
                reference.id@,
                options,
            )->Ok_0;
            let at = name_rev::tip_place(less, tip, 0);
            lemma_tip_place(less, tip, 0);
            assert(is_tip_of(files, git, reference, options, tip)) by {
                reveal(is_tip_of);
            }
            assert forall|t: int| 0 <= t < tips.len() implies exists|j: int|
                0 <= j < n && is_tip_of(
                    files,
                    git,
                    #[trigger] refs[j],
                    options,
                    #[trigger] tips[t],
                ) by {
                if t == at {
                    assert(is_tip_of(files, git, refs[n - 1], options, tips[t]));
                } else {
                    let u = if t < at {
                        t
                    } else {
                        t - 1
                    };
                    assert(tips[t] == less[u]);
                    let j = choose|j: int|
                        0 <= j < n - 1 && is_tip_of(
                            files,
                            git,
                            #[trigger] refs[j],
                            options,
                            less[u],
                        );
                    assert(is_tip_of(files, git, refs[j], options, tips[t]));
                }
            }
            assert forall|j: int|
                0 <= j < n && name_rev::gives_name(
                    (#[trigger] refs[j]).name@,
                    options,
                ) implies exists|t: int|
                0 <= t < tips.len() && is_tip_of(
                    files,
                    git,
                    refs[j],
                    options,
                    #[trigger] tips[t],
                ) by {
                if j < n - 1 {
                    let u = choose|u: int|
                        0 <= u < less.len() && is_tip_of(
                            files,
                            git,
                            refs[j],
                            options,
                            #[trigger] less[u],
                        );
                    let t = if u < at {
                        u
                    } else {
                        u + 1
                    };
                    assert(tips[t] == less[u]);
                } else {
                    assert(tips[at] == tip);
                }
            }
        } else {
            assert forall|t: int| 0 <= t < tips.len() implies exists|j: int|
                0 <= j < n && is_tip_of(
                    files,
                    git,
                    #[trigger] refs[j],
                    options,
                    #[trigger] tips[t],
                ) by {
                let j = choose|j: int|
                    0 <= j < n - 1 && is_tip_of(
                        files,
                        git,
                        #[trigger] refs[j],
                        options,
                        less[t],
                    );
                assert(is_tip_of(files, git, refs[j], options, tips[t]));
            }
        }
    }
}

/// Whether a tip is that of a reference that gives a name.
#[verifier::opaque]
pub open spec fn is_tip_of(
    files: memory::Tree,
    git: Seq<u8>,
    reference: ResolvedReference,
    options: NameRevOptions,
    tip: TipModel,
) -> bool {
    &&& name_rev::gives_name(reference.name@, options)
    &&& name_rev::tip_of(files, git, reference.name@, reference.id@, options) == Ok::<
        TipModel,
        Refusal,
    >(tip)
}

/// A tip stands at the commit that its reference names, with the name of the
/// reference without the prefix that says nothing, and comes from a tag where
/// the reference is one.
pub proof fn lemma_tip_of_reference(
    files: memory::Tree,
    git: Seq<u8>,
    name: Seq<u8>,
    id: Seq<u8>,
    options: NameRevOptions,
)
    requires
        merge::stored_commit(files, git, id, options.max_object_size as nat) is Ok,
    ensures
        name_rev::tip_of(files, git, name, id, options) matches Ok(tip) && {
            &&& tip.commit_id == Some(id)
            &&& tip.object_id == id
            &&& !tip.dereferenced
            &&& tip.from_tag <==> bytes::has_prefix(name, bytes::utf8("refs/tags/"@))
            &&& tip.tagger_date == time_of(
                files,
                git,
                options.max_object_size as nat,
                id,
            )->0
            &&& forall|rest: Seq<u8>|
                name == #[trigger] (bytes::utf8("refs/heads/"@) + rest) ==> tip.name == rest
        },
{
    reveal(name_rev::kind_of);
    reveal(name_rev::commit_facts);
    reveal(time_of);
    let heads = bytes::utf8("refs/heads/"@);
    assert forall|rest: Seq<u8>| name == #[trigger] (heads + rest) implies name_rev::short_name(
        name,
        name_rev::is_short(name, options),
    ) == rest by {
        assert(name.take(heads.len() as int) =~= heads);
        assert(name.skip(heads.len() as int) =~= rest);
    }
}

/// A commit is its own tip.
proof fn lemma_commit_tip(
    files: memory::Tree,
    git: Seq<u8>,
    id: Seq<u8>,
    options: NameRevOptions,
)
    ensures
        name_rev::tip_facts(files, git, id, ObjectKind::Commit, options) matches Ok((tip, _, _))
            ==> tip == Some(id),
        name_rev::tip_facts(files, git, id, ObjectKind::Commit, options) is Ok
            ==> name_rev::commit_facts(files, git, id, options.max_object_size as nat) is Ok,
{
}

#[verifier::spinoff_prover]
#[verifier::rlimit(60)]
proof fn lemma_targets(
    files: memory::Tree,
    git: Seq<u8>,
    targets: Seq<Seq<u8>>,
    options: NameRevOptions,
    n: int,
    i: int,
)
    requires
        0 <= i < n <= targets.len(),
        name_rev::targets_of(files, git, targets, options, n) is Ok,
    ensures
        ({
            let (kinds, cutoff) = name_rev::targets_of(files, git, targets, options, n)->Ok_0;
            let size = options.max_object_size as nat;
            &&& kinds.len() == n
            &&& name_rev::kind_of(files, git, targets[i], size) == Ok::<ObjectKind, Refusal>(
                kinds[i],
            )
            &&& kinds[i] is Commit ==> (time_of(files, git, size, targets[i]) matches Some(time)
                && cutoff <= time)
        }),
    decreases n,
{
    let size = options.max_object_size as nat;
    let target = targets[n - 1];
    if n - 1 > 0 {
        if i < n - 1 {
            lemma_targets(files, git, targets, options, n - 1, i);
        } else {
            lemma_targets(files, git, targets, options, n - 1, 0);
        }
    }
    let (kinds, cutoff) = name_rev::targets_of(files, git, targets, options, n)->Ok_0;
    let (less, before) = name_rev::targets_of(files, git, targets, options, n - 1)->Ok_0;
    let kind = name_rev::kind_of(files, git, target, size)->Ok_0;
    assert(less.len() == n - 1);
    assert(kinds == less.push(kind));
    assert(cutoff <= before);
    if i == n - 1 {
        if kind is Commit {
            lemma_facts(files, git, size, target);
            lemma_commit_tip(files, git, target, options);
        }
    } else {
        assert(kinds[i] == less[i]);
    }
}

proof fn lemma_entries(
    targets: Seq<Seq<u8>>,
    kinds: Seq<ObjectKind>,
    names: Names,
    tips: Seq<TipModel>,
    known: Seq<Seq<u8>>,
    options: NameRevOptions,
    n: int,
    i: int,
)
    requires
        0 <= i < n,
        name_rev::entries_of(targets, kinds, names, tips, known, options, n) is Ok,
    ensures
        ({
            let list = name_rev::entries_of(
                targets,
                kinds,
                names,
                tips,
                known,
                options,
                n,
            )->Ok_0;
            &&& list.len() == n
            &&& name_rev::entry_of(targets[i], kinds[i], names, tips, known, options) == Ok::<
                Named,
                crate::Error,
            >(list[i])
        }),
    decreases n,
{
    if i < n - 1 {
        lemma_entries(targets, kinds, names, tips, known, options, n - 1, i);
    } else if n - 1 > 0 {
        lemma_entries(targets, kinds, names, tips, known, options, n - 1, 0);
    }
}

/// Whether a name is spelled by the references that give names, and leads to
/// its commit.
pub open spec fn is_way(
    files: memory::Tree,
    git: Seq<u8>,
    options: NameRevOptions,
    tips: Seq<TipModel>,
    text: Seq<u8>,
    id: Seq<u8>,
) -> bool {
    exists|name: NameModel|
        #![trigger leads(files, git, options.max_object_size as nat, tips, name, id)]
        leads(files, git, options.max_object_size as nat, tips, name, id) && text == (
        if name.generation == 0 {
            name.tip_name
        } else {
            name_rev::base_of(name.tip_name) + back_text(name.generation)
        })
}

/// Whether a text is the name of a reference that stands at a commit.
pub open spec fn names_reference(
    files: memory::Tree,
    git: Seq<u8>,
    refs: Seq<ResolvedReference>,
    options: NameRevOptions,
    text: Seq<u8>,
    id: Seq<u8>,
) -> bool {
    exists|j: int, tip: TipModel|
        0 <= j < refs.len() && #[trigger] is_tip_of(files, git, refs[j], options, tip) && is_tip(
            tip,
            text,
            id,
        )
}

/// Whether entries name what was asked for.
///
/// There is an entry for each target. A name of a commit is a way that leads
/// to it from a reference. A commit that a reference stands at is named, and
/// where no tag gives names, it is named by a reference that stands at it. An
/// abbreviation is one of the object, and of no other known one.
#[verifier::opaque]
pub open spec fn are_named(
    files: memory::Tree,
    git: Seq<u8>,
    targets: Seq<Seq<u8>>,
    refs: Seq<ResolvedReference>,
    known: Seq<Seq<u8>>,
    options: NameRevOptions,
    list: Seq<Named>,
) -> bool {
    let size = options.max_object_size as nat;
    &&& list.len() == targets.len()
    &&& forall|i: int|
        0 <= i < targets.len() ==> is_named(
            files,
            git,
            targets[i],
            refs,
            known,
            options,
            #[trigger] list[i],
        )
}

pub open spec fn is_named(
    files: memory::Tree,
    git: Seq<u8>,
    target: Seq<u8>,
    refs: Seq<ResolvedReference>,
    known: Seq<Seq<u8>>,
    options: NameRevOptions,
    entry: Named,
) -> bool {
    let size = options.max_object_size as nat;
    &&& entry.id == target
    &&& name_rev::kind_of(files, git, target, size) == Ok::<ObjectKind, Refusal>(entry.kind)
    &&& entry.fallback ==> entry.name is Some && is_abbreviation(
        target,
        known,
        options.abbreviation as int,
        entry.name->0,
    )
    &&& entry.name is Some && !entry.fallback && entry.kind is Commit ==> (name_rev::tips_of(
        files,
        git,
        refs,
        options,
        refs.len() as int,
    ) matches Ok(tips) && is_way(files, git, options, tips, entry.name->0, target))
    &&& entry.kind is Commit && (exists|j: int|
        0 <= j < refs.len() && name_rev::gives_name((#[trigger] refs[j]).name@, options)
            && refs[j].id@ == target) ==> {
        &&& entry.name is Some && !entry.fallback
        &&& (forall|j: int|
            0 <= j < refs.len() ==> !bytes::has_prefix(
                (#[trigger] refs[j]).name@,
                bytes::utf8("refs/tags/"@),
            )) ==> names_reference(files, git, refs, options, entry.name->0, target)
    }
}

/// Whether a text is an abbreviation of an object that is long enough and that
/// no other known object has.
pub open spec fn is_abbreviation(
    id: Seq<u8>,
    known: Seq<Seq<u8>>,
    least: int,
    text: Seq<u8>,
) -> bool {
    let hex = object::hex_of(id);
    &&& least <= text.len() <= 40
    &&& text == hex.take(text.len() as int)
    &&& text.len() < 40 ==> forall|k: int|
        0 <= k < known.len() && #[trigger] known[k] != id ==> object::hex_of(known[k]).take(
            text.len() as int,
        ) != text
}

proof fn lemma_telling(id: Seq<u8>, known: Seq<Seq<u8>>, length: int)
    requires
        0 <= length <= 40,
    ensures
        ({
            let n = name_rev::telling_length(id, known, length);
            length <= n <= 40 && (n < 40 ==> name_rev::tells_apart(id, known, n))
        }),
    decreases 40 - length,
{
    if length < 40 && !name_rev::tells_apart(id, known, length) {
        lemma_telling(id, known, length + 1);
    }
}

/// The entries of a naming name what was asked for.
#[verifier::spinoff_prover]
#[verifier::rlimit(60)]
pub proof fn lemma_revisions_are_named(
    files: memory::Tree,
    git: Seq<u8>,
    targets: Seq<Seq<u8>>,
    refs: Seq<ResolvedReference>,
    known: Seq<Seq<u8>>,
    options: NameRevOptions,
)
    requires
        forall|i: int| 0 <= i < targets.len() ==> (#[trigger] targets[i]).len() == 20,
    ensures
        name_rev::named_revs(files, git, targets, refs, known, options) matches Ok(list)
            ==> are_named(files, git, targets, refs, known, options, list),
{
    reveal(are_named);
    let size = options.max_object_size as nat;
    if name_rev::named_revs(files, git, targets, refs, known, options) is Ok {
        let list = name_rev::named_revs(files, git, targets, refs, known, options)->Ok_0;
        let count = targets.len() as int;
        let (kinds, oldest) = name_rev::targets_of(files, git, targets, options, count)->Ok_0;
        let cutoff = if options.all {
            i64::MIN
        } else {
            oldest
        };
        let tips = name_rev::tips_of(files, git, refs, options, refs.len() as int)->Ok_0;
        let (names, _) = name_rev::spread_tips(
            files,
            git,
            cutoff,
            options,
            tips,
            tips.len() as int,
        )->Ok_0;
        lemma_names_spread(files, git, cutoff, options, tips, tips.len() as int);
        lemma_tips_are_of_references(files, git, refs, options, refs.len() as int);
        if count > 0 {
            lemma_entries(targets, kinds, names, tips, known, options, count, 0);
        }
        assert forall|i: int| 0 <= i < targets.len() implies is_named(
            files,
            git,
            targets[i],
            refs,
            known,
            options,
            #[trigger] list[i],
        ) by {
            let id = targets[i];
            lemma_targets(files, git, targets, options, count, i);
            lemma_entries(targets, kinds, names, tips, known, options, count, i);
            lemma_one_named(
                files,
                git,
                id,
                refs,
                known,
                options,
                kinds[i],
                cutoff,
                tips,
                names,
                list[i],
            );
        }
    }
}

#[verifier::spinoff_prover]
#[verifier::rlimit(60)]
proof fn lemma_one_named(
    files: memory::Tree,
    git: Seq<u8>,
    id: Seq<u8>,
    refs: Seq<ResolvedReference>,
    known: Seq<Seq<u8>>,
    options: NameRevOptions,
    kind: ObjectKind,
    cutoff: i64,
    tips: Seq<TipModel>,
    names: Names,
    entry: Named,
)
    requires
        id.len() == 20,
        0 < options.abbreviation <= 40,
        name_rev::kind_of(files, git, id, options.max_object_size as nat) == Ok::<
            ObjectKind,
            Refusal,
        >(kind),
        kind is Commit ==> (time_of(files, git, options.max_object_size as nat, id) matches Some(
            time,
        ) && cutoff <= time),
        name_rev::tips_of(files, git, refs, options, refs.len() as int) == Ok::<
            Seq<TipModel>,
            Refusal,
        >(tips),
        all_lead(files, git, options.max_object_size as nat, tips, names),
        all_begun(
            files,
            git,
            options.max_object_size as nat,
            cutoff,
            tips,
            names,
            tips.len() as int,
        ),
        name_rev::entry_of(id, kind, names, tips, known, options) == Ok::<Named, crate::Error>(
            entry,
        ),
    ensures
        is_named(files, git, id, refs, known, options, entry),
{
    let size = options.max_object_size as nat;
    lemma_tips_are_of_references(files, git, refs, options, refs.len() as int);
    if entry.fallback {
        lemma_telling(id, known, options.abbreviation as int);
        let n = name_rev::telling_length(id, known, options.abbreviation as int);
        let text = object::hex_of(id).take(n);
        assert(text.len() == n);
        assert(entry.name == Some(text));
    }
    if kind is Commit && names.contains_key(id) {
        lemma_parent_text(names[id], 0);
        assert(entry.name == Some(name_rev::rendered(names[id])));
        assert(leads(files, git, size, tips, names[id], id));
        assert(is_way(files, git, options, tips, entry.name->0, id));
    }
    if kind is Commit && (exists|j: int|
        0 <= j < refs.len() && name_rev::gives_name((#[trigger] refs[j]).name@, options)
            && refs[j].id@ == id) {
        let j = choose|j: int|
            0 <= j < refs.len() && name_rev::gives_name((#[trigger] refs[j]).name@, options)
                && refs[j].id@ == id;
        let t = choose|t: int|
            0 <= t < tips.len() && is_tip_of(files, git, refs[j], options, #[trigger] tips[t]);
        reveal(is_tip_of);
        lemma_facts(files, git, size, id);
        lemma_commit_is_stored(files, git, size, id);
        lemma_tip_of_reference(files, git, refs[j].name@, id, options);
        assert(tips[t].commit_id == Some(id));
        assert(has_at_least(files, git, size, cutoff, names, id, begun(tips[t])));
        assert(names.contains_key(id));
        if forall|j: int|
            0 <= j < refs.len() ==> !bytes::has_prefix(
                (#[trigger] refs[j]).name@,
                bytes::utf8("refs/tags/"@),
            ) {
            let name = names[id];
            assert(holds_up(name, begun(tips[t])));
            reveal(holds_up);
            assert(!name.from_tag) by {
                let v = choose|v: int|
                    0 <= v < tips.len() && (#[trigger] tips[v]).from_tag == name.from_tag
                        && tips[v].tagger_date == name.tagger_date;
                let k = choose|k: int|
                    0 <= k < refs.len() && is_tip_of(
                        files,
                        git,
                        #[trigger] refs[k],
                        options,
                        tips[v],
                    );
                assert(!bytes::has_prefix(refs[k].name@, bytes::utf8("refs/tags/"@)));
            }
            assert(name.distance == 0);
            let u = choose|u: int|
                0 <= u < tips.len() && is_tip(#[trigger] tips[u], name.tip_name, id);
            let k = choose|k: int|
                0 <= k < refs.len() && is_tip_of(
                    files,
                    git,
                    #[trigger] refs[k],
                    options,
                    tips[u],
                );
            assert(is_tip_of(files, git, refs[k], options, tips[u]));
            assert(names_reference(files, git, refs, options, entry.name->0, id));
        }
    }
}

} // verus!
