//! What holds of listings of references, here and at a remote.

use vstd::prelude::*;

use crate::bytes;
use crate::commit::SignatureModel;
use crate::fetch::Advertised;
use crate::for_each_ref;
use crate::for_each_ref::{
    Ancestry, ForEachRefOptions, RefModel, RefSortField, ResolvedReference, Unwrapped,
};
use crate::fs::memory;
use crate::fs::Refusal;
use crate::ignore;
use crate::ls_remote;
use crate::ls_remote::{Listed, LsRemoteOptions};
use crate::object::{ObjectId, ObjectKind};
use crate::storage;

verus! {

// ---------------------------------------------------------------------------
// Filters

/// Whether one of some commits is another or an ancestor of it.
pub open spec fn holds_one(ancestry: Ancestry, ids: Seq<ObjectId>, id: Seq<u8>) -> bool {
    exists|i: int| 0 <= i < ids.len() && ancestry.precedes(#[trigger] ids[i]@, id)
}

/// Whether a commit is one of some others or an ancestor of one.
pub open spec fn is_held_by_one(ancestry: Ancestry, ids: Seq<ObjectId>, id: Seq<u8>) -> bool {
    exists|i: int| 0 <= i < ids.len() && ancestry.precedes(id, #[trigger] ids[i]@)
}

/// Whether the history of an object is as asked: it holds what it has to, and
/// nothing that it must not; it is held by what it has to be, and by nothing
/// that must not hold it. Only a commit has a history.
pub open spec fn has_asked_history(
    options: ForEachRefOptions,
    ancestry: Ancestry,
    id: Seq<u8>,
    kind: ObjectKind,
) -> bool {
    &&& options.contains@.len() > 0 ==> holds_one(ancestry, options.contains@, id)
    &&& !holds_one(ancestry, options.no_contains@, id)
    &&& options.merged_into@.len() > 0 ==> is_held_by_one(ancestry, options.merged_into@, id)
    &&& !is_held_by_one(ancestry, options.not_merged_into@, id)
    &&& kind is Commit || (options.contains@.len() == 0 && options.no_contains@.len() == 0
        && options.merged_into@.len() == 0 && options.not_merged_into@.len() == 0)
}

/// Whether a name is asked for: one of the patterns matches it where there are
/// any, and none of those that exclude.
pub open spec fn is_asked_for(options: ForEachRefOptions, name: Seq<u8>) -> bool {
    &&& options.patterns@.len() == 0 || exists|i: int|
        0 <= i < options.patterns@.len() && for_each_ref::pattern_matches(
            #[trigger] options.patterns@[i]@,
            name,
            options.ignore_case,
        )
    &&& forall|i: int|
        0 <= i < options.exclude_patterns@.len() ==> !for_each_ref::pattern_matches(
            #[trigger] options.exclude_patterns@[i]@,
            name,
            options.ignore_case,
        )
}

/// Whether some objects hold one of those that are asked for.
pub open spec fn holds_asked(points_at: Seq<ObjectId>, chain: Seq<Seq<u8>>) -> bool {
    points_at.len() == 0 || exists|j: int|
        0 <= j < points_at.len() && chain.contains(#[trigger] points_at[j]@)
}

/// What an object leads to through its tags.
pub open spec fn peeled(
    files: memory::Tree,
    git: Seq<u8>,
    options: ForEachRefOptions,
    id: Seq<u8>,
) -> core::result::Result<Unwrapped, Refusal> {
    for_each_ref::unwrapped(
        files,
        git,
        options.max_object_size as nat,
        id,
        seq![id],
        None,
        options.max_tag_depth as nat,
    )
}

proof fn lemma_history(
    options: ForEachRefOptions,
    ancestry: Ancestry,
    id: Seq<u8>,
    kind: ObjectKind,
)
    ensures
        for_each_ref::passes(options, ancestry, id, kind) <==> has_asked_history(
            options,
            ancestry,
            id,
            kind,
        ),
{
    lemma_related(ancestry, options.contains@, id);
    lemma_related(ancestry, options.no_contains@, id);
    lemma_related(ancestry, options.merged_into@, id);
    lemma_related(ancestry, options.not_merged_into@, id);
}

proof fn lemma_related(ancestry: Ancestry, ids: Seq<ObjectId>, id: Seq<u8>)
    ensures
        for_each_ref::related(ancestry, ids, id, false) == holds_one(ancestry, ids, id),
        for_each_ref::related(ancestry, ids, id, true) == is_held_by_one(ancestry, ids, id),
{
    if for_each_ref::related(ancestry, ids, id, false) {
        let i = choose|i: int| 0 <= i < ids.len() && ancestry.precedes((#[trigger] ids[i])@, id);
        assert(ancestry.precedes(ids[i]@, id));
    }
    if holds_one(ancestry, ids, id) {
        let i = choose|i: int| 0 <= i < ids.len() && ancestry.precedes(#[trigger] ids[i]@, id);
        assert(ancestry.precedes(ids[i]@, id));
    }
    if for_each_ref::related(ancestry, ids, id, true) {
        let i = choose|i: int| 0 <= i < ids.len() && ancestry.precedes(id, (#[trigger] ids[i])@);
        assert(ancestry.precedes(id, ids[i]@));
    }
    if is_held_by_one(ancestry, ids, id) {
        let i = choose|i: int| 0 <= i < ids.len() && ancestry.precedes(id, #[trigger] ids[i]@);
        assert(ancestry.precedes(id, ids[i]@));
    }
}

proof fn lemma_asked(options: ForEachRefOptions, name: Seq<u8>)
    ensures
        for_each_ref::wanted(options, name) <==> is_asked_for(options, name),
{
    let fold = options.ignore_case;
    let patterns = bytes::deep(options.patterns@);
    let others = bytes::deep(options.exclude_patterns@);
    assert forall|i: int| 0 <= i < patterns.len() implies #[trigger] patterns[i]
        == options.patterns@[i]@ by {}
    assert forall|i: int| 0 <= i < others.len() implies #[trigger] others[i]
        == options.exclude_patterns@[i]@ by {}
    if for_each_ref::any_matches(name, patterns, fold) {
        let i = choose|i: int|
            0 <= i < patterns.len() && for_each_ref::pattern_matches(
                #[trigger] patterns[i],
                name,
                fold,
            );
        assert(for_each_ref::pattern_matches(options.patterns@[i]@, name, fold));
    }
    if exists|i: int|
        0 <= i < options.patterns@.len() && for_each_ref::pattern_matches(
            #[trigger] options.patterns@[i]@,
            name,
            fold,
        ) {
        let i = choose|i: int|
            0 <= i < options.patterns@.len() && for_each_ref::pattern_matches(
                #[trigger] options.patterns@[i]@,
                name,
                fold,
            );
        assert(for_each_ref::pattern_matches(patterns[i], name, fold));
    }
    if for_each_ref::any_matches(name, others, fold) {
        let i = choose|i: int|
            0 <= i < others.len() && for_each_ref::pattern_matches(#[trigger] others[i], name, fold);
        assert(for_each_ref::pattern_matches(options.exclude_patterns@[i]@, name, fold));
    }
    if !for_each_ref::any_matches(name, others, fold) {
        assert forall|i: int|
            0 <= i < options.exclude_patterns@.len() implies !for_each_ref::pattern_matches(
            #[trigger] options.exclude_patterns@[i]@,
            name,
            fold,
        ) by {
            assert(!for_each_ref::pattern_matches(others[i], name, fold));
        }
    }
}

/// A reference is listed just where its name is asked for, one of the objects
/// from it to the end of its tags is asked for, and its history is as asked.
/// It is listed under its own name with its own object, and with what its tags
/// lead to.
#[verifier::spinoff_prover]
#[verifier::rlimit(60)]
pub proof fn lemma_asked_references_are_listed(
    files: memory::Tree,
    git: Seq<u8>,
    options: ForEachRefOptions,
    ancestry: Ancestry,
    reference: ResolvedReference,
)
    ensures
        for_each_ref::contributed(files, git, options, ancestry, reference) matches Ok(listed) ==> {
            let end = peeled(files, git, options, reference.id@);
            &&& listed is Some <==> is_asked_for(options, reference.name@) && end is Ok
                && holds_asked(options.points_at@, end->Ok_0.chain) && has_asked_history(
                options,
                ancestry,
                end->Ok_0.id,
                end->Ok_0.kind,
            )
            &&& is_asked_for(options, reference.name@) ==> end is Ok
            &&& listed matches Some(m) ==> m.name == reference.name@ && m.object_id
                == reference.id@ && m.peeled_id == end->Ok_0.id && m.peeled_kind == end->Ok_0.kind
                && m.tagger == end->Ok_0.tagger
        },
{
    reveal(for_each_ref::contributed);
    lemma_asked(options, reference.name@);
    let end = peeled(files, git, options, reference.id@);
    if end is Ok {
        let end = end->Ok_0;
        lemma_history(options, ancestry, end.id, end.kind);
        if for_each_ref::meets(options.points_at@, end.chain) && options.points_at@.len() > 0 {
            let (i, j) = choose|i: int, j: int|
                0 <= i < end.chain.len() && 0 <= j < options.points_at@.len()
                    && #[trigger] end.chain[i] == (#[trigger] options.points_at@[j])@;
            assert(end.chain.contains(options.points_at@[j]@));
        }
        if holds_asked(options.points_at@, end.chain) && options.points_at@.len() > 0 {
            let j = choose|j: int|
                0 <= j < options.points_at@.len() && end.chain.contains(
                    #[trigger] options.points_at@[j]@,
                );
            let i = end.chain.index_of(options.points_at@[j]@);
            assert(end.chain[i] == (options.points_at@[j])@);
        }
    }
}

/// The tags of an object are followed to the end: what they lead to is stored
/// and is no tag, the objects on the way begin with the first and end with the
/// last, and the tagger is that of the first tag that names one.
#[verifier::spinoff_prover]
#[verifier::rlimit(60)]
pub proof fn lemma_tags_lead_to_the_end(
    files: memory::Tree,
    git: Seq<u8>,
    size: nat,
    id: Seq<u8>,
    chain: Seq<Seq<u8>>,
    tagger: Option<SignatureModel>,
    left: nat,
)
    requires
        chain.len() > 0,
        chain.last() == id,
    ensures
        for_each_ref::unwrapped(files, git, size, id, chain, tagger, left) matches Ok(end) ==> {
            &&& !(end.kind is Tag)
            &&& storage::stored_object(files, git, end.id, size) matches Ok((kind, _)) && kind
                == end.kind
            &&& chain.is_prefix_of(end.chain)
            &&& end.chain.last() == end.id
            &&& tagger is Some ==> end.tagger == tagger
            &&& storage::stored_object(files, git, id, size) matches Ok((kind, data)) && (!(
            kind is Tag) ==> end.id == id && end.chain == chain) && (kind is Tag ==> (
            crate::commit::tag_from(data) matches Ok(tag) && end.chain.len() > chain.len()
                && end.chain[chain.len() as int] == tag.target && (tagger is None && tag.tagger is Some
                ==> end.tagger == tag.tagger)))
        },
    decreases left,
{
    if let Ok((kind, data)) = storage::stored_object(files, git, id, size) {
        if kind is Tag && left > 0 {
            if let Ok(tag) = crate::commit::tag_from(data) {
                let next = chain.push(tag.target);
                let by = if tagger is Some {
                    tagger
                } else {
                    tag.tagger
                };
                lemma_tags_lead_to_the_end(
                    files,
                    git,
                    size,
                    tag.target,
                    next,
                    by,
                    (left - 1) as nat,
                );
                if for_each_ref::unwrapped(files, git, size, id, chain, tagger, left) is Ok {
                    let end = for_each_ref::unwrapped(
                        files,
                        git,
                        size,
                        id,
                        chain,
                        tagger,
                        left,
                    )->Ok_0;
                    assert(next.is_prefix_of(end.chain));
                    assert(end.chain.subrange(0, next.len() as int) == next);
                    assert(end.chain[chain.len() as int] == next[chain.len() as int]);
                    assert(end.chain.subrange(0, chain.len() as int) =~= chain);
                }
            }
        }
    }
}

/// What is collected comes from the references in their order, each at most
/// once, and nothing that is to be listed is left out.
#[verifier::spinoff_prover]
#[verifier::rlimit(60)]
pub proof fn lemma_collected_in_order(
    files: memory::Tree,
    git: Seq<u8>,
    options: ForEachRefOptions,
    ancestry: Ancestry,
    references: Seq<ResolvedReference>,
    n: int,
) -> (places: Seq<int>)
    requires
        0 <= n <= references.len(),
        for_each_ref::collected(files, git, options, ancestry, references, n) is Ok,
    ensures
        ({
            let list = for_each_ref::collected(
                files,
                git,
                options,
                ancestry,
                references,
                n,
            )->Ok_0;
            &&& places.len() == list.len()
            &&& forall|k: int|
                0 <= k < places.len() ==> 0 <= #[trigger] places[k] < n
                    && for_each_ref::contributed(
                    files,
                    git,
                    options,
                    ancestry,
                    references[places[k]],
                ) == Ok::<Option<RefModel>, Refusal>(Some(list[k]))
            &&& forall|k: int, l: int|
                0 <= k < l < places.len() ==> #[trigger] places[k] < #[trigger] places[l]
            &&& forall|i: int|
                0 <= i < n && for_each_ref::contributed(
                    files,
                    git,
                    options,
                    ancestry,
                    #[trigger] references[i],
                ) != Ok::<Option<RefModel>, Refusal>(None) ==> places.contains(i)
        }),
    decreases n,
{
    if n <= 0 {
        Seq::empty()
    } else {
        let before = lemma_collected_in_order(
            files,
            git,
            options,
            ancestry,
            references,
            n - 1,
        );
        match for_each_ref::contributed(files, git, options, ancestry, references[n - 1]) {
            Ok(Some(_)) => {
                let after = before.push(n - 1);
                assert forall|i: int|
                    0 <= i < n && for_each_ref::contributed(
                        files,
                        git,
                        options,
                        ancestry,
                        #[trigger] references[i],
                    ) != Ok::<Option<RefModel>, Refusal>(None) implies after.contains(i) by {
                    if i < n - 1 {
                        assert(before.contains(i));
                        let k = before.index_of(i);
                        assert(after[k] == i);
                    } else {
                        assert(after[before.len() as int] == i);
                    }
                }
                after
            },
            _ => before,
        }
    }
}

// ---------------------------------------------------------------------------
// Order

/// The time that a reference is ordered by under a field for times.
pub open spec fn time_under(m: RefModel, field: RefSortField) -> int {
    let signature = match field {
        RefSortField::AuthorDate => m.author,
        RefSortField::CommitterDate => m.committer,
        RefSortField::TaggerDate => m.tagger,
        _ => if m.tagger is Some {
            m.tagger
        } else {
            m.committer
        },
    };
    match signature {
        Some(signature) => signature.timestamp as int,
        None => 0,
    }
}

/// Whether a reference is less than another under a field.
pub open spec fn is_less(a: RefModel, b: RefModel, field: RefSortField, fold: bool) -> bool {
    match field {
        RefSortField::RefName => if fold {
            bytes::lex_lt(bytes::lower(a.name), bytes::lower(b.name))
        } else {
            bytes::lex_lt(a.name, b.name)
        },
        RefSortField::ObjectName => bytes::lex_lt(a.object_id, b.object_id),
        RefSortField::ObjectType => bytes::lex_lt(
            crate::object::kind_name(a.object_kind),
            crate::object::kind_name(b.object_kind),
        ),
        _ => time_under(a, field) < time_under(b, field),
    }
}

/// A listing ascends under the last of its keys, or descends where that key
/// says so; where no key is given it ascends by names.
pub proof fn lemma_listing_ascends(
    list: Seq<RefModel>,
    options: ForEachRefOptions,
    i: int,
    j: int,
)
    requires
        for_each_ref::in_order(
            list,
            for_each_ref::sort_keys(options),
            options.ignore_case,
        ),
        0 <= i < j < list.len(),
    ensures
        options.sort@.len() == 0 ==> !is_less(
            list[j],
            list[i],
            RefSortField::RefName,
            options.ignore_case,
        ),
        options.sort@.len() > 0 ==> ({
            let key = options.sort@.last();
            if key.descending {
                !is_less(list[i], list[j], key.field, options.ignore_case)
            } else {
                !is_less(list[j], list[i], key.field, options.ignore_case)
            }
        }),
{
    let keys = for_each_ref::sort_keys(options);
    let fold = options.ignore_case;
    let n = keys.len() as int;
    assert(!for_each_ref::comes_before(list[j], list[i], keys, fold, n));
    let key = keys[n - 1];
    let x = for_each_ref::value_of(list[j], key.field, fold);
    let y = for_each_ref::value_of(list[i], key.field, fold);
    lemma_less(list[j], list[i], key.field, fold);
    lemma_less(list[i], list[j], key.field, fold);
    if for_each_ref::value_lt(x, y) && for_each_ref::value_lt(y, x) {
        lemma_not_both(list[j], list[i], key.field, fold);
    }
}

proof fn lemma_less(a: RefModel, b: RefModel, field: RefSortField, fold: bool)
    ensures
        is_less(a, b, field, fold) == for_each_ref::value_lt(
            for_each_ref::value_of(a, field, fold),
            for_each_ref::value_of(b, field, fold),
        ),
{
}

proof fn lemma_not_both(a: RefModel, b: RefModel, field: RefSortField, fold: bool)
    ensures
        !(is_less(a, b, field, fold) && is_less(b, a, field, fold)),
{
    if is_less(a, b, field, fold) && is_less(b, a, field, fold) {
        match field {
            RefSortField::RefName => {
                let (x, y) = if fold {
                    (bytes::lower(a.name), bytes::lower(b.name))
                } else {
                    (a.name, b.name)
                };
                bytes::lemma_lex_transitive(x, y, x);
                bytes::lemma_lex_irreflexive(x);
            },
            RefSortField::ObjectName => {
                bytes::lemma_lex_transitive(a.object_id, b.object_id, a.object_id);
                bytes::lemma_lex_irreflexive(a.object_id);
            },
            RefSortField::ObjectType => {
                let x = crate::object::kind_name(a.object_kind);
                let y = crate::object::kind_name(b.object_kind);
                bytes::lemma_lex_transitive(x, y, x);
                bytes::lemma_lex_irreflexive(x);
            },
            _ => {},
        }
    }
}

/// A pattern without wildcards matches its own name and what stands below it,
/// and nothing else.
pub proof fn lemma_literal_pattern(pattern: Seq<u8>, name: Seq<u8>)
    requires
        pattern.len() > 0,
        forall|i: int|
            0 <= i < pattern.len() ==> #[trigger] pattern[i] != 42 && pattern[i] != 63 && pattern[i]
                != 91,
    ensures
        for_each_ref::pattern_matches(pattern, name, false) <==> name == pattern || exists|
            rest: Seq<u8>,
        |
            name == #[trigger] (pattern + rest) && (pattern.last() == 47 || (rest.len() > 0
                && rest[0] == 47)),
{
    assert(!for_each_ref::has_wildcard(pattern));
    let n = pattern.len() as int;
    if bytes::has_prefix(name, pattern) {
        let rest = name.skip(n);
        assert(name =~= pattern + rest);
        if n < name.len() {
            assert(rest[0] == name[n]);
        }
    }
    if exists|rest: Seq<u8>|
        name == #[trigger] (pattern + rest) && (pattern.last() == 47 || (rest.len() > 0 && rest[0]
            == 47)) {
        let rest = choose|rest: Seq<u8>|
            name == #[trigger] (pattern + rest) && (pattern.last() == 47 || (rest.len() > 0
                && rest[0] == 47));
        assert(name.take(n) =~= pattern);
        if rest.len() > 0 {
            assert(name[n] == rest[0]);
        }
    }
}

// ---------------------------------------------------------------------------
// At a remote

/// Whether a name begins with a text.
pub open spec fn begins_with(name: Seq<u8>, text: Seq<u8>) -> bool {
    exists|rest: Seq<u8>| name == #[trigger] (text + rest)
}

/// Whether a name of a remote is asked for: a branch where branches are, a tag
/// where tags are, and one of the patterns matches it where there are any. The
/// head and the marks of peeled tags are no references.
pub open spec fn is_asked_of_remote(name: Seq<u8>, options: LsRemoteOptions) -> bool {
    let branch = begins_with(name, bytes::utf8("refs/heads/"@));
    let tag = begins_with(name, bytes::utf8("refs/tags/"@));
    &&& options.selection is Branches ==> branch
    &&& options.selection is Tags ==> tag
    &&& options.selection is BranchesAndTags ==> branch || tag
    &&& options.refs_only ==> name != bytes::utf8("HEAD"@) && !bytes::has_suffix(
        name,
        bytes::utf8("^{}"@),
    )
    &&& options.patterns@.len() > 0 ==> exists|k: int|
        0 <= k < options.patterns@.len() && ls_remote::tail_matches(
            #[trigger] options.patterns@[k]@,
            name,
        )
}

proof fn lemma_prefix(name: Seq<u8>, text: Seq<u8>)
    ensures
        bytes::has_prefix(name, text) <==> begins_with(name, text),
{
    if bytes::has_prefix(name, text) {
        assert(name =~= text + name.skip(text.len() as int));
    }
    if begins_with(name, text) {
        let rest = choose|rest: Seq<u8>| name == #[trigger] (text + rest);
        assert(name.take(text.len() as int) =~= text);
    }
}

proof fn lemma_listed(name: Seq<u8>, options: LsRemoteOptions)
    ensures
        ls_remote::is_listed(name, options) <==> is_asked_of_remote(name, options),
{
    lemma_prefix(name, bytes::utf8("refs/heads/"@));
    lemma_prefix(name, bytes::utf8("refs/tags/"@));
    let patterns = bytes::deep(options.patterns@);
    if exists|k: int|
        0 <= k < patterns.len() && ls_remote::tail_matches(#[trigger] patterns[k], name) {
        let k = choose|k: int|
            0 <= k < patterns.len() && ls_remote::tail_matches(#[trigger] patterns[k], name);
        assert(ls_remote::tail_matches(options.patterns@[k]@, name));
    }
    if exists|k: int|
        0 <= k < options.patterns@.len() && ls_remote::tail_matches(
            #[trigger] options.patterns@[k]@,
            name,
        ) {
        let k = choose|k: int|
            0 <= k < options.patterns@.len() && ls_remote::tail_matches(
                #[trigger] options.patterns@[k]@,
                name,
            );
        assert(ls_remote::tail_matches(patterns[k], name));
    }
}

/// A listing of a remote holds what it advertises and is asked for, under its
/// name and with its object, and nothing else.
#[verifier::spinoff_prover]
#[verifier::rlimit(60)]
pub proof fn lemma_remote_references_are_listed(
    said: Advertised,
    options: LsRemoteOptions,
    n: int,
    id: Seq<u8>,
    name: Seq<u8>,
)
    requires
        0 <= n <= said.refs.len(),
    ensures
        (exists|k: int|
            0 <= k < ls_remote::entries_of(said, options, n).len()
                && (#[trigger] ls_remote::entries_of(said, options, n)[k]).name == name
                && ls_remote::entries_of(said, options, n)[k].id == id) <==> is_asked_of_remote(
            name,
            options,
        ) && exists|i: int|
            0 <= i < n && (#[trigger] said.refs[i]).name == name && said.refs[i].id == id,
    decreases n,
{
    if n > 0 {
        lemma_remote_references_are_listed(said, options, n - 1, id, name);
        let less = ls_remote::entries_of(said, options, n - 1);
        let more = ls_remote::entries_of(said, options, n);
        let reference = said.refs[n - 1];
        lemma_listed(reference.name, options);
        if ls_remote::is_listed(reference.name, options) {
            let at = ls_remote::place(less, reference.name, 0);
            lemma_place_within(less, reference.name, 0);
            let entry = ls_remote::entry_of(reference, said.head_target, options);
            assert(more == less.insert(at, entry));
            assert(more[at] == entry);
            if exists|k: int| 0 <= k < less.len() && (#[trigger] less[k]).name == name && less[k].id
                == id {
                let k = choose|k: int|
                    0 <= k < less.len() && (#[trigger] less[k]).name == name && less[k].id == id;
                let l = if k < at {
                    k
                } else {
                    k + 1
                };
                assert(more[l] == less[k]);
            }
            if exists|k: int| 0 <= k < more.len() && (#[trigger] more[k]).name == name && more[k].id
                == id {
                let k = choose|k: int|
                    0 <= k < more.len() && (#[trigger] more[k]).name == name && more[k].id == id;
                if k < at {
                    assert(less[k] == more[k]);
                } else if k > at {
                    assert(less[k - 1] == more[k]);
                } else {
                    assert(said.refs[n - 1].name == name);
                }
            }
        }
    }
}

proof fn lemma_place_within(list: Seq<Listed>, name: Seq<u8>, from: int)
    requires
        0 <= from <= list.len(),
    ensures
        from <= ls_remote::place(list, name, from) <= list.len(),
    decreases list.len() - from,
{
    if from < list.len() {
        lemma_place_within(list, name, from + 1);
    }
}

/// A pattern without special bytes matches a name that it is, or that ends
/// with it behind a slash, and no other, as long as their positions can be
/// numbered together.
pub proof fn lemma_plain_tail(pattern: Seq<u8>, name: Seq<u8>)
    requires
        (pattern.len() + 1) * (name.len() + 1) <= usize::MAX,
        forall|i: int| 0 <= i < pattern.len() ==> !ignore::is_special(#[trigger] pattern[i]),
    ensures
        ls_remote::tail_matches(pattern, name) <==> name == pattern || exists|front: Seq<u8>|
            name == #[trigger] (front.push(47) + pattern),
{
    assert forall|at: int| #[trigger] ls_remote::begins(name, at) implies ignore::wild_match(
        pattern,
        name.skip(at),
        false,
    ) == (pattern == name.skip(at)) by {
        ignore::lemma_plain_pattern_matches_itself(pattern, name.skip(at), false);
        let (a, b, c) = (pattern.len() as int, name.len() as int, name.skip(at).len() as int);
        assert((a + 1) * (c + 1) <= (a + 1) * (b + 1)) by (nonlinear_arith)
            requires
                0 <= a,
                0 <= c <= b,
        ;
    }
    assert(name.skip(0) =~= name);
    if ls_remote::tail_matches(pattern, name) {
        let at = choose|at: int| #[trigger]
            ls_remote::begins(name, at) && ignore::wild_match(pattern, name.skip(at), false);
        assert(pattern == name.skip(at));
        if at != 0 {
            let front = name.take(at - 1);
            assert(name.take(at) =~= front.push(47));
            assert(name =~= name.take(at) + name.skip(at));
            assert(name == front.push(47) + pattern);
        }
    }
    if name == pattern {
        assert(ls_remote::begins(name, 0));
    }
    if exists|front: Seq<u8>| name == #[trigger] (front.push(47) + pattern) {
        let front = choose|front: Seq<u8>| name == #[trigger] (front.push(47) + pattern);
        let at = front.len() as int + 1;
        assert(name.skip(at) =~= pattern);
        assert(name[at - 1] == front.push(47)[at - 1]);
        assert(ls_remote::begins(name, at));
        assert(ignore::wild_match(pattern, name.skip(at), false));
    }
}

} // verus!
