//! Laws about fetching: which references are asked for, where they are kept,
//! and what a fetch makes of the references at hand.

use vstd::prelude::*;

use crate::bytes;
use crate::fetch;
use crate::fetch::{Advertised, EditModel, Edits, Local, RefSpec, RemoteModel};
use crate::fs::Refusal;
use crate::object;
use crate::object::ObjectId;
use crate::protocol;
use crate::protocol::Packet;
use crate::refname;
use crate::storage;

verus! {

// ---------------------------------------------------------------------------
// What becomes of the references

/// Whether a reference stands at an object: it is the first of its name.
pub open spec fn is_at(refs: Seq<RemoteModel>, name: Seq<u8>, id: Seq<u8>) -> bool {
    exists|k: int|
        0 <= k < refs.len() && (#[trigger] refs[k]).name == name && refs[k].id == id && forall|
            j: int,
        |
            0 <= j < k ==> (#[trigger] refs[j]).name != name
}

pub open spec fn is_absent(refs: Seq<RemoteModel>, name: Seq<u8>) -> bool {
    forall|k: int| 0 <= k < refs.len() ==> (#[trigger] refs[k]).name != name
}

pub open spec fn has_edit(edits: Seq<EditModel>, name: Seq<u8>, id: Seq<u8>) -> bool {
    exists|e: int| 0 <= e < edits.len() && (#[trigger] edits[e]).name == name && edits[e].id == id
}

pub open spec fn is_untouched(edits: Seq<EditModel>, name: Seq<u8>) -> bool {
    forall|e: int| 0 <= e < edits.len() ==> (#[trigger] edits[e]).name != name
}

/// Whether a reference stands at an object once edits are made.
pub open spec fn ends_at(
    refs: Seq<RemoteModel>,
    edits: Seq<EditModel>,
    name: Seq<u8>,
    id: Seq<u8>,
) -> bool {
    has_edit(edits, name, id) || (is_untouched(edits, name) && is_at(refs, name, id))
}

/// Whether a commit leads on to another.
pub open spec fn leads_on(local: Local, from: Seq<u8>, to: Seq<u8>) -> bool {
    &&& storage::stored_object(local.files, local.git, from, local.limit) matches Ok((
        kind,
        _,
    )) && kind is Commit
    &&& storage::stored_object(local.files, local.git, to, local.limit) matches Ok((
        kind,
        _,
    )) && kind is Commit
    &&& from == to || exists|i: int|
        0 <= i < local.ancestry.pairs@.len() && (#[trigger] local.ancestry.pairs@[i]).0@ == from
            && local.ancestry.pairs@[i].1@ == to
}

/// Whether an edit brings a fetched reference to where it is kept: it expects
/// what stands there, and gives up no history unless it may.
pub open spec fn is_due(
    local: Local,
    edit: EditModel,
    id: Seq<u8>,
    mapping: (Seq<u8>, bool),
) -> bool {
    &&& edit.name == mapping.0
    &&& edit.id == id
    &&& match edit.previous {
        None => is_absent(local.refs, edit.name),
        Some(previous) => is_at(local.refs, edit.name, previous) && previous != id && (mapping.1
            || leads_on(local, previous, id)),
    }
}

/// Whether a reference came to each of the places where it is kept.
pub open spec fn came(
    refs: Seq<RemoteModel>,
    edits: Seq<EditModel>,
    id: Seq<u8>,
    mappings: Seq<(Seq<u8>, bool)>,
    n: int,
) -> bool {
    forall|k: int| 0 <= k < n ==> ends_at(refs, edits, (#[trigger] mappings[k]).0, id)
}

/// Whether an edit is due to one of some fetched references.
pub open spec fn has_cause(
    local: Local,
    selected: Seq<RemoteModel>,
    remote: Seq<u8>,
    bare: bool,
    rules: Option<Seq<RefSpec>>,
    edit: EditModel,
) -> bool {
    exists|i: int, k: int|
        #![trigger selected[i], fetch::mappings_of(selected[i].name, remote, bare, rules)[k]]
        0 <= i < selected.len() && 0 <= k < fetch::mappings_of(
            selected[i].name,
            remote,
            bare,
            rules,
        ).len() && is_due(
            local,
            edit,
            selected[i].id,
            fetch::mappings_of(selected[i].name, remote, bare, rules)[k],
        )
}

/// Whether edits bring the references to where a fetch wants them, and no
/// other edit is made.
pub open spec fn brings(
    local: Local,
    selected: Seq<RemoteModel>,
    remote: Seq<u8>,
    bare: bool,
    rules: Option<Seq<RefSpec>>,
    edits: Seq<EditModel>,
) -> bool {
    &&& forall|i: int|
        0 <= i < selected.len() ==> ({
            let mappings = fetch::mappings_of(
                (#[trigger] selected[i]).name,
                remote,
                bare,
                rules,
            );
            came(local.refs, edits, selected[i].id, mappings, mappings.len() as int)
        })
    &&& forall|e: int|
        0 <= e < edits.len() ==> has_cause(
            local,
            selected,
            remote,
            bare,
            rules,
            #[trigger] edits[e],
        )
    &&& forall|d: int, e: int|
        0 <= d < e < edits.len() ==> (#[trigger] edits[d]).name != (#[trigger] edits[e]).name
}

proof fn lemma_named(refs: Seq<RemoteModel>, name: Seq<u8>, from: int)
    requires
        0 <= from <= refs.len(),
        forall|j: int| 0 <= j < from ==> (#[trigger] refs[j]).name != name,
    ensures
        match fetch::named(refs, name, from) {
            Some(found) => found.name == name && is_at(refs, name, found.id),
            None => is_absent(refs, name),
        },
    decreases refs.len() - from,
{
    if from < refs.len() {
        if refs[from].name == name {
            assert(is_at(refs, name, refs[from].id));
        } else {
            lemma_named(refs, name, from + 1);
        }
    }
}

/// Where a name stands once is where it stands.
proof fn lemma_at_once(refs: Seq<RemoteModel>, name: Seq<u8>, a: Seq<u8>, b: Seq<u8>)
    requires
        is_at(refs, name, a),
        is_at(refs, name, b),
    ensures
        a == b,
{
    let i = choose|k: int|
        0 <= k < refs.len() && (#[trigger] refs[k]).name == name && refs[k].id == a && forall|
            j: int,
        |
            0 <= j < k ==> (#[trigger] refs[j]).name != name;
    let j = choose|k: int|
        0 <= k < refs.len() && (#[trigger] refs[k]).name == name && refs[k].id == b && forall|
            j: int,
        |
            0 <= j < k ==> (#[trigger] refs[j]).name != name;
    if i < j {
        assert(refs[i].name != name);
    } else if j < i {
        assert(refs[j].name != name);
    }
}

/// What is known of the edits so far: those that were made, and the places
/// that were dealt with.
spec fn is_sound(state: Edits) -> bool {
    &&& forall|e: int|
        0 <= e < state.edits.len() ==> state.destinations.contains((#[trigger] state.edits[e]).name)
    &&& forall|d: int, e: int|
        0 <= d < e < state.edits.len() ==> (#[trigger] state.edits[d]).name != (
        #[trigger] state.edits[e]).name
}

/// Whether a list of edits goes on another, with names that are not among
/// some places.
spec fn goes_on(before: Edits, after: Edits) -> bool {
    &&& before.edits.len() <= after.edits.len()
    &&& after.edits.take(before.edits.len() as int) == before.edits
    &&& forall|e: int|
        before.edits.len() <= e < after.edits.len() ==> !before.destinations.contains(
            (#[trigger] after.edits[e]).name,
        )
    &&& forall|name: Seq<u8>|
        before.destinations.contains(name) ==> #[trigger] after.destinations.contains(name)
}

proof fn lemma_goes_on(a: Edits, b: Edits, c: Edits)
    requires
        goes_on(a, b),
        goes_on(b, c),
    ensures
        goes_on(a, c),
{
    let n = a.edits.len() as int;
    assert(c.edits.take(n) =~= c.edits.take(b.edits.len() as int).take(n));
    assert forall|e: int| n <= e < c.edits.len() implies !a.destinations.contains(
        (#[trigger] c.edits[e]).name,
    ) by {
        if e < b.edits.len() {
            assert(c.edits.take(b.edits.len() as int)[e] == b.edits[e]);
        } else {
            assert(!b.destinations.contains(c.edits[e].name));
        }
    }
}

/// What was dealt with stays as it was decided.
proof fn lemma_stays(refs: Seq<RemoteModel>, before: Edits, after: Edits, name: Seq<u8>, id: Seq<u8>)
    requires
        goes_on(before, after),
        before.destinations.contains(name),
        ends_at(refs, before.edits, name, id),
    ensures
        ends_at(refs, after.edits, name, id),
{
    let n = before.edits.len() as int;
    if has_edit(before.edits, name, id) {
        let e = choose|e: int|
            0 <= e < n && (#[trigger] before.edits[e]).name == name && before.edits[e].id == id;
        assert(after.edits.take(n)[e] == before.edits[e]);
        assert(after.edits[e].name == name);
    } else {
        assert forall|e: int| 0 <= e < after.edits.len() implies (#[trigger] after.edits[e]).name
            != name by {
            if e < n {
                assert(after.edits.take(n)[e] == before.edits[e]);
            }
        }
    }
}

/// What one decision makes of the edits.
proof fn lemma_one_edit(state: Edits, local: Local, id: Seq<u8>, to: Seq<u8>, force: bool)
    requires
        is_sound(state),
        fetch::with_edit(state, local, id, to, force) is Ok,
    ensures
        ({
            let after = fetch::with_edit(state, local, id, to, force)->Ok_0;
            &&& is_sound(after)
            &&& goes_on(state, after)
            &&& after.destinations.contains(to)
            &&& ends_at(local.refs, after.edits, to, id)
            &&& forall|e: int|
                state.edits.len() <= e < after.edits.len() ==> is_due(
                    local,
                    #[trigger] after.edits[e],
                    id,
                    (to, force),
                )
        }),
{
    let after = fetch::with_edit(state, local, id, to, force)->Ok_0;
    let n = state.edits.len() as int;
    lemma_named(local.refs, to, 0);
    assert(after.destinations == state.destinations.push(to));
    assert(after.destinations[state.destinations.len() as int] == to);
    assert forall|name: Seq<u8>|
        state.destinations.contains(name) implies #[trigger] after.destinations.contains(name) by {
        let k = state.destinations.index_of(name);
        assert(after.destinations[k] == name);
    }
    assert forall|e: int| 0 <= e < n implies (#[trigger] state.edits[e]).name != to by {
        assert(state.destinations.contains(state.edits[e].name));
    }
    assert(after.edits.take(n) =~= state.edits);
    if after.edits.len() > n {
        assert(after.edits[n].name == to && after.edits[n].id == id);
        assert(has_edit(after.edits, to, id));
        assert(is_due(local, after.edits[n], id, (to, force)));
    } else {
        assert(after.edits =~= state.edits);
        assert(is_untouched(after.edits, to));
    }
    assert forall|e: int| 0 <= e < after.edits.len() implies after.destinations.contains(
        (#[trigger] after.edits[e]).name,
    ) by {
        if e < n {
            assert(after.edits[e] == state.edits[e]);
            assert(state.destinations.contains(state.edits[e].name));
        }
    }
}

proof fn lemma_mappings(
    state: Edits,
    local: Local,
    id: Seq<u8>,
    mappings: Seq<(Seq<u8>, bool)>,
    n: int,
)
    requires
        is_sound(state),
        0 <= n <= mappings.len(),
        fetch::with_mappings(state, local, id, mappings, n) is Ok,
    ensures
        ({
            let after = fetch::with_mappings(state, local, id, mappings, n)->Ok_0;
            &&& is_sound(after)
            &&& goes_on(state, after)
            &&& forall|k: int|
                0 <= k < n ==> after.destinations.contains((#[trigger] mappings[k]).0)
            &&& came(local.refs, after.edits, id, mappings, n)
            &&& forall|e: int|
                state.edits.len() <= e < after.edits.len() ==> exists|k: int|
                    0 <= k < n && is_due(
                        local,
                        #[trigger] after.edits[e],
                        id,
                        #[trigger] mappings[k],
                    )
        }),
    decreases n,
{
    if n <= 0 {
        assert(state.edits.take(state.edits.len() as int) =~= state.edits);
    } else {
        lemma_mappings(state, local, id, mappings, n - 1);
        let before = fetch::with_mappings(state, local, id, mappings, n - 1)->Ok_0;
        let after = fetch::with_mappings(state, local, id, mappings, n)->Ok_0;
        let (to, force) = mappings[n - 1];
        lemma_one_edit(before, local, id, to, force);
        lemma_goes_on(state, before, after);
        assert forall|k: int| 0 <= k < n implies after.destinations.contains(
            (#[trigger] mappings[k]).0,
        ) && ends_at(local.refs, after.edits, mappings[k].0, id) by {
            if k < n - 1 {
                assert(before.destinations.contains(mappings[k].0));
                assert(ends_at(local.refs, before.edits, mappings[k].0, id));
                lemma_stays(local.refs, before, after, mappings[k].0, id);
            }
        }
        assert forall|e: int| state.edits.len() <= e < after.edits.len() implies exists|k: int|
            0 <= k < n && is_due(local, #[trigger] after.edits[e], id, #[trigger] mappings[k]) by {
            if e < before.edits.len() {
                assert(after.edits.take(before.edits.len() as int)[e] == before.edits[e]);
                let k = choose|k: int|
                    0 <= k < n - 1 && is_due(
                        local,
                        before.edits[e],
                        id,
                        #[trigger] mappings[k],
                    );
                assert(is_due(local, after.edits[e], id, mappings[k]));
            } else {
                assert(is_due(local, after.edits[e], id, mappings[n - 1]));
            }
        }
    }
}

proof fn lemma_brings_to(
    local: Local,
    selected: Seq<RemoteModel>,
    remote: Seq<u8>,
    bare: bool,
    rules: Option<Seq<RefSpec>>,
    n: int,
)
    requires
        0 <= n <= selected.len(),
        fetch::edits_of(local, selected, remote, bare, rules, n) is Ok,
    ensures
        ({
            let after = fetch::edits_of(local, selected, remote, bare, rules, n)->Ok_0;
            &&& is_sound(after)
            &&& forall|i: int|
                0 <= i < n ==> ({
                    let mappings = fetch::mappings_of(
                        (#[trigger] selected[i]).name,
                        remote,
                        bare,
                        rules,
                    );
                    &&& came(
                        local.refs,
                        after.edits,
                        selected[i].id,
                        mappings,
                        mappings.len() as int,
                    )
                    &&& forall|k: int|
                        0 <= k < mappings.len() ==> after.destinations.contains(
                            (#[trigger] mappings[k]).0,
                        )
                })
            &&& forall|e: int|
                0 <= e < after.edits.len() ==> has_cause(
                    local,
                    selected,
                    remote,
                    bare,
                    rules,
                    #[trigger] after.edits[e],
                )
        }),
    decreases n,
{
    if n > 0 {
        lemma_brings_to(local, selected, remote, bare, rules, n - 1);
        let before = fetch::edits_of(local, selected, remote, bare, rules, n - 1)->Ok_0;
        let after = fetch::edits_of(local, selected, remote, bare, rules, n)->Ok_0;
        let own = fetch::mappings_of(selected[n - 1].name, remote, bare, rules);
        lemma_mappings(before, local, selected[n - 1].id, own, own.len() as int);
        assert forall|i: int| 0 <= i < n implies ({
            let mappings = fetch::mappings_of(
                (#[trigger] selected[i]).name,
                remote,
                bare,
                rules,
            );
            &&& came(local.refs, after.edits, selected[i].id, mappings, mappings.len() as int)
            &&& forall|k: int|
                0 <= k < mappings.len() ==> after.destinations.contains(
                    (#[trigger] mappings[k]).0,
                )
        }) by {
            let mappings = fetch::mappings_of(selected[i].name, remote, bare, rules);
            if i < n - 1 {
                assert forall|k: int| 0 <= k < mappings.len() implies after.destinations.contains(
                    (#[trigger] mappings[k]).0,
                ) && ends_at(local.refs, after.edits, mappings[k].0, selected[i].id) by {
                    assert(before.destinations.contains(mappings[k].0));
                    assert(ends_at(local.refs, before.edits, mappings[k].0, selected[i].id));
                    lemma_stays(local.refs, before, after, mappings[k].0, selected[i].id);
                }
            }
        }
        assert forall|e: int| 0 <= e < after.edits.len() implies has_cause(
            local,
            selected,
            remote,
            bare,
            rules,
            #[trigger] after.edits[e],
        ) by {
            if e < before.edits.len() {
                assert(after.edits.take(before.edits.len() as int)[e] == before.edits[e]);
                assert(has_cause(local, selected, remote, bare, rules, before.edits[e]));
            } else {
                let k = choose|k: int|
                    0 <= k < own.len() && is_due(
                        local,
                        after.edits[e],
                        selected[n - 1].id,
                        #[trigger] own[k],
                    );
                assert(is_due(local, after.edits[e], selected[n - 1].id, own[k]));
            }
        }
    }
}

/// A fetch that succeeds brings every fetched reference to each place where it
/// is kept: once the edits are made, the reference there stands at the fetched
/// object. An edit expects what stands at its place, and gives up history only
/// where it may. No other edit is made.
pub proof fn lemma_fetch_brings(
    local: Local,
    selected: Seq<RemoteModel>,
    remote: Seq<u8>,
    bare: bool,
    rules: Option<Seq<RefSpec>>,
)
    ensures
        fetch::edits_of(local, selected, remote, bare, rules, selected.len() as int) matches Ok(
            state,
        ) ==> brings(local, selected, remote, bare, rules, state.edits),
{
    if fetch::edits_of(local, selected, remote, bare, rules, selected.len() as int) is Ok {
        lemma_brings_to(local, selected, remote, bare, rules, selected.len() as int);
    }
}

/// Whether a place can be taken: its name is valid, and it is free, stands at
/// the object already, or may be moved there.
pub open spec fn may_come(local: Local, id: Seq<u8>, mapping: (Seq<u8>, bool)) -> bool {
    &&& refname::name_fault(mapping.0) is None
    &&& mapping.1 || is_absent(local.refs, mapping.0) || is_at(local.refs, mapping.0, id)
        || exists|old_id: Seq<u8>| #[trigger]
        is_at(local.refs, mapping.0, old_id) && leads_on(local, old_id, id)
}

#[verifier::spinoff_prover]
#[verifier::rlimit(60)]
proof fn lemma_mappings_succeed(
    state: Edits,
    local: Local,
    id: Seq<u8>,
    mappings: Seq<(Seq<u8>, bool)>,
    n: int,
)
    requires
        0 <= n <= mappings.len(),
        forall|k: int|
            0 <= k < n ==> may_come(local, id, #[trigger] mappings[k])
                && !state.destinations.contains(mappings[k].0),
        forall|k: int, l: int|
            0 <= k < l < n ==> (#[trigger] mappings[k]).0 != (#[trigger] mappings[l]).0,
    ensures
        fetch::with_mappings(state, local, id, mappings, n) matches Ok(after) && {
            &&& after.destinations.len() == state.destinations.len() + n
            &&& after.destinations.take(state.destinations.len() as int) == state.destinations
            &&& forall|k: int|
                0 <= k < n ==> after.destinations[state.destinations.len() + k] == (
                #[trigger] mappings[k]).0
        },
    decreases n,
{
    if n <= 0 {
        assert(state.destinations.take(state.destinations.len() as int) =~= state.destinations);
    } else {
        lemma_mappings_succeed(state, local, id, mappings, n - 1);
        let before = fetch::with_mappings(state, local, id, mappings, n - 1)->Ok_0;
        let (to, force) = mappings[n - 1];
        let m = state.destinations.len() as int;
        assert(may_come(local, id, mappings[n - 1]));
        assert(!before.destinations.contains(to)) by {
            if before.destinations.contains(to) {
                let j = before.destinations.index_of(to);
                if j < m {
                    assert(before.destinations.take(m)[j] == to);
                    assert(state.destinations.contains(to));
                } else {
                    assert(before.destinations[m + (j - m)] == mappings[j - m].0);
                }
            }
        }
        lemma_named(local.refs, to, 0);
        let found = fetch::named(local.refs, to, 0);
        if found is Some {
            let current = found->0.id;
            if is_at(local.refs, to, id) {
                lemma_at_once(local.refs, to, current, id);
            }
            if exists|old_id: Seq<u8>| #[trigger]
                is_at(local.refs, to, old_id) && leads_on(local, old_id, id) {
                let old_id = choose|old_id: Seq<u8>| #[trigger]
                    is_at(local.refs, to, old_id) && leads_on(local, old_id, id);
                lemma_at_once(local.refs, to, current, old_id);
            }
            assert(!is_absent(local.refs, to)) by {
                let k = choose|k: int|
                    0 <= k < local.refs.len() && (#[trigger] local.refs[k]).name == to
                        && local.refs[k].id == current && forall|j: int|
                        0 <= j < k ==> (#[trigger] local.refs[j]).name != to;
                assert(local.refs[k].name == to);
            }
        }
        let after = fetch::with_edit(before, local, id, to, force);
        assert(after is Ok);
        let after = after->Ok_0;
        assert(after.destinations == before.destinations.push(to));
        assert(after.destinations.take(m) =~= before.destinations.take(m));
        assert forall|k: int| 0 <= k < n implies after.destinations[m + k] == (
        #[trigger] mappings[k]).0 by {
            if k < n - 1 {
                assert(before.destinations[m + k] == mappings[k].0);
            }
        }
    }
}

/// Whether no two fetched references are kept at one place.
pub open spec fn kept_apart(
    selected: Seq<RemoteModel>,
    remote: Seq<u8>,
    bare: bool,
    rules: Option<Seq<RefSpec>>,
    n: int,
) -> bool {
    &&& forall|i: int, k: int, l: int|
        0 <= i < n && 0 <= k < l < fetch::mappings_of(
            selected[i].name,
            remote,
            bare,
            rules,
        ).len() ==> (#[trigger] fetch::mappings_of(selected[i].name, remote, bare, rules)[k]).0
            != (#[trigger] fetch::mappings_of(selected[i].name, remote, bare, rules)[l]).0
    &&& forall|i: int, j: int, k: int, l: int|
        0 <= i < j < n && 0 <= k < fetch::mappings_of(
            selected[i].name,
            remote,
            bare,
            rules,
        ).len() && 0 <= l < fetch::mappings_of(selected[j].name, remote, bare, rules).len() ==> (
        #[trigger] fetch::mappings_of(selected[i].name, remote, bare, rules)[k]).0 != (
        #[trigger] fetch::mappings_of(selected[j].name, remote, bare, rules)[l]).0
}

proof fn lemma_edits_succeed(
    local: Local,
    selected: Seq<RemoteModel>,
    remote: Seq<u8>,
    bare: bool,
    rules: Option<Seq<RefSpec>>,
    n: int,
)
    requires
        0 <= n <= selected.len(),
        kept_apart(selected, remote, bare, rules, n),
        forall|i: int, k: int|
            0 <= i < n && 0 <= k < fetch::mappings_of(
                selected[i].name,
                remote,
                bare,
                rules,
            ).len() ==> may_come(
                local,
                selected[i].id,
                #[trigger] fetch::mappings_of(selected[i].name, remote, bare, rules)[k],
            ),
    ensures
        fetch::edits_of(local, selected, remote, bare, rules, n) matches Ok(state) && forall|
            name: Seq<u8>,
        | #[trigger] state.destinations.contains(name) ==> exists|i: int, k: int|
            0 <= i < n && 0 <= k < fetch::mappings_of(
                selected[i].name,
                remote,
                bare,
                rules,
            ).len() && (#[trigger] fetch::mappings_of(selected[i].name, remote, bare, rules)[k]).0
                == name,
    decreases n,
{
    if n > 0 {
        lemma_edits_succeed(local, selected, remote, bare, rules, n - 1);
        let before = fetch::edits_of(local, selected, remote, bare, rules, n - 1)->Ok_0;
        let own = fetch::mappings_of(selected[n - 1].name, remote, bare, rules);
        assert forall|k: int| 0 <= k < own.len() implies may_come(
            local,
            selected[n - 1].id,
            #[trigger] own[k],
        ) && !before.destinations.contains(own[k].0) by {
            if before.destinations.contains(own[k].0) {
                let (i, j) = choose|i: int, j: int|
                    0 <= i < n - 1 && 0 <= j < fetch::mappings_of(
                        selected[i].name,
                        remote,
                        bare,
                        rules,
                    ).len() && (#[trigger] fetch::mappings_of(
                        selected[i].name,
                        remote,
                        bare,
                        rules,
                    )[j]).0 == own[k].0;
                assert(fetch::mappings_of(selected[i].name, remote, bare, rules)[j].0
                    != fetch::mappings_of(selected[n - 1].name, remote, bare, rules)[k].0);
            }
        }
        lemma_mappings_succeed(before, local, selected[n - 1].id, own, own.len() as int);
        let after = fetch::edits_of(local, selected, remote, bare, rules, n)->Ok_0;
        let m = before.destinations.len() as int;
        assert forall|name: Seq<u8>| #[trigger]
            after.destinations.contains(name) implies exists|i: int, k: int|
            0 <= i < n && 0 <= k < fetch::mappings_of(
                selected[i].name,
                remote,
                bare,
                rules,
            ).len() && (#[trigger] fetch::mappings_of(selected[i].name, remote, bare, rules)[k]).0
                == name by {
            let j = after.destinations.index_of(name);
            if j < m {
                assert(after.destinations.take(m)[j] == name);
                assert(before.destinations[j] == name);
                assert(before.destinations.contains(name));
            } else {
                assert(after.destinations[m + (j - m)] == own[j - m].0);
                assert(fetch::mappings_of(
                    selected[n - 1].name,
                    remote,
                    bare,
                    rules,
                )[j - m].0 == name);
            }
        }
    }
}

/// A fetch succeeds where no two references are kept at one place and each
/// place can be taken.
pub proof fn lemma_fetch_succeeds(
    local: Local,
    selected: Seq<RemoteModel>,
    remote: Seq<u8>,
    bare: bool,
    rules: Option<Seq<RefSpec>>,
)
    requires
        kept_apart(selected, remote, bare, rules, selected.len() as int),
        forall|i: int, k: int|
            0 <= i < selected.len() && 0 <= k < fetch::mappings_of(
                selected[i].name,
                remote,
                bare,
                rules,
            ).len() ==> may_come(
                local,
                selected[i].id,
                #[trigger] fetch::mappings_of(selected[i].name, remote, bare, rules)[k],
            ),
    ensures
        fetch::edits_of(local, selected, remote, bare, rules, selected.len() as int) is Ok,
{
    lemma_edits_succeed(local, selected, remote, bare, rules, selected.len() as int);
}

// ---------------------------------------------------------------------------
// Where references are kept

/// Without rules, a branch is kept by force among those of its remote, or
/// under its own name where the clone is bare, and a tag under its own name,
/// where it is never moved back.
pub proof fn lemma_kept_without_rules(rest: Seq<u8>, remote: Seq<u8>, bare: bool)
    ensures
        ({
            let heads = bytes::utf8("refs/heads/"@);
            let tags = bytes::utf8("refs/tags/"@);
            &&& fetch::mappings_of(heads + rest, remote, false, None) == seq![
                (bytes::utf8("refs/remotes/"@) + remote + bytes::utf8("/"@) + rest, true),
            ]
            &&& fetch::mappings_of(heads + rest, remote, true, None) == seq![(heads + rest, true)]
            &&& fetch::mappings_of(tags + rest, remote, bare, None) == seq![(tags + rest, false)]
        }),
{
    reveal_strlit("refs/heads/");
    reveal_strlit("refs/tags/");
    reveal_strlit("/");
    bytes::lemma_ascii("refs/heads/"@);
    bytes::lemma_ascii("refs/tags/"@);
    bytes::lemma_ascii("/"@);
    let heads = bytes::utf8("refs/heads/"@);
    let tags = bytes::utf8("refs/tags/"@);
    assert(bytes::utf8("/"@) =~= seq![47u8]);
    assert((heads + rest).take(11) =~= heads);
    assert((tags + rest).take(10) =~= tags);
    assert((heads + rest).skip(11) =~= rest);
    assert(!bytes::has_prefix(heads + rest, tags)) by {
        if bytes::has_prefix(heads + rest, tags) {
            assert((heads + rest).take(10)[5] == tags[5]);
        }
    }
    assert(!bytes::has_prefix(tags + rest, heads)) by {
        if bytes::has_prefix(tags + rest, heads) {
            assert((tags + rest).take(11)[5] == heads[5]);
        }
    }
    assert(fetch::mappings_of(heads + rest, remote, false, None) =~= seq![
        (bytes::utf8("refs/remotes/"@) + remote + bytes::utf8("/"@) + rest, true),
    ]);
    assert(fetch::mappings_of(heads + rest, remote, true, None) =~= seq![(heads + rest, true)]);
    assert(fetch::mappings_of(tags + rest, remote, bare, None) =~= seq![(tags + rest, false)]);
}

/// The rules that keep a name at places are those that ask for it and say
/// where: each gives one place, in their order.
pub proof fn lemma_kept_by_rules(rules: Seq<RefSpec>, name: Seq<u8>, n: int)
    requires
        0 <= n <= rules.len(),
    ensures
        ({
            let list = fetch::rule_mappings(rules, name, n);
            &&& forall|k: int|
                0 <= k < n && !(#[trigger] rules[k]).negative && rules[k].mapped(name) is Some
                    ==> list.contains((rules[k].mapped(name)->0, rules[k].force))
            &&& forall|j: int|
                0 <= j < list.len() ==> exists|k: int|
                    0 <= k < n && !(#[trigger] rules[k]).negative && rules[k].mapped(name) == Some(
                        (#[trigger] list[j]).0,
                    ) && rules[k].force == list[j].1
        }),
    decreases n,
{
    if n > 0 {
        lemma_kept_by_rules(rules, name, n - 1);
        let less = fetch::rule_mappings(rules, name, n - 1);
        let list = fetch::rule_mappings(rules, name, n);
        assert forall|k: int|
            0 <= k < n && !(#[trigger] rules[k]).negative && rules[k].mapped(
                name,
            ) is Some implies list.contains((rules[k].mapped(name)->0, rules[k].force)) by {
            let x = (rules[k].mapped(name)->0, rules[k].force);
            if k < n - 1 {
                assert(less.contains(x));
                let j = less.index_of(x);
                assert(list[j] == x);
            } else {
                assert(list[less.len() as int] == x);
            }
        }
        assert forall|j: int| 0 <= j < list.len() implies exists|k: int|
            0 <= k < n && !(#[trigger] rules[k]).negative && rules[k].mapped(name) == Some(
                (#[trigger] list[j]).0,
            ) && rules[k].force == list[j].1 by {
            if j < less.len() {
                assert(list[j] == less[j]);
                let k = choose|k: int|
                    0 <= k < n - 1 && !(#[trigger] rules[k]).negative && rules[k].mapped(name)
                        == Some(less[j].0) && rules[k].force == less[j].1;
                assert(rules[k].mapped(name) == Some(list[j].0));
            } else {
                assert(rules[n - 1].mapped(name) == Some(list[j].0));
            }
        }
    }
}

/// A star of a rule stands for any text, and the star of the other side for
/// the same text; without a star a rule speaks of one name.
pub proof fn lemma_star_stands_for_text(
    rule: RefSpec,
    a: Seq<u8>,
    b: Seq<u8>,
    c: Seq<u8>,
    d: Seq<u8>,
    text: Seq<u8>,
    name: Seq<u8>,
)
    requires
        !a.contains(42) && !b.contains(42) && !c.contains(42) && !d.contains(42),
        rule.destination is Some,
    ensures
        rule.source@ == a + seq![42u8] + b && rule.destination->0@ == c + seq![42u8] + d
            ==> rule.mapped(a + text + b) == Some(c + text + d),
        rule.source@ == a ==> rule.mapped(a) == Some(rule.destination->0@),
        rule.source@ == a && name != a ==> rule.mapped(name) is None,
        rule.source@ == a + seq![42u8] + b && rule.mapped(name) is Some ==> exists|x: Seq<u8>|
            name == #[trigger] (a + x + b),
{
    let source = rule.source@;
    let to = rule.destination->0@;
    let whole = a + text + b;
    if source == a + seq![42u8] + b {
        let star = a.len() as int;
        assert forall|i: int| 0 <= i < star implies source[i] != 42 by {
            assert(source[i] == a[i]);
            assert(a.contains(a[i]));
        }
        assert(source[star] == 42);
        bytes::lemma_index_from_is(source, 42, 0, star);
        assert(source.take(star) =~= a);
        assert(source.skip(star + 1) =~= b);
        if to == c + seq![42u8] + d {
            let hole = c.len() as int;
            assert forall|i: int| 0 <= i < hole implies to[i] != 42 by {
                assert(to[i] == c[i]);
                assert(c.contains(c[i]));
            }
            assert(to[hole] == 42);
            bytes::lemma_index_from_is(to, 42, 0, hole);
            assert(to.take(hole) =~= c);
            assert(to.skip(hole + 1) =~= d);
            assert(whole.take(star) =~= a);
            assert(whole.skip(whole.len() - b.len()) =~= b);
            assert(whole.subrange(star, whole.len() - b.len()) =~= text);
        }
        if rule.mapped(name) is Some {
            let x = name.subrange(star, name.len() - b.len());
            assert(name.take(star) == a);
            assert(name.skip(name.len() - b.len()) == b);
            assert(name =~= name.take(star) + x + name.skip(name.len() - b.len()));
            assert(name == a + x + b);
        }
    }
    if source == a {
        bytes::lemma_index_from(a, 42, 0);
        assert(bytes::index_from(a, 42, 0) == a.len()) by {
            if bytes::index_from(a, 42, 0) < a.len() {
                assert(a.contains(a[bytes::index_from(a, 42, 0)]));
            }
        }
    }
}

// ---------------------------------------------------------------------------
// Which references are fetched

/// The references that are fetched are those that are advertised and asked
/// for: without rules the branches, with rules those that a rule speaks of and
/// no rule keeps out, and the tags where they are wanted; the marks of peeled
/// tags never are.
pub proof fn lemma_fetched_are_asked_for(
    refs: Seq<RemoteModel>,
    rules: Option<Seq<RefSpec>>,
    tags: bool,
    n: int,
    x: RemoteModel,
)
    requires
        0 <= n <= refs.len(),
    ensures
        fetch::fetched(refs, rules, tags, n).contains(x) <==> refs.take(n).contains(x)
            && !bytes::has_suffix(x.name, bytes::utf8("^{}"@)) && ((tags && bytes::has_prefix(
            x.name,
            bytes::utf8("refs/tags/"@),
        )) || (match rules {
            None => bytes::has_prefix(x.name, bytes::utf8("refs/heads/"@)),
            Some(rules) => (exists|k: int|
                0 <= k < rules.len() && !(#[trigger] rules[k]).negative && fetch::fits_star(
                    rules[k].source@,
                    x.name,
                )) && forall|k: int|
                0 <= k < rules.len() && (#[trigger] rules[k]).negative ==> !fetch::fits_star(
                    rules[k].source@,
                    x.name,
                ),
        })),
    decreases n,
{
    if n > 0 {
        lemma_fetched_are_asked_for(refs, rules, tags, n - 1, x);
        let less = fetch::fetched(refs, rules, tags, n - 1);
        let list = fetch::fetched(refs, rules, tags, n);
        if less.contains(x) {
            let k = less.index_of(x);
            assert(list[k] == x);
        }
        if list.contains(x) {
            let k = list.index_of(x);
            if k < less.len() {
                assert(less[k] == x);
            }
        }
        if refs.take(n).contains(x) {
            let k = refs.take(n).index_of(x);
            if k < n - 1 {
                assert(refs.take(n - 1)[k] == x);
            } else {
                assert(refs[n - 1] == x);
                if fetch::is_fetched(x.name, rules, tags) {
                    assert(list[less.len() as int] == x);
                }
            }
        }
        if refs.take(n - 1).contains(x) {
            let k = refs.take(n - 1).index_of(x);
            assert(refs.take(n)[k] == x);
        }
        if refs[n - 1] == x {
            assert(refs.take(n)[n - 1] == x);
        }
    } else {
        assert(!refs.take(n).contains(x));
    }
}

// ---------------------------------------------------------------------------
// What is asked

/// Whether a text is made of a packet and what stands before and behind it.
pub open spec fn is_made_of(text: Seq<u8>, front: Seq<u8>, data: Seq<u8>, rest: Seq<u8>) -> bool {
    text == front + protocol::wire(Packet::Data(data)) + rest
}

/// Whether a text holds a packet whose data begins with a line.
pub open spec fn says(text: Seq<u8>, line: Seq<u8>) -> bool {
    exists|front: Seq<u8>, data: Seq<u8>, rest: Seq<u8>| #[trigger]
        is_made_of(text, front, data, rest) && bytes::has_prefix(data, line)
}

proof fn lemma_says_more(a: Seq<u8>, text: Seq<u8>, b: Seq<u8>, line: Seq<u8>)
    requires
        says(text, line),
    ensures
        says(a + text + b, line),
{
    let (front, data, rest) = choose|front: Seq<u8>, data: Seq<u8>, rest: Seq<u8>| #[trigger]
        is_made_of(text, front, data, rest) && bytes::has_prefix(data, line);
    assert(a + text + b =~= (a + front) + protocol::wire(Packet::Data(data)) + (rest + b));
    assert(is_made_of(a + text + b, a + front, data, rest + b));
}

proof fn lemma_says(front: Seq<u8>, line: Seq<u8>, more: Seq<u8>)
    ensures
        says(front + protocol::wire(Packet::Data(line + more)), line),
{
    let none = Seq::<u8>::empty();
    let text = front + protocol::wire(Packet::Data(line + more));
    assert(text =~= text + none);
    assert((line + more).take(line.len() as int) =~= line);
    assert(is_made_of(text, front, line + more, none));
}

proof fn lemma_wants(refs: Seq<RemoteModel>, n: int, i: int)
    requires
        0 <= i < n <= refs.len(),
    ensures
        says(
            fetch::wants(refs, n),
            bytes::utf8("want "@) + object::hex_of(refs[i].id),
        ),
    decreases n,
{
    let line = bytes::utf8("want "@) + object::hex_of(refs[i].id);
    let before = fetch::wants(refs, n - 1);
    let none = Seq::<u8>::empty();
    if i < n - 1 {
        lemma_wants(refs, n - 1, i);
        if !fetch::has_id(refs, refs[n - 1].id, n - 1) {
            lemma_says_more(none, before, fetch::want_packet(refs[n - 1].id, n == 1), line);
            assert(none + before =~= before);
        }
    } else if fetch::has_id(refs, refs[i].id, n - 1) {
        let k = choose|k: int| 0 <= k < n - 1 && (#[trigger] refs[k]).id == refs[i].id;
        lemma_wants(refs, n - 1, k);
    } else {
        let extra = if n == 1 {
            bytes::utf8(" side-band-64k ofs-delta no-progress object-format=sha1"@)
        } else {
            Seq::empty()
        };
        assert(line + extra + seq![10u8] =~= line + (extra + seq![10u8]));
        lemma_says(before, line, extra + seq![10u8]);
    }
}

proof fn lemma_haves(ids: Seq<Seq<u8>>, n: int, i: int)
    requires
        0 <= i < n <= ids.len(),
    ensures
        says(fetch::haves(ids, n), bytes::utf8("have "@) + object::hex_of(ids[i])),
    decreases n,
{
    let line = bytes::utf8("have "@) + object::hex_of(ids[i]);
    let before = fetch::haves(ids, n - 1);
    let none = Seq::<u8>::empty();
    if i < n - 1 {
        lemma_haves(ids, n - 1, i);
        lemma_says_more(none, before, fetch::have_packet(ids[n - 1]), line);
        assert(none + before =~= before);
    } else {
        lemma_says(before, line, seq![10u8]);
    }
}

/// A request asks for the object of each reference that is fetched, says which
/// objects are at hand, and ends.
pub proof fn lemma_request_asks(refs: Seq<RemoteModel>, held: Set<Seq<u8>>)
    requires
        held.finite(),
    ensures
        forall|i: int|
            0 <= i < refs.len() ==> says(
                fetch::request_of(refs, held),
                bytes::utf8("want "@) + object::hex_of((#[trigger] refs[i]).id),
            ),
        forall|id: Seq<u8>| #[trigger]
            held.contains(id) ==> says(
                fetch::request_of(refs, held),
                bytes::utf8("have "@) + object::hex_of(id),
            ),
        bytes::has_suffix(
            fetch::request_of(refs, held),
            protocol::wire(Packet::Data(bytes::utf8("done\n"@))),
        ),
{
    let ids = crate::id_set::sorted(held);
    let whole = fetch::request_of(refs, held);
    let asked = fetch::wants(refs, refs.len() as int);
    let flush = protocol::wire(Packet::Flush);
    let at_hand = fetch::haves(ids, ids.len() as int);
    let end = protocol::wire(Packet::Data(bytes::utf8("done\n"@)));
    let none = Seq::<u8>::empty();
    crate::id_set::lemma_sorted_exists(held);
    assert forall|i: int| 0 <= i < refs.len() implies says(
        whole,
        bytes::utf8("want "@) + object::hex_of((#[trigger] refs[i]).id),
    ) by {
        let line = bytes::utf8("want "@) + object::hex_of(refs[i].id);
        lemma_wants(refs, refs.len() as int, i);
        lemma_says_more(none, asked, flush + at_hand + end, line);
        assert(none + asked + (flush + at_hand + end) =~= whole);
    }
    assert forall|id: Seq<u8>| #[trigger] held.contains(id) implies says(
        whole,
        bytes::utf8("have "@) + object::hex_of(id),
    ) by {
        let line = bytes::utf8("have "@) + object::hex_of(id);
        assert(ids.to_set().contains(id));
        let i = ids.index_of(id);
        assert(ids[i] == id);
        lemma_haves(ids, ids.len() as int, i);
        lemma_says_more(asked + flush, at_hand, end, line);
        assert((asked + flush) + at_hand + end =~= whole);
    }
    assert(whole.skip(whole.len() - end.len()) =~= end);
}

// ---------------------------------------------------------------------------
// The branch that a clone begins with

proof fn lemma_branch_at(refs: Seq<RemoteModel>, id: Seq<u8>, from: int)
    requires
        0 <= from <= refs.len(),
    ensures
        match fetch::branch_at(refs, id, from) {
            Some(found) => refs.contains(found) && found.id == id && bytes::has_prefix(
                found.name,
                bytes::utf8("refs/heads/"@),
            ),
            None => forall|k: int|
                from <= k < refs.len() && (#[trigger] refs[k]).id == id ==> !bytes::has_prefix(
                    refs[k].name,
                    bytes::utf8("refs/heads/"@),
                ),
        },
    decreases refs.len() - from,
{
    if from < refs.len() {
        if bytes::has_prefix(refs[from].name, bytes::utf8("refs/heads/"@)) && refs[from].id == id {
            assert(refs.contains(refs[from]));
        } else {
            lemma_branch_at(refs, id, from + 1);
        }
    }
}

/// A clone begins with the branch that the head of the remote names, where it
/// is advertised; else with a branch at the object of the head, where there is
/// one.
pub proof fn lemma_clone_begins_with_the_head(said: Advertised, branch: Seq<u8>, id: Seq<u8>)
    ensures
        ({
            let heads = bytes::utf8("refs/heads/"@);
            let found = fetch::default_branch_of(said);
            &&& said.head_target == Some(heads + branch) && is_at(said.refs, heads + branch, id)
                ==> {
                &&& found == Some(RemoteModel { name: heads + branch, id })
                &&& fetch::initial_branch_of(said) == branch
            }
            &&& said.head_target is None && is_at(said.refs, bytes::utf8("HEAD"@), id) ==> {
                &&& found matches Some(x) ==> said.refs.contains(x) && x.id == id
                    && bytes::has_prefix(x.name, heads) && x.name == heads
                    + fetch::initial_branch_of(said)
                &&& found is None ==> forall|k: int|
                    0 <= k < said.refs.len() && (#[trigger] said.refs[k]).id == id
                        ==> !bytes::has_prefix(said.refs[k].name, heads)
            }
            &&& said.head_target is None && is_absent(said.refs, bytes::utf8("HEAD"@))
                ==> found is None && fetch::initial_branch_of(said) == bytes::utf8("main"@)
        }),
{
    let heads = bytes::utf8("refs/heads/"@);
    let named = heads + branch;
    let head = bytes::utf8("HEAD"@);
    lemma_named(said.refs, named, 0);
    lemma_named(said.refs, head, 0);
    assert(named.take(heads.len() as int) =~= heads);
    assert(named.skip(heads.len() as int) =~= branch);
    if is_at(said.refs, named, id) {
        let k = choose|k: int|
            0 <= k < said.refs.len() && (#[trigger] said.refs[k]).name == named
                && said.refs[k].id == id && forall|j: int|
                0 <= j < k ==> (#[trigger] said.refs[j]).name != named;
        assert(said.refs[k].name == named);
        let found = fetch::named(said.refs, named, 0);
        assert(found is Some);
        lemma_at_once(said.refs, named, id, found->0.id);
    }
    if is_at(said.refs, head, id) {
        let k = choose|k: int|
            0 <= k < said.refs.len() && (#[trigger] said.refs[k]).name == head && said.refs[k].id
                == id && forall|j: int| 0 <= j < k ==> (#[trigger] said.refs[j]).name != head;
        assert(said.refs[k].name == head);
        let found = fetch::named(said.refs, head, 0);
        lemma_at_once(said.refs, head, id, found->0.id);
        lemma_branch_at(said.refs, id, 0);
        let start = fetch::branch_at(said.refs, id, 0);
        if start is Some {
            let name = start->0.name;
            assert(name =~= name.take(heads.len() as int) + name.skip(heads.len() as int));
        }
    }
    if is_absent(said.refs, head) {
        let found = fetch::named(said.refs, head, 0);
        if found is Some {
            let k = choose|k: int|
                0 <= k < said.refs.len() && (#[trigger] said.refs[k]).name == head
                    && said.refs[k].id == found->0.id && forall|j: int|
                    0 <= j < k ==> (#[trigger] said.refs[j]).name != head;
            assert(said.refs[k].name == head);
        }
    }
}

// ---------------------------------------------------------------------------
// What a remote says

/// The line that advertises a reference.
pub open spec fn ref_line(id: Seq<u8>, name: Seq<u8>) -> Seq<u8> {
    object::hex_of(id) + seq![32u8] + name + seq![10u8]
}

/// Some references as a remote advertises them, without capabilities.
pub open spec fn advertised(list: Seq<(ObjectId, Seq<u8>)>) -> Seq<u8>
    decreases list.len(),
{
    if list.len() == 0 {
        Seq::empty()
    } else {
        protocol::wire(Packet::Data(ref_line(list[0].0@, list[0].1))) + advertised(
            list.drop_first(),
        )
    }
}

/// What some references say.
pub open spec fn said_of(list: Seq<(ObjectId, Seq<u8>)>) -> Seq<RemoteModel> {
    Seq::new(list.len(), |i: int| RemoteModel { name: list[i].1, id: list[i].0@ })
}

/// Whether a reference can be advertised.
#[verifier::opaque]
pub open spec fn can_be_said(id: ObjectId, name: Seq<u8>) -> bool {
    refname::valid(name) && vstd::utf8::valid_utf8(name) && protocol::fits(
        Packet::Data(ref_line(id@, name)),
    )
}

#[verifier::spinoff_prover]
#[verifier::rlimit(60)]
proof fn lemma_line_is_read(reading: fetch::Reading, id: ObjectId, name: Seq<u8>)
    requires
        can_be_said(id, name),
        !fetch::has_reference(reading.refs, name),
    ensures
        fetch::with_line(reading, ref_line(id@, name), None) == Ok::<fetch::Reading, Refusal>(
            fetch::Reading {
                refs: reading.refs.push(RemoteModel { name, id: id@ }),
                capabilities: reading.capabilities,
            },
        ),
{
    broadcast use ObjectId::lemma_view;

    reveal(can_be_said);
    let hex = object::hex_of(id@);
    let data = ref_line(id@, name);
    let line = hex + seq![32u8] + name;
    object::lemma_hex_reads_back(id);
    object::lemma_hex_is_text(id@);
    assert(id@.len() == 20);
    assert(hex.len() == 40);
    assert(data.drop_last() =~= line);
    assert(data.last() == 10);
    assert(line.take(40) =~= hex);
    assert(line.skip(41) =~= name);
    assert(line[40] == 32);
    assert forall|i: int| 0 <= i < line.len() implies #[trigger] line[i] != 0 by {
        if i < 40 {
            assert(line[i] == hex[i]);
            let b = id@[i / 2] as int;
            assert(0 <= b / 16 < 16 && 0 <= b % 16 < 16);
        } else if i > 40 {
            assert(line[i] == name[i - 41]);
            assert(refname::allowed(name[i - 41]));
        }
    }
    let nul = bytes::index_from(line, 0, 0);
    bytes::lemma_index_from(line, 0, 0);
    assert(nul == line.len());
    assert(line.take(nul) =~= line);
    let mark = bytes::utf8("^{}"@);
    reveal_strlit("^{}");
    bytes::lemma_ascii("^{}"@);
    if bytes::has_suffix(name, mark) {
        let tail = name.skip(name.len() - mark.len());
        assert(tail[0] == mark[0]);
        assert(mark[0] == 94);
        assert(refname::allowed(name[name.len() - 3]));
    }
    assert(fetch::unmarked(name) == name);
}

#[verifier::spinoff_prover]
#[verifier::rlimit(60)]
proof fn lemma_first_line(
    input: Seq<u8>,
    at: int,
    reading: fetch::Reading,
    id: ObjectId,
    name: Seq<u8>,
    rest: Seq<u8>,
)
    requires
        0 <= at <= input.len(),
        input.skip(at) == protocol::wire(Packet::Data(ref_line(id@, name))) + rest,
        can_be_said(id, name),
        !fetch::has_reference(reading.refs, name),
    ensures
        ({
            let after = at + protocol::wire(Packet::Data(ref_line(id@, name))).len();
            &&& after <= input.len()
            &&& input.skip(after) == rest
            &&& fetch::read_from(input, at, reading, None) == fetch::read_from(
                input,
                after,
                fetch::Reading {
                    refs: reading.refs.push(RemoteModel { name, id: id@ }),
                    capabilities: reading.capabilities,
                },
                None,
            )
        }),
{
    let packet = Packet::Data(ref_line(id@, name));
    let first = protocol::wire(packet);
    assert(protocol::fits(packet)) by {
        reveal(can_be_said);
    }
    protocol::lemma_packet_round_trip(packet, rest);
    lemma_line_is_read(reading, id, name);
    let after = at + first.len();
    assert(input.skip(at).len() == input.len() - at);
    assert(input.skip(after) =~= input.skip(at).skip(first.len() as int));
    assert((first + rest).skip(first.len() as int) =~= rest);
}

#[verifier::spinoff_prover]
#[verifier::rlimit(60)]
proof fn lemma_lines_are_read(
    input: Seq<u8>,
    at: int,
    reading: fetch::Reading,
    list: Seq<(ObjectId, Seq<u8>)>,
    rest: Seq<u8>,
)
    requires
        0 <= at <= input.len(),
        input.skip(at) == advertised(list) + rest,
        forall|i: int| 0 <= i < list.len() ==> can_be_said((#[trigger] list[i]).0, list[i].1),
        forall|i: int, j: int|
            0 <= i < j < list.len() ==> (#[trigger] list[i]).1 != (#[trigger] list[j]).1,
        forall|i: int|
            0 <= i < list.len() ==> !fetch::has_reference(reading.refs, (#[trigger] list[i]).1),
    ensures
        at + advertised(list).len() <= input.len(),
        input.skip(at + advertised(list).len()) == rest,
        fetch::read_from(input, at, reading, None) == fetch::read_from(
            input,
            at + advertised(list).len(),
            fetch::Reading {
                refs: reading.refs + said_of(list),
                capabilities: reading.capabilities,
            },
            None,
        ),
    decreases list.len(),
{
    if list.len() == 0 {
        assert(advertised(list) + rest =~= rest);
        assert(reading.refs + said_of(list) =~= reading.refs);
    } else {
        let (id, name) = list[0];
        let first = protocol::wire(Packet::Data(ref_line(id@, name)));
        let more = list.drop_first();
        assert(advertised(list) + rest =~= first + (advertised(more) + rest));
        lemma_first_line(input, at, reading, id, name, advertised(more) + rest);
        let one = RemoteModel { name, id: id@ };
        let next = fetch::Reading {
            refs: reading.refs.push(one),
            capabilities: reading.capabilities,
        };
        let after = at + first.len();
        assert forall|i: int| 0 <= i < more.len() implies can_be_said(
            (#[trigger] more[i]).0,
            more[i].1,
        ) by {
            assert(more[i] == list[i + 1]);
        }
        assert forall|i: int, j: int| 0 <= i < j < more.len() implies (#[trigger] more[i]).1 != (
        #[trigger] more[j]).1 by {
            assert(more[i] == list[i + 1]);
            assert(more[j] == list[j + 1]);
        }
        assert forall|i: int| 0 <= i < more.len() implies !fetch::has_reference(
            next.refs,
            (#[trigger] more[i]).1,
        ) by {
            assert(more[i] == list[i + 1]);
            assert(list[0].1 != list[i + 1].1);
            if fetch::has_reference(next.refs, more[i].1) {
                let k = choose|k: int|
                    0 <= k < next.refs.len() && (#[trigger] next.refs[k]).name == more[i].1;
                if k < reading.refs.len() {
                    assert(reading.refs[k].name == more[i].1);
                }
            }
        }
        lemma_lines_are_read(input, after, next, more, rest);
        assert(next.refs + said_of(more) =~= reading.refs + said_of(list));
        assert(after + advertised(more).len() == at + advertised(list).len());
    }
}

/// What a remote advertises is what is read of it: each reference under its
/// name, with its object, in their order, and no other.
#[verifier::spinoff_prover]
#[verifier::rlimit(60)]
pub proof fn lemma_advertisement_is_read(list: Seq<(ObjectId, Seq<u8>)>)
    requires
        forall|i: int| 0 <= i < list.len() ==> can_be_said((#[trigger] list[i]).0, list[i].1),
        forall|i: int, j: int|
            0 <= i < j < list.len() ==> (#[trigger] list[i]).1 != (#[trigger] list[j]).1,
    ensures
        fetch::advertisement_of(advertised(list) + protocol::wire(Packet::Flush), None)
            matches Ok(said) && said.refs == said_of(list) && said.head_target is None,
{
    let flush = protocol::wire(Packet::Flush);
    let input = advertised(list) + flush;
    let none = fetch::Reading { refs: Seq::empty(), capabilities: Seq::empty() };
    assert(input.skip(0) =~= input);
    lemma_lines_are_read(input, 0, none, list, flush);
    let at = advertised(list).len() as int;
    let all = fetch::Reading { refs: none.refs + said_of(list), capabilities: none.capabilities };
    assert(none.refs + said_of(list) =~= said_of(list));
    protocol::lemma_packet_round_trip(Packet::Flush, Seq::empty());
    assert(flush + Seq::<u8>::empty() =~= flush);
    assert(input.skip(at) == flush);
    assert(fetch::read_from(input, at, all, None) == Ok::<(fetch::Reading, int), Refusal>(
        (all, at + flush.len()),
    ));
    assert(at + flush.len() == input.len());
}

} // verus!
