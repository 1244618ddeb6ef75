//! Ordered sets of object identifiers.

use vstd::prelude::*;

use crate::bytemap;
use crate::bytes;
use crate::commit;
use crate::object::ObjectId;
use crate::order;

verus! {

/// A set of object identifiers, kept in ascending order.
pub struct IdSet {
    ids: Vec<ObjectId>,
}

/// The members of a set in ascending order.
pub open spec fn sorted(set: Set<Seq<u8>>) -> Seq<Seq<u8>> {
    choose|list: Seq<Seq<u8>>| bytemap::ascending(list) && list.to_set() == set
}

/// There is one ascending list of the members of a set.
pub proof fn lemma_sorted(list: Seq<Seq<u8>>)
    requires
        bytemap::ascending(list),
    ensures
        sorted(list.to_set()) == list,
        list.no_duplicates(),
        list.to_set().len() == list.len(),
        list.to_set().finite(),
{
    let set = list.to_set();
    let other = sorted(set);
    assert(bytemap::ascending(other) && other.to_set() == set);
    assert forall|x: Seq<u8>| list.contains(x) <==> other.contains(x) by {
        assert(list.contains(x) <==> set.contains(x));
        assert(other.contains(x) <==> other.to_set().contains(x));
    }
    order::lemma_ascending_same(list, other);
    assert forall|i: int, j: int|
        0 <= i < list.len() && 0 <= j < list.len() && i != j implies list[i] != list[j] by {
        bytes::lemma_lex_irreflexive(list[i]);
        if i < j {
            assert(bytes::lex_lt(list[i], list[j]));
        } else {
            assert(bytes::lex_lt(list[j], list[i]));
        }
    }
    list.unique_seq_to_set();
}

/// Every finite set has an ascending list of its members.
pub proof fn lemma_sorted_exists(set: Set<Seq<u8>>)
    requires
        set.finite(),
    ensures
        bytemap::ascending(sorted(set)),
        sorted(set).to_set() == set,
    decreases set.len(),
{
    if set.len() == 0 {
        let none = Seq::<Seq<u8>>::empty();
        assert(set =~= Set::empty());
        assert(none.to_set() =~= set);
        lemma_sorted(none);
    } else {
        let x = set.choose();
        lemma_sorted_exists(set.remove(x));
        let list = sorted(set.remove(x));
        assert(!list.contains(x)) by {
            if list.contains(x) {
                assert(list.to_set().contains(x));
            }
        }
        let at = lemma_gap(list, x);
        let more = list.insert(at, x);
        assert forall|i: int, j: int| 0 <= i < j < more.len() implies #[trigger] bytes::lex_lt(
            more[i],
            more[j],
        ) by {
            let a = if i < at { i } else { i - 1 };
            let b = if j < at { j } else { j - 1 };
            if i == at {
                assert(more[j] == list[b]);
            } else if j == at {
                assert(more[i] == list[a]);
            } else {
                assert(more[i] == list[a] && more[j] == list[b]);
                assert(bytes::lex_lt(list[a], list[b]));
            }
        }
        assert forall|y: Seq<u8>| more.to_set().contains(y) <==> set.contains(y) by {
            if more.contains(y) {
                let k = more.index_of(y);
                if k != at {
                    let old_k = if k < at { k } else { k - 1 };
                    assert(list[old_k] == y);
                    assert(list.to_set().contains(y));
                }
            }
            if set.contains(y) {
                if y == x {
                    assert(more[at] == y);
                } else {
                    assert(list.to_set().contains(y));
                    let k = list.index_of(y);
                    let new_k = if k < at { k } else { k + 1 };
                    assert(more[new_k] == y);
                }
            }
        }
        assert(more.to_set() =~= set);
        lemma_sorted(more);
    }
}

/// Where a new member stands in an ascending list.
proof fn lemma_gap(list: Seq<Seq<u8>>, x: Seq<u8>) -> (at: int)
    requires
        bytemap::ascending(list),
        !list.contains(x),
    ensures
        0 <= at <= list.len(),
        forall|i: int| 0 <= i < at ==> bytes::lex_lt(#[trigger] list[i], x),
        forall|i: int| at <= i < list.len() ==> bytes::lex_lt(x, #[trigger] list[i]),
    decreases list.len(),
{
    if list.len() == 0 {
        0
    } else {
        let front = list.drop_last();
        assert forall|i: int, j: int| 0 <= i < j < front.len() implies #[trigger] bytes::lex_lt(
            front[i],
            front[j],
        ) by {
            assert(bytes::lex_lt(list[i], list[j]));
        }
        assert(!front.contains(x)) by {
            if front.contains(x) {
                assert(list[front.index_of(x)] == x);
            }
        }
        let last = list.last();
        assert(last != x) by {
            if last == x {
                assert(list[list.len() - 1] == x);
            }
        }
        bytes::lemma_lex_total(last, x);
        if bytes::lex_lt(last, x) {
            assert forall|i: int| 0 <= i < list.len() implies bytes::lex_lt(
                #[trigger] list[i],
                x,
            ) by {
                if i < list.len() - 1 {
                    assert(bytes::lex_lt(list[i], list[list.len() - 1]));
                    bytes::lemma_lex_transitive(list[i], last, x);
                }
            }
            list.len() as int
        } else {
            let at = lemma_gap(front, x);
            assert forall|i: int| 0 <= i < at implies bytes::lex_lt(#[trigger] list[i], x) by {
                assert(front[i] == list[i]);
            }
            assert forall|i: int| at <= i < list.len() implies bytes::lex_lt(
                x,
                #[trigger] list[i],
            ) by {
                if i < front.len() {
                    assert(front[i] == list[i]);
                }
            }
            at
        }
    }
}

impl IdSet {
    /// The members in ascending order.
    pub closed spec fn list(self) -> Seq<Seq<u8>> {
        commit::raw_ids(self.ids@)
    }

    #[verifier::type_invariant]
    spec fn inv(self) -> bool {
        bytemap::ascending(self.list())
    }
}

impl View for IdSet {
    type V = Set<Seq<u8>>;

    open spec fn view(&self) -> Set<Seq<u8>> {
        self.list().to_set()
    }
}

impl IdSet {
    pub fn new() -> (r: Self)
        ensures
            r@ == Set::<Seq<u8>>::empty(),
            r.list() == Seq::<Seq<u8>>::empty(),
    {
        let r = IdSet { ids: Vec::new() };
        assert(r.list() =~= Seq::<Seq<u8>>::empty());
        assert(r@ =~= Set::<Seq<u8>>::empty());
        r
    }

    pub fn len(&self) -> (r: usize)
        ensures
            r == self@.len(),
            r == self.list().len(),
            self@.finite(),
            self.list() == sorted(self@),
            bytemap::ascending(self.list()),
    {
        proof {
            use_type_invariant(self);
            lemma_sorted(self.list());
        }
        self.ids.len()
    }

    pub fn at(&self, i: usize) -> (r: ObjectId)
        requires
            i < self.list().len(),
        ensures
            r@ == self.list()[i as int],
            self@.contains(r@),
    {
        let r = self.ids[i];
        assert(r@ == self.list()[i as int]);
        assert(self.list().contains(r@));
        r
    }

    /// The members.
    pub fn as_slice(&self) -> (r: &[ObjectId])
        ensures
            commit::raw_ids(r@) == self.list(),
            self.list() == sorted(self@),
    {
        proof {
            use_type_invariant(self);
            lemma_sorted(self.list());
        }
        self.ids.as_slice()
    }

    /// Gives the members up.
    pub fn into_vec(self) -> (r: Vec<ObjectId>)
        ensures
            commit::raw_ids(r@) == self.list(),
            self.list() == sorted(self@),
            bytemap::ascending(self.list()),
            self@.len() == r@.len(),
    {
        proof {
            use_type_invariant(&self);
            lemma_sorted(self.list());
        }
        self.ids
    }

    /// The place at which an identifier stands or would stand.
    fn place(&self, id: ObjectId) -> (r: usize)
        ensures
            r <= self.list().len(),
            forall|j: int| 0 <= j < r ==> bytes::lex_lt(#[trigger] self.list()[j], id@),
            forall|j: int|
                r <= j < self.list().len() ==> !bytes::lex_lt(#[trigger] self.list()[j], id@),
    {
        proof {
            use_type_invariant(self);
        }
        let ghost list = self.list();
        let mut low: usize = 0;
        let mut high: usize = self.ids.len();
        while low < high
            invariant
                low <= high <= list.len(),
                list == self.list(),
                list.len() == self.ids@.len(),
                bytemap::ascending(list),
                forall|j: int| 0 <= j < low ==> bytes::lex_lt(#[trigger] list[j], id@),
                forall|j: int| high <= j < list.len() ==> !bytes::lex_lt(#[trigger] list[j], id@),
            decreases high - low,
        {
            let middle: usize = low + (high - low) / 2;
            assert(list[middle as int] == self.ids@[middle as int]@);
            if self.ids[middle].before(&id) {
                proof {
                    assert forall|j: int| 0 <= j < middle + 1 implies bytes::lex_lt(
                        #[trigger] list[j],
                        id@,
                    ) by {
                        if j < middle {
                            assert(bytes::lex_lt(list[j], list[middle as int]));
                            bytes::lemma_lex_transitive(list[j], list[middle as int], id@);
                        }
                    }
                }
                low = middle + 1;
            } else {
                proof {
                    assert forall|j: int| middle <= j < list.len() implies !bytes::lex_lt(
                        #[trigger] list[j],
                        id@,
                    ) by {
                        if j > middle && bytes::lex_lt(list[j], id@) {
                            assert(bytes::lex_lt(list[middle as int], list[j]));
                            bytes::lemma_lex_transitive(list[middle as int], list[j], id@);
                        }
                    }
                }
                high = middle;
            }
        }
        low
    }

    /// Where an identifier stands.
    pub fn position(&self, id: ObjectId) -> (r: Option<usize>)
        ensures
            match r {
                Some(i) => i < self.list().len() && self.list()[i as int] == id@ && self@.contains(
                    id@,
                ),
                None => !self@.contains(id@) && !self.list().contains(id@),
            },
    {
        let at: usize = self.place(id);
        proof {
            use_type_invariant(self);
        }
        let ghost list = self.list();
        if at < self.ids.len() && self.ids[at].same(&id) {
            assert(list[at as int] == id@);
            assert(list.contains(id@));
            Some(at)
        } else {
            proof {
                if list.contains(id@) {
                    let k = list.index_of(id@);
                    bytes::lemma_lex_irreflexive(id@);
                    assert(list[k] == id@);
                    if k > at {
                        assert(bytes::lex_lt(list[at as int], list[k]));
                    }
                    assert(list[at as int] == self.ids@[at as int]@);
                }
            }
            None
        }
    }

    pub fn contains(&self, id: ObjectId) -> (r: bool)
        ensures
            r == self@.contains(id@),
    {
        self.position(id).is_some()
    }

    /// Puts an identifier in, and tells whether it is new.
    pub fn insert(&mut self, id: ObjectId) -> (r: bool)
        ensures
            final(self)@ == old(self)@.insert(id@),
            r == !old(self)@.contains(id@),
    {
        if self.contains(id) {
            assert(self@ =~= old(self)@.insert(id@));
            return false;
        }
        let at: usize = self.place(id);
        proof {
            use_type_invariant(&*self);
        }
        let ghost before = self.list();
        let mut ids: Vec<ObjectId> = Vec::new();
        std::mem::swap(&mut ids, &mut self.ids);
        ids.insert(at, id);
        proof {
            let after = commit::raw_ids(ids@);
            assert(after =~= before.insert(at as int, id@));
            assert forall|i: int, j: int| 0 <= i < j < after.len() implies #[trigger] bytes::lex_lt(
                after[i],
                after[j],
            ) by {
                if j < at {
                    assert(bytes::lex_lt(before[i], before[j]));
                } else if j == at {
                    assert(bytes::lex_lt(before[i], id@));
                } else if i < at {
                    assert(bytes::lex_lt(before[i], before[j - 1]));
                } else if i == at {
                    assert(!bytes::lex_lt(before[j - 1], id@));
                    assert(before.contains(before[j - 1]));
                    bytes::lemma_lex_total(before[j - 1], id@);
                } else {
                    assert(bytes::lex_lt(before[i - 1], before[j - 1]));
                }
            }
            assert forall|x: Seq<u8>| after.to_set().contains(x) <==> before.to_set().insert(
                id@,
            ).contains(x) by {
                if after.contains(x) {
                    let k = after.index_of(x);
                    if k < at {
                        assert(before[k] == x);
                    } else if k > at {
                        assert(before[k - 1] == x);
                    }
                }
                if before.contains(x) {
                    let k = before.index_of(x);
                    if k < at {
                        assert(after[k] == x);
                    } else {
                        assert(after[k + 1] == x);
                    }
                }
                assert(after[at as int] == id@);
            }
            assert(after.to_set() =~= before.to_set().insert(id@));
        }
        self.ids = ids;
        true
    }

    /// Puts all identifiers of a list in.
    pub fn extend(&mut self, list: &[ObjectId])
        ensures
            final(self)@ == old(self)@.union(commit::raw_ids(list@).to_set()),
    {
        let ghost all = commit::raw_ids(list@);
        let mut i: usize = 0;
        assert(self@ =~= old(self)@.union(all.take(0).to_set()));
        while i < list.len()
            invariant
                i <= list@.len(),
                all == commit::raw_ids(list@),
                self@ == old(self)@.union(all.take(i as int).to_set()),
            decreases list@.len() - i,
        {
            self.insert(list[i]);
            proof {
                assert(all[i as int] == list@[i as int]@);
                assert(all.take(i + 1) =~= all.take(i as int).push(all[i as int]));
                assert forall|x: Seq<u8>| all.take(i + 1).to_set().contains(x) <==> all.take(
                    i as int,
                ).to_set().insert(all[i as int]).contains(x) by {
                    if all.take(i as int).contains(x) {
                        let k = all.take(i as int).index_of(x);
                        assert(all.take(i + 1)[k] == x);
                    }
                    assert(all.take(i + 1)[i as int] == all[i as int]);
                    if all.take(i + 1).contains(x) {
                        let k = all.take(i + 1).index_of(x);
                        if k < i {
                            assert(all.take(i as int)[k] == x);
                        }
                    }
                }
                assert(all.take(i + 1).to_set() =~= all.take(i as int).to_set().insert(
                    all[i as int],
                ));
                assert(self@ =~= old(self)@.union(all.take(i + 1).to_set()));
            }
            i += 1;
        }
        assert(all.take(i as int) =~= all);
    }
}

} // verus!
