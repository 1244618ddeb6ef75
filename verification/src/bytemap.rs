//! An ordered map whose keys are byte strings.

use vstd::prelude::*;

use crate::bytes;

verus! {

struct Slot<V> {
    key: Vec<u8>,
    value: V,
}

/// A map from byte strings to values, kept in lexicographic order of its keys.
pub struct ByteMap<V> {
    slots: Vec<Slot<V>>,
}

/// Keys that stand in strictly ascending order.
pub open spec fn ascending(keys: Seq<Seq<u8>>) -> bool {
    forall|i: int, j: int|
        0 <= i < j < keys.len() ==> #[trigger] bytes::lex_lt(keys[i], keys[j])
}

impl<V> ByteMap<V> {
    /// The keys in ascending order.
    pub closed spec fn keys(self) -> Seq<Seq<u8>> {
        Seq::new(self.slots@.len(), |i: int| self.slots@[i].key@)
    }

    /// The values in the order of their keys.
    pub closed spec fn values(self) -> Seq<V> {
        Seq::new(self.slots@.len(), |i: int| self.slots@[i].value)
    }

    /// What every map satisfies.
    pub open spec fn wf(self) -> bool {
        self.keys().len() == self.values().len() && ascending(self.keys())
    }

    #[verifier::type_invariant]
    spec fn inv(self) -> bool {
        self.wf()
    }
}

impl<V> View for ByteMap<V> {
    type V = Map<Seq<u8>, V>;

    open spec fn view(&self) -> Map<Seq<u8>, V> {
        assoc(self.keys(), self.values())
    }
}

/// The map that pairs each key with the value at its place.
pub open spec fn assoc<V>(keys: Seq<Seq<u8>>, values: Seq<V>) -> Map<Seq<u8>, V> {
    Map::new(|k: Seq<u8>| keys.contains(k), |k: Seq<u8>| values[keys.index_of(k)])
}

/// In an ascending list every key stands once.
pub proof fn lemma_assoc<V>(keys: Seq<Seq<u8>>, values: Seq<V>, i: int)
    requires
        ascending(keys),
        keys.len() == values.len(),
        0 <= i < keys.len(),
    ensures
        assoc(keys, values).contains_key(keys[i]),
        assoc(keys, values)[keys[i]] == values[i],
        keys.index_of(keys[i]) == i,
{
    let k = keys[i];
    assert(keys.contains(k));
    let j = keys.index_of(k);
    assert(keys[j] == k && 0 <= j < keys.len());
    bytes::lemma_lex_irreflexive(k);
    if j < i {
        assert(bytes::lex_lt(keys[j], keys[i]));
    } else if i < j {
        assert(bytes::lex_lt(keys[i], keys[j]));
    }
}

proof fn lemma_insert<V>(
    keys: Seq<Seq<u8>>,
    values: Seq<V>,
    at: int,
    key: Seq<u8>,
    value: V,
)
    requires
        ascending(keys),
        keys.len() == values.len(),
        0 <= at <= keys.len(),
        forall|i: int| 0 <= i < at ==> bytes::lex_lt(#[trigger] keys[i], key),
        forall|i: int| at <= i < keys.len() ==> bytes::lex_lt(key, #[trigger] keys[i]),
    ensures
        ascending(keys.insert(at, key)),
        !assoc(keys, values).contains_key(key),
        assoc(keys.insert(at, key), values.insert(at, value)) == assoc(keys, values).insert(
            key,
            value,
        ),
{
    let nk = keys.insert(at, key);
    let nv = values.insert(at, value);
    assert forall|i: int, j: int| 0 <= i < j < nk.len() implies #[trigger] bytes::lex_lt(
        nk[i],
        nk[j],
    ) by {
        let oi = if i < at {
            i
        } else {
            i - 1
        };
        let oj = if j < at {
            j
        } else {
            j - 1
        };
        if i != at && j != at {
            assert(nk[i] == keys[oi] && nk[j] == keys[oj]);
        }
    }
    bytes::lemma_lex_irreflexive(key);
    assert(!keys.contains(key));
    let before = assoc(keys, values).insert(key, value);
    let after = assoc(nk, nv);
    assert forall|k: Seq<u8>|
        #![trigger before.dom().contains(k)]
        #![trigger after.dom().contains(k)]
        before.dom().contains(k) == after.dom().contains(k) && (before.dom().contains(k)
            ==> before[k] == after[k]) by {
        if k == key {
            assert(nk[at] == key);
            lemma_assoc(nk, nv, at);
        } else if keys.contains(k) {
            let i = keys.index_of(k);
            let ni = if i < at {
                i
            } else {
                i + 1
            };
            assert(nk[ni] == k);
            lemma_assoc(nk, nv, ni);
        } else if nk.contains(k) {
            let ni = nk.index_of(k);
            let i = if ni < at {
                ni
            } else {
                ni - 1
            };
            assert(keys[i] == k);
        }
    }
    assert(before =~= after);
}

proof fn lemma_remove<V>(keys: Seq<Seq<u8>>, values: Seq<V>, at: int)
    requires
        ascending(keys),
        keys.len() == values.len(),
        0 <= at < keys.len(),
    ensures
        ascending(keys.remove(at)),
        assoc(keys.remove(at), values.remove(at)) == assoc(keys, values).remove(keys[at]),
{
    let nk = keys.remove(at);
    let nv = values.remove(at);
    assert forall|i: int, j: int| 0 <= i < j < nk.len() implies #[trigger] bytes::lex_lt(
        nk[i],
        nk[j],
    ) by {
        let oi = if i < at {
            i
        } else {
            i + 1
        };
        let oj = if j < at {
            j
        } else {
            j + 1
        };
        assert(nk[i] == keys[oi] && nk[j] == keys[oj]);
    }
    let before = assoc(keys, values).remove(keys[at]);
    let after = assoc(nk, nv);
    assert forall|k: Seq<u8>|
        #![trigger before.dom().contains(k)]
        #![trigger after.dom().contains(k)]
        before.dom().contains(k) == after.dom().contains(k) && (before.dom().contains(k)
            ==> before[k] == after[k]) by {
        if nk.contains(k) {
            let ni = nk.index_of(k);
            let i = if ni < at {
                ni
            } else {
                ni + 1
            };
            assert(keys[i] == k);
            lemma_assoc(keys, values, i);
            lemma_assoc(keys, values, at);
            lemma_assoc(nk, nv, ni);
        } else if keys.contains(k) && k != keys[at] {
            let i = keys.index_of(k);
            let ni = if i < at {
                i
            } else {
                i - 1
            };
            assert(nk[ni] == k);
        }
    }
    assert(before =~= after);
}

impl<V> ByteMap<V> {
    pub fn new() -> (r: Self)
        ensures
            r.wf(),
            r.keys() == Seq::<Seq<u8>>::empty(),
            r@ == Map::<Seq<u8>, V>::empty(),
    {
        let r = ByteMap { slots: Vec::new() };
        assert(r.keys() =~= Seq::<Seq<u8>>::empty());
        assert(r@ =~= Map::<Seq<u8>, V>::empty());
        r
    }

    pub fn len(&self) -> (r: usize)
        ensures
            r == self.keys().len(),
            r == self@.len(),
            self@.dom().finite(),
            self.keys().to_set() == self@.dom(),
            self.wf(),
    {
        proof {
            use_type_invariant(self);
            let keys = self.keys();
            assert forall|i: int, j: int|
                0 <= i < keys.len() && 0 <= j < keys.len() && i != j implies keys[i]
                != keys[j] by {
                bytes::lemma_lex_irreflexive(keys[i]);
                if i < j {
                    assert(bytes::lex_lt(keys[i], keys[j]));
                } else {
                    assert(bytes::lex_lt(keys[j], keys[i]));
                }
            }
            keys.unique_seq_to_set();
            assert(keys.to_set() =~= self@.dom());
        }
        self.slots.len()
    }

    pub fn key_at(&self, i: usize) -> (r: &Vec<u8>)
        requires
            i < self.keys().len(),
        ensures
            r@ == self.keys()[i as int],
            self.wf(),
            self@.contains_key(r@),
    {
        proof {
            use_type_invariant(self);
            lemma_assoc(self.keys(), self.values(), i as int);
        }
        &self.slots[i].key
    }

    pub fn value_at(&self, i: usize) -> (r: &V)
        requires
            i < self.keys().len(),
        ensures
            *r == self.values()[i as int],
            self.wf(),
            *r == self@[self.keys()[i as int]],
    {
        proof {
            use_type_invariant(self);
            lemma_assoc(self.keys(), self.values(), i as int);
        }
        &self.slots[i].value
    }

    /// The first place whose key is not below `key`, and whether it is `key`.
    fn place(&self, key: &[u8]) -> (r: (usize, bool))
        ensures
            self.wf(),
            r.0 <= self.keys().len(),
            r.1 ==> r.0 < self.keys().len() && self.keys()[r.0 as int] == key@,
            r.1 == self.keys().contains(key@),
            forall|i: int| 0 <= i < r.0 ==> bytes::lex_lt(#[trigger] self.keys()[i], key@),
            !r.1 ==> forall|i: int|
                r.0 <= i < self.keys().len() ==> bytes::lex_lt(key@, #[trigger] self.keys()[i]),
    {
        proof {
            use_type_invariant(self);
        }
        let mut low: usize = 0;
        let mut high: usize = self.slots.len();
        let ghost keys = self.keys();
        while low < high
            invariant
                low <= high <= self.slots@.len(),
                keys == self.keys(),
                ascending(keys),
                forall|i: int| 0 <= i < low ==> bytes::lex_lt(#[trigger] keys[i], key@),
                forall|i: int| high <= i < keys.len() ==> bytes::lex_lt(key@, #[trigger] keys[i]),
            decreases high - low,
        {
            let middle: usize = low + (high - low) / 2;
            let candidate = &self.slots[middle].key;
            assert(candidate@ == keys[middle as int]);
            if bytes::bytes_lt(candidate.as_slice(), key) {
                assert forall|i: int| 0 <= i < middle + 1 implies bytes::lex_lt(
                    #[trigger] keys[i],
                    key@,
                ) by {
                    if i < middle {
                        assert(bytes::lex_lt(keys[i], keys[middle as int]));
                        bytes::lemma_lex_transitive(keys[i], keys[middle as int], key@);
                    }
                }
                low = middle + 1;
            } else if bytes::bytes_lt(key, candidate.as_slice()) {
                assert forall|i: int| middle <= i < keys.len() implies bytes::lex_lt(
                    key@,
                    #[trigger] keys[i],
                ) by {
                    if i > middle {
                        assert(bytes::lex_lt(keys[middle as int], keys[i]));
                        bytes::lemma_lex_transitive(key@, keys[middle as int], keys[i]);
                    }
                }
                high = middle;
            } else {
                proof {
                    bytes::lemma_lex_total(candidate@, key@);
                    assert forall|i: int| 0 <= i < middle implies bytes::lex_lt(
                        #[trigger] keys[i],
                        key@,
                    ) by {
                        assert(bytes::lex_lt(keys[i], keys[middle as int]));
                    }
                }
                return (middle, true);
            }
        }
        proof {
            if keys.contains(key@) {
                let i = keys.index_of(key@);
                bytes::lemma_lex_irreflexive(key@);
                assert(keys[i] == key@);
            }
        }
        (low, false)
    }

    pub fn contains(&self, key: &[u8]) -> (r: bool)
        ensures
            r == self@.contains_key(key@),
            self.wf(),
    {
        self.place(key).1
    }

    pub fn get(&self, key: &[u8]) -> (r: Option<&V>)
        ensures
            self.wf(),
            match r {
                Some(value) => self@.contains_key(key@) && *value == self@[key@],
                None => !self@.contains_key(key@),
            },
    {
        let (at, found) = self.place(key);
        if found {
            proof {
                lemma_assoc(self.keys(), self.values(), at as int);
            }
            Some(&self.slots[at].value)
        } else {
            None
        }
    }

    /// Stores a value and gives back the one that it replaces.
    pub fn insert(&mut self, key: Vec<u8>, value: V) -> (r: Option<V>)
        ensures
            final(self).wf(),
            final(self)@ == old(self)@.insert(key@, value),
            match r {
                Some(previous) => old(self)@.contains_key(key@) && previous == old(self)@[key@],
                None => !old(self)@.contains_key(key@),
            },
    {
        let (at, found) = self.place(key.as_slice());
        let ghost keys = self.keys();
        let ghost values = self.values();
        let mut slots: Vec<Slot<V>> = Vec::new();
        std::mem::swap(&mut slots, &mut self.slots);
        if found {
            proof {
                lemma_assoc(keys, values, at as int);
            }
            let ghost before = slots@;
            let old_slot = slots.remove(at);
            slots.insert(at, Slot { key, value });
            proof {
                assert(slots@ =~= before.update(at as int, Slot { key, value }));
                let nk = Seq::new(slots@.len(), |i: int| slots@[i].key@);
                let nv = Seq::new(slots@.len(), |i: int| slots@[i].value);
                assert(nk =~= keys);
                assert(nv =~= values.update(at as int, value));
                assert forall|k: Seq<u8>| keys.contains(k) implies (if k == key@ {
                    assoc(nk, nv)[k] == value
                } else {
                    assoc(nk, nv)[k] == assoc(keys, values)[k]
                }) by {
                    let i = keys.index_of(k);
                    assert(keys[i] == k);
                    lemma_assoc(keys, values, i);
                    lemma_assoc(nk, nv, i);
                }
                assert(assoc(nk, nv) =~= assoc(keys, values).insert(key@, value));
            }
            self.slots = slots;
            assert(self.keys() =~= keys);
            assert(self.values() =~= values.update(at as int, value));
            Some(old_slot.value)
        } else {
            let ghost before = slots@;
            slots.insert(at, Slot { key, value });
            proof {
                lemma_insert(keys, values, at as int, key@, value);
                let nk = Seq::new(slots@.len(), |i: int| slots@[i].key@);
                let nv = Seq::new(slots@.len(), |i: int| slots@[i].value);
                assert(nk =~= keys.insert(at as int, key@));
                assert(nv =~= values.insert(at as int, value));
            }
            self.slots = slots;
            assert(self.keys() =~= keys.insert(at as int, key@));
            assert(self.values() =~= values.insert(at as int, value));
            None
        }
    }

    /// Takes a key and its value out.
    pub fn remove(&mut self, key: &[u8]) -> (r: Option<V>)
        ensures
            final(self).wf(),
            final(self)@ == old(self)@.remove(key@),
            match r {
                Some(previous) => old(self)@.contains_key(key@) && previous == old(self)@[key@],
                None => !old(self)@.contains_key(key@),
            },
    {
        let (at, found) = self.place(key);
        if !found {
            assert(self@ =~= self@.remove(key@));
            return None;
        }
        let ghost keys = self.keys();
        let ghost values = self.values();
        let mut slots: Vec<Slot<V>> = Vec::new();
        std::mem::swap(&mut slots, &mut self.slots);
        let slot = slots.remove(at);
        proof {
            lemma_assoc(keys, values, at as int);
            lemma_remove(keys, values, at as int);
            let nk = Seq::new(slots@.len(), |i: int| slots@[i].key@);
            let nv = Seq::new(slots@.len(), |i: int| slots@[i].value);
            assert(nk =~= keys.remove(at as int));
            assert(nv =~= values.remove(at as int));
        }
        self.slots = slots;
        assert(self.keys() =~= keys.remove(at as int));
        assert(self.values() =~= values.remove(at as int));
        Some(slot.value)
    }
}

} // verus!
