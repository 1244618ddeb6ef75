//! Lists in the order of byte strings.

use vstd::prelude::*;

use crate::bytemap;
use crate::bytes;

verus! {

/// The keys of a list.
pub open spec fn keys_of<T>(list: Seq<T>, key: spec_fn(T) -> Seq<u8>) -> Seq<Seq<u8>> {
    Seq::new(list.len(), |i: int| key(list[i]))
}

/// Whether a list holds the members of another in ascending order of keys.
pub open spec fn arranges<T>(
    sorted: Seq<T>,
    list: Seq<T>,
    key: spec_fn(T) -> Seq<u8>,
) -> bool {
    &&& bytemap::ascending(keys_of(sorted, key))
    &&& forall|x: T| #[trigger] sorted.contains(x) <==> list.contains(x)
}

/// The members of a list in ascending order of keys.
pub open spec fn arranged_by<T>(list: Seq<T>, key: spec_fn(T) -> Seq<u8>) -> Seq<T> {
    choose|sorted: Seq<T>| arranges(sorted, list, key)
}

/// There is one arrangement of a list.
pub proof fn lemma_arranged_by<T>(sorted: Seq<T>, list: Seq<T>, key: spec_fn(T) -> Seq<u8>)
    requires
        arranges(sorted, list, key),
    ensures
        arranged_by(list, key) == sorted,
{
    let other = arranged_by(list, key);
    let a = keys_of(sorted, key);
    let b = keys_of(other, key);
    assert forall|x: Seq<u8>| a.contains(x) <==> b.contains(x) by {
        if a.contains(x) {
            let i = a.index_of(x);
            assert(sorted.contains(sorted[i]));
            assert(other.contains(sorted[i]));
            let j = other.index_of(sorted[i]);
            assert(b[j] == x);
        }
        if b.contains(x) {
            let i = b.index_of(x);
            assert(other.contains(other[i]));
            assert(sorted.contains(other[i]));
            let j = sorted.index_of(other[i]);
            assert(a[j] == x);
        }
    }
    lemma_ascending_same(a, b);
    assert forall|i: int| 0 <= i < sorted.len() implies sorted[i] == other[i] by {
        assert(sorted.contains(sorted[i]));
        assert(other.contains(sorted[i]));
        let j = other.index_of(sorted[i]);
        assert(b[j] == a[i]);
        assert(a[i] == b[i]);
        bytes::lemma_lex_irreflexive(b[i]);
        if j < i {
            assert(bytes::lex_lt(b[j], b[i]));
        } else if j > i {
            assert(bytes::lex_lt(b[i], b[j]));
        }
    }
    assert(a.len() == sorted.len() && b.len() == other.len());
    assert(sorted =~= other);
}

/// Two ascending lists with the same members are the same list.
pub proof fn lemma_ascending_same(a: Seq<Seq<u8>>, b: Seq<Seq<u8>>)
    requires
        bytemap::ascending(a),
        bytemap::ascending(b),
        forall|x: Seq<u8>| a.contains(x) <==> b.contains(x),
    ensures
        a == b,
    decreases a.len(),
{
    if a.len() == 0 {
        if b.len() > 0 {
            assert(b.contains(b[0]));
        }
        assert(a =~= b);
    } else if b.len() == 0 {
        assert(a.contains(a[0]));
    } else {
        let x = a.last();
        let y = b.last();
        assert(a.contains(x));
        assert(b.contains(x));
        assert(b.contains(y));
        assert(a.contains(y));
        let i = b.index_of(x);
        let j = a.index_of(y);
        if i < b.len() - 1 && j < a.len() - 1 {
            assert(bytes::lex_lt(b[i], b[b.len() - 1]));
            assert(bytes::lex_lt(a[j], a[a.len() - 1]));
            bytes::lemma_lex_asymmetric(x, y);
        }
        assert(x == y);
        let a1 = a.drop_last();
        let b1 = b.drop_last();
        assert forall|k: int, l: int| 0 <= k < l < a1.len() implies bytes::lex_lt(
            #[trigger] a1[k],
            #[trigger] a1[l],
        ) by {
            assert(bytes::lex_lt(a[k], a[l]));
        }
        assert forall|k: int, l: int| 0 <= k < l < b1.len() implies bytes::lex_lt(
            #[trigger] b1[k],
            #[trigger] b1[l],
        ) by {
            assert(bytes::lex_lt(b[k], b[l]));
        }
        assert forall|z: Seq<u8>| a1.contains(z) <==> b1.contains(z) by {
            bytes::lemma_lex_irreflexive(x);
            if a1.contains(z) {
                let k = a1.index_of(z);
                assert(a[k] == z);
                assert(bytes::lex_lt(a[k], a[a.len() - 1]));
                assert(a.contains(z));
                assert(b.contains(z));
                let l = b.index_of(z);
                assert(b1[l] == z);
            }
            if b1.contains(z) {
                let k = b1.index_of(z);
                assert(b[k] == z);
                assert(bytes::lex_lt(b[k], b[b.len() - 1]));
                assert(b.contains(z));
                assert(a.contains(z));
                let l = a.index_of(z);
                assert(a1[l] == z);
            }
        }
        lemma_ascending_same(a1, b1);
        assert(a =~= a1.push(x));
        assert(b =~= b1.push(y));
    }
}

} // verus!
