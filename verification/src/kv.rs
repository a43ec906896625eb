//! Sequences of keyed entries viewed as maps.
//!
//! The world state stores its indexes as vectors of entries with unique
//! keys; this module defines the map such a sequence denotes and the
//! lemmas that relate sequence edits to map edits.

use vstd::prelude::*;

verus! {

/// No two entries of `s` share a key.
pub open spec fn key_distinct<A, K>(s: Seq<A>, key: spec_fn(A) -> K) -> bool {
    forall|i: int, j: int| 0 <= i < j < s.len() ==> key(s[i]) != key(s[j])
}

/// The map a keyed sequence denotes; later entries shadow earlier ones,
/// though under `key_distinct` there is nothing to shadow.
pub open spec fn assoc_map<A, K, V>(s: Seq<A>, key: spec_fn(A) -> K, val: spec_fn(A) -> V) -> Map<
    K,
    V,
>
    decreases s.len(),
{
    if s.len() == 0 {
        Map::empty()
    } else {
        assoc_map(s.drop_last(), key, val).insert(key(s.last()), val(s.last()))
    }
}

/// A key is in the map exactly when some entry carries it.
pub proof fn lemma_assoc_dom<A, K, V>(s: Seq<A>, key: spec_fn(A) -> K, val: spec_fn(A) -> V)
    ensures
        forall|k: K|
            assoc_map(s, key, val).dom().contains(k) <==> (exists|i: int|
                0 <= i < s.len() && key(#[trigger] s[i]) == k),
    decreases s.len(),
{
    if s.len() > 0 {
        lemma_assoc_dom(s.drop_last(), key, val);
        assert forall|k: K| assoc_map(s, key, val).dom().contains(k) implies (exists|i: int|
            0 <= i < s.len() && key(#[trigger] s[i]) == k) by {
            if k == key(s.last()) {
                assert(key(s[s.len() - 1]) == k);
            } else {
                assert(assoc_map(s.drop_last(), key, val).dom().contains(k));
                let i = choose|i: int| 0 <= i < s.drop_last().len() && key(
                    #[trigger] s.drop_last()[i],
                ) == k;
                assert(s.drop_last()[i] == s[i]);
                assert(key(s[i]) == k);
            }
        }
        assert forall|k: K| (exists|i: int|
            0 <= i < s.len() && key(#[trigger] s[i]) == k) implies assoc_map(
            s,
            key,
            val,
        ).dom().contains(k) by {
            let i = choose|i: int| 0 <= i < s.len() && key(#[trigger] s[i]) == k;
            if i < s.len() - 1 {
                assert(s.drop_last()[i] == s[i]);
                assert(exists|j: int|
                    0 <= j < s.drop_last().len() && key(#[trigger] s.drop_last()[j]) == k);
                assert(assoc_map(s.drop_last(), key, val).dom().contains(k));
            }
        }
    }
}

/// Under distinct keys, the entry at index `i` gives the map's value at
/// its key.
pub proof fn lemma_assoc_index<A, K, V>(
    s: Seq<A>,
    key: spec_fn(A) -> K,
    val: spec_fn(A) -> V,
    i: int,
)
    requires
        key_distinct(s, key),
        0 <= i < s.len(),
    ensures
        assoc_map(s, key, val).dom().contains(key(s[i])),
        assoc_map(s, key, val)[key(s[i])] == val(s[i]),
    decreases s.len(),
{
    if i == s.len() - 1 {
    } else {
        assert(key_distinct(s.drop_last(), key));
        assert(s.drop_last()[i] == s[i]);
        lemma_assoc_index(s.drop_last(), key, val, i);
        assert(key(s[i]) != key(s[s.len() - 1]));
    }
}

/// Appending an entry inserts its key.
pub proof fn lemma_assoc_push<A, K, V>(
    s: Seq<A>,
    key: spec_fn(A) -> K,
    val: spec_fn(A) -> V,
    a: A,
)
    ensures
        assoc_map(s.push(a), key, val) == assoc_map(s, key, val).insert(key(a), val(a)),
{
    assert(s.push(a).drop_last() =~= s);
    assert(s.push(a).last() == a);
}

/// Overwriting the entry at `i` with one of the same key updates the
/// map at that key.
pub proof fn lemma_assoc_update<A, K, V>(
    s: Seq<A>,
    key: spec_fn(A) -> K,
    val: spec_fn(A) -> V,
    i: int,
    a: A,
)
    requires
        key_distinct(s, key),
        0 <= i < s.len(),
        key(a) == key(s[i]),
    ensures
        assoc_map(s.update(i, a), key, val) == assoc_map(s, key, val).insert(key(a), val(a)),
    decreases s.len(),
{
    if i == s.len() - 1 {
        assert(s.update(i, a).drop_last() =~= s.drop_last());
        assert(s.update(i, a).last() == a);
        assert(assoc_map(s.drop_last(), key, val).insert(key(s.last()), val(s.last())).insert(
            key(a),
            val(a),
        ) =~= assoc_map(s.drop_last(), key, val).insert(key(a), val(a)));
    } else {
        assert(key_distinct(s.drop_last(), key));
        assert(s.drop_last()[i] == s[i]);
        lemma_assoc_update(s.drop_last(), key, val, i, a);
        assert(s.update(i, a).drop_last() =~= s.drop_last().update(i, a));
        assert(s.update(i, a).last() == s.last());
        assert(key(a) != key(s.last()));
        assert(assoc_map(s.drop_last(), key, val).insert(key(a), val(a)).insert(
            key(s.last()),
            val(s.last()),
        ) =~= assoc_map(s.drop_last(), key, val).insert(key(s.last()), val(s.last())).insert(
            key(a),
            val(a),
        ));
    }
}

/// Deleting the entry at `i` removes its key.
pub proof fn lemma_assoc_remove<A, K, V>(
    s: Seq<A>,
    key: spec_fn(A) -> K,
    val: spec_fn(A) -> V,
    i: int,
)
    requires
        key_distinct(s, key),
        0 <= i < s.len(),
    ensures
        assoc_map(s.remove(i), key, val) == assoc_map(s, key, val).remove(key(s[i])),
    decreases s.len(),
{
    if i == s.len() - 1 {
        assert(s.remove(i) =~= s.drop_last());
        lemma_assoc_dom(s.drop_last(), key, val);
        assert forall|j: int| 0 <= j < s.drop_last().len() implies key(
            #[trigger] s.drop_last()[j],
        ) != key(s[i]) by {
            assert(s.drop_last()[j] == s[j]);
        }
        assert(!assoc_map(s.drop_last(), key, val).dom().contains(key(s[i])));
        assert(assoc_map(s.drop_last(), key, val).insert(key(s.last()), val(s.last())).remove(
            key(s[i]),
        ) =~= assoc_map(s.drop_last(), key, val));
    } else {
        assert(key_distinct(s.drop_last(), key));
        assert(s.drop_last()[i] == s[i]);
        lemma_assoc_remove(s.drop_last(), key, val, i);
        assert(s.remove(i).drop_last() =~= s.drop_last().remove(i));
        assert(s.remove(i).last() == s.last());
        assert(key(s[i]) != key(s.last()));
        assert(assoc_map(s.drop_last(), key, val).remove(key(s[i])).insert(
            key(s.last()),
            val(s.last()),
        ) =~= assoc_map(s.drop_last(), key, val).insert(key(s.last()), val(s.last())).remove(
            key(s[i]),
        ));
    }
}

/// Whether some of the first `k` elements of `s` equals `c`.
pub open spec fn prefix_has<T>(s: Seq<T>, k: int, c: T) -> bool {
    exists|l: int| 0 <= l < k && s[l] == c
}

/// Two sequences with pointwise equal keys and values denote the same
/// map.
pub proof fn lemma_assoc_congruent<A, K, V>(
    s1: Seq<A>,
    s2: Seq<A>,
    key: spec_fn(A) -> K,
    val: spec_fn(A) -> V,
)
    requires
        s1.len() == s2.len(),
        forall|i: int|
            0 <= i < s1.len() ==> key(#[trigger] s1[i]) == key(s2[i]) && val(s1[i]) == val(s2[i]),
    ensures
        assoc_map(s1, key, val) == assoc_map(s2, key, val),
    decreases s1.len(),
{
    if s1.len() > 0 {
        assert forall|i: int| 0 <= i < s1.drop_last().len() implies key(
            #[trigger] s1.drop_last()[i],
        ) == key(s2.drop_last()[i]) && val(s1.drop_last()[i]) == val(s2.drop_last()[i]) by {
            assert(s1.drop_last()[i] == s1[i]);
            assert(s2.drop_last()[i] == s2[i]);
        }
        lemma_assoc_congruent(s1.drop_last(), s2.drop_last(), key, val);
        assert(key(s1.last()) == key(s2[s1.len() - 1]));
        assert(val(s1.last()) == val(s2[s1.len() - 1]));
    }
}

/// A distinct-keyed sequence stays distinct when an entry is replaced
/// by one with the same key.
pub proof fn lemma_distinct_update<A, K>(s: Seq<A>, key: spec_fn(A) -> K, i: int, a: A)
    requires
        key_distinct(s, key),
        0 <= i < s.len(),
        key(a) == key(s[i]),
    ensures
        key_distinct(s.update(i, a), key),
{
}

/// A distinct-keyed sequence stays distinct when an entry is removed.
pub proof fn lemma_distinct_remove<A, K>(s: Seq<A>, key: spec_fn(A) -> K, i: int)
    requires
        key_distinct(s, key),
        0 <= i < s.len(),
    ensures
        key_distinct(s.remove(i), key),
{
    assert forall|p: int, q: int| 0 <= p < q < s.remove(i).len() implies key(
        #[trigger] s.remove(i)[p],
    ) != key(#[trigger] s.remove(i)[q]) by {
        let p0 = if p < i {
            p
        } else {
            p + 1
        };
        let q0 = if q < i {
            q
        } else {
            q + 1
        };
        assert(s.remove(i)[p] == s[p0]);
        assert(s.remove(i)[q] == s[q0]);
    }
}

/// Appending an entry with a fresh key keeps the keys distinct.
pub proof fn lemma_distinct_push<A, K, V>(s: Seq<A>, key: spec_fn(A) -> K, val: spec_fn(A) -> V, a: A)
    requires
        key_distinct(s, key),
        !assoc_map(s, key, val).dom().contains(key(a)),
    ensures
        key_distinct(s.push(a), key),
{
    lemma_assoc_dom(s, key, val);
    assert forall|p: int, q: int| 0 <= p < q < s.push(a).len() implies key(
        #[trigger] s.push(a)[p],
    ) != key(#[trigger] s.push(a)[q]) by {
        if q == s.len() {
            assert(s.push(a)[p] == s[p]);
            assert(key(s[p]) != key(a));
        } else {
            assert(s.push(a)[p] == s[p]);
            assert(s.push(a)[q] == s[q]);
        }
    }
}

} // verus!
