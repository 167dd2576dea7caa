//! Association lists viewed as maps.
//!
//! The caches and the timer schedule all store their entries as vectors of
//! key-value pairs with pairwise-distinct keys. This module gives such a
//! sequence its mathematical reading as a `Map`, together with the lemmas
//! relating sequence edits (push, remove, update) to map edits.

use vstd::prelude::*;

verus! {

/// The map an association list denotes. Later pairs win, but the lists in
/// this crate always carry pairwise-distinct keys.
pub open spec fn assoc_map<K, V>(s: Seq<(K, V)>) -> Map<K, V>
    decreases s.len(),
{
    if s.len() == 0 {
        Map::empty()
    } else {
        assoc_map(s.drop_last()).insert(s.last().0, s.last().1)
    }
}

/// No key occurs twice.
pub open spec fn unique_keys<K, V>(s: Seq<(K, V)>) -> bool {
    forall|i: int, j: int| 0 <= i < j < s.len() ==> (#[trigger] s[i]).0 != (#[trigger] s[j]).0
}

/// A key is in the map exactly when some pair carries it.
pub proof fn lemma_assoc_map_dom<K, V>(s: Seq<(K, V)>, k: K)
    ensures
        assoc_map(s).contains_key(k) <==> exists|i: int|
            0 <= i < s.len() && (#[trigger] s[i]).0 == k,
    decreases s.len(),
{
    if s.len() > 0 {
        lemma_assoc_map_dom(s.drop_last(), k);
        if s.last().0 == k {
            assert(s[s.len() - 1].0 == k);
        } else if assoc_map(s).contains_key(k) {
            let i = choose|i: int| 0 <= i < s.drop_last().len() && (#[trigger] s.drop_last()[i]).0 == k;
            assert(s[i].0 == k);
        } else {
            assert forall|i: int| 0 <= i < s.len() implies (#[trigger] s[i]).0 != k by {
                if i < s.len() - 1 {
                    assert(s.drop_last()[i].0 != k);
                }
            }
        }
    }
}

/// With distinct keys, the pair at index `i` gives the map's value at its key.
pub proof fn lemma_assoc_map_index<K, V>(s: Seq<(K, V)>, i: int)
    requires
        unique_keys(s),
        0 <= i < s.len(),
    ensures
        assoc_map(s).contains_key(s[i].0),
        assoc_map(s)[s[i].0] == s[i].1,
    decreases s.len(),
{
    lemma_assoc_map_dom(s, s[i].0);
    if i < s.len() - 1 {
        assert(s[i].0 != s[s.len() - 1].0);
        assert(s.drop_last()[i] == s[i]);
        lemma_assoc_map_index(s.drop_last(), i);
    }
}

/// Appending a pair inserts its binding.
pub proof fn lemma_assoc_map_push<K, V>(s: Seq<(K, V)>, k: K, v: V)
    ensures
        assoc_map(s.push((k, v))) == assoc_map(s).insert(k, v),
{
    assert(s.push((k, v)).drop_last() =~= s);
    assert(s.push((k, v)).last() == (k, v));
}

/// Removing the pair at index `i` removes its key's binding.
pub proof fn lemma_assoc_map_remove<K, V>(s: Seq<(K, V)>, i: int)
    requires
        unique_keys(s),
        0 <= i < s.len(),
    ensures
        assoc_map(s.remove(i)) == assoc_map(s).remove(s[i].0),
    decreases s.len(),
{
    let k = s[i].0;
    if i == s.len() - 1 {
        assert(s.remove(i) =~= s.drop_last());
        lemma_assoc_map_dom(s.drop_last(), k);
        assert forall|j: int| 0 <= j < s.drop_last().len() implies (#[trigger] s.drop_last()[j]).0 != k by {
            assert(s[j].0 != s[i].0);
        }
        assert(!assoc_map(s.drop_last()).contains_key(k));
        assert(assoc_map(s).remove(k) =~= assoc_map(s.drop_last()));
    } else {
        let t = s.drop_last();
        assert(s.remove(i) =~= t.remove(i).push(s.last()));
        assert forall|a: int, b: int| 0 <= a < b < t.len() implies (#[trigger] t[a]).0 != (#[trigger] t[b]).0 by {
            assert(s[a].0 != s[b].0);
        }
        assert(t[i] == s[i]);
        lemma_assoc_map_remove(t, i);
        lemma_assoc_map_push(t.remove(i), s.last().0, s.last().1);
        assert(s[i].0 != s[s.len() - 1].0);
        assert(assoc_map(t).remove(k).insert(s.last().0, s.last().1)
            =~= assoc_map(t).insert(s.last().0, s.last().1).remove(k));
    }
}

/// Overwriting the pair at index `i` with the same key updates its binding.
pub proof fn lemma_assoc_map_update<K, V>(s: Seq<(K, V)>, i: int, v: V)
    requires
        unique_keys(s),
        0 <= i < s.len(),
    ensures
        assoc_map(s.update(i, (s[i].0, v))) == assoc_map(s).insert(s[i].0, v),
    decreases s.len(),
{
    let k = s[i].0;
    if i == s.len() - 1 {
        assert(s.update(i, (k, v)).drop_last() =~= s.drop_last());
        assert(s.update(i, (k, v)).last() == (k, v));
        assert(assoc_map(s.drop_last()).insert(k, s[i].1).insert(k, v)
            =~= assoc_map(s.drop_last()).insert(k, v));
    } else {
        let t = s.drop_last();
        assert forall|a: int, b: int| 0 <= a < b < t.len() implies (#[trigger] t[a]).0 != (#[trigger] t[b]).0 by {
            assert(s[a].0 != s[b].0);
        }
        assert(t[i] == s[i]);
        lemma_assoc_map_update(t, i, v);
        assert(s.update(i, (k, v)).drop_last() =~= t.update(i, (k, v)));
        assert(s.update(i, (k, v)).last() == s.last());
        assert(s[i].0 != s[s.len() - 1].0);
        assert(assoc_map(t).insert(k, v).insert(s.last().0, s.last().1)
            =~= assoc_map(t).insert(s.last().0, s.last().1).insert(k, v));
    }
}

/// Inserting a pair with a fresh key anywhere inserts its binding.
pub proof fn lemma_assoc_map_insert_at<K, V>(s: Seq<(K, V)>, i: int, k: K, v: V)
    requires
        unique_keys(s),
        0 <= i <= s.len(),
        forall|j: int| 0 <= j < s.len() ==> (#[trigger] s[j]).0 != k,
    ensures
        unique_keys(s.insert(i, (k, v))),
        assoc_map(s.insert(i, (k, v))) == assoc_map(s).insert(k, v),
    decreases s.len(),
{
    let s2 = s.insert(i, (k, v));
    assert forall|a: int, b: int| 0 <= a < b < s2.len() implies (#[trigger] s2[a]).0 != (
    #[trigger] s2[b]).0 by {
        let oa: int = if a < i { a } else { a - 1 };
        let ob: int = if b < i { b } else { b - 1 };
        if a == i {
            assert(s2[b].0 == s[ob].0);
        } else if b == i {
            assert(s2[a].0 == s[oa].0);
        } else {
            assert(s2[a].0 == s[oa].0 && s2[b].0 == s[ob].0);
            assert(s[oa].0 != s[ob].0);
        }
    }
    if i == s.len() {
        assert(s2 =~= s.push((k, v)));
        lemma_assoc_map_push(s, k, v);
    } else {
        let t = s.drop_last();
        assert forall|a: int, b: int| 0 <= a < b < t.len() implies (#[trigger] t[a]).0 != (
        #[trigger] t[b]).0 by {
            assert(s[a].0 != s[b].0);
        }
        assert forall|j: int| 0 <= j < t.len() implies (#[trigger] t[j]).0 != k by {
            assert(s[j].0 != k);
        }
        lemma_assoc_map_insert_at(t, i, k, v);
        assert(s2.drop_last() =~= t.insert(i, (k, v)));
        assert(s2.last() == s.last());
        assert(s.last().0 != k);
        assert(assoc_map(t).insert(k, v).insert(s.last().0, s.last().1) =~= assoc_map(t).insert(
            s.last().0,
            s.last().1,
        ).insert(k, v));
    }
}

/// No element occurs twice.
pub open spec fn distinct_elems<T>(s: Seq<T>) -> bool {
    forall|i: int, j: int| 0 <= i < j < s.len() ==> s[i] != s[j]
}

/// What a sequence contains after removing the element at `i`, when all
/// elements are distinct.
pub proof fn lemma_seq_remove_contains<T>(s: Seq<T>, i: int)
    requires
        distinct_elems(s),
        0 <= i < s.len(),
    ensures
        forall|x: T| s.remove(i).contains(x) <==> (s.contains(x) && x != s[i]),
{
    let s2 = s.remove(i);
    assert forall|x: T| s2.contains(x) implies s.contains(x) && x != s[i] by {
        let j = choose|j: int| 0 <= j < s2.len() && s2[j] == x;
        if j < i {
            assert(s[j] == x);
        } else {
            assert(s[j + 1] == x);
        }
    }
    assert forall|x: T| s.contains(x) && x != s[i] implies s2.contains(x) by {
        let j = choose|j: int| 0 <= j < s.len() && s[j] == x;
        if j < i {
            assert(s2[j] == x);
        } else {
            assert(s2[j - 1] == x);
        }
    }
}

/// What a sequence contains after inserting `v` at `i`.
pub proof fn lemma_seq_insert_contains<T>(s: Seq<T>, i: int, v: T)
    requires
        0 <= i <= s.len(),
    ensures
        forall|x: T| s.insert(i, v).contains(x) <==> (s.contains(x) || x == v),
{
    let s2 = s.insert(i, v);
    assert forall|x: T| s2.contains(x) implies s.contains(x) || x == v by {
        let j = choose|j: int| 0 <= j < s2.len() && s2[j] == x;
        if j < i {
            assert(s[j] == x);
        } else if j > i {
            assert(s[j - 1] == x);
        }
    }
    assert forall|x: T| s.contains(x) || x == v implies s2.contains(x) by {
        if x == v {
            assert(s2[i] == x);
        } else {
            let j = choose|j: int| 0 <= j < s.len() && s[j] == x;
            if j < i {
                assert(s2[j] == x);
            } else {
                assert(s2[j + 1] == x);
            }
        }
    }
}

/// With distinct keys the map has exactly one binding per pair.
pub proof fn lemma_assoc_map_len<K, V>(s: Seq<(K, V)>)
    requires
        unique_keys(s),
    ensures
        assoc_map(s).dom().finite(),
        assoc_map(s).dom().len() == s.len(),
    decreases s.len(),
{
    if s.len() > 0 {
        let t = s.drop_last();
        assert forall|a: int, b: int| 0 <= a < b < t.len() implies (#[trigger] t[a]).0 != (#[trigger] t[b]).0 by {
            assert(s[a].0 != s[b].0);
        }
        lemma_assoc_map_len(t);
        lemma_assoc_map_dom(t, s.last().0);
        assert forall|j: int| 0 <= j < t.len() implies (#[trigger] t[j]).0 != s.last().0 by {
            assert(s[j].0 != s[s.len() - 1].0);
        }
        assert(!assoc_map(t).contains_key(s.last().0));
        vstd::set::axiom_set_insert_finite(assoc_map(t).dom(), s.last().0);
        vstd::set::axiom_set_insert_len(assoc_map(t).dom(), s.last().0);
        assert(assoc_map(s).dom() =~= assoc_map(t).dom().insert(s.last().0));
    } else {
        broadcast use vstd::set::axiom_set_empty_len;

        assert(assoc_map(s).dom() =~= Set::<K>::empty());
    }
}

} // verus!
