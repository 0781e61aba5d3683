//! Association lists as finite maps.
//!
//! Several structures of the library keep their entries in a vector of
//! key-value pairs with no key twice. This module says which map such a
//! list stands for and how pushing and removing entries changes it.

use vstd::prelude::*;

verus! {

/// The value that the list gives to `k`: that of the last pair with key `k`.
pub open spec fn assoc_get<K, V>(s: Seq<(K, V)>, k: K) -> Option<V>
    decreases s.len(),
{
    if s.len() == 0 {
        None
    } else if s.last().0 == k {
        Some(s.last().1)
    } else {
        assoc_get(s.drop_last(), k)
    }
}

/// No key occurs twice in the list.
pub open spec fn assoc_distinct<K, V>(s: Seq<(K, V)>) -> bool {
    forall|i: int, j: int| 0 <= i < j < s.len() ==> (#[trigger] s[i]).0 != (#[trigger] s[j]).0
}

/// The map that the list stands for.
pub open spec fn assoc_map<K, V>(s: Seq<(K, V)>) -> Map<K, V> {
    Map::new(|k: K| assoc_get(s, k) is Some, |k: K| assoc_get(s, k)->0)
}

/// The keys of the list as a set.
pub open spec fn assoc_keys<K, V>(s: Seq<(K, V)>) -> Set<K> {
    Set::new(|k: K| assoc_get(s, k) is Some)
}

/// A key that no pair carries has no value.
pub proof fn lemma_assoc_absent<K, V>(s: Seq<(K, V)>, k: K)
    requires
        forall|i: int| 0 <= i < s.len() ==> (#[trigger] s[i]).0 != k,
    ensures
        assoc_get(s, k) is None,
    decreases s.len(),
{
    if s.len() > 0 {
        assert(s.last() == s[s.len() - 1]);
        assert forall|i: int| 0 <= i < s.drop_last().len() implies (#[trigger] s.drop_last()[i]).0
            != k by {
            assert(s.drop_last()[i] == s[i]);
        }
        lemma_assoc_absent(s.drop_last(), k);
    }
}

/// A key with a value is carried by some pair, with that value.
pub proof fn lemma_assoc_present<K, V>(s: Seq<(K, V)>, k: K) -> (i: int)
    requires
        assoc_get(s, k) is Some,
    ensures
        0 <= i < s.len(),
        s[i].0 == k,
        assoc_get(s, k) == Some(s[i].1),
    decreases s.len(),
{
    if s.last().0 == k {
        s.len() - 1
    } else {
        let i = lemma_assoc_present(s.drop_last(), k);
        assert(s.drop_last()[i] == s[i]);
        i
    }
}

/// In a list without repeated keys, each pair gives its key its value.
pub proof fn lemma_assoc_found<K, V>(s: Seq<(K, V)>, i: int)
    requires
        assoc_distinct(s),
        0 <= i < s.len(),
    ensures
        assoc_get(s, s[i].0) == Some(s[i].1),
    decreases s.len(),
{
    if i == s.len() - 1 {
    } else {
        assert(s.last() == s[s.len() - 1]);
        assert(s[i].0 != s[s.len() - 1].0);
        assert(s.drop_last()[i] == s[i]);
        assert(assoc_distinct(s.drop_last())) by {
            assert forall|a: int, b: int| 0 <= a < b < s.drop_last().len() implies (
            #[trigger] s.drop_last()[a]).0 != (#[trigger] s.drop_last()[b]).0 by {
                assert(s.drop_last()[a] == s[a]);
                assert(s.drop_last()[b] == s[b]);
            }
        }
        lemma_assoc_found(s.drop_last(), i);
    }
}

/// Pushing a pair sets its key and leaves every other key alone.
pub proof fn lemma_assoc_push<K, V>(s: Seq<(K, V)>, k: K, v: V)
    ensures
        assoc_map(s.push((k, v))) == assoc_map(s).insert(k, v),
        assoc_keys(s.push((k, v))) == assoc_keys(s).insert(k),
        assoc_distinct(s) && assoc_get(s, k) is None ==> assoc_distinct(s.push((k, v))),
{
    let t = s.push((k, v));
    assert(t.drop_last() =~= s);
    assert(assoc_map(t) =~= assoc_map(s).insert(k, v));
    assert(assoc_keys(t) =~= assoc_keys(s).insert(k));
    if assoc_distinct(s) && assoc_get(s, k) is None {
        assert forall|i: int, j: int| 0 <= i < j < t.len() implies (#[trigger] t[i]).0 != (
        #[trigger] t[j]).0 by {
            if j == s.len() {
                if t[i].0 == k {
                    assert(t[i] == s[i]);
                    lemma_assoc_found(s, i);
                }
            } else {
                assert(t[i] == s[i]);
                assert(t[j] == s[j]);
            }
        }
    }
}

/// Putting a pair with a new key into the list at `p` sets its key and
/// leaves every other key alone.
pub proof fn lemma_assoc_insert_at<K, V>(s: Seq<(K, V)>, p: int, k: K, v: V)
    requires
        0 <= p <= s.len(),
        forall|i: int| 0 <= i < s.len() ==> (#[trigger] s[i]).0 != k,
    ensures
        assoc_map(s.insert(p, (k, v))) == assoc_map(s).insert(k, v),
    decreases s.len(),
{
    let t = s.insert(p, (k, v));
    if p == s.len() {
        assert(t =~= s.push((k, v)));
        lemma_assoc_push(s, k, v);
    } else {
        let front = s.drop_last();
        assert(t.drop_last() =~= front.insert(p, (k, v)));
        assert(t.last() == s.last());
        assert forall|i: int| 0 <= i < front.len() implies (#[trigger] front[i]).0 != k by {
            assert(front[i] == s[i]);
        }
        lemma_assoc_insert_at(front, p, k, v);
        assert(s.last().0 != k);
        assert(assoc_map(t) =~= assoc_map(s).insert(k, v)) by {
            assert forall|q: K| assoc_get(t, q) == (if q == k {
                Some(v)
            } else {
                assoc_get(s, q)
            }) by {
                if q != s.last().0 {
                    assert(assoc_map(t.drop_last()).contains_key(q) == assoc_map(front).insert(
                        k,
                        v,
                    ).contains_key(q));
                    if assoc_map(t.drop_last()).contains_key(q) {
                        assert(assoc_map(t.drop_last())[q] == assoc_map(front).insert(k, v)[q]);
                    }
                }
            }
        }
    }
}

/// Removing the pair at `i` from a list without repeated keys removes its
/// key and leaves every other key alone.
pub proof fn lemma_assoc_remove<K, V>(s: Seq<(K, V)>, i: int)
    requires
        assoc_distinct(s),
        0 <= i < s.len(),
    ensures
        assoc_distinct(s.remove(i)),
        assoc_map(s.remove(i)) == assoc_map(s).remove(s[i].0),
        assoc_keys(s.remove(i)) == assoc_keys(s).remove(s[i].0),
{
    let k = s[i].0;
    let t = s.remove(i);
    assert(assoc_distinct(t)) by {
        assert forall|a: int, b: int| 0 <= a < b < t.len() implies (#[trigger] t[a]).0 != (
        #[trigger] t[b]).0 by {
            let a2 = if a < i { a } else { a + 1 };
            let b2 = if b < i { b } else { b + 1 };
            assert(t[a] == s[a2]);
            assert(t[b] == s[b2]);
        }
    }
    assert forall|q: K| assoc_get(t, q) == (if q == k {
        None
    } else {
        assoc_get(s, q)
    }) by {
        if q == k {
            assert forall|j: int| 0 <= j < t.len() implies (#[trigger] t[j]).0 != q by {
                let j2 = if j < i { j } else { j + 1 };
                assert(t[j] == s[j2]);
                assert(s[j2].0 != s[i].0) by {
                    if j2 < i {
                        assert(s[j2].0 != s[i].0);
                    } else {
                        assert(s[i].0 != s[j2].0);
                    }
                }
            }
            lemma_assoc_absent(t, q);
        } else if assoc_get(s, q) is Some {
            let j = lemma_assoc_present(s, q);
            let j1 = if j < i { j } else { j - 1 };
            assert(t[j1] == s[j]);
            lemma_assoc_found(t, j1);
        } else {
            if assoc_get(t, q) is Some {
                let j = lemma_assoc_present(t, q);
                let j2 = if j < i { j } else { j + 1 };
                assert(t[j] == s[j2]);
                lemma_assoc_found(s, j2);
            }
        }
    }
    assert(assoc_map(t) =~= assoc_map(s).remove(k));
    assert(assoc_keys(t) =~= assoc_keys(s).remove(k));
}


/// A list without repeated keys has as many keys as pairs.
pub proof fn lemma_assoc_len<K, V>(s: Seq<(K, V)>)
    requires
        assoc_distinct(s),
    ensures
        assoc_keys(s).finite(),
        assoc_keys(s).len() == s.len(),
        assoc_map(s).dom() == assoc_keys(s),
    decreases s.len(),
{
    assert(assoc_map(s).dom() =~= assoc_keys(s));
    if s.len() == 0 {
        assert(assoc_keys(s) =~= Set::empty());
    } else {
        let front = s.drop_last();
        let k = s.last().0;
        assert(assoc_distinct(front)) by {
            assert forall|a: int, b: int| 0 <= a < b < front.len() implies (#[trigger] front[a]).0
                != (#[trigger] front[b]).0 by {
                assert(front[a] == s[a]);
                assert(front[b] == s[b]);
            }
        }
        lemma_assoc_len(front);
        assert(front.push(s.last()) =~= s);
        lemma_assoc_push(front, k, s.last().1);
        assert(assoc_get(front, k) is None) by {
            assert forall|i: int| 0 <= i < front.len() implies (#[trigger] front[i]).0 != k by {
                assert(front[i] == s[i]);
                assert(s[i].0 != s[s.len() - 1].0);
            }
            lemma_assoc_absent(front, k);
        }
        assert(!assoc_keys(front).contains(k));
    }
}

} // verus!
