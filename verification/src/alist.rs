//! Association-list lookup as a mathematical model.
//!
//! Several registries in the engine (hook-key index, identity registry,
//! external-hook counters) are small association vectors whose contracts are
//! stated over `alist_find`: the value of the first entry whose key matches.

use vstd::prelude::*;

verus! {

/// The value bound to `k` in the association sequence `s`, going by the first
/// matching entry, or `None` if no entry matches.
pub open spec fn alist_find<K, V>(s: Seq<(K, V)>, k: K) -> Option<V>
    decreases s.len(),
{
    if s.len() == 0 {
        None
    } else if s[0].0 == k {
        Some(s[0].1)
    } else {
        alist_find(s.drop_first(), k)
    }
}

/// A sequence with no entry for `k` binds `k` to nothing.
pub proof fn lemma_alist_find_none<K, V>(s: Seq<(K, V)>, k: K)
    requires
        forall|j: int| 0 <= j < s.len() ==> (#[trigger] s[j]).0 != k,
    ensures
        alist_find(s, k) is None,
    decreases s.len(),
{
    if s.len() > 0 {
        assert(s[0].0 != k);
        assert(forall|j: int|
            0 <= j < s.drop_first().len() ==> (#[trigger] s.drop_first()[j]) == s[j + 1]);
        lemma_alist_find_none(s.drop_first(), k);
    }
}

/// If the first entry for `k` stands at position `i`, the lookup yields its value.
pub proof fn lemma_alist_find_at<K, V>(s: Seq<(K, V)>, k: K, i: int)
    requires
        0 <= i < s.len(),
        s[i].0 == k,
        forall|j: int| 0 <= j < i ==> (#[trigger] s[j]).0 != k,
    ensures
        alist_find(s, k) == Some(s[i].1),
    decreases s.len(),
{
    if i == 0 {
    } else {
        assert(forall|j: int|
            0 <= j < s.drop_first().len() ==> (#[trigger] s.drop_first()[j]) == s[j + 1]);
        lemma_alist_find_at(s.drop_first(), k, i - 1);
    }
}

/// Appending an entry changes only the binding of keys that were unbound.
pub proof fn lemma_alist_find_push<K, V>(s: Seq<(K, V)>, k: K, v: V, q: K)
    ensures
        alist_find(s.push((k, v)), q) == if alist_find(s, q) is Some {
            alist_find(s, q)
        } else if q == k {
            Some(v)
        } else {
            None
        },
    decreases s.len(),
{
    let t = s.push((k, v));
    if s.len() == 0 {
        assert(t[0] == (k, v));
        assert(t.drop_first() =~= Seq::<(K, V)>::empty());
        if q == k {
            assert(alist_find(t, q) == Some(v));
        } else {
            assert(alist_find(t, q) == alist_find(t.drop_first(), q));
        }
    } else {
        assert(t[0] == s[0]);
        assert(t.drop_first() =~= s.drop_first().push((k, v)));
        lemma_alist_find_push(s.drop_first(), k, v, q);
    }
}

/// Overwriting the value at position `i` rebinds exactly that entry's key,
/// provided position `i` holds the first entry for that key.
pub proof fn lemma_alist_find_update<K, V>(s: Seq<(K, V)>, i: int, v: V, q: K)
    requires
        0 <= i < s.len(),
        forall|j: int| 0 <= j < i ==> (#[trigger] s[j]).0 != s[i].0,
    ensures
        alist_find(s.update(i, (s[i].0, v)), q) == if q == s[i].0 {
            Some(v)
        } else {
            alist_find(s, q)
        },
    decreases s.len(),
{
    let t = s.update(i, (s[i].0, v));
    if i == 0 {
        if q != s[0].0 {
            assert(t.drop_first() =~= s.drop_first());
        }
    } else {
        assert(t.drop_first() =~= s.drop_first().update(i - 1, (s[i].0, v)));
        assert(forall|j: int|
            0 <= j < s.drop_first().len() ==> (#[trigger] s.drop_first()[j]) == s[j + 1]);
        assert(s.drop_first()[i - 1] == s[i]);
        lemma_alist_find_update(s.drop_first(), i - 1, v, q);
    }
}

/// A successful lookup has a witness entry.
pub proof fn lemma_alist_find_some<K, V>(s: Seq<(K, V)>, k: K)
    requires
        alist_find(s, k) is Some,
    ensures
        exists|m: int|
            0 <= m < s.len() && #[trigger] s[m] == (k, alist_find(s, k).unwrap()),
    decreases s.len(),
{
    if s.len() == 0 {
    } else if s[0].0 == k {
        assert(s[0] == (k, alist_find(s, k).unwrap()));
    } else {
        lemma_alist_find_some(s.drop_first(), k);
        let m = choose|m: int|
            0 <= m < s.drop_first().len() && #[trigger] s.drop_first()[m] == (
                k,
                alist_find(s.drop_first(), k).unwrap(),
            );
        assert(s[m + 1] == s.drop_first()[m]);
    }
}

/// Removing the entry at `i` changes only the binding of its own key,
/// provided keys are pairwise distinct.
pub proof fn lemma_alist_find_remove<K, V>(s: Seq<(K, V)>, i: int, q: K)
    requires
        0 <= i < s.len(),
        forall|a: int, b: int| 0 <= a < b < s.len() ==> (#[trigger] s[a]).0 != (#[trigger] s[b]).0,
    ensures
        q != s[i].0 ==> alist_find(s.remove(i), q) == alist_find(s, q),
        q == s[i].0 ==> alist_find(s.remove(i), q) is None,
    decreases s.len(),
{
    if i == 0 {
        assert(s.remove(0) =~= s.drop_first());
        if q == s[0].0 {
            assert(forall|j: int|
                0 <= j < s.drop_first().len() ==> (#[trigger] s.drop_first()[j]) == s[j + 1]);
            lemma_alist_find_none(s.drop_first(), q);
        }
    } else {
        assert(s.remove(i).drop_first() =~= s.drop_first().remove(i - 1));
        assert(forall|j: int|
            0 <= j < s.drop_first().len() ==> (#[trigger] s.drop_first()[j]) == s[j + 1]);
        lemma_alist_find_remove(s.drop_first(), i - 1, q);
        assert(s.remove(i)[0] == s[0]);
    }
}

} // verus!
