//! Association lists: the store behind datasets and the config map.
//!
//! A mapping from byte-string keys is held as a sequence of pairs whose
//! keys are unique.  `assoc_find` locates the first pair with a key;
//! `assoc_get`, `spec_assoc_set` and `spec_assoc_remove` are the lookup,
//! upsert and delete the dataset operations are specified with.

use vstd::prelude::*;

verus! {

/// Index of the first pair whose key is `k`.
pub open spec fn assoc_find<V>(s: Seq<(Seq<u8>, V)>, k: Seq<u8>) -> Option<int>
    decreases s.len(),
{
    if s.len() == 0 {
        None
    } else if s[0].0 == k {
        Some(0)
    } else {
        match assoc_find(s.drop_first(), k) {
            Some(i) => Some(i + 1),
            None => None,
        }
    }
}

pub open spec fn assoc_contains<V>(s: Seq<(Seq<u8>, V)>, k: Seq<u8>) -> bool {
    assoc_find(s, k) is Some
}

/// Value of the first pair whose key is `k`, if any.
pub open spec fn assoc_get<V>(s: Seq<(Seq<u8>, V)>, k: Seq<u8>) -> Option<V> {
    match assoc_find(s, k) {
        Some(i) => Some(s[i].1),
        None => None,
    }
}

/// No two pairs share a key.
pub open spec fn assoc_keys_unique<V>(s: Seq<(Seq<u8>, V)>) -> bool {
    forall|i: int, j: int| 0 <= i < j < s.len() ==> (#[trigger] s[i]).0 != (#[trigger] s[j]).0
}

/// Upsert: overwrite the pair holding `k` in place, or append a new pair.
pub open spec fn spec_assoc_set<V>(s: Seq<(Seq<u8>, V)>, k: Seq<u8>, v: V) -> Seq<(Seq<u8>, V)> {
    match assoc_find(s, k) {
        Some(i) => s.update(i, (k, v)),
        None => s.push((k, v)),
    }
}

/// Delete: drop the pair holding `k`, if any.
pub open spec fn spec_assoc_remove<V>(s: Seq<(Seq<u8>, V)>, k: Seq<u8>) -> Seq<(Seq<u8>, V)> {
    match assoc_find(s, k) {
        Some(i) => s.remove(i),
        None => s,
    }
}

/// What a find result means, pair by pair: a hit is the first, a miss
/// rules every pair out.
pub proof fn lemma_assoc_find_props<V>(s: Seq<(Seq<u8>, V)>, k: Seq<u8>)
    ensures
        match assoc_find(s, k) {
            Some(i) => 0 <= i < s.len() && s[i].0 == k && (forall|j: int|
                0 <= j < i ==> (#[trigger] s[j]).0 != k),
            None => forall|j: int| 0 <= j < s.len() ==> (#[trigger] s[j]).0 != k,
        },
    decreases s.len(),
{
    if s.len() == 0 {
    } else if s[0].0 == k {
    } else {
        let d = s.drop_first();
        lemma_assoc_find_props(d, k);
        match assoc_find(d, k) {
            Some(i) => {
                assert(d[i] == s[i + 1]);
                assert forall|j: int| 0 <= j < i + 1 implies (#[trigger] s[j]).0 != k by {
                    if j > 0 {
                        assert(d[j - 1] == s[j]);
                    }
                }
            },
            None => {
                assert forall|j: int| 0 <= j < s.len() implies (#[trigger] s[j]).0 != k by {
                    if j > 0 {
                        assert(d[j - 1] == s[j]);
                    }
                }
            },
        }
    }
}

/// The first occurrence determines the find result.
pub proof fn lemma_assoc_find_at<V>(s: Seq<(Seq<u8>, V)>, k: Seq<u8>, i: int)
    requires
        0 <= i < s.len(),
        s[i].0 == k,
        forall|j: int| 0 <= j < i ==> (#[trigger] s[j]).0 != k,
    ensures
        assoc_find(s, k) == Some(i),
    decreases i,
{
    if i > 0 {
        assert(forall|j: int| 0 <= j < s.drop_first().len()
            ==> #[trigger] s.drop_first()[j] == s[j + 1]);
        lemma_assoc_find_at(s.drop_first(), k, i - 1);
    }
}

/// A find over a sequence with the same keys lands at the same index,
/// whatever the two sequences hold as values.
pub proof fn lemma_assoc_find_same_keys<V, W>(s: Seq<(Seq<u8>, V)>, t: Seq<(Seq<u8>, W)>, k: Seq<u8>)
    requires
        s.len() == t.len(),
        forall|j: int| 0 <= j < s.len() ==> (#[trigger] s[j]).0 == (#[trigger] t[j]).0,
    ensures
        assoc_find(s, k) == assoc_find(t, k),
{
    lemma_assoc_find_props(s, k);
    lemma_assoc_find_props(t, k);
    match assoc_find(s, k) {
        Some(i) => {
            assert forall|j: int| 0 <= j < i implies (#[trigger] t[j]).0 != k by {
                assert(s[j].0 == t[j].0);
                assert(s[j].0 != k);
            }
            assert(t[i].0 == k);
            lemma_assoc_find_at(t, k, i);
        },
        None => {
            match assoc_find(t, k) {
                Some(i) => {
                    assert(s[i].0 == k);
                },
                None => {},
            }
        },
    }
}

/// Upsert behaves as a map insert: keys stay unique, `k` now yields `v`,
/// and every other key is untouched.
pub proof fn lemma_assoc_set_props<V>(s: Seq<(Seq<u8>, V)>, k: Seq<u8>, v: V)
    requires
        assoc_keys_unique(s),
    ensures
        assoc_keys_unique(spec_assoc_set(s, k, v)),
        assoc_get(spec_assoc_set(s, k, v), k) == Some(v),
        forall|q: Seq<u8>| q != k ==> #[trigger] assoc_get(spec_assoc_set(s, k, v), q)
            == assoc_get(s, q),
        spec_assoc_set(s, k, v).len() == s.len() + (if assoc_contains(s, k) { 0int } else { 1 }),
{
    lemma_assoc_find_props(s, k);
    match assoc_find(s, k) {
        Some(i) => {
            let t = s.update(i, (k, v));
            assert(forall|j: int| 0 <= j < s.len() ==> (#[trigger] t[j]).0 == (#[trigger] s[j]).0);
            assert forall|q: Seq<u8>| q != k implies #[trigger] assoc_get(t, q) == assoc_get(
                s,
                q,
            ) by {
                lemma_assoc_find_same_keys(s, t, q);
                lemma_assoc_find_props(s, q);
            }
            lemma_assoc_find_same_keys(s, t, k);
        },
        None => {
            let t = s.push((k, v));
            assert(forall|j: int| 0 <= j < s.len() ==> (#[trigger] t[j]).0 == (#[trigger] s[j]).0);
            assert(t[s.len() as int].0 == k);
            assert forall|j: int| 0 <= j < s.len() implies (#[trigger] t[j]).0 != k by {
                assert(t[j] == s[j]);
                assert(s[j].0 != k);
            }
            lemma_assoc_find_at(t, k, s.len() as int);
            assert forall|q: Seq<u8>| q != k implies #[trigger] assoc_get(t, q) == assoc_get(
                s,
                q,
            ) by {
                lemma_assoc_find_props(s, q);
                match assoc_find(s, q) {
                    Some(j) => {
                        lemma_assoc_find_at(t, q, j);
                    },
                    None => {
                        lemma_assoc_find_props(t, q);
                        if assoc_find(t, q) is Some {
                            let j = assoc_find(t, q)->Some_0;
                            assert(t[j].0 == q);
                            assert(j == s.len());
                        }
                    },
                }
            }
        },
    }
}

/// Delete behaves as a map remove: keys stay unique, `k` is gone, and
/// every other key is untouched.
pub proof fn lemma_assoc_remove_props<V>(s: Seq<(Seq<u8>, V)>, k: Seq<u8>)
    requires
        assoc_keys_unique(s),
    ensures
        assoc_keys_unique(spec_assoc_remove(s, k)),
        assoc_get(spec_assoc_remove(s, k), k) is None,
        forall|q: Seq<u8>| q != k ==> #[trigger] assoc_get(spec_assoc_remove(s, k), q)
            == assoc_get(s, q),
{
    lemma_assoc_find_props(s, k);
    match assoc_find(s, k) {
        Some(i) => {
            let t = s.remove(i);
            assert(forall|j: int| 0 <= j < i ==> #[trigger] t[j] == s[j]);
            assert(forall|j: int| i <= j < t.len() ==> #[trigger] t[j] == s[j + 1]);
            assert forall|a: int, b: int| 0 <= a < b < t.len() implies (#[trigger] t[a]).0 != (
            #[trigger] t[b]).0 by {
                if a < i {
                    assert(t[a] == s[a]);
                } else {
                    assert(t[a] == s[a + 1]);
                }
                if b < i {
                    assert(t[b] == s[b]);
                } else {
                    assert(t[b] == s[b + 1]);
                }
            }
            assert forall|q: Seq<u8>| assoc_find(t, q) == (match assoc_find(s, q) {
                Some(j) => if j < i {
                    Some(j)
                } else if j == i {
                    None
                } else {
                    Some(j - 1)
                },
                None => None::<int>,
            }) by {
                lemma_assoc_find_props(s, q);
                match assoc_find(s, q) {
                    Some(j) => {
                        if j < i {
                            lemma_assoc_find_at(t, q, j);
                        } else if j == i {
                            lemma_assoc_find_props(t, q);
                            if assoc_find(t, q) is Some {
                                let m = assoc_find(t, q)->Some_0;
                                assert(t[m].0 == q);
                                if m < i {
                                    assert(s[m].0 == q);
                                } else {
                                    assert(s[m + 1].0 == q);
                                }
                            }
                        } else {
                            assert(t[j - 1].0 == q);
                            assert forall|m: int| 0 <= m < j - 1 implies (#[trigger] t[m]).0
                                != q by {
                                if m < i {
                                    assert(s[m].0 != q);
                                } else {
                                    assert(s[m + 1].0 != q);
                                }
                            }
                            lemma_assoc_find_at(t, q, j - 1);
                        }
                    },
                    None => {
                        lemma_assoc_find_props(t, q);
                        if assoc_find(t, q) is Some {
                            let m = assoc_find(t, q)->Some_0;
                            assert(t[m].0 == q);
                            if m < i {
                                assert(s[m].0 == q);
                            } else {
                                assert(s[m + 1].0 == q);
                            }
                        }
                    },
                }
            }
            assert forall|q: Seq<u8>| q != k implies #[trigger] assoc_get(spec_assoc_remove(s, k), q)
                == assoc_get(s, q) by {
                lemma_assoc_find_props(s, q);
                match assoc_find(s, q) {
                    Some(j) => {
                        assert(s[j].0 == q);
                        assert(j != i);
                        if j < i {
                            assert(t[j] == s[j]);
                        } else {
                            assert(t[j - 1] == s[j]);
                        }
                    },
                    None => {},
                }
            }
        },
        None => {},
    }
}

} // verus!
