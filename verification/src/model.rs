//! The mathematical model of a cache and the transitions its operations
//! follow.
//!
//! A cache is modelled as a sequence of (key, value) pairs in
//! most-recently-used-first order: the entry at index 0 is the next to be kept
//! longest, the last entry is the next to be evicted. Keys are the views of
//! the executable key type. Every operation of the executable caches promises
//! in its contract that the cache's model steps by one of the functions here.

use vstd::prelude::*;

verus! {

/// The index of the entry holding key `k`, or -1 when no entry does.
pub open spec fn find_key<KV, V>(m: Seq<(KV, V)>, k: KV) -> int
    decreases m.len(),
{
    if m.len() == 0 {
        -1
    } else if m[0].0 == k {
        0
    } else {
        let rest = find_key(m.drop_first(), k);
        if rest < 0 {
            -1
        } else {
            rest + 1
        }
    }
}

/// Whether some entry holds key `k`.
pub open spec fn contains_key<KV, V>(m: Seq<(KV, V)>, k: KV) -> bool {
    find_key(m, k) >= 0
}

/// The value stored under key `k`, when one is.
pub open spec fn lookup<KV, V>(m: Seq<(KV, V)>, k: KV) -> Option<V> {
    if contains_key(m, k) {
        Some(m[find_key(m, k)].1)
    } else {
        None
    }
}

/// No two entries hold the same key.
pub open spec fn distinct_keys<KV, V>(m: Seq<(KV, V)>) -> bool {
    forall|i: int, j: int| 0 <= i < j < m.len() ==> m[i].0 != m[j].0
}

/// Key `k`'s entry moved to the front, its value replaced by `v`.
pub open spec fn promote_with<KV, V>(m: Seq<(KV, V)>, k: KV, v: V) -> Seq<(KV, V)>
    recommends
        contains_key(m, k),
{
    m.remove(find_key(m, k)).insert(0, (k, v))
}

/// Key `k`'s entry moved to the front, its value kept.
pub open spec fn promote<KV, V>(m: Seq<(KV, V)>, k: KV) -> Seq<(KV, V)>
    recommends
        contains_key(m, k),
{
    promote_with(m, k, m[find_key(m, k)].1)
}

/// The step a successful `put` takes: a present key is promoted with the new
/// value; a fresh key is inserted at the front, and when that overflows the
/// capacity the last (least recently used) entry is dropped.
pub open spec fn put_model<KV, V>(m: Seq<(KV, V)>, capacity: int, k: KV, v: V) -> Seq<(KV, V)> {
    if contains_key(m, k) {
        promote_with(m, k, v)
    } else {
        let grown = m.insert(0, (k, v));
        if grown.len() > capacity {
            grown.drop_last()
        } else {
            grown
        }
    }
}

/// The step `remove` takes: a present key's entry is spliced out, an absent
/// key changes nothing.
pub open spec fn remove_model<KV, V>(m: Seq<(KV, V)>, k: KV) -> Seq<(KV, V)> {
    if contains_key(m, k) {
        m.remove(find_key(m, k))
    } else {
        m
    }
}

/// What `find_key` finds: a nonnegative answer is the first index holding the
/// key, a negative answer means no index does.
pub proof fn lemma_find_key<KV, V>(m: Seq<(KV, V)>, k: KV)
    ensures
        contains_key(m, k) ==> {
            &&& 0 <= find_key(m, k) < m.len()
            &&& m[find_key(m, k)].0 == k
            &&& forall|j: int| 0 <= j < find_key(m, k) ==> m[j].0 != k
        },
        !contains_key(m, k) ==> forall|j: int| 0 <= j < m.len() ==> m[j].0 != k,
    decreases m.len(),
{
    if m.len() > 0 && m[0].0 != k {
        let rest = m.drop_first();
        lemma_find_key(rest, k);
        assert(forall|j: int| 0 <= j < rest.len() ==> rest[j] == m[j + 1]);
        if contains_key(m, k) {
            let r = find_key(rest, k);
            assert(find_key(m, k) == r + 1);
            assert(m[r + 1] == rest[r]);
            assert forall|j: int| 0 <= j < find_key(m, k) implies m[j].0 != k by {
                if j > 0 {
                    assert(m[j] == rest[j - 1]);
                }
            }
        } else {
            assert forall|j: int| 0 <= j < m.len() implies m[j].0 != k by {
                if j > 0 {
                    assert(m[j] == rest[j - 1]);
                }
            }
        }
    }
}

/// A key is contained exactly when some entry holds it.
pub proof fn lemma_contains_key_iff<KV, V>(m: Seq<(KV, V)>, k: KV)
    ensures
        contains_key(m, k) <==> exists|i: int| 0 <= i < m.len() && (#[trigger] m[i]).0 == k,
{
    lemma_find_key(m, k);
    if contains_key(m, k) {
        assert(m[find_key(m, k)].0 == k);
    }
}

/// Every entry after a `put` step is the new pair or one the model already
/// held.
pub proof fn lemma_put_model_entries<KV, V>(m: Seq<(KV, V)>, cap: int, k: KV, v: V)
    ensures
        forall|j: int|
            0 <= j < put_model(m, cap, k, v).len() ==> (#[trigger] put_model(m, cap, k, v)[j]) == (
            k,
            v,
        ) || m.contains(put_model(m, cap, k, v)[j]),
{
    lemma_find_key(m, k);
    let res = put_model(m, cap, k, v);
    if contains_key(m, k) {
        let i = find_key(m, k);
        m.remove_ensures(i);
        m.remove(i).insert_ensures(0, (k, v));
        assert forall|j: int| 0 <= j < res.len() implies (#[trigger] res[j]) == (k, v)
            || m.contains(res[j]) by {
            if j > 0 {
                assert(res[j] == m.remove(i)[j - 1]);
                assert(m.remove(i)[j - 1] == (if j - 1 < i {
                    m[j - 1]
                } else {
                    m[j]
                }));
            }
        }
    } else {
        let grown = m.insert(0, (k, v));
        m.insert_ensures(0, (k, v));
        assert forall|j: int| 0 <= j < res.len() implies (#[trigger] res[j]) == (k, v)
            || m.contains(res[j]) by {
            assert(res[j] == grown[j]);
            if j > 0 {
                assert(grown[j] == m[j - 1]);
            }
        }
    }
}

/// Every entry after a promotion is one the model already held.
pub proof fn lemma_promote_entries<KV, V>(m: Seq<(KV, V)>, k: KV)
    requires
        contains_key(m, k),
    ensures
        forall|j: int|
            0 <= j < promote(m, k).len() ==> m.contains(#[trigger] promote(m, k)[j]),
{
    lemma_find_key(m, k);
    let i = find_key(m, k);
    m.remove_ensures(i);
    m.remove(i).insert_ensures(0, m[i]);
    let res = promote(m, k);
    assert forall|j: int| 0 <= j < res.len() implies m.contains(#[trigger] res[j]) by {
        if j == 0 {
            assert(res[0] == m[i]);
        } else {
            assert(res[j] == m.remove(i)[j - 1]);
            assert(m.remove(i)[j - 1] == (if j - 1 < i {
                m[j - 1]
            } else {
                m[j]
            }));
        }
    }
}

/// Every entry after a removal is one the model already held.
pub proof fn lemma_remove_model_entries<KV, V>(m: Seq<(KV, V)>, k: KV)
    ensures
        forall|j: int|
            0 <= j < remove_model(m, k).len() ==> m.contains(#[trigger] remove_model(m, k)[j]),
{
    lemma_find_key(m, k);
    let res = remove_model(m, k);
    if contains_key(m, k) {
        let i = find_key(m, k);
        m.remove_ensures(i);
        assert forall|j: int| 0 <= j < res.len() implies m.contains(#[trigger] res[j]) by {
            assert(res[j] == (if j < i {
                m[j]
            } else {
                m[j + 1]
            }));
        }
    } else {
        assert forall|j: int| 0 <= j < res.len() implies m.contains(#[trigger] res[j]) by {
            assert(res[j] == m[j]);
        }
    }
}

/// In a model with distinct keys, `find_key` answers the index of any entry.
pub proof fn lemma_find_key_at<KV, V>(m: Seq<(KV, V)>, i: int)
    requires
        distinct_keys(m),
        0 <= i < m.len(),
    ensures
        find_key(m, m[i].0) == i,
{
    lemma_find_key(m, m[i].0);
}

} // verus!
