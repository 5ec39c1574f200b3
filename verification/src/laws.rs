//! The laws the cache obeys, stated and proved over the model.
//!
//! Every executable cache promises in its contracts that its model steps by
//! the transitions of [`crate::model`]; the lemmas here pin down what those
//! transitions do, so each holds of every implementation in this crate.

use vstd::prelude::*;

use crate::cache::persistent::{
    encode_records, pairs_view, parse_records, lemma_round_trip, replay, PersistentCache,
};
use crate::model::{
    contains_key, distinct_keys, find_key, lemma_contains_key_iff, lemma_find_key,
    lemma_find_key_at, lookup, promote, put_model, remove_model,
};

verus! {

/// The set of keys a sequence of `put`s mentions.
pub open spec fn put_keys<KV, V>(ops: Seq<(KV, V)>) -> Set<KV> {
    Seq::new(ops.len(), |i: int| ops[i].0).to_set()
}

/// The model left by a sequence of `put`s applied in order, starting from a
/// given model.
pub open spec fn apply_puts<KV, V>(m: Seq<(KV, V)>, capacity: int, ops: Seq<(KV, V)>) -> Seq<
    (KV, V),
>
    decreases ops.len(),
{
    if ops.len() == 0 {
        m
    } else {
        put_model(
            apply_puts(m, capacity, ops.drop_last()),
            capacity,
            ops.last().0,
            ops.last().1,
        )
    }
}

/// A `put` of a key the model already holds replaces that key's value and
/// changes no length, no other value and no key membership.
pub proof fn law_put_replaces<KV, V>(m: Seq<(KV, V)>, capacity: int, k: KV, v: V)
    requires
        distinct_keys(m),
        contains_key(m, k),
    ensures
        put_model(m, capacity, k, v).len() == m.len(),
        distinct_keys(put_model(m, capacity, k, v)),
        lookup(put_model(m, capacity, k, v), k) == Some(v),
        put_model(m, capacity, k, v)[0] == (k, v),
        forall|x: KV| x != k ==> lookup(put_model(m, capacity, k, v), x) == lookup(m, x),
        forall|x: KV|
            #[trigger] contains_key(put_model(m, capacity, k, v), x) <==> contains_key(m, x),
{
    let i = find_key(m, k);
    lemma_find_key(m, k);
    m.remove_ensures(i);
    m.remove(i).insert_ensures(0, (k, v));
    let res = put_model(m, capacity, k, v);
    assert(res.len() == m.len());
    assert(forall|j: int|
        1 <= j < res.len() ==> #[trigger] res[j] == (if j - 1 < i {
            m[j - 1]
        } else {
            m[j]
        }));
    assert(distinct_keys(res)) by {
        assert forall|a: int, b: int| 0 <= a < b < res.len() implies res[a].0 != res[b].0 by {
            if a > 0 {
                let oa = if a - 1 < i {
                    a - 1
                } else {
                    a
                };
                let ob = if b - 1 < i {
                    b - 1
                } else {
                    b
                };
                assert(res[a] == m[oa]);
                assert(res[b] == m[ob]);
            } else {
                let ob = if b - 1 < i {
                    b - 1
                } else {
                    b
                };
                assert(res[b] == m[ob]);
                assert(ob != i);
            }
        }
    }
    lemma_find_key_at(res, 0);
    assert(lookup(res, k) == Some(v));
    assert forall|x: KV| x != k implies lookup(res, x) == lookup(m, x) by {
        lemma_find_key(m, x);
        lemma_find_key(res, x);
        if contains_key(m, x) {
            let a = find_key(m, x);
            lemma_find_key_at(m, a);
            let ra = if a < i {
                a + 1
            } else if a == i {
                0
            } else {
                a
            };
            assert(a != i);
            assert(res[ra] == m[a]);
            lemma_find_key_at(res, ra);
        } else {
            if contains_key(res, x) {
                let b = find_key(res, x);
                assert(res[b].0 == x);
                if b > 0 {
                    let ob = if b - 1 < i {
                        b - 1
                    } else {
                        b
                    };
                    assert(res[b] == m[ob]);
                }
            }
        }
    }
    assert forall|x: KV| #[trigger] contains_key(res, x) <==> contains_key(m, x) by {
        lemma_contains_key_iff(m, x);
        lemma_contains_key_iff(res, x);
        if contains_key(m, x) {
            let a = choose|a: int| 0 <= a < m.len() && m[a].0 == x;
            if a == i {
                assert(res[0].0 == x);
            } else {
                let ra = if a < i {
                    a + 1
                } else {
                    a
                };
                assert(res[ra] == m[a]);
            }
        }
        if contains_key(res, x) {
            let b = choose|b: int| 0 <= b < res.len() && res[b].0 == x;
            if b == 0 {
                assert(m[i].0 == x);
            } else {
                let ob = if b - 1 < i {
                    b - 1
                } else {
                    b
                };
                assert(res[b] == m[ob]);
            }
        }
    }
}

/// A `put` of a fresh key that still fits inserts it in front and changes no
/// other entry.
pub proof fn law_put_fresh_fits<KV, V>(m: Seq<(KV, V)>, capacity: int, k: KV, v: V)
    requires
        distinct_keys(m),
        !contains_key(m, k),
        m.len() + 1 <= capacity,
    ensures
        put_model(m, capacity, k, v) == m.insert(0, (k, v)),
        put_model(m, capacity, k, v).len() == m.len() + 1,
        distinct_keys(put_model(m, capacity, k, v)),
        lookup(put_model(m, capacity, k, v), k) == Some(v),
        forall|x: KV| x != k ==> lookup(put_model(m, capacity, k, v), x) == lookup(m, x),
        forall|x: KV|
            #[trigger] contains_key(put_model(m, capacity, k, v), x) <==> (contains_key(m, x) || x
                == k),
{
    lemma_find_key(m, k);
    m.insert_ensures(0, (k, v));
    let res = put_model(m, capacity, k, v);
    assert(res == m.insert(0, (k, v)));
    assert(forall|j: int| 1 <= j < res.len() ==> #[trigger] res[j] == m[j - 1]);
    assert(distinct_keys(res)) by {
        assert forall|a: int, b: int| 0 <= a < b < res.len() implies res[a].0 != res[b].0 by {
            assert(res[b] == m[b - 1]);
            if a > 0 {
                assert(res[a] == m[a - 1]);
            }
        }
    }
    lemma_find_key_at(res, 0);
    assert forall|x: KV| x != k implies lookup(res, x) == lookup(m, x) by {
        lemma_find_key(m, x);
        lemma_find_key(res, x);
        if contains_key(m, x) {
            let a = find_key(m, x);
            lemma_find_key_at(m, a);
            assert(res[a + 1] == m[a]);
            lemma_find_key_at(res, a + 1);
        } else {
            if contains_key(res, x) {
                let b = find_key(res, x);
                assert(res[b].0 == x);
                if b > 0 {
                    assert(res[b] == m[b - 1]);
                }
            }
        }
    }
    assert forall|x: KV| #[trigger] contains_key(res, x) <==> (contains_key(m, x) || x == k) by {
        lemma_contains_key_iff(m, x);
        lemma_contains_key_iff(res, x);
        if contains_key(m, x) {
            let a = choose|a: int| 0 <= a < m.len() && m[a].0 == x;
            assert(res[a + 1] == m[a]);
        }
        if contains_key(res, x) {
            let b = choose|b: int| 0 <= b < res.len() && res[b].0 == x;
            if b > 0 {
                assert(res[b] == m[b - 1]);
            }
        }
    }
}

/// A `put` of a fresh key into a full cache inserts it in front and evicts
/// exactly the least recently used entry.
pub proof fn law_put_fresh_evicts<KV, V>(m: Seq<(KV, V)>, capacity: int, k: KV, v: V)
    requires
        distinct_keys(m),
        !contains_key(m, k),
        m.len() == capacity,
        capacity >= 1,
    ensures
        put_model(m, capacity, k, v).len() == capacity,
        distinct_keys(put_model(m, capacity, k, v)),
        lookup(put_model(m, capacity, k, v), k) == Some(v),
        !contains_key(put_model(m, capacity, k, v), m.last().0),
        forall|x: KV|
            x != k && x != m.last().0 ==> lookup(put_model(m, capacity, k, v), x) == lookup(m, x),
        forall|x: KV|
            #[trigger] contains_key(put_model(m, capacity, k, v), x) <==> ((contains_key(m, x) && x
                != m.last().0) || x == k),
{
    lemma_find_key(m, k);
    m.insert_ensures(0, (k, v));
    let grown = m.insert(0, (k, v));
    let res = put_model(m, capacity, k, v);
    assert(res == grown.drop_last());
    assert(res.len() == capacity);
    assert(forall|j: int| 1 <= j < res.len() ==> #[trigger] res[j] == m[j - 1]);
    assert(res[0] == (k, v));
    assert(distinct_keys(res)) by {
        assert forall|a: int, b: int| 0 <= a < b < res.len() implies res[a].0 != res[b].0 by {
            assert(res[b] == m[b - 1]);
            if a > 0 {
                assert(res[a] == m[a - 1]);
            }
        }
    }
    lemma_find_key_at(res, 0);
    assert(!contains_key(res, m.last().0)) by {
        lemma_contains_key_iff(res, m.last().0);
        if contains_key(res, m.last().0) {
            let b = choose|b: int| 0 <= b < res.len() && res[b].0 == m.last().0;
            if b > 0 {
                assert(res[b] == m[b - 1]);
                assert(m[b - 1].0 == m[m.len() - 1].0);
            } else {
                assert(m[m.len() - 1].0 == k);
            }
        }
    }
    assert forall|x: KV| x != k && x != m.last().0 implies lookup(res, x) == lookup(m, x) by {
        lemma_find_key(m, x);
        lemma_find_key(res, x);
        if contains_key(m, x) {
            let a = find_key(m, x);
            lemma_find_key_at(m, a);
            assert(a < m.len() - 1) by {
                assert(m[a].0 == x);
            }
            assert(res[a + 1] == m[a]);
            lemma_find_key_at(res, a + 1);
        } else {
            if contains_key(res, x) {
                let b = find_key(res, x);
                assert(res[b].0 == x);
                if b > 0 {
                    assert(res[b] == m[b - 1]);
                }
            }
        }
    }
    assert forall|x: KV|
        #[trigger] contains_key(res, x) <==> ((contains_key(m, x) && x != m.last().0) || x
        == k) by {
        lemma_contains_key_iff(m, x);
        lemma_contains_key_iff(res, x);
        if contains_key(m, x) && x != m.last().0 {
            let a = choose|a: int| 0 <= a < m.len() && m[a].0 == x;
            assert(a < m.len() - 1) by {
                assert(m[m.len() - 1].0 == m.last().0);
            }
            assert(res[a + 1] == m[a]);
        }
        if contains_key(res, x) && x != k {
            let b = choose|b: int| 0 <= b < res.len() && res[b].0 == x;
            assert(b > 0);
            assert(res[b] == m[b - 1]);
            assert(b - 1 < m.len() - 1);
            assert(m[m.len() - 1].0 != x);
        }
    }
}

/// Promotion — what `get` does to a present key — keeps the length, moves the
/// key to the most recently used position, and changes no value.
pub proof fn law_get_promotes<KV, V>(m: Seq<(KV, V)>, k: KV)
    requires
        distinct_keys(m),
        contains_key(m, k),
    ensures
        promote(m, k).len() == m.len(),
        distinct_keys(promote(m, k)),
        promote(m, k)[0] == (k, m[find_key(m, k)].1),
        lookup(promote(m, k), k) == lookup(m, k),
        forall|x: KV| x != k ==> lookup(promote(m, k), x) == lookup(m, x),
        forall|x: KV| #[trigger] contains_key(promote(m, k), x) <==> contains_key(m, x),
{
    let i = find_key(m, k);
    lemma_find_key(m, k);
    lemma_find_key_at(m, i);
    law_put_replaces(m, m.len() as int, k, m[i].1);
    assert(promote(m, k) == put_model(m, m.len() as int, k, m[i].1));
    lemma_find_key_at(m, i);
}

/// Removing an absent key changes nothing; removing a present key shrinks the
/// model by exactly its entry.
pub proof fn law_remove<KV, V>(m: Seq<(KV, V)>, k: KV)
    requires
        distinct_keys(m),
    ensures
        !contains_key(m, k) ==> remove_model(m, k) == m,
        contains_key(m, k) ==> {
            &&& remove_model(m, k).len() == m.len() - 1
            &&& distinct_keys(remove_model(m, k))
            &&& lookup(remove_model(m, k), k) == None::<V>
            &&& forall|x: KV| x != k ==> lookup(remove_model(m, k), x) == lookup(m, x)
            &&& forall|x: KV|
                #[trigger] contains_key(remove_model(m, k), x) <==> (contains_key(m, x) && x != k)
        },
{
    lemma_find_key(m, k);
    if contains_key(m, k) {
        let i = find_key(m, k);
        m.remove_ensures(i);
        let res = remove_model(m, k);
        assert(forall|j: int|
            0 <= j < res.len() ==> #[trigger] res[j] == (if j < i {
                m[j]
            } else {
                m[j + 1]
            }));
        assert(distinct_keys(res)) by {
            assert forall|a: int, b: int| 0 <= a < b < res.len() implies res[a].0 != res[b].0 by {
                assert(res[a] == (if a < i {
                    m[a]
                } else {
                    m[a + 1]
                }));
                assert(res[b] == (if b < i {
                    m[b]
                } else {
                    m[b + 1]
                }));
            }
        }
        assert(lookup(res, k) == None::<V>) by {
            lemma_contains_key_iff(res, k);
            if contains_key(res, k) {
                let b = choose|b: int| 0 <= b < res.len() && res[b].0 == k;
                assert(res[b] == (if b < i {
                    m[b]
                } else {
                    m[b + 1]
                }));
            }
        }
        assert forall|x: KV| x != k implies lookup(res, x) == lookup(m, x) by {
            lemma_find_key(m, x);
            lemma_find_key(res, x);
            if contains_key(m, x) {
                let a = find_key(m, x);
                lemma_find_key_at(m, a);
                assert(a != i);
                let ra = if a < i {
                    a
                } else {
                    a - 1
                };
                assert(res[ra] == m[a]);
                lemma_find_key_at(res, ra);
            } else {
                if contains_key(res, x) {
                    let b = find_key(res, x);
                    assert(res[b] == (if b < i {
                        m[b]
                    } else {
                        m[b + 1]
                    }));
                }
            }
        }
        assert forall|x: KV|
            #[trigger] contains_key(res, x) <==> (contains_key(m, x) && x != k) by {
            lemma_contains_key_iff(m, x);
            lemma_contains_key_iff(res, x);
            if contains_key(m, x) && x != k {
                let a = choose|a: int| 0 <= a < m.len() && m[a].0 == x;
                assert(a != i);
                let ra = if a < i {
                    a
                } else {
                    a - 1
                };
                assert(res[ra] == m[a]);
            }
            if contains_key(res, x) {
                let b = choose|b: int| 0 <= b < res.len() && res[b].0 == x;
                assert(res[b] == (if b < i {
                    m[b]
                } else {
                    m[b + 1]
                }));
                if x == k {
                    assert(res[b].0 != k);
                }
            }
        }
    }
}

/// In an empty model every key is absent.
pub proof fn law_empty_lookup<KV, V>(k: KV)
    ensures
        lookup(Seq::<(KV, V)>::empty(), k) == None::<V>,
        !contains_key(Seq::<(KV, V)>::empty(), k),
{
}

/// A sequence of `put`s whose distinct keys fit the capacity leaves exactly
/// one entry per distinct key: the cache's length is the number of distinct
/// keys inserted.
pub proof fn law_put_sequence_len<KV, V>(capacity: int, ops: Seq<(KV, V)>)
    requires
        put_keys(ops).len() <= capacity,
    ensures
        distinct_keys(apply_puts(Seq::empty(), capacity, ops)),
        apply_puts(Seq::empty(), capacity, ops).len() == put_keys(ops).len(),
        forall|x: KV|
            #[trigger] contains_key(apply_puts(Seq::empty(), capacity, ops), x) <==> put_keys(
                ops,
            ).contains(x),
    decreases ops.len(),
{
    broadcast use vstd::seq_lib::group_seq_properties;
    let res = apply_puts(Seq::empty(), capacity, ops);
    if ops.len() == 0 {
        assert(put_keys(ops) =~= Set::<KV>::empty());
        assert forall|x: KV| !#[trigger] contains_key(res, x) by {
            lemma_contains_key_iff(res, x);
        }
    } else {
        let pre = ops.drop_last();
        let k = ops.last().0;
        let v = ops.last().1;
        let pre_key_seq = Seq::new(pre.len(), |i: int| pre[i].0);
        let key_seq = Seq::new(ops.len(), |i: int| ops[i].0);
        assert(pre_key_seq =~= key_seq.drop_last());
        assert(put_keys(pre).subset_of(put_keys(ops))) by {
            assert forall|x: KV| put_keys(pre).contains(x) implies put_keys(ops).contains(x) by {
                assert(pre_key_seq.contains(x));
                let a = choose|a: int| 0 <= a < pre_key_seq.len() && pre_key_seq[a] == x;
                assert(key_seq[a] == x);
            }
        }
        assert(put_keys(ops) =~= put_keys(pre).insert(k)) by {
            assert forall|x: KV| put_keys(ops).contains(x) implies put_keys(pre).insert(
                k,
            ).contains(x) by {
                let a = choose|a: int| 0 <= a < key_seq.len() && key_seq[a] == x;
                if a < key_seq.len() - 1 {
                    assert(pre_key_seq[a] == x);
                } else {
                    assert(x == k);
                }
            }
            assert(key_seq[key_seq.len() - 1] == k);
        }
        vstd::set_lib::lemma_len_subset(put_keys(pre), put_keys(ops));
        law_put_sequence_len(capacity, pre);
        let mid = apply_puts(Seq::<(KV, V)>::empty(), capacity, pre);
        assert(res == put_model(mid, capacity, k, v));
        if contains_key(mid, k) {
            assert(put_keys(pre).contains(k));
            assert(put_keys(ops) =~= put_keys(pre));
            law_put_replaces(mid, capacity, k, v);
        } else {
            assert(!put_keys(pre).contains(k));
            assert(put_keys(ops).len() == put_keys(pre).len() + 1);
            law_put_fresh_fits(mid, capacity, k, v);
        }
    }
}

/// Replaying `put`s of pairwise distinct keys that fit the capacity, starting
/// empty, leaves exactly those pairs in reverse order: the last `put` is the
/// most recently used.
pub proof fn law_distinct_puts_reverse<KV, V>(capacity: int, ops: Seq<(KV, V)>)
    requires
        distinct_keys(ops),
        ops.len() <= capacity,
    ensures
        apply_puts(Seq::empty(), capacity, ops) == ops.reverse(),
    decreases ops.len(),
{
    let res = apply_puts(Seq::<(KV, V)>::empty(), capacity, ops);
    if ops.len() == 0 {
        assert(res =~= ops.reverse());
    } else {
        let pre = ops.drop_last();
        let k = ops.last().0;
        let v = ops.last().1;
        assert(distinct_keys(pre)) by {
            assert(forall|j: int| 0 <= j < pre.len() ==> pre[j] == ops[j]);
        }
        law_distinct_puts_reverse(capacity, pre);
        let mid = apply_puts(Seq::<(KV, V)>::empty(), capacity, pre);
        assert(mid == pre.reverse());
        assert(!contains_key(mid, k)) by {
            lemma_contains_key_iff(mid, k);
            if contains_key(mid, k) {
                let a = choose|a: int| 0 <= a < mid.len() && mid[a].0 == k;
                assert(mid[a] == pre[pre.len() - 1 - a]);
                assert(ops[pre.len() - 1 - a].0 == ops[ops.len() - 1].0);
            }
        }
        assert(distinct_keys(mid)) by {
            assert forall|a: int, b: int| 0 <= a < b < mid.len() implies mid[a].0 != mid[b].0 by {
                assert(mid[a] == pre[pre.len() - 1 - a]);
                assert(mid[b] == pre[pre.len() - 1 - b]);
            }
        }
        law_put_fresh_fits(mid, capacity, k, v);
        assert(res == mid.insert(0, (k, v)));
        mid.insert_ensures(0, (k, v));
        assert(res =~= ops.reverse()) by {
            assert forall|j: int| 0 <= j < res.len() implies res[j] == ops.reverse()[j] by {
                if j > 0 {
                    assert(res[j] == mid[j - 1]);
                    assert(mid[j - 1] == pre[pre.len() - j]);
                    assert(pre[pre.len() - j] == ops[ops.len() - 1 - j]);
                }
            }
        }
    }
}

/// Inserting one more distinct key than the capacity evicts exactly the first
/// key inserted and keeps all the others.
pub proof fn law_single_eviction<KV, V>(capacity: int, ops: Seq<(KV, V)>)
    requires
        distinct_keys(ops),
        ops.len() == capacity + 1,
        capacity >= 1,
    ensures
        !contains_key(apply_puts(Seq::empty(), capacity, ops), ops[0].0),
        forall|i: int|
            1 <= i < ops.len() ==> contains_key(
                apply_puts(Seq::empty(), capacity, ops),
                (#[trigger] ops[i]).0,
            ),
{
    let pre = ops.drop_last();
    let k = ops.last().0;
    let v = ops.last().1;
    assert(distinct_keys(pre)) by {
        assert(forall|j: int| 0 <= j < pre.len() ==> pre[j] == ops[j]);
    }
    law_distinct_puts_reverse(capacity, pre);
    let mid = apply_puts(Seq::<(KV, V)>::empty(), capacity, pre);
    assert(mid == pre.reverse());
    assert(!contains_key(mid, k)) by {
        lemma_contains_key_iff(mid, k);
        if contains_key(mid, k) {
            let a = choose|a: int| 0 <= a < mid.len() && mid[a].0 == k;
            assert(mid[a] == pre[pre.len() - 1 - a]);
            assert(ops[pre.len() - 1 - a].0 == ops[ops.len() - 1].0);
        }
    }
    assert(distinct_keys(mid)) by {
        assert forall|a: int, b: int| 0 <= a < b < mid.len() implies mid[a].0 != mid[b].0 by {
            assert(mid[a] == pre[pre.len() - 1 - a]);
            assert(mid[b] == pre[pre.len() - 1 - b]);
        }
    }
    law_put_fresh_evicts(mid, capacity, k, v);
    let res = apply_puts(Seq::<(KV, V)>::empty(), capacity, ops);
    assert(res == put_model(mid, capacity, k, v));
    assert(mid.last() == pre[0]);
    assert(pre[0] == ops[0]);
    assert(!contains_key(res, ops[0].0));
    assert forall|i: int| 1 <= i < ops.len() implies contains_key(
        res,
        (#[trigger] ops[i]).0,
    ) by {
        if i < ops.len() - 1 {
            assert(mid[pre.len() - 1 - i] == pre[i]);
            assert(pre[i] == ops[i]);
            lemma_contains_key_iff(mid, ops[i].0);
            assert(contains_key(mid, ops[i].0));
            assert(ops[i].0 != ops[0].0);
            assert(ops[i].0 != k);
        } else {
            assert(ops[i].0 == k);
        }
    }
}

/// A model read back in reverse order answers every lookup as before: only
/// the recency order, not the contents, depends on the direction.
pub proof fn law_reverse_lookup<KV, V>(m: Seq<(KV, V)>, k: KV)
    requires
        distinct_keys(m),
    ensures
        lookup(m.reverse(), k) == lookup(m, k),
        contains_key(m.reverse(), k) == contains_key(m, k),
{
    let rev = m.reverse();
    assert(distinct_keys(rev)) by {
        assert forall|a: int, b: int| 0 <= a < b < rev.len() implies rev[a].0 != rev[b].0 by {
            assert(rev[a] == m[m.len() - 1 - a]);
            assert(rev[b] == m[m.len() - 1 - b]);
        }
    }
    lemma_find_key(m, k);
    lemma_find_key(rev, k);
    if contains_key(m, k) {
        let i = find_key(m, k);
        lemma_find_key_at(m, i);
        assert(rev[m.len() - 1 - i] == m[i]);
        lemma_find_key_at(rev, m.len() - 1 - i);
    } else {
        if contains_key(rev, k) {
            let b = find_key(rev, k);
            assert(rev[b] == m[m.len() - 1 - b]);
        }
    }
}

/// Replaying a saved file's records is applying them as `put`s to an empty
/// engine.
pub proof fn lemma_replay_is_apply(rs: Seq<(Seq<char>, Seq<char>)>, capacity: int)
    ensures
        replay(rs, capacity) == apply_puts(Seq::empty(), capacity, rs),
    decreases rs.len(),
{
    if rs.len() > 0 {
        lemma_replay_is_apply(rs.drop_last(), capacity);
    }
}

/// Reopening a saved cache reverses its recency order and keeps its contents:
/// the saved text lists entries most recently used first, and replaying them
/// in file order makes the last line the most recently used. Every lookup
/// answers as before the round trip; only the recency order is turned around.
pub proof fn law_reopen(m: Seq<(Seq<char>, Seq<char>)>, capacity: int)
    requires
        distinct_keys(m),
        m.len() <= capacity,
    ensures
        replay(m, capacity) == m.reverse(),
        forall|k: Seq<char>| #[trigger]
            lookup(replay(m, capacity), k) == lookup(m, k),
{
    lemma_replay_is_apply(m, capacity);
    law_distinct_puts_reverse(capacity, m);
    assert forall|k: Seq<char>| #[trigger] lookup(replay(m, capacity), k) == lookup(m, k) by {
        law_reverse_lookup(m, k);
    }
}


/// The durable round trip, in one statement: the saved text of any
/// well-formed wrapper parses back to exactly its records, and replaying them
/// rebuilds the same contents with the recency order reversed — the file
/// lists entries most recently used first, and replay makes the last line the
/// most recently used. Every lookup survives the round trip unchanged.
pub proof fn law_durable_round_trip(cache: PersistentCache)
    requires
        cache.inv(),
    ensures
        parse_records(encode_records(pairs_view(cache@))) == Some(pairs_view(cache@)),
        replay(pairs_view(cache@), cache.spec_capacity() as int) == pairs_view(cache@).reverse(),
        forall|k: Seq<char>| #[trigger]
            lookup(replay(pairs_view(cache@), cache.spec_capacity() as int), k) == lookup(
                pairs_view(cache@),
                k,
            ),
{
    cache.lemma_inv_facts();
    lemma_round_trip(pairs_view(cache@));
    law_reopen(pairs_view(cache@), cache.spec_capacity() as int);
}

} // verus!
