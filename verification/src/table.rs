//! Keyed tables held as sequences of entries with pairwise distinct keys.
//!
//! A table is a `Seq<T>` together with a key projection and a value
//! projection; its meaning is the finite map from each key to the value of
//! the unique entry that carries it.
use vstd::prelude::*;

verus! {

/// Some entry of `s` carries key `k`.
pub open spec fn has_key<T, K>(s: Seq<T>, key: spec_fn(T) -> K, k: K) -> bool {
    exists|i: int| 0 <= i < s.len() && key(s[i]) == k
}

/// An index of an entry carrying key `k` (meaningful when `has_key`).
pub open spec fn key_index<T, K>(s: Seq<T>, key: spec_fn(T) -> K, k: K) -> int {
    choose|i: int| 0 <= i < s.len() && key(s[i]) == k
}

/// No two entries carry the same key.
pub open spec fn keys_unique<T, K>(s: Seq<T>, key: spec_fn(T) -> K) -> bool {
    forall|i: int, j: int|
        0 <= i < s.len() && 0 <= j < s.len() && i != j ==> key(s[i]) != key(s[j])
}

/// The map from keys to values that the entries describe.
pub open spec fn table_view<T, K, V>(s: Seq<T>, key: spec_fn(T) -> K, val: spec_fn(T) -> V) -> Map<
    K,
    V,
> {
    Map::new(|k: K| has_key(s, key, k), |k: K| val(s[key_index(s, key, k)]))
}

/// The entry at index `i` is the one its key maps to.
pub proof fn lemma_table_index<T, K, V>(
    s: Seq<T>,
    key: spec_fn(T) -> K,
    val: spec_fn(T) -> V,
    i: int,
)
    requires
        keys_unique(s, key),
        0 <= i < s.len(),
    ensures
        has_key(s, key, key(s[i])),
        key_index(s, key, key(s[i])) == i,
        table_view(s, key, val).contains_key(key(s[i])),
        table_view(s, key, val)[key(s[i])] == val(s[i]),
{
    assert(has_key(s, key, key(s[i])));
    let j = key_index(s, key, key(s[i]));
    assert(key(s[j]) == key(s[i]));
}

/// Replacing the entry at index `i` by one with the same key updates the
/// value of that key.
pub proof fn lemma_table_update<T, K, V>(
    s: Seq<T>,
    key: spec_fn(T) -> K,
    val: spec_fn(T) -> V,
    i: int,
    x: T,
)
    requires
        keys_unique(s, key),
        0 <= i < s.len(),
        key(x) == key(s[i]),
    ensures
        keys_unique(s.update(i, x), key),
        table_view(s.update(i, x), key, val) == table_view(s, key, val).insert(key(x), val(x)),
{
    let t = s.update(i, x);
    assert(keys_unique(t, key)) by {
        assert forall|a: int, b: int|
            0 <= a < t.len() && 0 <= b < t.len() && a != b implies key(t[a]) != key(t[b]) by {
            if a == i {
                assert(key(t[a]) == key(s[i]));
            } else if b == i {
                assert(key(t[b]) == key(s[i]));
            }
        }
    }
    let m1 = table_view(t, key, val);
    let m2 = table_view(s, key, val).insert(key(x), val(x));
    assert forall|k: K| m1.contains_key(k) <==> m2.contains_key(k) by {
        if has_key(s, key, k) {
            let j = key_index(s, key, k);
            if j == i {
                assert(key(t[i]) == k);
            } else {
                assert(key(t[j]) == k);
            }
        }
        if has_key(t, key, k) {
            let j = key_index(t, key, k);
            if j != i {
                assert(key(s[j]) == k);
            }
        }
    }
    assert forall|k: K| #[trigger] m1.contains_key(k) implies m1[k] == m2[k] by {
        let j = key_index(t, key, k);
        if k == key(x) {
            lemma_table_index(t, key, val, i);
        } else {
            assert(j != i);
            assert(key(s[j]) == k);
            lemma_table_index(s, key, val, j);
            lemma_table_index(t, key, val, j);
        }
    }
    assert(m1 =~= m2);
}

/// Appending an entry with a new key inserts that key.
pub proof fn lemma_table_push<T, K, V>(s: Seq<T>, key: spec_fn(T) -> K, val: spec_fn(T) -> V, x: T)
    requires
        keys_unique(s, key),
        !has_key(s, key, key(x)),
    ensures
        keys_unique(s.push(x), key),
        table_view(s.push(x), key, val) == table_view(s, key, val).insert(key(x), val(x)),
{
    let t = s.push(x);
    let n = s.len() as int;
    assert(keys_unique(t, key)) by {
        assert forall|a: int, b: int|
            0 <= a < t.len() && 0 <= b < t.len() && a != b implies key(t[a]) != key(t[b]) by {
            if a == n {
                assert(key(s[b]) != key(x));
            } else if b == n {
                assert(key(s[a]) != key(x));
            } else {
                assert(t[a] == s[a] && t[b] == s[b]);
            }
        }
    }
    let m1 = table_view(t, key, val);
    let m2 = table_view(s, key, val).insert(key(x), val(x));
    assert forall|k: K| m1.contains_key(k) <==> m2.contains_key(k) by {
        if has_key(s, key, k) {
            let j = key_index(s, key, k);
            assert(key(t[j]) == k);
        }
        if k == key(x) {
            assert(key(t[n]) == k);
        }
        if has_key(t, key, k) {
            let j = key_index(t, key, k);
            if j != n {
                assert(key(s[j]) == k);
            }
        }
    }
    assert forall|k: K| #[trigger] m1.contains_key(k) implies m1[k] == m2[k] by {
        let j = key_index(t, key, k);
        if k == key(x) {
            lemma_table_index(t, key, val, n);
        } else {
            assert(j != n);
            assert(key(s[j]) == k);
            lemma_table_index(s, key, val, j);
            lemma_table_index(t, key, val, j);
        }
    }
    assert(m1 =~= m2);
}

/// Removing the entry at index `i` removes its key.
pub proof fn lemma_table_remove<T, K, V>(
    s: Seq<T>,
    key: spec_fn(T) -> K,
    val: spec_fn(T) -> V,
    i: int,
)
    requires
        keys_unique(s, key),
        0 <= i < s.len(),
    ensures
        keys_unique(s.remove(i), key),
        table_view(s.remove(i), key, val) == table_view(s, key, val).remove(key(s[i])),
{
    let t = s.remove(i);
    assert forall|a: int| 0 <= a < t.len() implies #[trigger] t[a] == (if a < i {
        s[a]
    } else {
        s[a + 1]
    }) by {}
    assert(keys_unique(t, key)) by {
        assert forall|a: int, b: int|
            0 <= a < t.len() && 0 <= b < t.len() && a != b implies key(t[a]) != key(t[b]) by {
            let sa = if a < i { a } else { a + 1 };
            let sb = if b < i { b } else { b + 1 };
            assert(t[a] == s[sa] && t[b] == s[sb]);
        }
    }
    let m1 = table_view(t, key, val);
    let m2 = table_view(s, key, val).remove(key(s[i]));
    assert forall|k: K| m1.contains_key(k) <==> m2.contains_key(k) by {
        if has_key(s, key, k) && k != key(s[i]) {
            let j = key_index(s, key, k);
            assert(j != i);
            if j < i {
                assert(key(t[j]) == k);
            } else {
                assert(key(t[j - 1]) == k);
            }
        }
        if has_key(t, key, k) {
            let j = key_index(t, key, k);
            let sj = if j < i { j } else { j + 1 };
            assert(t[j] == s[sj]);
            assert(sj != i);
            assert(key(s[sj]) == k);
        }
    }
    assert forall|k: K| #[trigger] m1.contains_key(k) implies m1[k] == m2[k] by {
        let j = key_index(t, key, k);
        let sj = if j < i { j } else { j + 1 };
        assert(t[j] == s[sj]);
        lemma_table_index(s, key, val, sj);
        lemma_table_index(t, key, val, j);
    }
    assert(m1 =~= m2);
}

/// An empty table is the empty map.
pub proof fn lemma_table_empty<T, K, V>(s: Seq<T>, key: spec_fn(T) -> K, val: spec_fn(T) -> V)
    requires
        s.len() == 0,
    ensures
        keys_unique(s, key),
        table_view(s, key, val) == Map::<K, V>::empty(),
{
    assert(table_view(s, key, val) =~= Map::<K, V>::empty());
}

/// A table has as many keys as entries.
pub proof fn lemma_table_len<T, K, V>(s: Seq<T>, key: spec_fn(T) -> K, val: spec_fn(T) -> V)
    requires
        keys_unique(s, key),
    ensures
        table_view(s, key, val).dom().finite(),
        table_view(s, key, val).dom().len() == s.len(),
    decreases s.len(),
{
    if s.len() == 0 {
        lemma_table_empty(s, key, val);
    } else {
        let p = s.drop_last();
        let x = s.last();
        assert(keys_unique(p, key)) by {
            assert forall|a: int, b: int|
                0 <= a < p.len() && 0 <= b < p.len() && a != b implies key(p[a]) != key(p[b]) by {
                assert(p[a] == s[a] && p[b] == s[b]);
            }
        }
        lemma_table_len(p, key, val);
        if has_key(p, key, key(x)) {
            let j = key_index(p, key, key(x));
            assert(p[j] == s[j]);
            assert(key(s[j]) == key(s[s.len() - 1]));
        }
        lemma_table_push(p, key, val, x);
        assert(p.push(x) =~= s);
    }
}

/// Number of entries of `s` whose value satisfies `p`.
pub open spec fn count_vals<T, V>(s: Seq<T>, val: spec_fn(T) -> V, p: spec_fn(V) -> bool) -> nat
    decreases s.len(),
{
    if s.len() == 0 {
        0
    } else {
        count_vals(s.drop_last(), val, p) + if p(val(s.last())) {
            1nat
        } else {
            0nat
        }
    }
}

/// The keys of `m` whose value satisfies `p`.
pub open spec fn keys_where<K, V>(m: Map<K, V>, p: spec_fn(V) -> bool) -> Set<K> {
    m.dom().filter(|k: K| p(m[k]))
}

/// Counting the entries of a table whose value satisfies `p` counts the keys
/// of its map with such a value.
pub proof fn lemma_table_count<T, K, V>(
    s: Seq<T>,
    key: spec_fn(T) -> K,
    val: spec_fn(T) -> V,
    p: spec_fn(V) -> bool,
)
    requires
        keys_unique(s, key),
    ensures
        keys_where(table_view(s, key, val), p).finite(),
        count_vals(s, val, p) == keys_where(table_view(s, key, val), p).len(),
    decreases s.len(),
{
    if s.len() == 0 {
        lemma_table_empty(s, key, val);
        assert(keys_where(table_view(s, key, val), p) =~= Set::<K>::empty());
    } else {
        let q = s.drop_last();
        let x = s.last();
        assert(keys_unique(q, key)) by {
            assert forall|a: int, b: int|
                0 <= a < q.len() && 0 <= b < q.len() && a != b implies key(q[a]) != key(q[b]) by {
                assert(q[a] == s[a] && q[b] == s[b]);
            }
        }
        if has_key(q, key, key(x)) {
            let j = key_index(q, key, key(x));
            assert(q[j] == s[j]);
            assert(key(s[j]) == key(s[s.len() - 1]));
        }
        lemma_table_count(q, key, val, p);
        lemma_table_push(q, key, val, x);
        assert(q.push(x) =~= s);
        let fq = keys_where(table_view(q, key, val), p);
        let fs = keys_where(table_view(s, key, val), p);
        assert(!fq.contains(key(x)));
        if p(val(x)) {
            assert(fs =~= fq.insert(key(x)));
        } else {
            assert(fs =~= fq);
        }
    }
}

} // verus!
