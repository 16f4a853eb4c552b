//! Association lists with distinct keys, read as maps.

use vstd::prelude::*;

verus! {

/// No key occurs twice among the pairs `s`.
pub open spec fn distinct_keys<K, V>(s: Seq<(K, V)>) -> bool {
    forall|i: int, j: int|
        0 <= i < s.len() && 0 <= j < s.len() && i != j ==> #[trigger] s[i].0 != #[trigger] s[j].0
}

/// Some pair of `s` has the key `k`.
pub open spec fn has_key<K, V>(s: Seq<(K, V)>, k: K) -> bool {
    exists|i: int| 0 <= i < s.len() && #[trigger] s[i].0 == k
}

/// The pairs `s` as a map.
pub open spec fn assoc_map<K, V>(s: Seq<(K, V)>) -> Map<K, V> {
    Map::new(
        |k: K| has_key(s, k),
        |k: K| s[choose|i: int| 0 <= i < s.len() && #[trigger] s[i].0 == k].1,
    )
}

/// The pair at `i` is what the map holds for its key.
pub proof fn lemma_assoc_at<K, V>(s: Seq<(K, V)>, i: int)
    requires
        distinct_keys(s),
        0 <= i < s.len(),
    ensures
        assoc_map(s).dom().contains(s[i].0),
        assoc_map(s)[s[i].0] == s[i].1,
{
    assert(has_key(s, s[i].0));
}

/// Appending a pair with a new key adds it to the map.
pub proof fn lemma_assoc_push<K, V>(s: Seq<(K, V)>, k: K, v: V)
    requires
        distinct_keys(s),
        !has_key(s, k),
    ensures
        distinct_keys(s.push((k, v))),
        assoc_map(s.push((k, v))) == assoc_map(s).insert(k, v),
{
    let t = s.push((k, v));
    let m = assoc_map(s).insert(k, v);
    assert forall|i: int, j: int|
        0 <= i < t.len() && 0 <= j < t.len() && i != j implies #[trigger] t[i].0 != #[trigger] t[j].0 by {
        if i == s.len() {
            assert(t[j] == s[j]);
        } else if j == s.len() {
            assert(t[i] == s[i]);
        } else {
            assert(t[i] == s[i] && t[j] == s[j]);
        }
    }
    assert forall|q: K| #[trigger] assoc_map(t).dom().contains(q) <==> m.dom().contains(q) by {
        if has_key(t, q) {
            let i = choose|i: int| 0 <= i < t.len() && #[trigger] t[i].0 == q;
            if i < s.len() {
                assert(s[i].0 == q);
            }
        }
        if has_key(s, q) {
            let i = choose|i: int| 0 <= i < s.len() && #[trigger] s[i].0 == q;
            assert(t[i].0 == q);
        }
        if q == k {
            assert(t[s.len() as int].0 == q);
        }
    }
    assert forall|q: K| #[trigger] assoc_map(t).dom().contains(q) implies assoc_map(t)[q] == m[q] by {
        let i = choose|i: int| 0 <= i < t.len() && #[trigger] t[i].0 == q;
        lemma_assoc_at(t, i);
        if i < s.len() {
            assert(t[i] == s[i]);
            lemma_assoc_at(s, i);
        }
    }
    assert(assoc_map(t) =~= m);
}

/// Replacing the value at `p` replaces it in the map.
pub proof fn lemma_assoc_update<K, V>(s: Seq<(K, V)>, p: int, v: V)
    requires
        distinct_keys(s),
        0 <= p < s.len(),
    ensures
        distinct_keys(s.update(p, (s[p].0, v))),
        assoc_map(s.update(p, (s[p].0, v))) == assoc_map(s).insert(s[p].0, v),
{
    let t = s.update(p, (s[p].0, v));
    let k = s[p].0;
    let m = assoc_map(s).insert(k, v);
    assert forall|i: int, j: int|
        0 <= i < t.len() && 0 <= j < t.len() && i != j implies #[trigger] t[i].0 != #[trigger] t[j].0 by {
        assert(t[i].0 == s[i].0 && t[j].0 == s[j].0);
    }
    assert forall|q: K| #[trigger] assoc_map(t).dom().contains(q) <==> m.dom().contains(q) by {
        if has_key(t, q) {
            let i = choose|i: int| 0 <= i < t.len() && #[trigger] t[i].0 == q;
            assert(s[i].0 == q);
        }
        if has_key(s, q) {
            let i = choose|i: int| 0 <= i < s.len() && #[trigger] s[i].0 == q;
            assert(t[i].0 == q);
        }
    }
    assert forall|q: K| #[trigger] assoc_map(t).dom().contains(q) implies assoc_map(t)[q] == m[q] by {
        let i = choose|i: int| 0 <= i < t.len() && #[trigger] t[i].0 == q;
        lemma_assoc_at(t, i);
        if i != p {
            assert(t[i] == s[i]);
            lemma_assoc_at(s, i);
        }
    }
    assert(assoc_map(t) =~= m);
}

/// Dropping the pair at `p` drops its key from the map.
pub proof fn lemma_assoc_remove<K, V>(s: Seq<(K, V)>, p: int)
    requires
        distinct_keys(s),
        0 <= p < s.len(),
    ensures
        distinct_keys(s.remove(p)),
        assoc_map(s.remove(p)) == assoc_map(s).remove(s[p].0),
{
    let t = s.remove(p);
    let key = s[p].0;
    assert forall|i: int, j: int|
        0 <= i < t.len() && 0 <= j < t.len() && i != j implies #[trigger] t[i].0 != #[trigger] t[j].0 by {
        let si = if i < p {
            i
        } else {
            i + 1
        };
        let sj = if j < p {
            j
        } else {
            j + 1
        };
        assert(t[i] == s[si] && t[j] == s[sj]);
    }
    let m = assoc_map(s).remove(key);
    assert forall|q: K| #[trigger] assoc_map(t).dom().contains(q) <==> m.dom().contains(q) by {
        if has_key(t, q) {
            let i = choose|i: int| 0 <= i < t.len() && #[trigger] t[i].0 == q;
            let si = if i < p {
                i
            } else {
                i + 1
            };
            assert(s[si].0 == q);
        }
        if has_key(s, q) && q != key {
            let i = choose|i: int| 0 <= i < s.len() && #[trigger] s[i].0 == q;
            if i < p {
                assert(t[i].0 == q);
            } else {
                assert(t[i - 1].0 == q);
            }
        }
    }
    assert forall|q: K| #[trigger] assoc_map(t).dom().contains(q) implies assoc_map(t)[q] == m[q] by {
        let i = choose|i: int| 0 <= i < t.len() && #[trigger] t[i].0 == q;
        lemma_assoc_at(t, i);
        if i < p {
            lemma_assoc_at(s, i);
        } else {
            lemma_assoc_at(s, i + 1);
        }
    }
    assert(assoc_map(t) =~= m);
}

/// Changing each value by `f` of its key and value changes the map the
/// same way.
pub proof fn lemma_assoc_map_values<K, V>(s: Seq<(K, V)>, t: Seq<(K, V)>, f: spec_fn(K, V) -> V)
    requires
        distinct_keys(s),
        t.len() == s.len(),
        forall|i: int| 0 <= i < s.len() ==> #[trigger] t[i] == (s[i].0, f(s[i].0, s[i].1)),
    ensures
        distinct_keys(t),
        assoc_map(t) == Map::new(
            |k: K| assoc_map(s).dom().contains(k),
            |k: K| f(k, assoc_map(s)[k]),
        ),
{
    let m = Map::new(|k: K| assoc_map(s).dom().contains(k), |k: K| f(k, assoc_map(s)[k]));
    assert forall|i: int, j: int|
        0 <= i < t.len() && 0 <= j < t.len() && i != j implies #[trigger] t[i].0 != #[trigger] t[j].0 by {
        assert(t[i].0 == s[i].0 && t[j].0 == s[j].0);
    }
    assert forall|q: K| #[trigger] assoc_map(t).dom().contains(q) <==> m.dom().contains(q) by {
        if has_key(t, q) {
            let i = choose|i: int| 0 <= i < t.len() && #[trigger] t[i].0 == q;
            assert(s[i].0 == q);
        }
        if has_key(s, q) {
            let i = choose|i: int| 0 <= i < s.len() && #[trigger] s[i].0 == q;
            assert(t[i].0 == q);
        }
    }
    assert forall|q: K| #[trigger] assoc_map(t).dom().contains(q) implies assoc_map(t)[q] == m[q] by {
        let i = choose|i: int| 0 <= i < t.len() && #[trigger] t[i].0 == q;
        lemma_assoc_at(t, i);
        assert(s[i].0 == q);
        lemma_assoc_at(s, i);
    }
    assert(assoc_map(t) =~= m);
}

} // verus!
