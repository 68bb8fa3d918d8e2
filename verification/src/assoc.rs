//! Lists of key-value pairs with distinct keys, read as maps.
use vstd::prelude::*;

verus! {

/// No key occurs twice.
pub open spec fn unique_keys<K, V>(s: Seq<(K, V)>) -> bool {
    forall|i: int, j: int| 0 <= i < j < s.len() ==> #[trigger] s[i].0 != #[trigger] s[j].0
}

/// The map a list of pairs sets, a later pair winning.
pub open spec fn as_map<K, V>(s: Seq<(K, V)>) -> Map<K, V>
    decreases s.len(),
{
    if s.len() == 0 {
        Map::empty()
    } else {
        as_map(s.drop_last()).insert(s.last().0, s.last().1)
    }
}

/// The entries of `m` for which `f` holds.
pub open spec fn restrict<K, V>(m: Map<K, V>, f: spec_fn(K, V) -> bool) -> Map<K, V> {
    Map::new(|k: K| m.contains_key(k) && f(k, m[k]), |k: K| m[k])
}

pub proof fn lemma_as_map<K, V>(s: Seq<(K, V)>)
    requires
        unique_keys(s),
    ensures
        forall|k: K|
            #[trigger] as_map(s).contains_key(k) <==> exists|i: int| 0 <= i < s.len() && s[i].0 == k,
        forall|i: int|
            0 <= i < s.len() ==> as_map(s).contains_key(#[trigger] s[i].0) && as_map(s)[s[i].0] == s[i].1,
    decreases s.len(),
{
    if s.len() > 0 {
        let t = s.drop_last();
        assert forall|i: int, j: int| 0 <= i < j < t.len() implies #[trigger] t[i].0 != #[trigger] t[j].0 by {
            assert(t[i] == s[i] && t[j] == s[j]);
        }
        lemma_as_map(t);
        let x = s.last();
        assert forall|k: K| #[trigger] as_map(s).contains_key(k) <==> exists|i: int| 0 <= i < s.len() && s[i].0 == k by {
            if as_map(s).contains_key(k) {
                if k == x.0 {
                    assert(s[s.len() - 1].0 == k);
                } else {
                    assert(as_map(t).contains_key(k));
                    let i = choose|i: int| 0 <= i < t.len() && t[i].0 == k;
                    assert(s[i] == t[i]);
                }
            }
            if exists|i: int| 0 <= i < s.len() && s[i].0 == k {
                let i = choose|i: int| 0 <= i < s.len() && s[i].0 == k;
                if i < s.len() - 1 {
                    assert(t[i] == s[i]);
                    assert(as_map(t).contains_key(k));
                }
            }
        }
        assert forall|i: int| 0 <= i < s.len() implies as_map(s).contains_key(#[trigger] s[i].0) && as_map(s)[s[i].0]
            == s[i].1 by {
            if i < s.len() - 1 {
                assert(t[i] == s[i]);
                assert(s[i].0 != x.0);
            }
        }
    }
}

/// Replacing the value at a key changes only that key.
pub proof fn lemma_as_map_update<K, V>(s: Seq<(K, V)>, i: int, v: V)
    requires
        unique_keys(s),
        0 <= i < s.len(),
    ensures
        unique_keys(s.update(i, (s[i].0, v))),
        as_map(s.update(i, (s[i].0, v))) == as_map(s).insert(s[i].0, v),
{
    let u = s.update(i, (s[i].0, v));
    assert forall|a: int, b: int| 0 <= a < b < u.len() implies #[trigger] u[a].0 != #[trigger] u[b].0 by {
        assert(u[a].0 == s[a].0 && u[b].0 == s[b].0);
    }
    lemma_as_map(s);
    lemma_as_map(u);
    let m = as_map(s).insert(s[i].0, v);
    assert forall|k: K| #[trigger] as_map(u).contains_key(k) <==> m.contains_key(k) by {
        if as_map(u).contains_key(k) {
            let j = choose|j: int| 0 <= j < u.len() && u[j].0 == k;
            assert(s[j].0 == k);
        }
        if m.contains_key(k) && k != s[i].0 {
            let j = choose|j: int| 0 <= j < s.len() && s[j].0 == k;
            assert(u[j].0 == k);
        }
        if k == s[i].0 {
            assert(u[i].0 == k);
        }
    }
    assert forall|k: K| #[trigger] as_map(u).contains_key(k) implies as_map(u)[k] == m[k] by {
        let j = choose|j: int| 0 <= j < u.len() && u[j].0 == k;
        assert(as_map(u)[u[j].0] == u[j].1);
        if j != i {
            assert(s[j] == u[j]);
        }
    }
    assert(as_map(u) =~= m);
}

/// Removing a pair removes its key.
pub proof fn lemma_as_map_remove<K, V>(s: Seq<(K, V)>, i: int)
    requires
        unique_keys(s),
        0 <= i < s.len(),
    ensures
        unique_keys(s.remove(i)),
        as_map(s.remove(i)) == as_map(s).remove(s[i].0),
{
    let u = s.remove(i);
    assert forall|a: int, b: int| 0 <= a < b < u.len() implies #[trigger] u[a].0 != #[trigger] u[b].0 by {
        let a2 = if a < i { a } else { a + 1 };
        let b2 = if b < i { b } else { b + 1 };
        assert(u[a] == s[a2] && u[b] == s[b2]);
    }
    lemma_as_map(s);
    lemma_as_map(u);
    let m = as_map(s).remove(s[i].0);
    assert forall|k: K| #[trigger] as_map(u).contains_key(k) <==> m.contains_key(k) by {
        if as_map(u).contains_key(k) {
            let j = choose|j: int| 0 <= j < u.len() && u[j].0 == k;
            let j2 = if j < i { j } else { j + 1 };
            assert(u[j] == s[j2]);
            assert(s[j2].0 != s[i].0);
        }
        if m.contains_key(k) {
            let j = choose|j: int| 0 <= j < s.len() && s[j].0 == k;
            assert(j != i);
            let j2 = if j < i { j } else { j - 1 };
            assert(u[j2] == s[j]);
        }
    }
    assert forall|k: K| #[trigger] as_map(u).contains_key(k) implies as_map(u)[k] == m[k] by {
        let j = choose|j: int| 0 <= j < u.len() && u[j].0 == k;
        let j2 = if j < i { j } else { j + 1 };
        assert(u[j] == s[j2]);
        assert(as_map(u)[u[j].0] == u[j].1);
        assert(as_map(s)[s[j2].0] == s[j2].1);
    }
    assert(as_map(u) =~= m);
}

/// Adding a pair under a new key.
pub proof fn lemma_as_map_push<K, V>(s: Seq<(K, V)>, k: K, v: V)
    requires
        unique_keys(s),
        !as_map(s).contains_key(k),
    ensures
        unique_keys(s.push((k, v))),
        as_map(s.push((k, v))) == as_map(s).insert(k, v),
{
    lemma_as_map(s);
    let u = s.push((k, v));
    assert forall|a: int, b: int| 0 <= a < b < u.len() implies #[trigger] u[a].0 != #[trigger] u[b].0 by {
        if b == s.len() {
            assert(u[a] == s[a]);
        } else {
            assert(u[a] == s[a] && u[b] == s[b]);
        }
    }
    assert(u.drop_last() =~= s);
}

/// One more pair of `s` seen by a filter that keeps the pairs `f` holds for.
pub proof fn lemma_restrict_step<K, V>(s: Seq<(K, V)>, i: int, f: spec_fn(K, V) -> bool)
    requires
        unique_keys(s),
        0 <= i < s.len(),
    ensures
        !as_map(s.take(i)).contains_key(s[i].0),
        restrict(as_map(s.take(i + 1)), f) == if f(s[i].0, s[i].1) {
            restrict(as_map(s.take(i)), f).insert(s[i].0, s[i].1)
        } else {
            restrict(as_map(s.take(i)), f)
        },
{
    let t = s.take(i);
    assert forall|a: int, b: int| 0 <= a < b < t.len() implies #[trigger] t[a].0 != #[trigger] t[b].0 by {
        assert(t[a] == s[a] && t[b] == s[b]);
    }
    lemma_as_map(t);
    if as_map(t).contains_key(s[i].0) {
        let j = choose|j: int| 0 <= j < t.len() && t[j].0 == s[i].0;
        assert(t[j] == s[j]);
    }
    assert(s.take(i + 1).drop_last() =~= t);
    assert(s.take(i + 1).last() == s[i]);
    let m = as_map(t);
    let m2 = as_map(s.take(i + 1));
    assert(m2 == m.insert(s[i].0, s[i].1));
    if f(s[i].0, s[i].1) {
        assert(restrict(m2, f) =~= restrict(m, f).insert(s[i].0, s[i].1));
    } else {
        assert(restrict(m2, f) =~= restrict(m, f));
    }
}

/// Adding a pair under a new key, at any position.
pub proof fn lemma_as_map_insert<K, V>(s: Seq<(K, V)>, i: int, k: K, v: V)
    requires
        unique_keys(s),
        0 <= i <= s.len(),
        forall|j: int| 0 <= j < s.len() ==> (#[trigger] s[j]).0 != k,
    ensures
        unique_keys(s.insert(i, (k, v))),
        as_map(s.insert(i, (k, v))) == as_map(s).insert(k, v),
{
    let u = s.insert(i, (k, v));
    assert forall|a: int, b: int| 0 <= a < b < u.len() implies #[trigger] u[a].0 != #[trigger] u[b].0 by {
        if a < i {
            assert(u[a] == s[a]);
        } else if a > i {
            assert(u[a] == s[a - 1]);
        }
        if b < i {
            assert(u[b] == s[b]);
        } else if b > i {
            assert(u[b] == s[b - 1]);
        }
    }
    lemma_as_map(s);
    lemma_as_map(u);
    let m = as_map(s).insert(k, v);
    assert forall|x: K| #[trigger] as_map(u).contains_key(x) <==> m.contains_key(x) by {
        if as_map(u).contains_key(x) && x != k {
            let j = choose|j: int| 0 <= j < u.len() && u[j].0 == x;
            if j < i {
                assert(u[j] == s[j]);
            } else if j > i {
                assert(u[j] == s[j - 1]);
            }
        }
        if m.contains_key(x) {
            if x == k {
                assert(u[i].0 == k);
            } else {
                let j = choose|j: int| 0 <= j < s.len() && s[j].0 == x;
                if j < i {
                    assert(u[j] == s[j]);
                } else {
                    assert(u[j + 1] == s[j]);
                }
            }
        }
    }
    assert forall|x: K| #[trigger] as_map(u).contains_key(x) implies as_map(u)[x] == m[x] by {
        let j = choose|j: int| 0 <= j < u.len() && u[j].0 == x;
        assert(as_map(u)[u[j].0] == u[j].1);
        if j < i {
            assert(u[j] == s[j]);
        } else if j > i {
            assert(u[j] == s[j - 1]);
        }
    }
    assert(as_map(u) =~= m);
}

} // verus!
