//! Sets of hashes held as strictly increasing sequences, and sequences that
//! keep first arrival order without repeats.
use vstd::prelude::*;
use crate::canonical::{lex_le, lemma_lex_total, lemma_lex_antisym, lemma_lex_trans, bytes_le};
use crate::fields::hash_views;
use crate::store::{BlobHash, lemma_hash_eq};
use crate::trust::lex_lt;

verus! {

/// Whether the byte strings of `s` strictly increase.
pub open spec fn increasing(s: Seq<Seq<u8>>) -> bool {
    forall|i: int, j: int| 0 <= i < j < s.len() ==> lex_lt(#[trigger] s[i], #[trigger] s[j])
}

/// The strictly increasing sequence holding exactly the members of `s`.
pub open spec fn sorted_set(s: Set<Seq<u8>>) -> Seq<Seq<u8>> {
    choose|r: Seq<Seq<u8>>| increasing(r) && r.to_set() == s
}

pub proof fn lemma_lex_lt_asym(a: Seq<u8>, b: Seq<u8>)
    ensures
        !(lex_lt(a, b) && lex_lt(b, a)),
{
    if lex_le(a, b) && lex_le(b, a) {
        lemma_lex_antisym(a, b);
    }
}

pub proof fn lemma_lex_lt_trans(a: Seq<u8>, b: Seq<u8>, c: Seq<u8>)
    requires
        lex_lt(a, b),
        lex_lt(b, c),
    ensures
        lex_lt(a, c),
{
    lemma_lex_trans(a, b, c);
    if a == c {
        lemma_lex_antisym(a, b);
    }
}

/// Two strictly increasing sequences with the same members are the same.
pub proof fn lemma_increasing_unique(a: Seq<Seq<u8>>, b: Seq<Seq<u8>>)
    requires
        increasing(a),
        increasing(b),
        a.to_set() == b.to_set(),
    ensures
        a == b,
    decreases a.len(),
{
    if a.len() == 0 {
        if b.len() > 0 {
            assert(b.to_set().contains(b[0]));
        }
        assert(a =~= b);
    } else if b.len() == 0 {
        assert(a.to_set().contains(a[0]));
    } else {
        assert(a.to_set().contains(a[0]));
        assert(b.to_set().contains(b[0]));
        let j = choose|j: int| 0 <= j < b.len() && b[j] == a[0];
        let i = choose|i: int| 0 <= i < a.len() && a[i] == b[0];
        if j > 0 && i > 0 {
            lemma_lex_lt_asym(a[0], b[0]);
        }
        assert(a[0] == b[0]);
        let a1 = a.drop_first();
        let b1 = b.drop_first();
        assert forall|x: Seq<u8>| a1.to_set().contains(x) implies b1.to_set().contains(x) by {
            let k = choose|k: int| 0 <= k < a1.len() && a1[k] == x;
            assert(a[k + 1] == x);
            assert(lex_lt(a[0], x));
            assert(b.to_set().contains(x));
            let m = choose|m: int| 0 <= m < b.len() && b[m] == x;
            assert(m != 0);
            assert(b1[m - 1] == x);
        }
        assert forall|x: Seq<u8>| b1.to_set().contains(x) implies a1.to_set().contains(x) by {
            let k = choose|k: int| 0 <= k < b1.len() && b1[k] == x;
            assert(b[k + 1] == x);
            assert(lex_lt(b[0], x));
            assert(a.to_set().contains(x));
            let m = choose|m: int| 0 <= m < a.len() && a[m] == x;
            assert(m != 0);
            assert(a1[m - 1] == x);
        }
        assert(a1.to_set() =~= b1.to_set());
        lemma_increasing_unique(a1, b1);
        assert(a =~= seq![a[0]] + a1);
        assert(b =~= seq![b[0]] + b1);
    }
}

/// An increasing sequence is the sorted form of its members.
pub proof fn lemma_sorted_set(r: Seq<Seq<u8>>)
    requires
        increasing(r),
    ensures
        sorted_set(r.to_set()) == r,
{
    let c = sorted_set(r.to_set());
    assert(increasing(r) && r.to_set() == r.to_set());
    lemma_increasing_unique(c, r);
}

/// Whether `a` sorts strictly before `b`.
pub fn hash_lt(a: &BlobHash, b: &BlobHash) -> (r: bool)
    ensures
        r == lex_lt(a@, b@),
{
    let le = bytes_le(a.as_bytes(), b.as_bytes());
    le && !(*a == *b)
}

/// Whether `v` holds `h`.
pub fn holds(v: &Vec<BlobHash>, h: &BlobHash) -> (r: bool)
    ensures
        r == hash_views(v@).contains(h@),
{
    let mut i: usize = 0;
    while i < v.len()
        invariant
            i <= v.len(),
            forall|j: int| 0 <= j < i ==> v@[j]@ != h@,
        decreases v.len() - i,
    {
        if v[i] == *h {
            assert(hash_views(v@)[i as int] == h@);
            return true;
        }
        i = i + 1;
    }
    proof {
        if hash_views(v@).contains(h@) {
            let k = choose|k: int| 0 <= k < hash_views(v@).len() && hash_views(v@)[k] == h@;
            assert(v@[k]@ == h@);
        }
    }
    false
}

/// Inserts `h` into the increasing `v` unless it is already there.
pub fn insert_unique(v: &mut Vec<BlobHash>, h: BlobHash)
    requires
        increasing(hash_views(old(v)@)),
    ensures
        increasing(hash_views(final(v)@)),
        hash_views(final(v)@).to_set() == hash_views(old(v)@).to_set().insert(h@),
{
    let ghost s = hash_views(v@);
    let mut j: usize = 0;
    while j < v.len() && hash_lt(&v[j], &h)
        invariant
            j <= v.len(),
            s == hash_views(v@),
            forall|m: int| 0 <= m < j ==> lex_lt(#[trigger] s[m], h@),
        decreases v.len() - j,
    {
        j = j + 1;
    }
    if j < v.len() && v[j] == h {
        assert(s.to_set().contains(h@)) by {
            assert(s[j as int] == h@);
        }
        assert(s.to_set().insert(h@) =~= s.to_set());
        return;
    }
    proof {
        if j < s.len() {
            lemma_lex_total(s[j as int], h@);
        }
    }
    v.insert(j, h);
    let ghost t = hash_views(v@);
    assert(t =~= s.insert(j as int, h@));
    assert forall|a: int, b: int| 0 <= a < b < t.len() implies lex_lt(#[trigger] t[a], #[trigger] t[b]) by {
        if a < j && b == j {
        } else if a < j && b > j {
            assert(t[b] == s[b - 1]);
        } else if a == j && b > j {
            assert(t[b] == s[b - 1]);
            if b - 1 > j {
                lemma_lex_lt_trans(h@, s[j as int], s[b - 1]);
            }
        } else if a > j {
            assert(t[a] == s[a - 1]);
            assert(t[b] == s[b - 1]);
        }
    }
    assert(t.to_set() =~= s.to_set().insert(h@)) by {
        assert forall|x: Seq<u8>| t.to_set().contains(x) implies s.to_set().insert(h@).contains(x) by {
            let k = choose|k: int| 0 <= k < t.len() && t[k] == x;
            if k < j {
                assert(s[k] == x);
            } else if k > j {
                assert(s[k - 1] == x);
            }
        }
        assert forall|x: Seq<u8>| s.to_set().insert(h@).contains(x) implies t.to_set().contains(x) by {
            if x == h@ {
                assert(t[j as int] == x);
            } else {
                let k = choose|k: int| 0 <= k < s.len() && s[k] == x;
                if k < j {
                    assert(t[k] == x);
                } else {
                    assert(t[k + 1] == x);
                }
            }
        }
    }
}

/// Adds every hash of `more` to the increasing `v`.
pub fn insert_all(v: &mut Vec<BlobHash>, more: &Vec<BlobHash>)
    requires
        increasing(hash_views(old(v)@)),
    ensures
        increasing(hash_views(final(v)@)),
        hash_views(final(v)@).to_set() == hash_views(old(v)@).to_set() + hash_views(more@).to_set(),
{
    let ghost s0 = hash_views(v@).to_set();
    let mut i: usize = 0;
    while i < more.len()
        invariant
            i <= more.len(),
            increasing(hash_views(v@)),
            hash_views(v@).to_set() == s0 + hash_views(more@).take(i as int).to_set(),
        decreases more.len() - i,
    {
        insert_unique(v, more[i]);
        proof {
            assert(hash_views(more@).take(i + 1) =~= hash_views(more@).take(i as int).push(
                more@[i as int]@,
            ));
            hash_views(more@).take(i as int).lemma_push_to_set_commute(more@[i as int]@);
            assert((s0 + hash_views(more@).take(i as int).to_set()).insert(more@[i as int]@)
                =~= s0 + hash_views(more@).take(i + 1).to_set());
        }
        i = i + 1;
    }
    assert(hash_views(more@).take(i as int) =~= hash_views(more@));
}

/// `a` followed by each hash of `b` that is not yet there, in order.
pub open spec fn union_spec(a: Seq<Seq<u8>>, b: Seq<Seq<u8>>) -> Seq<Seq<u8>>
    decreases b.len(),
{
    if b.len() == 0 {
        a
    } else {
        let u = union_spec(a, b.drop_last());
        if u.contains(b.last()) {
            u
        } else {
            u.push(b.last())
        }
    }
}

/// The union of two hash lists, keeping `mine` first and in order.
pub fn union(mine: &Vec<BlobHash>, theirs: &Vec<BlobHash>) -> (out: Vec<BlobHash>)
    ensures
        hash_views(out@) == union_spec(hash_views(mine@), hash_views(theirs@)),
{
    let mut out: Vec<BlobHash> = Vec::new();
    let mut i: usize = 0;
    while i < mine.len()
        invariant
            i <= mine.len(),
            out.len() == i,
            forall|j: int| 0 <= j < i ==> #[trigger] out@[j] == mine@[j],
        decreases mine.len() - i,
    {
        out.push(mine[i]);
        i = i + 1;
    }
    assert(hash_views(out@) =~= hash_views(mine@));
    assert(hash_views(theirs@).take(0) =~= Seq::<Seq<u8>>::empty());
    let mut k: usize = 0;
    while k < theirs.len()
        invariant
            k <= theirs.len(),
            hash_views(out@) == union_spec(hash_views(mine@), hash_views(theirs@).take(k as int)),
        decreases theirs.len() - k,
    {
        let ghost b = hash_views(theirs@).take(k + 1);
        assert(b.drop_last() =~= hash_views(theirs@).take(k as int));
        assert(b.last() == theirs@[k as int]@);
        if !holds(&out, &theirs[k]) {
            out.push(theirs[k]);
            assert(hash_views(out@) =~= union_spec(hash_views(mine@), b));
        }
        k = k + 1;
    }
    assert(hash_views(theirs@).take(k as int) =~= hash_views(theirs@));
    out
}

/// The members of a union are the members of both lists.
pub proof fn lemma_union_members(a: Seq<Seq<u8>>, b: Seq<Seq<u8>>)
    ensures
        union_spec(a, b).to_set() == a.to_set() + b.to_set(),
    decreases b.len(),
{
    if b.len() == 0 {
        assert(a.to_set() + b.to_set() =~= a.to_set());
    } else {
        lemma_union_members(a, b.drop_last());
        let u = union_spec(a, b.drop_last());
        assert(b.to_set() =~= b.drop_last().to_set().insert(b.last())) by {
            assert(b =~= b.drop_last().push(b.last()));
        }
        if u.contains(b.last()) {
            assert(u.to_set().contains(b.last()));
            assert(a.to_set() + b.to_set() =~= u.to_set());
        } else {
            u.lemma_push_to_set_commute(b.last());
            assert(a.to_set() + b.to_set() =~= u.push(b.last()).to_set());
        }
    }
}

/// `x` placed into the increasing `r` where it belongs, unless it is there.
pub open spec fn ins(r: Seq<Seq<u8>>, x: Seq<u8>) -> Seq<Seq<u8>>
    decreases r.len(),
{
    if r.len() == 0 {
        seq![x]
    } else if r.last() == x {
        r
    } else if lex_lt(r.last(), x) {
        r.push(x)
    } else {
        ins(r.drop_last(), x).push(r.last())
    }
}

proof fn lemma_ins(r: Seq<Seq<u8>>, x: Seq<u8>)
    requires
        increasing(r),
    ensures
        increasing(ins(r, x)),
        ins(r, x).to_set() == r.to_set().insert(x),
    decreases r.len(),
{
    if r.len() == 0 {
        assert(seq![x].to_set() =~= Set::<Seq<u8>>::empty().insert(x)) by {
            Seq::<Seq<u8>>::empty().lemma_push_to_set_commute(x);
            assert(Seq::<Seq<u8>>::empty().push(x) =~= seq![x]);
        }
        assert(r.to_set() =~= Set::<Seq<u8>>::empty());
    } else if r.last() == x {
        assert(r.to_set().contains(x)) by {
            assert(r[r.len() - 1] == x);
        }
        assert(r.to_set().insert(x) =~= r.to_set());
    } else if lex_lt(r.last(), x) {
        let t = r.push(x);
        assert forall|i: int, j: int| 0 <= i < j < t.len() implies lex_lt(#[trigger] t[i], #[trigger] t[j]) by {
            if j == r.len() && i < r.len() - 1 {
                lemma_lex_lt_trans(r[i], r.last(), x);
            }
        }
        r.lemma_push_to_set_commute(x);
    } else {
        let u = r.drop_last();
        let top = r.last();
        lemma_lex_total(top, x);
        assert(lex_lt(x, top));
        assert(increasing(u));
        lemma_ins(u, x);
        let w = ins(u, x);
        assert(r =~= u.push(top));
        u.lemma_push_to_set_commute(top);
        w.lemma_push_to_set_commute(top);
        assert forall|k: int| 0 <= k < w.len() implies lex_lt(#[trigger] w[k], top) by {
            assert(w.to_set().contains(w[k]));
            if w[k] != x {
                assert(u.to_set().contains(w[k]));
                let m = choose|m: int| 0 <= m < u.len() && u[m] == w[k];
                assert(r[m] == u[m]);
            }
        }
        let t = w.push(top);
        assert forall|i: int, j: int| 0 <= i < j < t.len() implies lex_lt(#[trigger] t[i], #[trigger] t[j]) by {
            if j == w.len() {
                assert(t[i] == w[i]);
            } else {
                assert(t[i] == w[i]);
                assert(t[j] == w[j]);
            }
        }
        assert(t.to_set() =~= r.to_set().insert(x));
    }
}

/// Every finite run of byte strings has a sorted form.
pub proof fn lemma_sorted_exists(s: Seq<Seq<u8>>)
    ensures
        increasing(sorted_set(s.to_set())),
        sorted_set(s.to_set()).to_set() == s.to_set(),
    decreases s.len(),
{
    if s.len() == 0 {
        let r = Seq::<Seq<u8>>::empty();
        assert(r.to_set() =~= s.to_set());
        assert(increasing(r));
    } else {
        let u = s.drop_last();
        lemma_sorted_exists(u);
        let r0 = sorted_set(u.to_set());
        lemma_ins(r0, s.last());
        let r = ins(r0, s.last());
        assert(s =~= u.push(s.last()));
        u.lemma_push_to_set_commute(s.last());
        assert(increasing(r) && r.to_set() == s.to_set());
    }
}

/// The sorted form of the members of three runs holds exactly their members.
pub proof fn lemma_sorted_union(a: Seq<Seq<u8>>, b: Seq<Seq<u8>>, c: Seq<Seq<u8>>)
    ensures
        increasing(sorted_set(a.to_set() + b.to_set() + c.to_set())),
        forall|x: Seq<u8>|
            #[trigger] sorted_set(a.to_set() + b.to_set() + c.to_set()).contains(x) <==> (
            a.contains(x) || b.contains(x) || c.contains(x)),
{
    let s = a + b + c;
    assert(s.to_set() =~= a.to_set() + b.to_set() + c.to_set()) by {
        assert forall|x: Seq<u8>| s.to_set().contains(x) implies (a.to_set() + b.to_set()
            + c.to_set()).contains(x) by {
            let k = choose|k: int| 0 <= k < s.len() && s[k] == x;
            if k < a.len() {
                assert(a[k] == x);
            } else if k < a.len() + b.len() {
                assert(b[k - a.len()] == x);
            } else {
                assert(c[k - a.len() - b.len()] == x);
            }
        }
        assert forall|x: Seq<u8>| (a.to_set() + b.to_set() + c.to_set()).contains(x) implies s.to_set().contains(
            x,
        ) by {
            if a.contains(x) {
                let k = choose|k: int| 0 <= k < a.len() && a[k] == x;
                assert(s[k] == x);
            } else if b.contains(x) {
                let k = choose|k: int| 0 <= k < b.len() && b[k] == x;
                assert(s[a.len() + k] == x);
            } else {
                let k = choose|k: int| 0 <= k < c.len() && c[k] == x;
                assert(s[a.len() + b.len() + k] == x);
            }
        }
    }
    lemma_sorted_exists(s);
    let r = sorted_set(s.to_set());
    assert forall|x: Seq<u8>| #[trigger] r.contains(x) <==> (a.contains(x) || b.contains(x) || c.contains(x)) by {
        if r.contains(x) {
            assert(r.to_set().contains(x));
        }
        if a.contains(x) || b.contains(x) || c.contains(x) {
            assert(s.to_set().contains(x));
            assert(r.to_set().contains(x));
        }
    }
}

/// The union of two hash lists keeps the first list whole and first, then
/// adds each hash of the second that is not there yet, once; it holds
/// exactly the hashes of both.
pub proof fn law_union_keeps_mine_first_and_adds_theirs_once(a: Seq<Seq<u8>>, b: Seq<Seq<u8>>)
    ensures
        union_spec(a, b).len() >= a.len(),
        union_spec(a, b).subrange(0, a.len() as int) == a,
        forall|i: int|
            a.len() <= i < union_spec(a, b).len() ==> !a.contains(#[trigger] union_spec(a, b)[i]) && b.contains(
                union_spec(a, b)[i],
            ),
        forall|i: int, j: int|
            a.len() <= i < j < union_spec(a, b).len() ==> #[trigger] union_spec(a, b)[i] != #[trigger] union_spec(a, b)[j],
        union_spec(a, b).to_set() == a.to_set() + b.to_set(),
    decreases b.len(),
{
    lemma_union_members(a, b);
    if b.len() > 0 {
        let d = b.drop_last();
        law_union_keeps_mine_first_and_adds_theirs_once(a, d);
        let u = union_spec(a, d);
        let w = union_spec(a, b);
        assert forall|x: Seq<u8>| d.contains(x) implies b.contains(x) by {
            let k = choose|k: int| 0 <= k < d.len() && d[k] == x;
            assert(b[k] == x);
        }
        assert(b.contains(b.last())) by {
            assert(b[b.len() - 1] == b.last());
        }
        if !u.contains(b.last()) {
            assert(w == u.push(b.last()));
            assert(w.subrange(0, a.len() as int) =~= u.subrange(0, a.len() as int));
            assert(!a.contains(b.last())) by {
                if a.contains(b.last()) {
                    let k = choose|k: int| 0 <= k < a.len() && a[k] == b.last();
                    assert(u.subrange(0, a.len() as int)[k] == u[k]);
                    assert(u[k] == b.last());
                }
            }
            assert forall|i: int| a.len() <= i < w.len() implies !a.contains(#[trigger] w[i]) && b.contains(w[i]) by {
                if i < u.len() {
                    assert(w[i] == u[i]);
                }
            }
            assert forall|i: int, j: int| a.len() <= i < j < w.len() implies #[trigger] w[i] != #[trigger] w[j] by {
                if j == u.len() {
                    assert(w[i] == u[i]);
                    assert(u.contains(u[i]));
                } else {
                    assert(w[i] == u[i] && w[j] == u[j]);
                }
            }
        }
    }
}

} // verus!
