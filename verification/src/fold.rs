//! Laws of the fold of a collection's operations: it depends on which
//! operations count, not on the order in which they arrive.
use vstd::prelude::*;
use vstd::multiset::Multiset;
use crate::canonical::{lex_le, lemma_lex_total, lemma_lex_trans, lemma_lex_antisym};
use crate::collection::{
    Entry, OpV, counts, entries_of, entry_le, insert_entry, sort_entries, fold_spec, op_address,
    op_owned,
};

verus! {

broadcast use vstd::seq_lib::group_to_multiset_ensures;

/// Every entry sorts at or before every later one.
pub open spec fn entries_sorted(s: Seq<Entry>) -> bool {
    forall|i: int, j: int| 0 <= i < j < s.len() ==> entry_le(#[trigger] s[i], #[trigger] s[j])
}

/// The entry a counted operation contributes.
pub open spec fn entry_of(op: OpV) -> Entry {
    (op.claim.seq, op_address(op)->0, op.claim)
}

/// What an operation adds to the counted entries: its entry, or nothing.
pub open spec fn contribution(owner: Seq<u8>, op: OpV) -> Multiset<Entry> {
    if counts(owner, op) {
        Multiset::singleton(entry_of(op))
    } else {
        Multiset::empty()
    }
}

/// Counted operations with the same address make the same claim.
pub open spec fn addresses_determine(owner: Seq<u8>, ops: Seq<OpV>) -> bool {
    forall|i: int, j: int|
        0 <= i < ops.len() && 0 <= j < ops.len() && counts(owner, #[trigger] ops[i]) && counts(
            owner,
            #[trigger] ops[j],
        ) && op_address(ops[i]) == op_address(ops[j]) ==> ops[i].claim == ops[j].claim
}

/// Entries of `s` with the same sequence number and address are the same.
pub open spec fn keys_determine(s: Seq<Entry>) -> bool {
    forall|x: Entry, y: Entry|
        s.contains(x) && s.contains(y) && x.0 == y.0 && x.1 == y.1 ==> x == y
}

proof fn lemma_entry_le_total(a: Entry, b: Entry)
    ensures
        entry_le(a, b) || entry_le(b, a),
{
    lemma_lex_total(a.1, b.1);
}

proof fn lemma_entry_le_trans(a: Entry, b: Entry, c: Entry)
    requires
        entry_le(a, b),
        entry_le(b, c),
    ensures
        entry_le(a, c),
{
    if a.0 == b.0 && b.0 == c.0 {
        lemma_lex_trans(a.1, b.1, c.1);
    }
}

proof fn lemma_member<A>(s: Seq<A>, m: Multiset<A>, x: A)
    requires
        s.to_multiset() == m,
        m.count(x) > 0,
    ensures
        exists|k: int| 0 <= k < s.len() && s[k] == x,
{
    assert(s.contains(x));
}

proof fn lemma_insert_entry(e: Entry, t: Seq<Entry>)
    requires
        entries_sorted(t),
    ensures
        entries_sorted(insert_entry(e, t)),
        insert_entry(e, t).to_multiset() == t.to_multiset().insert(e),
    decreases t.len(),
{
    if t.len() == 0 {
        assert(insert_entry(e, t) == seq![e]);
        assert(seq![e] =~= Seq::<Entry>::empty().push(e));
        assert(t =~= Seq::<Entry>::empty());
    } else if entry_le(t.last(), e) {
        let r = t.push(e);
        assert forall|i: int, j: int| 0 <= i < j < r.len() implies entry_le(#[trigger] r[i], #[trigger] r[j]) by {
            if j == t.len() {
                if i < t.len() - 1 {
                    assert(entry_le(t[i], t[t.len() - 1]));
                    lemma_entry_le_trans(t[i], t.last(), e);
                }
            } else {
                assert(r[i] == t[i] && r[j] == t[j]);
            }
        }
    } else {
        let d = t.drop_last();
        let x = t.last();
        assert forall|i: int, j: int| 0 <= i < j < d.len() implies entry_le(#[trigger] d[i], #[trigger] d[j]) by {
            assert(d[i] == t[i] && d[j] == t[j]);
        }
        lemma_insert_entry(e, d);
        let r = insert_entry(e, d);
        lemma_entry_le_total(x, e);
        let u = r.push(x);
        assert forall|i: int, j: int| 0 <= i < j < u.len() implies entry_le(#[trigger] u[i], #[trigger] u[j]) by {
            if j == r.len() {
                let y = r[i];
                assert(r.to_multiset().count(y) > 0) by {
                    assert(r.contains(y));
                }
                if y != e {
                    assert(d.to_multiset().count(y) > 0);
                    lemma_member(d, d.to_multiset(), y);
                    let k = choose|k: int| 0 <= k < d.len() && d[k] == y;
                    assert(t[k] == y);
                    assert(entry_le(t[k], t[t.len() - 1]));
                }
            } else {
                assert(u[i] == r[i] && u[j] == r[j]);
            }
        }
        assert(t =~= d.push(x));
        assert(u.to_multiset() =~= t.to_multiset().insert(e));
    }
}

/// Sorting orders the entries and keeps each one as often as it occurs.
pub proof fn lemma_sort_entries(s: Seq<Entry>)
    ensures
        entries_sorted(sort_entries(s)),
        sort_entries(s).to_multiset() == s.to_multiset(),
    decreases s.len(),
{
    if s.len() == 0 {
        assert(sort_entries(s) =~= Seq::<Entry>::empty());
        assert(s =~= Seq::<Entry>::empty());
    } else {
        lemma_sort_entries(s.drop_last());
        lemma_insert_entry(s.last(), sort_entries(s.drop_last()));
        assert(s =~= s.drop_last().push(s.last()));
    }
}

/// Two sorted orderings of the same entries, where sequence number and
/// address decide an entry, are the same.
pub proof fn lemma_sorted_unique(a: Seq<Entry>, b: Seq<Entry>)
    requires
        entries_sorted(a),
        entries_sorted(b),
        a.to_multiset() == b.to_multiset(),
        keys_determine(a),
    ensures
        a == b,
    decreases a.len(),
{
    assert(a.to_multiset().len() == a.len());
    assert(b.to_multiset().len() == b.len());
    if a.len() == 0 {
        assert(b.len() == 0);
        assert(a =~= b);
    } else {
        let x = a.last();
        let y = b.last();
        assert(b.len() == a.len());
        assert(a.to_multiset().count(x) > 0) by {
            assert(a.contains(x));
        }
        assert(b.to_multiset().count(y) > 0) by {
            assert(b.contains(y));
        }
        lemma_member(b, a.to_multiset(), x);
        lemma_member(a, b.to_multiset(), y);
        let kb = choose|k: int| 0 <= k < b.len() && b[k] == x;
        let ka = choose|k: int| 0 <= k < a.len() && a[k] == y;
        lemma_lex_total(x.1, x.1);
        if kb < b.len() - 1 {
            assert(entry_le(b[kb], b[b.len() - 1]));
        }
        if ka < a.len() - 1 {
            assert(entry_le(a[ka], a[a.len() - 1]));
        }
        assert(entry_le(x, y) && entry_le(y, x));
        lemma_lex_antisym(x.1, y.1);
        assert(a.contains(y));
        assert(x == y);
        let da = a.drop_last();
        let db = b.drop_last();
        assert(a =~= da.push(x));
        assert(b =~= db.push(y));
        assert(da.to_multiset() =~= a.to_multiset().remove(x));
        assert(db.to_multiset() =~= b.to_multiset().remove(y));
        assert forall|i: int, j: int| 0 <= i < j < da.len() implies entry_le(#[trigger] da[i], #[trigger] da[j]) by {
            assert(da[i] == a[i] && da[j] == a[j]);
        }
        assert forall|i: int, j: int| 0 <= i < j < db.len() implies entry_le(#[trigger] db[i], #[trigger] db[j]) by {
            assert(db[i] == b[i] && db[j] == b[j]);
        }
        assert forall|p: Entry, q: Entry|
            da.contains(p) && da.contains(q) && p.0 == q.0 && p.1 == q.1 implies p == q by {
            let i = choose|i: int| 0 <= i < da.len() && da[i] == p;
            let j = choose|j: int| 0 <= j < da.len() && da[j] == q;
            assert(a[i] == p && a[j] == q);
            assert(a.contains(p) && a.contains(q));
        }
        lemma_sorted_unique(da, db);
    }
}

/// Every counted entry comes from a counted operation.
proof fn lemma_entries_from(owner: Seq<u8>, ops: Seq<OpV>, e: Entry)
    requires
        entries_of(owner, ops).contains(e),
    ensures
        exists|i: int| 0 <= i < ops.len() && counts(owner, #[trigger] ops[i]) && e == entry_of(ops[i]),
    decreases ops.len(),
{
    let d = ops.drop_last();
    let es = entries_of(owner, d);
    if es.contains(e) {
        lemma_entries_from(owner, d, e);
        let i = choose|i: int| 0 <= i < d.len() && counts(owner, #[trigger] d[i]) && e == entry_of(d[i]);
        assert(ops[i] == d[i]);
    } else {
        let k = choose|k: int| 0 <= k < entries_of(owner, ops).len() && entries_of(owner, ops)[k] == e;
        assert(counts(owner, ops.last()));
        assert(k == es.len());
        assert(ops[ops.len() - 1] == ops.last());
    }
}

proof fn lemma_entries_keys(owner: Seq<u8>, ops: Seq<OpV>)
    requires
        addresses_determine(owner, ops),
    ensures
        keys_determine(entries_of(owner, ops)),
{
    assert forall|x: Entry, y: Entry|
        entries_of(owner, ops).contains(x) && entries_of(owner, ops).contains(y) && x.0 == y.0 && x.1
            == y.1 implies x == y by {
        lemma_entries_from(owner, ops, x);
        lemma_entries_from(owner, ops, y);
        let i = choose|i: int| 0 <= i < ops.len() && counts(owner, #[trigger] ops[i]) && x == entry_of(ops[i]);
        let j = choose|j: int| 0 <= j < ops.len() && counts(owner, #[trigger] ops[j]) && y == entry_of(ops[j]);
        assert(ops[i].claim == ops[j].claim);
    }
}

/// Taking one operation out takes out its contribution.
proof fn lemma_entries_remove(owner: Seq<u8>, s: Seq<OpV>, k: int)
    requires
        0 <= k < s.len(),
    ensures
        entries_of(owner, s).to_multiset() == entries_of(owner, s.remove(k)).to_multiset().add(
            contribution(owner, s[k]),
        ),
    decreases s.len(),
{
    let d = s.drop_last();
    let x = s.last();
    if k == s.len() - 1 {
        assert(s.remove(k) =~= d);
        if counts(owner, x) {
            assert(entries_of(owner, s).to_multiset() =~= entries_of(owner, d).to_multiset().add(
                Multiset::singleton(entry_of(x)),
            ));
        } else {
            assert(entries_of(owner, s).to_multiset() =~= entries_of(owner, d).to_multiset().add(
                Multiset::empty(),
            ));
        }
    } else {
        lemma_entries_remove(owner, d, k);
        assert(d[k] == s[k]);
        let r = s.remove(k);
        assert(r.drop_last() =~= d.remove(k));
        assert(r.last() == x);
        let base = entries_of(owner, d.remove(k)).to_multiset();
        let c = contribution(owner, s[k]);
        if counts(owner, x) {
            assert(entries_of(owner, s).to_multiset() =~= entries_of(owner, d).to_multiset().insert(
                entry_of(x),
            ));
            assert(entries_of(owner, r).to_multiset() =~= base.insert(entry_of(x)));
            assert(base.add(c).insert(entry_of(x)) =~= base.insert(entry_of(x)).add(c));
        } else {
            assert(entries_of(owner, r) == entries_of(owner, d.remove(k)));
        }
    }
}

/// The counted entries of two orderings of the same operations are the same
/// entries, each as often.
proof fn lemma_entries_permuted(owner: Seq<u8>, ops: Seq<OpV>, perm: Seq<OpV>)
    requires
        ops.to_multiset() == perm.to_multiset(),
    ensures
        entries_of(owner, ops).to_multiset() == entries_of(owner, perm).to_multiset(),
    decreases ops.len(),
{
    assert(ops.to_multiset().len() == ops.len());
    assert(perm.to_multiset().len() == perm.len());
    if ops.len() == 0 {
        assert(perm.len() == 0);
        assert(perm =~= ops);
    } else {
        let x = ops.last();
        let d = ops.drop_last();
        assert(ops =~= d.push(x));
        assert(perm.to_multiset().count(x) > 0) by {
            assert(ops.contains(x));
        }
        lemma_member(perm, perm.to_multiset(), x);
        let k = choose|k: int| 0 <= k < perm.len() && perm[k] == x;
        assert(perm.remove(k).to_multiset() =~= d.to_multiset());
        lemma_entries_permuted(owner, d, perm.remove(k));
        lemma_entries_remove(owner, perm, k);
        lemma_entries_remove(owner, ops, ops.len() - 1);
        assert(ops.remove(ops.len() - 1) =~= d);
    }
}

/// Folding operations does not depend on the order they arrive in, and
/// operations that the owner did not sign change nothing: a reordering of
/// `ops`, and `ops` with only the owner's signed operations kept, fold to
/// the same items. (Counted operations at one address are taken to make one
/// claim, as a content address promises.)
pub proof fn law_fold_ignores_order_and_strangers(owner: Seq<u8>, ops: Seq<OpV>, perm: Seq<OpV>)
    requires
        perm.to_multiset() == ops.to_multiset(),
        addresses_determine(owner, ops),
    ensures
        fold_spec(owner, perm) == fold_spec(owner, ops),
        fold_spec(owner, ops.filter(|op: OpV| op.claim.owner == owner && op_owned(op))) == fold_spec(
            owner,
            ops,
        ),
{
    let a = entries_of(owner, ops);
    let b = entries_of(owner, perm);
    lemma_entries_permuted(owner, ops, perm);
    lemma_sort_entries(a);
    lemma_sort_entries(b);
    lemma_entries_keys(owner, ops);
    let sa = sort_entries(a);
    assert forall|x: Entry, y: Entry| sa.contains(x) && sa.contains(y) && x.0 == y.0 && x.1 == y.1 implies x == y by {
        assert(sa.to_multiset().count(x) > 0);
        assert(sa.to_multiset().count(y) > 0);
        assert(a.contains(x) && a.contains(y));
    }
    lemma_sorted_unique(sa, sort_entries(b));
    lemma_strangers_filtered(owner, ops);
}

proof fn lemma_strangers_filtered(owner: Seq<u8>, ops: Seq<OpV>)
    ensures
        entries_of(owner, ops.filter(|op: OpV| op.claim.owner == owner && op_owned(op))) == entries_of(
            owner,
            ops,
        ),
    decreases ops.len(),
{
    let f = |op: OpV| op.claim.owner == owner && op_owned(op);
    if ops.len() == 0 {
        assert(ops.filter(f) =~= ops);
    } else {
        let d = ops.drop_last();
        let x = ops.last();
        lemma_strangers_filtered(owner, d);
        assert(ops =~= d.push(x));
        d.lemma_filter_push(x, f);
        if f(x) {
            assert(ops.filter(f).drop_last() =~= d.filter(f));
            assert(ops.filter(f).last() == x);
        } else {
            assert(!counts(owner, x));
        }
    }
}

/// The fold applies the counted operations in order of sequence number,
/// and operations with one sequence number in order of address; sorting
/// keeps every operation as often as it came.
pub proof fn law_fold_orders_by_sequence_then_address(s: Seq<Entry>)
    ensures
        forall|i: int, j: int|
            0 <= i < j < sort_entries(s).len() ==> (#[trigger] sort_entries(s)[i]).0 <= (#[trigger] sort_entries(s)[j]).0,
        forall|i: int, j: int|
            0 <= i < j < sort_entries(s).len() && sort_entries(s)[i].0 == sort_entries(s)[j].0 ==> lex_le(
                (#[trigger] sort_entries(s)[i]).1,
                (#[trigger] sort_entries(s)[j]).1,
            ),
        sort_entries(s).to_multiset() == s.to_multiset(),
{
    lemma_sort_entries(s);
}

} // verus!
