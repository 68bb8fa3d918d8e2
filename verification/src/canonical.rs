//! The canonical encoding: every map's entries sorted by the bytes of their
//! encoded keys, and no floating-point items, so that one value has one encoding.
use vstd::prelude::*;
use crate::cbor::{
    Value, Data, enc, dec, encodable, encodable_list, encodable_pairs, encodable_pair, data_list,
    data_pairs, data_of, encode, decode, lemma_data_list, lemma_data_pairs, lemma_encodable_list,
    lemma_encodable_pairs, lemma_dec_enc,
};
use crate::store::{BlobHash, blake3_digest};

verus! {

#[derive(Debug, Clone, PartialEq, Eq)]
pub enum CanonError {
    Encode(String),
    Decode(String),
    Float,
}

impl CanonError {
    /// What went wrong, in words.
    pub fn to_string(&self) -> (s: String)
        ensures
            s@ == match self {
                CanonError::Encode(why) => "canonical encode: "@ + why@,
                CanonError::Decode(why) => "canonical decode: "@ + why@,
                CanonError::Float => "canonical encoding rejects floats: no deterministic form"@,
            },
    {
        match self {
            CanonError::Encode(why) => crate::text::concat("canonical encode: ", why.as_str()),
            CanonError::Decode(why) => crate::text::concat("canonical decode: ", why.as_str()),
            CanonError::Float => crate::text::owned("canonical encoding rejects floats: no deterministic form"),
        }
    }
}

/// Whether `d` holds a floating-point item anywhere.
pub open spec fn has_float(d: Data) -> bool
    decreases d,
{
    match d {
        Data::Float(_) => true,
        Data::Tag(_, inner) => has_float(*inner),
        Data::Array(items) => has_float_list(items),
        Data::Table(entries) => has_float_pairs(entries),
        _ => false,
    }
}

pub open spec fn has_float_list(items: Seq<Data>) -> bool
    decreases items,
{
    items.len() > 0 && (has_float(items[0]) || has_float_list(items.drop_first()))
}

pub open spec fn has_float_pairs(items: Seq<(Data, Data)>) -> bool
    decreases items,
{
    items.len() > 0 && (has_float(items[0].0) || has_float(items[0].1) || has_float_pairs(
        items.drop_first(),
    ))
}

/// Byte strings in lexicographic order, shorter first where one is a prefix of the other.
pub open spec fn lex_le(a: Seq<u8>, b: Seq<u8>) -> bool
    decreases a.len(),
{
    if a.len() == 0 {
        true
    } else if b.len() == 0 {
        false
    } else if a[0] != b[0] {
        a[0] < b[0]
    } else {
        lex_le(a.drop_first(), b.drop_first())
    }
}

/// An entry of a map with the encoding of its key beside it.
pub type Keyed = (Seq<u8>, Data, Data);

/// `e` inserted into `t` after every entry whose key sorts at or before its own.
pub open spec fn insert_sorted(e: Keyed, t: Seq<Keyed>) -> Seq<Keyed>
    decreases t.len(),
{
    if t.len() == 0 {
        seq![e]
    } else if lex_le(t.last().0, e.0) {
        t.push(e)
    } else {
        insert_sorted(e, t.drop_last()).push(t.last())
    }
}

/// The stable sort of `s` by encoded key.
pub open spec fn sort_keyed(s: Seq<Keyed>) -> Seq<Keyed>
    decreases s.len(),
{
    if s.len() == 0 {
        Seq::empty()
    } else {
        insert_sorted(s.last(), sort_keyed(s.drop_last()))
    }
}

pub open spec fn unkey(s: Seq<Keyed>) -> Seq<(Data, Data)> {
    Seq::new(s.len(), |i: int| (s[i].1, s[i].2))
}

/// The canonical form of `d`.
pub open spec fn canon(d: Data) -> Data
    decreases d,
{
    match d {
        Data::Tag(t, inner) => Data::Tag(t, Box::new(canon(*inner))),
        Data::Array(items) => Data::Array(canon_list(items)),
        Data::Table(entries) => Data::Table(unkey(sort_keyed(keyed(entries)))),
        _ => d,
    }
}

pub open spec fn canon_list(items: Seq<Data>) -> Seq<Data>
    decreases items,
{
    if items.len() == 0 {
        Seq::empty()
    } else {
        seq![canon(items[0])] + canon_list(items.drop_first())
    }
}

/// The entries in canonical form, each with the encoding of its key.
pub open spec fn keyed(entries: Seq<(Data, Data)>) -> Seq<Keyed>
    decreases entries,
{
    if entries.len() == 0 {
        Seq::empty()
    } else {
        seq![(enc(canon(entries[0].0)), canon(entries[0].0), canon(entries[0].1))] + keyed(
            entries.drop_first(),
        )
    }
}

/// Whether the keys of `s` never decrease.
pub open spec fn sorted(s: Seq<Keyed>) -> bool {
    forall|i: int, j: int| 0 <= i < j < s.len() ==> lex_le(#[trigger] s[i].0, #[trigger] s[j].0)
}


pub proof fn lemma_lex_total(a: Seq<u8>, b: Seq<u8>)
    ensures
        lex_le(a, b) || lex_le(b, a),
    decreases a.len(),
{
    if a.len() > 0 && b.len() > 0 && a[0] == b[0] {
        lemma_lex_total(a.drop_first(), b.drop_first());
    }
}

pub proof fn lemma_lex_antisym(a: Seq<u8>, b: Seq<u8>)
    requires
        lex_le(a, b),
        lex_le(b, a),
    ensures
        a == b,
    decreases a.len(),
{
    if a.len() > 0 && b.len() > 0 {
        lemma_lex_antisym(a.drop_first(), b.drop_first());
        assert(a =~= seq![a[0]] + a.drop_first());
        assert(b =~= seq![b[0]] + b.drop_first());
    } else {
        assert(a =~= b);
    }
}

pub proof fn lemma_lex_trans(a: Seq<u8>, b: Seq<u8>, c: Seq<u8>)
    requires
        lex_le(a, b),
        lex_le(b, c),
    ensures
        lex_le(a, c),
    decreases a.len(),
{
    if a.len() > 0 && b.len() > 0 && c.len() > 0 && a[0] == b[0] && b[0] == c[0] {
        lemma_lex_trans(a.drop_first(), b.drop_first(), c.drop_first());
    }
}

/// Both entries of a keyed item encode.
pub open spec fn keyed_ok(k: Keyed) -> bool {
    encodable(k.1) && encodable(k.2)
}

pub open spec fn all_ok(s: Seq<Keyed>) -> bool {
    forall|i: int| 0 <= i < s.len() ==> keyed_ok(#[trigger] s[i])
}

proof fn lemma_insert_sorted(e: Keyed, t: Seq<Keyed>)
    ensures
        insert_sorted(e, t).len() == t.len() + 1,
        sorted(t) ==> sorted(insert_sorted(e, t)),
        all_ok(t) && keyed_ok(e) ==> all_ok(insert_sorted(e, t)),
    decreases t.len(),
{
    if t.len() > 0 {
        if lex_le(t.last().0, e.0) {
            let r = t.push(e);
            if sorted(t) {
                assert forall|i: int, j: int| 0 <= i < j < r.len() implies lex_le(
                    #[trigger] r[i].0,
                    #[trigger] r[j].0,
                ) by {
                    if j == t.len() && i < t.len() - 1 {
                        lemma_lex_trans(t[i].0, t.last().0, e.0);
                    }
                }
            }
        } else {
            let u = t.drop_last();
            lemma_insert_sorted(e, u);
            let r = insert_sorted(e, u).push(t.last());
            assert(insert_sorted(e, t) == r);
            if sorted(t) {
                let m = insert_sorted(e, u);
                assert(sorted(u));
                lemma_lex_total(t.last().0, e.0);
                assert forall|i: int, j: int| 0 <= i < j < r.len() implies lex_le(
                    #[trigger] r[i].0,
                    #[trigger] r[j].0,
                ) by {
                    if j == r.len() - 1 {
                        // every entry of `m` is `e` or an entry of `u`, all at or before `t.last()`
                        lemma_insert_sorted_bound(e, u, t.last().0);
                    }
                }
            }
        }
    }
}

/// Every key of `insert_sorted(e, u)` sorts at or before `top` when `e`'s and `u`'s do.
proof fn lemma_insert_sorted_bound(e: Keyed, u: Seq<Keyed>, top: Seq<u8>)
    requires
        lex_le(e.0, top),
        forall|i: int| 0 <= i < u.len() ==> lex_le(#[trigger] u[i].0, top),
    ensures
        forall|i: int|
            0 <= i < insert_sorted(e, u).len() ==> lex_le(#[trigger] insert_sorted(e, u)[i].0, top),
    decreases u.len(),
{
    lemma_insert_sorted_len(e, u);
    if u.len() > 0 && !lex_le(u.last().0, e.0) {
        let w = u.drop_last();
        assert forall|i: int| 0 <= i < w.len() implies lex_le(#[trigger] w[i].0, top) by {
            assert(w[i] == u[i]);
        }
        lemma_insert_sorted_bound(e, w, top);
        let r = insert_sorted(e, w).push(u.last());
        assert(insert_sorted(e, u) == r);
        assert forall|i: int| 0 <= i < r.len() implies lex_le(#[trigger] r[i].0, top) by {
            if i < r.len() - 1 {
                assert(r[i] == insert_sorted(e, w)[i]);
            }
        }
    }
}

proof fn lemma_insert_sorted_len(e: Keyed, t: Seq<Keyed>)
    ensures
        insert_sorted(e, t).len() == t.len() + 1,
    decreases t.len(),
{
    if t.len() > 0 && !lex_le(t.last().0, e.0) {
        lemma_insert_sorted_len(e, t.drop_last());
    }
}


pub proof fn lemma_sort_keyed(s: Seq<Keyed>)
    ensures
        sort_keyed(s).len() == s.len(),
        sorted(sort_keyed(s)),
        all_ok(s) ==> all_ok(sort_keyed(s)),
    decreases s.len(),
{
    if s.len() > 0 {
        lemma_sort_keyed(s.drop_last());
        if all_ok(s) {
            assert forall|i: int| 0 <= i < s.drop_last().len() implies keyed_ok(
                #[trigger] s.drop_last()[i],
            ) by {
                assert(s.drop_last()[i] == s[i]);
            }
            assert(keyed_ok(s[s.len() - 1]));
        }
        lemma_insert_sorted(s.last(), sort_keyed(s.drop_last()));
    }
}

pub proof fn lemma_canon_list(items: Seq<Data>)
    ensures
        canon_list(items).len() == items.len(),
        forall|i: int| 0 <= i < items.len() ==> #[trigger] canon_list(items)[i] == canon(items[i]),
    decreases items.len(),
{
    if items.len() > 0 {
        lemma_canon_list(items.drop_first());
        assert forall|i: int| 0 <= i < items.len() implies #[trigger] canon_list(items)[i] == canon(
            items[i],
        ) by {
            if i > 0 {
                assert(canon_list(items)[i] == canon_list(items.drop_first())[i - 1]);
            }
        }
    }
}

pub proof fn lemma_keyed(entries: Seq<(Data, Data)>)
    ensures
        keyed(entries).len() == entries.len(),
        forall|i: int|
            0 <= i < entries.len() ==> #[trigger] keyed(entries)[i] == (
                enc(canon(entries[i].0)),
                canon(entries[i].0),
                canon(entries[i].1),
            ),
    decreases entries.len(),
{
    if entries.len() > 0 {
        lemma_keyed(entries.drop_first());
        assert forall|i: int| 0 <= i < entries.len() implies #[trigger] keyed(entries)[i] == (
            enc(canon(entries[i].0)),
            canon(entries[i].0),
            canon(entries[i].1),
        ) by {
            if i > 0 {
                assert(keyed(entries)[i] == keyed(entries.drop_first())[i - 1]);
            }
        }
    }
}

/// The canonical form of an encodable item is encodable.
pub proof fn lemma_canon_encodable(d: Data)
    requires
        encodable(d),
    ensures
        encodable(canon(d)),
    decreases d,
{
    match d {
        Data::Tag(t, inner) => {
            lemma_canon_encodable(*inner);
        },
        Data::Array(items) => {
            lemma_canon_list(items);
            lemma_encodable_list(items);
            lemma_encodable_list(canon_list(items));
            assert forall|i: int| 0 <= i < items.len() implies encodable(
                #[trigger] canon_list(items)[i],
            ) by {
                lemma_canon_encodable(items[i]);
            }
        },
        Data::Table(entries) => {
            lemma_keyed(entries);
            lemma_encodable_pairs(entries);
            let k = keyed(entries);
            assert forall|i: int| 0 <= i < k.len() implies keyed_ok(#[trigger] k[i]) by {
                assert(encodable_pair(entries[i]));
                lemma_canon_encodable(entries[i].0);
                lemma_canon_encodable(entries[i].1);
            }
            lemma_sort_keyed(k);
            let u = unkey(sort_keyed(k));
            lemma_encodable_pairs(u);
            assert forall|i: int| 0 <= i < u.len() implies encodable_pair(#[trigger] u[i]) by {
                assert(keyed_ok(sort_keyed(k)[i]));
            }
        },
        _ => {},
    }
}

proof fn lemma_insert_from(e: Keyed, t: Seq<Keyed>, m: int)
    requires
        0 <= m < insert_sorted(e, t).len(),
    ensures
        insert_sorted(e, t)[m] == e || exists|k: int| 0 <= k < t.len() && t[k] == insert_sorted(e, t)[m],
    decreases t.len(),
{
    lemma_insert_sorted(e, t);
    if t.len() > 0 {
        if lex_le(t.last().0, e.0) {
            if m < t.len() {
                assert(insert_sorted(e, t)[m] == t[m]);
            }
        } else {
            let u = insert_sorted(e, t.drop_last());
            lemma_insert_sorted(e, t.drop_last());
            if m < u.len() {
                assert(insert_sorted(e, t)[m] == u[m]);
                lemma_insert_from(e, t.drop_last(), m);
                if u[m] != e {
                    let k = choose|k: int| 0 <= k < t.drop_last().len() && t.drop_last()[k] == u[m];
                    assert(t[k] == t.drop_last()[k]);
                }
            } else {
                assert(insert_sorted(e, t)[m] == t.last());
                assert(t[t.len() - 1] == t.last());
            }
        }
    }
}

/// Every entry of the sorted list is one of those sorted.
proof fn lemma_sort_from(s: Seq<Keyed>, m: int)
    requires
        0 <= m < sort_keyed(s).len(),
    ensures
        exists|k: int| 0 <= k < s.len() && s[k] == sort_keyed(s)[m],
    decreases s.len(),
{
    if s.len() > 0 {
        let t = sort_keyed(s.drop_last());
        lemma_insert_from(s.last(), t, m);
        if sort_keyed(s)[m] == s.last() {
            assert(s[s.len() - 1] == s.last());
        } else {
            let k = choose|k: int| 0 <= k < t.len() && t[k] == sort_keyed(s)[m];
            lemma_sort_from(s.drop_last(), k);
            let k2 = choose|k2: int| 0 <= k2 < s.drop_last().len() && s.drop_last()[k2] == t[k];
            assert(s[k2] == s.drop_last()[k2]);
        }
    }
}

/// The canonical form of an item without floats has none.
pub proof fn lemma_canon_float_free(d: Data)
    requires
        !has_float(d),
    ensures
        !has_float(canon(d)),
    decreases d,
{
    match d {
        Data::Tag(t, inner) => {
            lemma_canon_float_free(*inner);
        },
        Data::Array(items) => {
            lemma_canon_list(items);
            lemma_has_float_list(items);
            lemma_has_float_list(canon_list(items));
            assert forall|i: int| 0 <= i < canon_list(items).len() implies !has_float(
                #[trigger] canon_list(items)[i],
            ) by {
                lemma_canon_float_free(items[i]);
            }
        },
        Data::Table(entries) => {
            lemma_keyed(entries);
            lemma_has_float_pairs(entries);
            let k = keyed(entries);
            lemma_sort_keyed(k);
            let sk = sort_keyed(k);
            let u = unkey(sk);
            lemma_has_float_pairs(u);
            assert forall|i: int| 0 <= i < u.len() implies float_free_pair(#[trigger] u[i]) by {
                lemma_sort_from(k, i);
                let j = choose|j: int| 0 <= j < k.len() && k[j] == sk[i];
                assert(float_free_pair(entries[j]));
                lemma_canon_float_free(entries[j].0);
                lemma_canon_float_free(entries[j].1);
            }
        },
        _ => {},
    }
}

proof fn lemma_lex_skip(a: Seq<u8>, b: Seq<u8>, i: int)
    requires
        0 <= i <= a.len(),
        i <= b.len(),
        forall|j: int| 0 <= j < i ==> a[j] == b[j],
    ensures
        lex_le(a, b) == lex_le(a.skip(i), b.skip(i)),
    decreases i,
{
    if i > 0 {
        lemma_lex_skip(a.drop_first(), b.drop_first(), i - 1);
        assert(a.drop_first().skip(i - 1) =~= a.skip(i));
        assert(b.drop_first().skip(i - 1) =~= b.skip(i));
    } else {
        assert(a.skip(0) =~= a);
        assert(b.skip(0) =~= b);
    }
}

/// Whether `a` sorts at or before `b`.
pub fn bytes_le(a: &[u8], b: &[u8]) -> (r: bool)
    ensures
        r == lex_le(a@, b@),
{
    let mut i: usize = 0;
    while i < a.len() && i < b.len() && a[i] == b[i]
        invariant
            i <= a.len(),
            i <= b.len(),
            forall|j: int| 0 <= j < i ==> a@[j] == b@[j],
        decreases a.len() - i,
    {
        i = i + 1;
    }
    proof {
        lemma_lex_skip(a@, b@, i as int);
    }
    if i == a.len() {
        true
    } else if i == b.len() {
        false
    } else {
        a[i] < b[i]
    }
}

pub open spec fn view_keyed(keys: Seq<Vec<u8>>, pairs: Seq<(Value, Value)>) -> Seq<Keyed> {
    Seq::new(keys.len(), |i: int| (keys[i]@, pairs[i].0@, pairs[i].1@))
}

proof fn lemma_insert_at(e: Keyed, t: Seq<Keyed>, j: int)
    requires
        0 <= j <= t.len(),
        forall|m: int| j <= m < t.len() ==> !lex_le(#[trigger] t[m].0, e.0),
        j == 0 || lex_le(t[j - 1].0, e.0),
    ensures
        insert_sorted(e, t) == t.insert(j, e),
    decreases t.len(),
{
    if t.len() == 0 {
        assert(t.insert(j, e) =~= seq![e]);
    } else if lex_le(t.last().0, e.0) {
        assert(j == t.len());
        assert(t.insert(j, e) =~= t.push(e));
    } else {
        let u = t.drop_last();
        lemma_insert_at(e, u, j);
        assert(u.insert(j, e).push(t.last()) =~= t.insert(j, e));
    }
}

fn insert_entry(
    keys: &mut Vec<Vec<u8>>,
    pairs: &mut Vec<(Value, Value)>,
    key: Vec<u8>,
    pair: (Value, Value),
)
    requires
        old(keys).len() == old(pairs).len(),
    ensures
        final(keys).len() == final(pairs).len(),
        view_keyed(final(keys)@, final(pairs)@) == insert_sorted(
            (key@, pair.0@, pair.1@),
            view_keyed(old(keys)@, old(pairs)@),
        ),
{
    let ghost tv = view_keyed(keys@, pairs@);
    let ghost ev = (key@, pair.0@, pair.1@);
    let mut j = keys.len();
    while j > 0 && !bytes_le(keys[j - 1].as_slice(), key.as_slice())
        invariant
            j <= keys.len(),
            keys.len() == pairs.len(),
            tv == view_keyed(keys@, pairs@),
            ev == (key@, pair.0@, pair.1@),
            forall|m: int| j <= m < tv.len() ==> !lex_le(#[trigger] tv[m].0, ev.0),
        decreases j,
    {
        j = j - 1;
    }
    proof {
        lemma_insert_at(ev, tv, j as int);
    }
    keys.insert(j, key);
    pairs.insert(j, pair);
    assert(view_keyed(keys@, pairs@) =~= tv.insert(j as int, ev));
}

/// A copy of `v`.
pub fn copy_value(v: &Value) -> (c: Value)
    ensures
        c@ == v@,
    decreases v,
{
    match v {
        Value::Integer(n) => Value::Integer(*n),
        Value::Bytes(b) => Value::Bytes(copy_bytes(b)),
        Value::Float(f) => Value::Float(*f),
        Value::Text(t) => Value::Text(t.clone()),
        Value::Bool(b) => Value::Bool(*b),
        Value::Null => Value::Null,
        Value::Tag(t, inner) => Value::Tag(*t, Box::new(copy_value(inner))),
        Value::Array(items) => {
            let mut out: Vec<Value> = Vec::new();
            let mut i: usize = 0;
            proof {
                lemma_data_list(items@);
                assert(decreases_to!(*v => *items));
            }
            while i < items.len()
                invariant
                    i <= items.len(),
                    out.len() == i,
                    forall|j: int| 0 <= j < i ==> data_of(#[trigger] out@[j]) == data_of(items@[j]),
                    decreases_to!(*v => *items),
                decreases items.len() - i,
            {
                proof {
                    assert(decreases_to!(*items => items@[i as int]));
                }
                out.push(copy_value(&items[i]));
                i = i + 1;
            }
            proof {
                lemma_data_list(out@);
                lemma_data_list(items@);
                assert(data_list(out@) =~= data_list(items@));
            }
            Value::Array(out)
        },
        Value::Table(entries) => {
            let mut out: Vec<(Value, Value)> = Vec::new();
            let mut i: usize = 0;
            proof {
                lemma_data_pairs(entries@);
                assert(decreases_to!(*v => *entries));
            }
            while i < entries.len()
                invariant
                    i <= entries.len(),
                    out.len() == i,
                    forall|j: int|
                        0 <= j < i ==> data_of((#[trigger] out@[j]).0) == data_of(entries@[j].0)
                            && data_of(out@[j].1) == data_of(entries@[j].1),
                    decreases_to!(*v => *entries),
                decreases entries.len() - i,
            {
                proof {
                    assert(decreases_to!(*entries => entries@[i as int]));
                    assert(decreases_to!(entries@[i as int] => entries@[i as int].0));
                    assert(decreases_to!(entries@[i as int] => entries@[i as int].1));
                }
                let k = copy_value(&entries[i].0);
                let x = copy_value(&entries[i].1);
                out.push((k, x));
                i = i + 1;
            }
            proof {
                lemma_data_pairs(out@);
                lemma_data_pairs(entries@);
                assert(data_pairs(out@) =~= data_pairs(entries@));
            }
            Value::Table(out)
        },
    }
}

/// A copy of `b`.
pub fn copy_bytes(b: &Vec<u8>) -> (c: Vec<u8>)
    ensures
        c@ == b@,
{
    let mut c: Vec<u8> = Vec::new();
    let mut i: usize = 0;
    while i < b.len()
        invariant
            i <= b.len(),
            c@ == b@.take(i as int),
        decreases b.len() - i,
    {
        c.push(b[i]);
        i = i + 1;
    }
    assert(b@.take(i as int) =~= b@);
    c
}


pub proof fn lemma_has_float_list(items: Seq<Data>)
    ensures
        !has_float_list(items) <==> forall|i: int| 0 <= i < items.len() ==> !has_float(#[trigger] items[i]),
    decreases items.len(),
{
    if items.len() > 0 {
        lemma_has_float_list(items.drop_first());
        if forall|i: int| 0 <= i < items.len() ==> !has_float(#[trigger] items[i]) {
            assert forall|i: int| 0 <= i < items.drop_first().len() implies !has_float(
                #[trigger] items.drop_first()[i],
            ) by {
                assert(items.drop_first()[i] == items[i + 1]);
            }
        }
        if !has_float_list(items) {
            assert forall|i: int| 0 <= i < items.len() implies !has_float(#[trigger] items[i]) by {
                if i > 0 {
                    assert(items[i] == items.drop_first()[i - 1]);
                }
            }
        }
    }
}

pub open spec fn float_free_pair(p: (Data, Data)) -> bool {
    !has_float(p.0) && !has_float(p.1)
}

pub proof fn lemma_has_float_pairs(items: Seq<(Data, Data)>)
    ensures
        !has_float_pairs(items) <==> forall|i: int| 0 <= i < items.len() ==> float_free_pair(#[trigger] items[i]),
    decreases items.len(),
{
    if items.len() > 0 {
        lemma_has_float_pairs(items.drop_first());
        if forall|i: int| 0 <= i < items.len() ==> float_free_pair(#[trigger] items[i]) {
            assert forall|i: int| 0 <= i < items.drop_first().len() implies float_free_pair(
                #[trigger] items.drop_first()[i],
            ) by {
                assert(items.drop_first()[i] == items[i + 1]);
            }
            assert(float_free_pair(items[0]));
        }
        if !has_float_pairs(items) {
            assert forall|i: int| 0 <= i < items.len() implies float_free_pair(#[trigger] items[i]) by {
                if i > 0 {
                    assert(items[i] == items.drop_first()[i - 1]);
                }
            }
        }
    }
}

/// Whether `v` holds a floating-point item anywhere.
pub fn value_has_float(v: &Value) -> (r: bool)
    ensures
        r == has_float(v@),
    decreases v,
{
    match v {
        Value::Float(_) => true,
        Value::Tag(_, inner) => value_has_float(inner),
        Value::Array(items) => {
            let ghost ds = data_list(items@);
            proof {
                lemma_data_list(items@);
                lemma_has_float_list(ds);
                assert(decreases_to!(*v => *items));
            }
            let mut i: usize = 0;
            while i < items.len()
                invariant
                    i <= items.len(),
                    ds == data_list(items@),
                    ds.len() == items.len(),
                    forall|j: int| 0 <= j < items.len() ==> #[trigger] ds[j] == data_of(items@[j]),
                    forall|j: int| 0 <= j < i ==> !has_float(#[trigger] ds[j]),
                    !has_float_list(ds) <==> forall|j: int| 0 <= j < ds.len() ==> !has_float(#[trigger] ds[j]),
                    decreases_to!(*v => *items),
                    v@ == Data::Array(ds),
                decreases items.len() - i,
            {
                proof {
                    assert(decreases_to!(*items => items@[i as int]));
                }
                if value_has_float(&items[i]) {
                    assert(has_float(ds[i as int]));
                    return true;
                }
                i = i + 1;
            }
            false
        },
        Value::Table(entries) => {
            let ghost ds = data_pairs(entries@);
            proof {
                lemma_data_pairs(entries@);
                lemma_has_float_pairs(ds);
                assert(decreases_to!(*v => *entries));
            }
            let mut i: usize = 0;
            while i < entries.len()
                invariant
                    i <= entries.len(),
                    ds == data_pairs(entries@),
                    ds.len() == entries.len(),
                    forall|j: int|
                        0 <= j < entries.len() ==> #[trigger] ds[j] == (
                            data_of(entries@[j].0),
                            data_of(entries@[j].1),
                        ),
                    forall|j: int| 0 <= j < i ==> float_free_pair(#[trigger] ds[j]),
                    !has_float_pairs(ds) <==> forall|j: int| 0 <= j < ds.len() ==> float_free_pair(#[trigger] ds[j]),
                    decreases_to!(*v => *entries),
                    v@ == Data::Table(ds),
                decreases entries.len() - i,
            {
                proof {
                    assert(decreases_to!(*entries => entries@[i as int]));
                    assert(decreases_to!(entries@[i as int] => entries@[i as int].0));
                    assert(decreases_to!(entries@[i as int] => entries@[i as int].1));
                }
                if value_has_float(&entries[i].0) || value_has_float(&entries[i].1) {
                    assert(!float_free_pair(ds[i as int]));
                    return true;
                }
                i = i + 1;
            }
            false
        },
        _ => false,
    }
}

/// The canonical form of `v`.
fn canon_value(v: &Value) -> (c: Value)
    requires
        encodable(v@),
    ensures
        c@ == canon(v@),
    decreases v,
{
    match v {
        Value::Tag(t, inner) => Value::Tag(*t, Box::new(canon_value(inner))),
        Value::Array(items) => {
            let ghost ds = data_list(items@);
            proof {
                lemma_data_list(items@);
                lemma_encodable_list(ds);
                lemma_canon_list(ds);
                assert(decreases_to!(*v => *items));
            }
            let mut out: Vec<Value> = Vec::new();
            let mut i: usize = 0;
            while i < items.len()
                invariant
                    i <= items.len(),
                    out.len() == i,
                    ds == data_list(items@),
                    ds.len() == items.len(),
                    forall|j: int| 0 <= j < items.len() ==> #[trigger] ds[j] == data_of(items@[j]),
                    forall|j: int| 0 <= j < ds.len() ==> encodable(#[trigger] ds[j]),
                    forall|j: int| 0 <= j < i ==> data_of(#[trigger] out@[j]) == canon(ds[j]),
                    decreases_to!(*v => *items),
                decreases items.len() - i,
            {
                proof {
                    assert(decreases_to!(*items => items@[i as int]));
                    assert(encodable(ds[i as int]));
                }
                out.push(canon_value(&items[i]));
                i = i + 1;
            }
            proof {
                lemma_data_list(out@);
                assert(data_list(out@) =~= canon_list(ds));
            }
            Value::Array(out)
        },
        Value::Table(entries) => {
            let ghost ds = data_pairs(entries@);
            let ghost ks = keyed(ds);
            proof {
                lemma_data_pairs(entries@);
                lemma_encodable_pairs(ds);
                lemma_keyed(ds);
                assert(decreases_to!(*v => *entries));
                assert(view_keyed(Seq::empty(), Seq::empty()) =~= sort_keyed(ks.take(0)));
            }
            let mut keys: Vec<Vec<u8>> = Vec::new();
            let mut pairs: Vec<(Value, Value)> = Vec::new();
            let mut i: usize = 0;
            while i < entries.len()
                invariant
                    i <= entries.len(),
                    keys.len() == pairs.len(),
                    ds == data_pairs(entries@),
                    ds.len() == entries.len(),
                    ks == keyed(ds),
                    ks.len() == ds.len(),
                    forall|j: int|
                        0 <= j < entries.len() ==> #[trigger] ds[j] == (
                            data_of(entries@[j].0),
                            data_of(entries@[j].1),
                        ),
                    forall|j: int| 0 <= j < ds.len() ==> encodable_pair(#[trigger] ds[j]),
                    forall|j: int|
                        0 <= j < ds.len() ==> #[trigger] ks[j] == (
                            enc(canon(ds[j].0)),
                            canon(ds[j].0),
                            canon(ds[j].1),
                        ),
                    view_keyed(keys@, pairs@) == sort_keyed(ks.take(i as int)),
                    decreases_to!(*v => *entries),
                decreases entries.len() - i,
            {
                proof {
                    assert(decreases_to!(*entries => entries@[i as int]));
                    assert(decreases_to!(entries@[i as int] => entries@[i as int].0));
                    assert(decreases_to!(entries@[i as int] => entries@[i as int].1));
                    assert(encodable_pair(ds[i as int]));
                }
                let k = canon_value(&entries[i].0);
                let x = canon_value(&entries[i].1);
                proof {
                    lemma_canon_encodable(ds[i as int].0);
                }
                let key = match encode(&k) {
                    Some(b) => b,
                    None => {
                        assert(false);
                        Vec::new()
                    },
                };
                proof {
                    assert(ks.take(i + 1).drop_last() =~= ks.take(i as int));
                    assert(ks.take(i + 1).last() == ks[i as int]);
                }
                insert_entry(&mut keys, &mut pairs, key, (k, x));
                i = i + 1;
            }
            proof {
                assert(ks.take(entries.len() as int) =~= ks);
                lemma_sort_keyed(ks);
                lemma_data_pairs(pairs@);
                assert(data_pairs(pairs@) =~= unkey(sort_keyed(ks)));
            }
            Value::Table(pairs)
        },
        _ => copy_value(v),
    }
}

/// The canonical bytes of `d`.
pub open spec fn canonical_bytes(d: Data) -> Seq<u8> {
    enc(canon(d))
}

/// `v` in canonical form: floats refused, map entries sorted by encoded key.
pub fn canonicalize(v: &Value) -> (r: Result<Value, CanonError>)
    ensures
        match r {
            Ok(c) => !has_float(v@) && encodable(v@) && c@ == canon(v@),
            Err(CanonError::Float) => has_float(v@),
            Err(CanonError::Encode(_)) => !has_float(v@) && !encodable(v@),
            Err(CanonError::Decode(_)) => false,
        },
{
    if value_has_float(v) {
        return Err(CanonError::Float);
    }
    if encode(v).is_none() {
        return Err(CanonError::Encode("an integer or length does not fit a CBOR head".to_string()));
    }
    Ok(canon_value(v))
}

/// The canonical encoding of `v`.
pub fn to_vec(v: &Value) -> (r: Result<Vec<u8>, CanonError>)
    ensures
        match r {
            Ok(b) => !has_float(v@) && encodable(v@) && b@ == canonical_bytes(v@),
            Err(CanonError::Float) => has_float(v@),
            Err(CanonError::Encode(_)) => !has_float(v@) && !encodable(v@),
            Err(CanonError::Decode(_)) => false,
        },
{
    let c = canonicalize(v)?;
    proof {
        lemma_canon_encodable(v@);
    }
    match encode(&c) {
        Some(b) => Ok(b),
        None => {
            assert(false);
            Err(CanonError::Float)
        },
    }
}

/// The item that `bytes` encode.
pub fn from_slice(bytes: &[u8]) -> (r: Result<Value, CanonError>)
    ensures
        match r {
            Ok(v) => dec(bytes@) matches Some((d, _)) && d == v@,
            Err(CanonError::Decode(_)) => dec(bytes@) is None,
            Err(_) => false,
        },
{
    match decode(bytes) {
        Some(v) => Ok(v),
        None => Err(CanonError::Decode("the bytes are not one well-formed CBOR item".to_string())),
    }
}

/// The blob hash of the canonical encoding of `v`.
pub fn hash(v: &Value) -> (r: Result<BlobHash, CanonError>)
    ensures
        match r {
            Ok(h) => !has_float(v@) && encodable(v@) && h@ == blake3_digest(canonical_bytes(v@)),
            Err(CanonError::Float) => has_float(v@),
            Err(CanonError::Encode(_)) => !has_float(v@) && !encodable(v@),
            Err(CanonError::Decode(_)) => false,
        },
{
    let bytes = to_vec(v)?;
    Ok(BlobHash::of(bytes.as_slice()))
}

/// Decoding the canonical encoding of a value gives back its canonical form.
pub proof fn lemma_round_trip(d: Data)
    requires
        encodable(d),
    ensures
        dec(canonical_bytes(d)) == Some((canon(d), canonical_bytes(d).len())),
{
    lemma_canon_encodable(d);
    lemma_dec_enc(canon(d), Seq::empty());
    assert(enc(canon(d)) + Seq::<u8>::empty() =~= enc(canon(d)));
}

/// The entries of every map in a canonical form are in key order.
pub proof fn lemma_canon_table_sorted(entries: Seq<(Data, Data)>)
    ensures
        sorted(sort_keyed(keyed(entries))),
        canon(Data::Table(entries)) == Data::Table(unkey(sort_keyed(keyed(entries)))),
{
    lemma_sort_keyed(keyed(entries));
}

} // verus!

verus! {

/// Sorting entries that are already sorted leaves them as they are.
pub proof fn lemma_sort_sorted(s: Seq<Keyed>)
    requires
        sorted(s),
    ensures
        sort_keyed(s) == s,
    decreases s.len(),
{
    if s.len() > 0 {
        let u = s.drop_last();
        assert(sorted(u)) by {
            assert forall|i: int, j: int| 0 <= i < j < u.len() implies lex_le(
                #[trigger] u[i].0,
                #[trigger] u[j].0,
            ) by {
                assert(u[i] == s[i] && u[j] == s[j]);
            }
        }
        lemma_sort_sorted(u);
        if u.len() > 0 {
            assert(u.last() == s[s.len() - 2]);
            assert(lex_le(s[s.len() - 2].0, s[s.len() - 1].0));
        }
        assert(u.push(s.last()) =~= s);
    }
}

/// Canonical form is a fixed point: canonicalising twice is canonicalising once.
pub proof fn law_canon_idempotent(d: Data)
    ensures
        canon(canon(d)) == canon(d),
    decreases d,
{
    match d {
        Data::Tag(t, inner) => {
            law_canon_idempotent(*inner);
        },
        Data::Array(items) => {
            lemma_canon_list_idempotent(items);
        },
        Data::Table(entries) => {
            lemma_pairs_idempotent(entries);
            let k = keyed(entries);
            lemma_keyed(entries);
            lemma_sort_keyed(k);
            let s = sort_keyed(k);
            crate::fields::lemma_sort_members(k);
            let u = unkey(s);
            lemma_keyed(u);
            assert forall|i: int| 0 <= i < s.len() implies #[trigger] keyed(u)[i] == s[i] by {
                assert(s.contains(s[i]));
                assert(k.contains(s[i]));
                let m = choose|m: int| 0 <= m < k.len() && k[m] == s[i];
                assert(u[i] == (s[i].1, s[i].2));
            }
            assert(keyed(u) =~= s);
            lemma_sort_sorted(s);
        },
        _ => {},
    }
}

proof fn lemma_canon_list_idempotent(items: Seq<Data>)
    ensures
        canon_list(canon_list(items)) == canon_list(items),
    decreases items,
{
    if items.len() > 0 {
        law_canon_idempotent(items[0]);
        lemma_canon_list_idempotent(items.drop_first());
        let c = canon_list(items);
        assert(c[0] == canon(items[0]));
        assert(c.drop_first() =~= canon_list(items.drop_first()));
    }
}

proof fn lemma_pairs_idempotent(entries: Seq<(Data, Data)>)
    ensures
        forall|m: int|
            0 <= m < entries.len() ==> canon(canon(#[trigger] entries[m].0)) == canon(entries[m].0)
                && canon(canon(entries[m].1)) == canon(entries[m].1),
    decreases entries,
{
    if entries.len() > 0 {
        law_canon_idempotent(entries[0].0);
        law_canon_idempotent(entries[0].1);
        lemma_pairs_idempotent(entries.drop_first());
        assert forall|m: int| 0 <= m < entries.len() implies canon(canon(#[trigger] entries[m].0))
            == canon(entries[m].0) && canon(canon(entries[m].1)) == canon(entries[m].1) by {
            if m > 0 {
                assert(entries[m] == entries.drop_first()[m - 1]);
            }
        }
    }
}

} // verus!
