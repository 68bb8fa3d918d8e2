//! Reading and writing the named fields of records held as CBOR maps.
use vstd::prelude::*;
use crate::cbor::{
    Value, Data, data_pairs, data_list, lemma_data_pairs, lemma_data_pairs_push, lemma_data_list,
    lemma_data_list_push,
};
use crate::text::{chars_of, same_chars, owned, trimmed};
use crate::address::{parse_prefixed, read_prefixed};
use crate::hex::{parse_hex, hex_of};
use crate::address::prefixed_text;
use crate::store::BlobHash;
use crate::canonical::{Keyed, canon, unkey, sort_keyed, insert_sorted, keyed, lemma_keyed, lex_le};

verus! {

/// The value of the first entry of `entries` keyed by the text `name`.
pub open spec fn field(entries: Seq<(Data, Data)>, name: Seq<char>) -> Option<Data>
    decreases entries.len(),
{
    if entries.len() == 0 {
        None
    } else if entries[0].0 == Data::Text(name) {
        Some(entries[0].1)
    } else {
        field(entries.drop_first(), name)
    }
}

/// The value of the field `name` of the map `d`.
pub open spec fn get(d: Data, name: Seq<char>) -> Option<Data> {
    match d {
        Data::Table(entries) => field(entries, name),
        _ => None,
    }
}

/// Whether `v` is the text `name`.
pub fn is_text(v: &Value, name: &str) -> (r: bool)
    ensures
        r == (v@ == Data::Text(name@)),
{
    match v {
        Value::Text(t) => {
            let a = chars_of(t.as_str());
            let b = chars_of(name);
            same_chars(&a, &b)
        },
        _ => false,
    }
}

/// The value of the first entry keyed by the text `name`.
pub fn find_field<'a>(entries: &'a Vec<(Value, Value)>, name: &str) -> (r: Option<&'a Value>)
    ensures
        match r {
            Some(v) => field(data_pairs(entries@), name@) == Some(v@),
            None => field(data_pairs(entries@), name@) is None,
        },
{
    let ghost ds = data_pairs(entries@);
    proof {
        lemma_data_pairs(entries@);
        assert(ds.skip(0) =~= ds);
    }
    let mut i: usize = 0;
    while i < entries.len()
        invariant
            i <= entries.len(),
            ds == data_pairs(entries@),
            ds.len() == entries.len(),
            forall|j: int|
                0 <= j < entries.len() ==> #[trigger] ds[j] == (
                    entries@[j].0@,
                    entries@[j].1@,
                ),
            field(ds, name@) == field(ds.skip(i as int), name@),
        decreases entries.len() - i,
    {
        let ghost rest = ds.skip(i as int);
        assert(rest[0] == ds[i as int]);
        assert(rest.drop_first() =~= ds.skip(i + 1));
        if is_text(&entries[i].0, name) {
            return Some(&entries[i].1);
        }
        i = i + 1;
    }
    None
}

/// The value of the field `name` of `v`, if `v` is a map holding one.
pub fn get_field<'a>(v: &'a Value, name: &str) -> (r: Option<&'a Value>)
    ensures
        match r {
            Some(x) => get(v@, name@) == Some(x@),
            None => get(v@, name@) is None,
        },
{
    match v {
        Value::Table(entries) => find_field(entries, name),
        _ => None,
    }
}

/// The text held by `v`, if it is text.
pub open spec fn text_of(d: Option<Data>) -> Option<Seq<char>> {
    match d {
        Some(Data::Text(t)) => Some(t),
        _ => None,
    }
}

pub fn read_text(v: Option<&Value>) -> (r: Option<String>)
    ensures
        match r {
            Some(t) => text_of(match v { Some(x) => Some(x@), None => None }) == Some(t@),
            None => text_of(match v { Some(x) => Some(x@), None => None }) is None,
        },
{
    match v {
        Some(Value::Text(t)) => Some(t.clone()),
        _ => None,
    }
}

/// A text item.
pub fn text(s: &str) -> (v: Value)
    ensures
        v@ == Data::Text(s@),
{
    Value::Text(owned(s))
}

/// A map entry keyed by the text `name`.
pub fn entry(name: &str, v: Value) -> (e: (Value, Value))
    ensures
        e.0@ == Data::Text(name@),
        e.1@ == v@,
{
    (text(name), v)
}

/// `entries` with the entry `name: d` appended when `d` is present.
pub open spec fn opt_push(entries: Seq<(Data, Data)>, name: Seq<char>, d: Option<Data>) -> Seq<
    (Data, Data),
> {
    match d {
        Some(x) => entries.push((Data::Text(name), x)),
        None => entries,
    }
}

/// Appends the entry `name: v`.
pub fn put(entries: &mut Vec<(Value, Value)>, name: &str, v: Value)
    ensures
        data_pairs(final(entries)@) == data_pairs(old(entries)@).push((Data::Text(name@), v@)),
{
    let k = text(name);
    proof {
        lemma_data_pairs_push(entries@, k, v);
    }
    entries.push((k, v));
}

/// Appends the entry `name: v` when `v` is present.
pub fn put_opt(entries: &mut Vec<(Value, Value)>, name: &str, v: Option<Value>)
    ensures
        data_pairs(final(entries)@) == opt_push(
            data_pairs(old(entries)@),
            name@,
            match v {
                Some(x) => Some(x@),
                None => None,
            },
        ),
{
    match v {
        Some(x) => put(entries, name, x),
        None => {},
    }
}

/// The hash behind `prefix` in the text `f`.
pub open spec fn hash_at(f: Option<Data>, prefix: Seq<char>) -> Option<Seq<u8>> {
    match f {
        Some(Data::Text(t)) => parse_prefixed(t, prefix),
        _ => None,
    }
}

/// An optional hash behind `prefix`: absent or null is `Some(None)`; anything
/// else that is not such a text is `None`.
pub open spec fn opt_hash_at(f: Option<Data>, prefix: Seq<char>) -> Option<Option<Seq<u8>>> {
    match f {
        None => Some(None),
        Some(Data::Null) => Some(None),
        Some(Data::Text(t)) => match parse_prefixed(t, prefix) {
            Some(h) => Some(Some(h)),
            None => None,
        },
        _ => None,
    }
}

/// A bare hash: 64 hex characters once trimmed.
pub open spec fn bare_hash(t: Seq<char>) -> Option<Seq<u8>> {
    parse_hex(trimmed(t), 32)
}

pub open spec fn bare_hash_at(f: Option<Data>) -> Option<Seq<u8>> {
    match f {
        Some(Data::Text(t)) => bare_hash(t),
        _ => None,
    }
}

/// An optional text: absent or null is `Some(None)`.
pub open spec fn opt_text_at(f: Option<Data>) -> Option<Option<Seq<char>>> {
    match f {
        None => Some(None),
        Some(Data::Null) => Some(None),
        Some(Data::Text(t)) => Some(Some(t)),
        _ => None,
    }
}

/// The field `name` of `v` unless it is null.
pub fn present_field<'a>(v: &'a Value, name: &str) -> (r: Option<&'a Value>)
    ensures
        match r {
            Some(x) => get(v@, name@) == Some(x@) && x@ != Data::Null,
            None => get(v@, name@) is None || get(v@, name@) == Some(Data::Null),
        },
{
    match get_field(v, name) {
        Some(Value::Null) => None,
        other => other,
    }
}

/// The hash behind `prefix` in the text field `name` of `v`.
pub fn hash_field(v: &Value, name: &str, prefix: &Vec<char>) -> (r: Option<BlobHash>)
    ensures
        match r {
            Some(h) => hash_at(get(v@, name@), prefix@) == Some(h@),
            None => hash_at(get(v@, name@), prefix@) is None,
        },
{
    match get_field(v, name) {
        Some(Value::Text(t)) => read_prefixed(t.as_str(), prefix),
        _ => None,
    }
}

/// The optional hash behind `prefix` in the field `name` of `v`.
pub fn opt_hash_field(v: &Value, name: &str, prefix: &Vec<char>) -> (r: Option<Option<BlobHash>>)
    ensures
        match r {
            Some(Some(h)) => opt_hash_at(get(v@, name@), prefix@) == Some(Some(h@)),
            Some(None) => opt_hash_at(get(v@, name@), prefix@) == Some(None::<Seq<u8>>),
            None => opt_hash_at(get(v@, name@), prefix@) is None,
        },
{
    match get_field(v, name) {
        None => Some(None),
        Some(Value::Null) => Some(None),
        Some(Value::Text(t)) => match read_prefixed(t.as_str(), prefix) {
            Some(h) => Some(Some(h)),
            None => None,
        },
        _ => None,
    }
}

/// The bare hash in the text `v`.
pub fn bare_hash_value(v: &Value) -> (r: Option<BlobHash>)
    ensures
        match r {
            Some(h) => bare_hash_at(Some(v@)) == Some(h@),
            None => bare_hash_at(Some(v@)) is None,
        },
{
    match v {
        Value::Text(t) => BlobHash::parse(t.as_str()),
        _ => None,
    }
}

/// The text field `name` of `v`.
pub fn text_field(v: &Value, name: &str) -> (r: Option<String>)
    ensures
        match r {
            Some(t) => text_of(get(v@, name@)) == Some(t@),
            None => text_of(get(v@, name@)) is None,
        },
{
    read_text(get_field(v, name))
}

/// The optional text field `name` of `v`.
pub fn opt_text_field(v: &Value, name: &str) -> (r: Option<Option<String>>)
    ensures
        match r {
            Some(Some(t)) => opt_text_at(get(v@, name@)) == Some(Some(t@)),
            Some(None) => opt_text_at(get(v@, name@)) == Some(None::<Seq<char>>),
            None => opt_text_at(get(v@, name@)) is None,
        },
{
    match get_field(v, name) {
        None => Some(None),
        Some(Value::Null) => Some(None),
        Some(Value::Text(t)) => Some(Some(t.clone())),
        _ => None,
    }
}

/// A text item holding a hash behind `prefix`.
pub fn hash_text(prefix: &Vec<char>, h: &BlobHash) -> (v: Value)
    ensures
        v@ == Data::Text(crate::address::prefixed_text(prefix@, h@)),
{
    Value::Text(crate::address::write_prefixed(prefix, h))
}

/// A text item holding a bare hash.
pub fn bare_text(h: &BlobHash) -> (v: Value)
    ensures
        v@ == Data::Text(crate::hex::hex_of(h@)),
{
    Value::Text(h.to_hex())
}

/// The bytes of each hash.
pub open spec fn hash_views(v: Seq<BlobHash>) -> Seq<Seq<u8>> {
    Seq::new(v.len(), |i: int| v[i]@)
}

/// Hashes written as texts behind `prefix` (bare hex when the prefix is empty).
pub open spec fn hash_texts(prefix: Seq<char>, hs: Seq<Seq<u8>>) -> Seq<Data> {
    Seq::new(hs.len(), |i: int| Data::Text(prefixed_text(prefix, hs[i])))
}

/// An array of hashes written as texts behind `prefix`.
pub fn hash_list(prefix: &Vec<char>, hs: &Vec<BlobHash>) -> (v: Value)
    ensures
        v@ == Data::Array(hash_texts(prefix@, hash_views(hs@))),
{
    let mut items: Vec<Value> = Vec::new();
    let mut i: usize = 0;
    while i < hs.len()
        invariant
            i <= hs.len(),
            data_list(items@) == hash_texts(prefix@, hash_views(hs@)).take(i as int),
        decreases hs.len() - i,
    {
        let t = hash_text(prefix, &hs[i]);
        proof {
            lemma_data_list_push(items@, t);
        }
        items.push(t);
        i = i + 1;
        assert(data_list(items@) =~= hash_texts(prefix@, hash_views(hs@)).take(i as int));
    }
    assert(hash_texts(prefix@, hash_views(hs@)).take(i as int) =~= hash_texts(
        prefix@,
        hash_views(hs@),
    ));
    Value::Array(items)
}

/// The hashes behind `prefix` that the texts `items` spell, if each spells one.
pub open spec fn read_hashes(items: Seq<Data>, prefix: Seq<char>) -> Option<Seq<Seq<u8>>> {
    if forall|i: int| 0 <= i < items.len() ==> (#[trigger] hash_at(Some(items[i]), prefix)) is Some {
        Some(Seq::new(items.len(), |i: int| hash_at(Some(items[i]), prefix)->0))
    } else {
        None
    }
}

/// A required array of hashes behind `prefix`.
pub open spec fn hashes_at(f: Option<Data>, prefix: Seq<char>) -> Option<Seq<Seq<u8>>> {
    match f {
        Some(Data::Array(items)) => read_hashes(items, prefix),
        _ => None,
    }
}

/// An array of hashes that is empty when absent.
pub open spec fn default_hashes_at(f: Option<Data>, prefix: Seq<char>) -> Option<Seq<Seq<u8>>> {
    match f {
        None => Some(Seq::empty()),
        _ => hashes_at(f, prefix),
    }
}

/// An array of hashes that is `None` when absent or null.
pub open spec fn opt_hashes_at(f: Option<Data>, prefix: Seq<char>) -> Option<Option<Seq<Seq<u8>>>> {
    match f {
        None => Some(None),
        Some(Data::Null) => Some(None),
        _ => match hashes_at(f, prefix) {
            Some(hs) => Some(Some(hs)),
            None => None,
        },
    }
}

/// The hashes behind `prefix` in the array `v`.
pub fn read_hash_list(v: &Value, prefix: &Vec<char>) -> (r: Option<Vec<BlobHash>>)
    ensures
        match r {
            Some(hs) => hashes_at(Some(v@), prefix@) == Some(hash_views(hs@)),
            None => hashes_at(Some(v@), prefix@) is None,
        },
{
    let items = match v {
        Value::Array(items) => items,
        _ => return None,
    };
    let ghost ds = data_list(items@);
    proof {
        lemma_data_list(items@);
    }
    assert(v@ == Data::Array(ds));
    let mut out: Vec<BlobHash> = Vec::new();
    let mut i: usize = 0;
    while i < items.len()
        invariant
            i <= items.len(),
            ds == data_list(items@),
            ds.len() == items.len(),
            v@ == Data::Array(ds),
            forall|j: int| 0 <= j < items.len() ==> #[trigger] ds[j] == items@[j]@,
            out.len() == i,
            forall|j: int|
                0 <= j < i ==> hash_at(Some(#[trigger] ds[j]), prefix@) == Some(out@[j]@),
        decreases items.len() - i,
    {
        let h = match &items[i] {
            Value::Text(t) => read_prefixed(t.as_str(), prefix),
            _ => None,
        };
        match h {
            Some(h) => {
                out.push(h);
            },
            None => {
                assert(hash_at(Some(ds[i as int]), prefix@) is None);
                assert(read_hashes(ds, prefix@) is None);
                assert(v@ == Data::Array(ds));
                return None;
            },
        }
        i = i + 1;
    }
    assert(hash_views(out@) =~= Seq::new(ds.len(), |j: int| hash_at(Some(ds[j]), prefix@)->0));
    Some(out)
}

/// The value of the first keyed entry of `s` whose key is `k`.
pub open spec fn kfind(s: Seq<Keyed>, k: Data) -> Option<Data>
    decreases s.len(),
{
    if s.len() == 0 {
        None
    } else if s[0].1 == k {
        Some(s[0].2)
    } else {
        kfind(s.drop_first(), k)
    }
}

pub open spec fn keys_distinct(s: Seq<Keyed>) -> bool {
    forall|i: int, j: int| 0 <= i < j < s.len() ==> (#[trigger] s[i]).1 != (#[trigger] s[j]).1
}

/// Whether the keys of `entries` are texts, each once.
pub open spec fn text_keys(entries: Seq<(Data, Data)>) -> bool {
    &&& forall|i: int| 0 <= i < entries.len() ==> (#[trigger] entries[i]).0 is Text
    &&& forall|i: int, j: int|
        0 <= i < j < entries.len() ==> (#[trigger] entries[i]).0 != (#[trigger] entries[j]).0
}

proof fn lemma_field_unkey(s: Seq<Keyed>, name: Seq<char>)
    ensures
        field(unkey(s), name) == kfind(s, Data::Text(name)),
    decreases s.len(),
{
    if s.len() > 0 {
        assert(unkey(s).drop_first() =~= unkey(s.drop_first()));
        lemma_field_unkey(s.drop_first(), name);
    }
}

proof fn lemma_kfind_at(s: Seq<Keyed>, i: int)
    requires
        keys_distinct(s),
        0 <= i < s.len(),
    ensures
        kfind(s, s[i].1) == Some(s[i].2),
    decreases s.len(),
{
    if i > 0 {
        assert(s[0].1 != s[i].1);
        let t = s.drop_first();
        assert(t[i - 1] == s[i]);
        assert forall|a: int, b: int| 0 <= a < b < t.len() implies (#[trigger] t[a]).1 != (
        #[trigger] t[b]).1 by {
            assert(t[a] == s[a + 1]);
            assert(t[b] == s[b + 1]);
        }
        lemma_kfind_at(t, i - 1);
    }
}

proof fn lemma_kfind_none(s: Seq<Keyed>, k: Data)
    requires
        forall|i: int| 0 <= i < s.len() ==> (#[trigger] s[i]).1 != k,
    ensures
        kfind(s, k) is None,
    decreases s.len(),
{
    if s.len() > 0 {
        let t = s.drop_first();
        assert forall|i: int| 0 <= i < t.len() implies (#[trigger] t[i]).1 != k by {
            assert(t[i] == s[i + 1]);
        }
        lemma_kfind_none(t, k);
    }
}

proof fn lemma_insert_members(e: Keyed, t: Seq<Keyed>)
    ensures
        forall|x: Keyed| #[trigger] insert_sorted(e, t).contains(x) <==> (x == e || t.contains(x)),
    decreases t.len(),
{
    if t.len() == 0 {
        assert(insert_sorted(e, t) == seq![e]);
        assert forall|x: Keyed| #[trigger] insert_sorted(e, t).contains(x) <==> (x == e || t.contains(x)) by {
            if x == e {
                assert(seq![e][0] == e);
            }
        }
    } else if lex_le(t.last().0, e.0) {
        assert forall|x: Keyed| #[trigger] insert_sorted(e, t).contains(x) <==> (x == e || t.contains(x)) by {
            let r = t.push(e);
            if x == e {
                assert(r[t.len() as int] == e);
            }
            if t.contains(x) {
                let k = choose|k: int| 0 <= k < t.len() && t[k] == x;
                assert(r[k] == x);
            }
            if r.contains(x) {
                let k = choose|k: int| 0 <= k < r.len() && r[k] == x;
                if k < t.len() {
                    assert(t[k] == x);
                }
            }
        }
    } else {
        let u = t.drop_last();
        lemma_insert_members(e, u);
        let w = insert_sorted(e, u);
        let r = w.push(t.last());
        assert(insert_sorted(e, t) == r);
        assert forall|x: Keyed| #[trigger] insert_sorted(e, t).contains(x) <==> (x == e || t.contains(x)) by {
            if r.contains(x) {
                let k = choose|k: int| 0 <= k < r.len() && r[k] == x;
                if k < w.len() {
                    assert(w[k] == x);
                    assert(w.contains(x));
                    if x != e {
                        let m = choose|m: int| 0 <= m < u.len() && u[m] == x;
                        assert(t[m] == x);
                    }
                } else {
                    assert(t[t.len() - 1] == x);
                }
            }
            if x == e {
                assert(w.contains(x));
                let k = choose|k: int| 0 <= k < w.len() && w[k] == x;
                assert(r[k] == x);
            }
            if t.contains(x) {
                let k = choose|k: int| 0 <= k < t.len() && t[k] == x;
                if k < t.len() - 1 {
                    assert(u[k] == x);
                    assert(w.contains(x));
                    let m = choose|m: int| 0 <= m < w.len() && w[m] == x;
                    assert(r[m] == x);
                } else {
                    assert(r[w.len() as int] == x);
                }
            }
        }
    }
}

proof fn lemma_insert_distinct(e: Keyed, t: Seq<Keyed>)
    requires
        keys_distinct(t),
        forall|i: int| 0 <= i < t.len() ==> (#[trigger] t[i]).1 != e.1,
    ensures
        keys_distinct(insert_sorted(e, t)),
    decreases t.len(),
{
    if t.len() == 0 {
    } else if lex_le(t.last().0, e.0) {
        let r = t.push(e);
        assert forall|a: int, b: int| 0 <= a < b < r.len() implies (#[trigger] r[a]).1 != (
        #[trigger] r[b]).1 by {
            if b < t.len() {
                assert(r[a] == t[a] && r[b] == t[b]);
            } else {
                assert(r[a] == t[a]);
            }
        }
    } else {
        let u = t.drop_last();
        assert forall|a: int, b: int| 0 <= a < b < u.len() implies (#[trigger] u[a]).1 != (
        #[trigger] u[b]).1 by {
            assert(u[a] == t[a] && u[b] == t[b]);
        }
        assert forall|i: int| 0 <= i < u.len() implies (#[trigger] u[i]).1 != e.1 by {
            assert(u[i] == t[i]);
        }
        lemma_insert_distinct(e, u);
        lemma_insert_members(e, u);
        let w = insert_sorted(e, u);
        let r = w.push(t.last());
        assert(insert_sorted(e, t) == r);
        assert forall|a: int, b: int| 0 <= a < b < r.len() implies (#[trigger] r[a]).1 != (
        #[trigger] r[b]).1 by {
            if b < w.len() {
                assert(r[a] == w[a] && r[b] == w[b]);
            } else {
                assert(r[a] == w[a]);
                assert(w.contains(w[a]));
                if w[a] != e {
                    let m = choose|m: int| 0 <= m < u.len() && u[m] == w[a];
                    assert(t[m] == w[a]);
                    assert(t[m].1 != t[t.len() - 1].1);
                } else {
                    assert(t[t.len() - 1].1 != e.1);
                }
            }
        }
    }
}

pub proof fn lemma_sort_members(s: Seq<Keyed>)
    ensures
        forall|x: Keyed| #[trigger] sort_keyed(s).contains(x) <==> s.contains(x),
    decreases s.len(),
{
    if s.len() > 0 {
        let u = s.drop_last();
        lemma_sort_members(u);
        lemma_insert_members(s.last(), sort_keyed(u));
        assert forall|x: Keyed| #[trigger] sort_keyed(s).contains(x) <==> s.contains(x) by {
            if s.contains(x) && x != s.last() {
                let k = choose|k: int| 0 <= k < s.len() && s[k] == x;
                assert(k != s.len() - 1);
                assert(u[k] == x);
                assert(u.contains(x));
            }
            if u.contains(x) {
                let k = choose|k: int| 0 <= k < u.len() && u[k] == x;
                assert(s[k] == x);
            }
            if x == s.last() {
                assert(s[s.len() - 1] == x);
            }
        }
    }
}

proof fn lemma_sort_distinct(s: Seq<Keyed>)
    requires
        keys_distinct(s),
    ensures
        keys_distinct(sort_keyed(s)),
    decreases s.len(),
{
    if s.len() > 0 {
        let u = s.drop_last();
        assert forall|a: int, b: int| 0 <= a < b < u.len() implies (#[trigger] u[a]).1 != (
        #[trigger] u[b]).1 by {
            assert(u[a] == s[a] && u[b] == s[b]);
        }
        lemma_sort_distinct(u);
        lemma_sort_members(u);
        let w = sort_keyed(u);
        assert forall|i: int| 0 <= i < w.len() implies (#[trigger] w[i]).1 != s.last().1 by {
            assert(w.contains(w[i]));
            let m = choose|m: int| 0 <= m < u.len() && u[m] == w[i];
            assert(s[m] == w[i]);
        }
        lemma_insert_distinct(s.last(), w);
    }
}

pub proof fn lemma_field_at(entries: Seq<(Data, Data)>, name: Seq<char>, i: int)
    requires
        text_keys(entries),
        0 <= i < entries.len(),
        entries[i].0 == Data::Text(name),
    ensures
        field(entries, name) == Some(entries[i].1),
    decreases entries.len(),
{
    if i > 0 {
        let t = entries.drop_first();
        assert(entries[0].0 != entries[i].0);
        assert(t[i - 1] == entries[i]);
        assert forall|a: int| 0 <= a < t.len() implies (#[trigger] t[a]).0 is Text by {
            assert(t[a] == entries[a + 1]);
        }
        assert forall|a: int, b: int| 0 <= a < b < t.len() implies (#[trigger] t[a]).0 != (
        #[trigger] t[b]).0 by {
            assert(t[a] == entries[a + 1]);
            assert(t[b] == entries[b + 1]);
        }
        lemma_field_at(t, name, i - 1);
    }
}

pub proof fn lemma_field_none(entries: Seq<(Data, Data)>, name: Seq<char>)
    requires
        forall|i: int| 0 <= i < entries.len() ==> (#[trigger] entries[i]).0 != Data::Text(name),
    ensures
        field(entries, name) is None,
    decreases entries.len(),
{
    if entries.len() > 0 {
        let t = entries.drop_first();
        assert forall|i: int| 0 <= i < t.len() implies (#[trigger] t[i]).0 != Data::Text(name) by {
            assert(t[i] == entries[i + 1]);
        }
        lemma_field_none(t, name);
    }
}

/// Reading a field of a map with distinct text keys gives, in the canonical
/// form of the map, the canonical form of what it gave before.
pub proof fn lemma_get_canon(entries: Seq<(Data, Data)>, name: Seq<char>)
    requires
        text_keys(entries),
    ensures
        get(canon(Data::Table(entries)), name) == match field(entries, name) {
            Some(v) => Some(canon(v)),
            None => None::<Data>,
        },
{
    let k = keyed(entries);
    lemma_keyed(entries);
    assert forall|a: int, b: int| 0 <= a < b < k.len() implies (#[trigger] k[a]).1 != (
    #[trigger] k[b]).1 by {
        assert(entries[a].0 is Text);
        assert(entries[b].0 is Text);
        assert(entries[a].0 != entries[b].0);
    }
    lemma_sort_distinct(k);
    lemma_sort_members(k);
    let s = sort_keyed(k);
    lemma_field_unkey(s, name);
    assert(canon(Data::Table(entries)) == Data::Table(unkey(s)));
    if exists|i: int| 0 <= i < entries.len() && entries[i].0 == Data::Text(name) {
        let i = choose|i: int| 0 <= i < entries.len() && entries[i].0 == Data::Text(name);
        lemma_field_at(entries, name, i);
        assert(k[i].1 == Data::Text(name));
        assert(k.contains(k[i]));
        assert(s.contains(k[i]));
        let j = choose|j: int| 0 <= j < s.len() && s[j] == k[i];
        lemma_kfind_at(s, j);
    } else {
        lemma_field_none(entries, name);
        assert forall|j: int| 0 <= j < s.len() implies (#[trigger] s[j]).1 != Data::Text(name) by {
            assert(s.contains(s[j]));
            assert(k.contains(s[j]));
            let m = choose|m: int| 0 <= m < k.len() && k[m] == s[j];
            assert(entries[m].0 != Data::Text(name));
            assert(entries[m].0 is Text);
        }
        lemma_kfind_none(s, Data::Text(name));
    }
}

/// Reading a field of a map with one more entry at its end.
pub proof fn lemma_field_push(s: Seq<(Data, Data)>, k: Data, v: Data)
    ensures
        forall|m: Seq<char>|
            #[trigger] field(s.push((k, v)), m) == match field(s, m) {
                Some(x) => Some(x),
                None => if k == Data::Text(m) {
                    Some(v)
                } else {
                    None
                },
            },
    decreases s.len(),
{
    if s.len() == 0 {
        assert forall|m: Seq<char>| #[trigger] field(s.push((k, v)), m) == match field(s, m) {
            Some(x) => Some(x),
            None => if k == Data::Text(m) {
                Some(v)
            } else {
                None
            },
        } by {
            assert(s.push((k, v)).drop_first() =~= Seq::<(Data, Data)>::empty());
            assert(field(Seq::<(Data, Data)>::empty(), m) is None);
            assert(s.push((k, v))[0] == (k, v));
        }
    } else {
        lemma_field_push(s.drop_first(), k, v);
        assert(s.push((k, v)).drop_first() =~= s.drop_first().push((k, v)));
        assert forall|m: Seq<char>| #[trigger] field(s.push((k, v)), m) == match field(s, m) {
            Some(x) => Some(x),
            None => if k == Data::Text(m) {
                Some(v)
            } else {
                None
            },
        } by {
            assert(s.push((k, v))[0] == s[0]);
            assert(field(s.drop_first().push((k, v)), m) == match field(s.drop_first(), m) {
                Some(x) => Some(x),
                None => if k == Data::Text(m) {
                    Some(v)
                } else {
                    None
                },
            });
        }
    }
}

/// A map that has an entry keyed by `name` has a field `name`.
pub proof fn lemma_field_some(s: Seq<(Data, Data)>, name: Seq<char>, i: int)
    requires
        0 <= i < s.len(),
        s[i].0 == Data::Text(name),
    ensures
        field(s, name) is Some,
    decreases s.len(),
{
    if i > 0 && s[0].0 != Data::Text(name) {
        assert(s.drop_first()[i - 1] == s[i]);
        lemma_field_some(s.drop_first(), name, i - 1);
    }
}

/// Appending an entry under a new text key keeps the keys texts, each once.
pub proof fn lemma_text_keys_push(s: Seq<(Data, Data)>, n: Seq<char>, v: Data)
    requires
        text_keys(s),
        field(s, n) is None,
    ensures
        text_keys(s.push((Data::Text(n), v))),
{
    let t = s.push((Data::Text(n), v));
    assert forall|i: int| 0 <= i < s.len() implies (#[trigger] s[i]).0 != Data::Text(n) by {
        if s[i].0 == Data::Text(n) {
            lemma_field_some(s, n, i);
        }
    }
    assert forall|i: int| 0 <= i < t.len() implies (#[trigger] t[i]).0 is Text by {
        if i < s.len() {
            assert(t[i] == s[i]);
        }
    }
    assert forall|i: int, j: int| 0 <= i < j < t.len() implies (#[trigger] t[i]).0 != (
    #[trigger] t[j]).0 by {
        assert(t[i] == s[i]);
        if j < s.len() {
            assert(t[j] == s[j]);
        }
    }
}

/// `opt_push` in terms of fields and keys.
pub proof fn lemma_opt_push(s: Seq<(Data, Data)>, n: Seq<char>, d: Option<Data>)
    ensures
        forall|m: Seq<char>|
            #[trigger] field(opt_push(s, n, d), m) == match field(s, m) {
                Some(x) => Some(x),
                None => if n == m {
                    d
                } else {
                    None
                },
            },
        text_keys(s) && field(s, n) is None ==> text_keys(opt_push(s, n, d)),
{
    match d {
        Some(x) => {
            lemma_field_push(s, Data::Text(n), x);
            if text_keys(s) && field(s, n) is None {
                lemma_text_keys_push(s, n, x);
            }
        },
        None => {},
    }
}

} // verus!
