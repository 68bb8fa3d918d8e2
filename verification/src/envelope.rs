//! The envelope of a stored record: what kind of record it is and which blobs
//! it refers to, whether it declares them or only mentions them.
use vstd::prelude::*;
use crate::canonical;
use crate::cbor::{Value, Data, dec, data_list, data_pairs, lemma_data_list, lemma_data_pairs};
use crate::fields::{get, get_field, opt_text_at, hash_views, default_hashes_at, hash_at};
use crate::record::same_text;
use crate::sorted::holds;
use crate::store::BlobHash;
use crate::text::{chars_of, string_of, append, owned};

verus! {

pub const LEGACY_KIND: &'static str = "legacy";

/// What a record is, and the blobs it refers to.
#[derive(Debug, Clone, PartialEq, Eq)]
pub struct Envelope {
    pub kind: String,
    pub refs: Vec<BlobHash>,
}

pub struct EnvelopeV {
    pub kind: Seq<char>,
    pub refs: Seq<Seq<u8>>,
}

impl View for Envelope {
    type V = EnvelopeV;

    open spec fn view(&self) -> EnvelopeV {
        EnvelopeV { kind: self.kind@, refs: hash_views(self.refs@) }
    }
}

/// What a record declares: its record type and kind, if it names them, and
/// the blobs it lists under `refs`.
pub open spec fn declared(d: Data) -> Option<(Option<Seq<char>>, Option<Seq<char>>, Seq<Seq<u8>>)> {
    let record = opt_text_at(get(d, "record"@));
    let kind = opt_text_at(get(d, "kind"@));
    let refs = default_hashes_at(get(d, "refs"@), Seq::empty());
    if d is Table && record is Some && kind is Some && refs is Some {
        Some((record->0, kind->0, refs->0))
    } else {
        None
    }
}

/// The kind a declaring record goes by.
pub open spec fn declared_kind(record: Option<Seq<char>>, kind: Option<Seq<char>>) -> Seq<char> {
    match (record, kind) {
        (Some(r), Some(k)) => if r != k {
            r + " ("@ + k + ")"@
        } else {
            r
        },
        (Some(r), None) => r,
        (None, Some(k)) => k,
        (None, None) => LEGACY_KIND@,
    }
}

/// `acc` with `h` appended unless it is there.
pub open spec fn add_hash(acc: Seq<Seq<u8>>, h: Seq<u8>) -> Seq<Seq<u8>> {
    if acc.contains(h) {
        acc
    } else {
        acc.push(h)
    }
}

/// The hashes that the texts of `d` spell, appended to `acc` in the order
/// they appear, each once.
pub open spec fn scan_spec(d: Data, acc: Seq<Seq<u8>>) -> Seq<Seq<u8>>
    decreases d,
{
    match d {
        Data::Text(t) => match hash_at(Some(Data::Text(t)), Seq::empty()) {
            Some(h) => add_hash(acc, h),
            None => acc,
        },
        Data::Array(items) => scan_list(items, acc),
        Data::Table(entries) => scan_pairs(entries, acc),
        Data::Tag(_, inner) => scan_spec(*inner, acc),
        _ => acc,
    }
}

pub open spec fn scan_list(items: Seq<Data>, acc: Seq<Seq<u8>>) -> Seq<Seq<u8>>
    decreases items,
{
    if items.len() == 0 {
        acc
    } else {
        scan_list(items.drop_first(), scan_spec(items[0], acc))
    }
}

pub open spec fn scan_pairs(entries: Seq<(Data, Data)>, acc: Seq<Seq<u8>>) -> Seq<Seq<u8>>
    decreases entries,
{
    if entries.len() == 0 {
        acc
    } else {
        scan_pairs(entries.drop_first(), scan_spec(entries[0].1, scan_spec(entries[0].0, acc)))
    }
}

/// The envelope of the record that `bytes` hold: what it declares, when it
/// lists any blobs; otherwise every hash its texts spell, as a legacy record.
pub open spec fn envelope_of(bytes: Seq<u8>) -> Option<EnvelopeV> {
    match dec(bytes) {
        None => None,
        Some((d, _)) => match declared(d) {
            Some((record, kind, refs)) => if refs.len() > 0 {
                Some(EnvelopeV { kind: declared_kind(record, kind), refs })
            } else {
                Some(EnvelopeV { kind: LEGACY_KIND@, refs: scan_spec(d, Seq::empty()) })
            },
            None => Some(EnvelopeV { kind: LEGACY_KIND@, refs: scan_spec(d, Seq::empty()) }),
        },
    }
}

/// Appends to `out` the hashes the texts of `v` spell that it lacks.
pub fn scan(v: &Value, out: &mut Vec<BlobHash>)
    ensures
        hash_views(final(out)@) == scan_spec(v@, hash_views(old(out)@)),
    decreases v,
{
    match v {
        Value::Text(t) => {
            let bare: Vec<char> = Vec::new();
            assert(bare@ =~= Seq::<char>::empty());
            match crate::address::read_prefixed(t.as_str(), &bare) {
                Some(h) => {
                    if !holds(out, &h) {
                        let ghost before = hash_views(out@);
                        out.push(h);
                        assert(hash_views(out@) =~= before.push(h@));
                    }
                },
                None => {},
            }
        },
        Value::Array(items) => {
            let ghost ds = data_list(items@);
            proof {
                lemma_data_list(items@);
                assert(decreases_to!(*v => *items));
            }
            let ghost start = hash_views(out@);
            let mut i: usize = 0;
            assert(ds.skip(0) =~= ds);
            while i < items.len()
                invariant
                    i <= items.len(),
                    ds == data_list(items@),
                    ds.len() == items.len(),
                    forall|j: int| 0 <= j < items.len() ==> #[trigger] ds[j] == items@[j]@,
                    scan_list(ds, start) == scan_list(ds.skip(i as int), hash_views(out@)),
                    decreases_to!(*v => *items),
                decreases items.len() - i,
            {
                proof {
                    assert(decreases_to!(*items => items@[i as int]));
                }
                assert(ds.skip(i as int).drop_first() =~= ds.skip(i + 1));
                assert(ds.skip(i as int)[0] == items@[i as int]@);
                scan(&items[i], out);
                i = i + 1;
            }
        },
        Value::Table(entries) => {
            let ghost ds = data_pairs(entries@);
            proof {
                lemma_data_pairs(entries@);
                assert(decreases_to!(*v => *entries));
            }
            let ghost start = hash_views(out@);
            let mut i: usize = 0;
            assert(ds.skip(0) =~= ds);
            while i < entries.len()
                invariant
                    i <= entries.len(),
                    ds == data_pairs(entries@),
                    ds.len() == entries.len(),
                    forall|j: int|
                        0 <= j < entries.len() ==> #[trigger] ds[j] == (
                            entries@[j].0@,
                            entries@[j].1@,
                        ),
                    scan_pairs(ds, start) == scan_pairs(ds.skip(i as int), hash_views(out@)),
                    decreases_to!(*v => *entries),
                decreases entries.len() - i,
            {
                proof {
                    assert(decreases_to!(*entries => entries@[i as int]));
                    assert(decreases_to!(entries@[i as int] => entries@[i as int].0));
                    assert(decreases_to!(entries@[i as int] => entries@[i as int].1));
                }
                assert(ds.skip(i as int).drop_first() =~= ds.skip(i + 1));
                assert(ds.skip(i as int)[0] == (entries@[i as int].0@, entries@[i as int].1@));
                scan(&entries[i].0, out);
                scan(&entries[i].1, out);
                i = i + 1;
            }
        },
        Value::Tag(_, inner) => scan(inner, out),
        _ => {},
    }
}

/// The optional text field `name`: `Some(None)` when absent or null.
fn opt_text(v: &Value, name: &str) -> (r: Option<Option<String>>)
    ensures
        match r {
            Some(Some(t)) => opt_text_at(get(v@, name@)) == Some(Some(t@)),
            Some(None) => opt_text_at(get(v@, name@)) == Some(None::<Seq<char>>),
            None => opt_text_at(get(v@, name@)) is None,
        },
{
    crate::fields::opt_text_field(v, name)
}

/// What the map `v` declares.
fn read_declared(v: &Value) -> (r: Option<(Option<String>, Option<String>, Vec<BlobHash>)>)
    ensures
        match r {
            Some((record, kind, refs)) => declared(v@) == Some(
                (
                    match record {
                        Some(t) => Some(t@),
                        None => None,
                    },
                    match kind {
                        Some(t) => Some(t@),
                        None => None,
                    },
                    hash_views(refs@),
                ),
            ),
            None => declared(v@) is None,
        },
{
    match v {
        Value::Table(_) => {},
        _ => return None,
    }
    let record = opt_text(v, "record");
    let kind = opt_text(v, "kind");
    let bare: Vec<char> = Vec::new();
    assert(bare@ =~= Seq::<char>::empty());
    let refs = match get_field(v, "refs") {
        None => {
            let e: Vec<BlobHash> = Vec::new();
            assert(hash_views(e@) =~= Seq::<Seq<u8>>::empty());
            Some(e)
        },
        Some(x) => crate::fields::read_hash_list(x, &bare),
    };
    match (record, kind, refs) {
        (Some(record), Some(kind), Some(refs)) => Some((record, kind, refs)),
        _ => None,
    }
}

fn kind_name(record: Option<String>, kind: Option<String>) -> (s: String)
    ensures
        s@ == declared_kind(
            match record {
                Some(t) => Some(t@),
                None => None,
            },
            match kind {
                Some(t) => Some(t@),
                None => None,
            },
        ),
{
    match (record, kind) {
        (Some(r), Some(k)) => {
            if same_text(r.as_str(), k.as_str()) {
                r
            } else {
                let mut v = chars_of(r.as_str());
                append(&mut v, &chars_of(" ("));
                append(&mut v, &chars_of(k.as_str()));
                append(&mut v, &chars_of(")"));
                string_of(&v)
            }
        },
        (Some(r), None) => r,
        (None, Some(k)) => k,
        (None, None) => owned(LEGACY_KIND),
    }
}

/// The envelope of the record that `bytes` hold; `None` when they are not CBOR.
pub fn of(bytes: &[u8]) -> (r: Option<Envelope>)
    ensures
        match r {
            Some(e) => envelope_of(bytes@) == Some(e@),
            None => envelope_of(bytes@) is None,
        },
{
    let v = match canonical::from_slice(bytes) {
        Ok(v) => v,
        Err(_) => return None,
    };
    match read_declared(&v) {
        Some((record, kind, refs)) => {
            if refs.len() > 0 {
                return Some(Envelope { kind: kind_name(record, kind), refs });
            }
        },
        None => {},
    }
    let mut refs: Vec<BlobHash> = Vec::new();
    assert(hash_views(refs@) =~= Seq::<Seq<u8>>::empty());
    scan(&v, &mut refs);
    Some(Envelope { kind: owned(LEGACY_KIND), refs })
}

} // verus!

verus! {

proof fn lemma_add_hash(acc: Seq<Seq<u8>>, h: Seq<u8>)
    requires
        acc.no_duplicates(),
    ensures
        add_hash(acc, h).no_duplicates(),
{
    if !acc.contains(h) {
        let r = acc.push(h);
        assert forall|i: int, j: int| 0 <= i < r.len() && 0 <= j < r.len() && i != j implies r[i]
            != r[j] by {
            if i < acc.len() && j < acc.len() {
                assert(r[i] == acc[i] && r[j] == acc[j]);
            } else if i < acc.len() {
                assert(r[i] == acc[i]);
            } else {
                assert(r[j] == acc[j]);
            }
        }
    }
}

/// Scanning a record finds each hash once: no hash repeats in what it gathers.
pub proof fn law_scan_counts_once(d: Data, acc: Seq<Seq<u8>>)
    requires
        acc.no_duplicates(),
    ensures
        scan_spec(d, acc).no_duplicates(),
    decreases d,
{
    match d {
        Data::Text(t) => {
            if let Some(h) = hash_at(Some(Data::Text(t)), Seq::empty()) {
                lemma_add_hash(acc, h);
            }
        },
        Data::Array(items) => lemma_scan_list(items, acc),
        Data::Table(entries) => lemma_scan_pairs(entries, acc),
        Data::Tag(_, inner) => law_scan_counts_once(*inner, acc),
        _ => {},
    }
}

proof fn lemma_scan_list(items: Seq<Data>, acc: Seq<Seq<u8>>)
    requires
        acc.no_duplicates(),
    ensures
        scan_list(items, acc).no_duplicates(),
    decreases items,
{
    if items.len() > 0 {
        law_scan_counts_once(items[0], acc);
        lemma_scan_list(items.drop_first(), scan_spec(items[0], acc));
    }
}

proof fn lemma_scan_pairs(entries: Seq<(Data, Data)>, acc: Seq<Seq<u8>>)
    requires
        acc.no_duplicates(),
    ensures
        scan_pairs(entries, acc).no_duplicates(),
    decreases entries,
{
    if entries.len() > 0 {
        law_scan_counts_once(entries[0].0, acc);
        law_scan_counts_once(entries[0].1, scan_spec(entries[0].0, acc));
        lemma_scan_pairs(
            entries.drop_first(),
            scan_spec(entries[0].1, scan_spec(entries[0].0, acc)),
        );
    }
}

/// The envelope of a record that declares no blobs lists each hash its texts spell once.
pub proof fn law_envelope_counts_once(bytes: Seq<u8>)
    requires
        dec(bytes) matches Some((d, _)) && !(declared(d) matches Some((_, _, r)) && r.len() > 0),
    ensures
        envelope_of(bytes) matches Some(e) && e.refs.no_duplicates(),
{
    let d = (dec(bytes)->0).0;
    law_scan_counts_once(d, Seq::empty());
}

} // verus!
